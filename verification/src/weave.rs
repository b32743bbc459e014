//! Weaving: the rendering of a document into annotated lines, with each
//! chunk's lines as code of the chunk's language and each reference as a
//! link to the chunk it names.

use vstd::prelude::*;
use vstd::string::*;
use crate::label::{chunk_name_to_label, label_of};
use crate::language::LanguageMap;
use crate::propagate::{assigned, build_language_map, scan_lines};
use crate::text::{
    classify, indent_of, is_close, is_opener, is_reference, lemma_marker_shapes, opener_name,
    reference_name, text_lines, trimmed, LineKind,
};

verus! {

/// A character as it stands inside a quoted string of the output: a
/// backslash and a double quote get a backslash before them.
pub open spec fn escape_char(c: char) -> Seq<char> {
    if c == '\\' {
        "\\\\"@
    } else if c == '"' {
        "\\\""@
    } else {
        seq![c]
    }
}

/// A text as it stands inside a quoted string of the output.
pub open spec fn escaped(s: Seq<char>) -> Seq<char>
    decreases s.len(),
{
    if s.len() == 0 {
        Seq::empty()
    } else {
        escaped(s.drop_last()) + escape_char(s.last())
    }
}

/// A unit of code in the language `lang`.
pub open spec fn code_unit(lang: Seq<char>, text: Seq<char>) -> Seq<char> {
    "#raw(lang: \""@ + lang + "\", \""@ + escaped(text) + "\")"@
}

/// The link to the chunk `name`: its label, its name, and the page on which
/// the label stands, which the typesetter looks up.
pub open spec fn link(name: Seq<char>) -> Seq<char> {
    "#link(<"@ + label_of(name) + ">)[_\u{27E8}"@ + name + " _*#link(<"@ + label_of(name)
        + ">)[#context counter(page).at(<"@ + label_of(name) + ">).first()]*\u{27E9}]\\"@
}

/// The header of the chunk `name`: its name and its label.
pub open spec fn header_line(name: Seq<char>) -> Seq<char> {
    "_\u{27E8}"@ + name + "\u{27E9}_\u{2261} <"@ + label_of(name) + "> \\"@
}

/// A reference line: the whitespace before the marker as code, if there is
/// any, and the link.
pub open spec fn reference_line(lang: Seq<char>, indent: Seq<char>, name: Seq<char>) -> Seq<char> {
    if indent.len() > 0 {
        code_unit(lang, indent) + link(name)
    } else {
        link(name)
    }
}

/// A line inside a chunk: a reference line for a reference, else the whole
/// line as code.
pub open spec fn code_line(line: Seq<char>, lang: Seq<char>) -> Seq<char> {
    let t = trimmed(line);
    if is_reference(t) {
        reference_line(lang, indent_of(line), reference_name(t))
    } else {
        code_unit(lang, line) + " \\"@
    }
}

/// `text` as it stands inside a quoted string of the output.
pub fn escape(text: &str) -> (r: String)
    ensures
        r@ == escaped(text@),
{
    let n: usize = text.unicode_len();
    let mut r = String::new();
    let mut i: usize = 0;
    while i < n
        invariant
            n == text@.len(),
            i <= n,
            r@ == escaped(text@.take(i as int)),
        decreases n - i,
    {
        proof {
            assert(text@.take(i + 1).drop_last() =~= text@.take(i as int));
            assert(text@.subrange(i as int, i + 1) =~= seq![text@[i as int]]);
        }
        let c: char = text.get_char(i);
        if c == '\\' {
            r.append("\\\\");
        } else if c == '"' {
            r.append("\\\"");
        } else {
            r.append(text.substring_char(i, i + 1));
        }
        i += 1;
    }
    proof {
        assert(text@.take(n as int) =~= text@);
    }
    r
}

fn render_code_unit(lang: &str, text: &str) -> (r: String)
    ensures
        r@ == code_unit(lang@, text@),
{
    let mut r = String::from_str("#raw(lang: \"");
    r.append(lang);
    r.append("\", \"");
    r.append(escape(text).as_str());
    r.append("\")");
    r
}

fn render_link(name: &str) -> (r: String)
    ensures
        r@ == link(name@),
{
    let label = chunk_name_to_label(name);
    let mut r = String::from_str("#link(<");
    r.append(label.as_str());
    r.append(">)[_\u{27E8}");
    r.append(name);
    r.append(" _*#link(<");
    r.append(label.as_str());
    r.append(">)[#context counter(page).at(<");
    r.append(label.as_str());
    r.append(">).first()]*\u{27E9}]\\");
    r
}

/// The header line of the chunk `name`.
pub fn render_header(name: &str) -> (r: String)
    ensures
        r@ == header_line(name@),
{
    let label = chunk_name_to_label(name);
    let mut r = String::from_str("_\u{27E8}");
    r.append(name);
    r.append("\u{27E9}_\u{2261} <");
    r.append(label.as_str());
    r.append("> \\");
    r
}

/// Renders one line that stands inside a chunk of the language `lang`.
pub fn process_code_line(line: &str, lang: &str) -> (r: String)
    ensures
        r@ == code_line(line@, lang@),
{
    proof {
        lemma_marker_shapes(trimmed(line@));
    }
    match classify(line) {
        LineKind::Reference(name, indent) => {
            let link_text = render_link(name.as_str());
            if indent.as_str().unicode_len() > 0 {
                render_code_unit(lang, indent.as_str()).concat(link_text.as_str())
            } else {
                link_text
            }
        },
        _ => {
            let mut r = render_code_unit(lang, line);
            r.append(" \\");
            r
        },
    }
}

/// The renderer's state between two lines: the lines put out, whether a
/// chunk is open, and the language of the chunk that was opened last.
pub ghost struct WeaveState {
    pub out: Seq<Seq<char>>,
    pub in_block: bool,
    pub lang: Seq<char>,
}

/// The language that `langs` assigns to `name`; empty if it assigns none.
pub open spec fn lang_or_none(langs: Map<Seq<char>, Seq<char>>, name: Seq<char>) -> Seq<char> {
    if langs.contains_key(name) {
        langs[name]
    } else {
        Seq::empty()
    }
}

/// The renderer's state after one more line. Outside a chunk an opener gives
/// the chunk's header, and any other line is passed through. Inside a chunk
/// `@` closes it and gives nothing, and any other line gives a line of code.
pub open spec fn weave_step(
    langs: Map<Seq<char>, Seq<char>>,
    st: WeaveState,
    line: Seq<char>,
) -> WeaveState {
    let t = trimmed(line);
    if !st.in_block && is_opener(t) {
        WeaveState {
            out: st.out.push(header_line(opener_name(t))),
            in_block: true,
            lang: lang_or_none(langs, opener_name(t)),
        }
    } else if st.in_block && is_close(t) {
        WeaveState { out: st.out, in_block: false, lang: st.lang }
    } else if st.in_block {
        WeaveState { out: st.out.push(code_line(line, st.lang)), in_block: true, lang: st.lang }
    } else {
        WeaveState { out: st.out.push(line), in_block: false, lang: st.lang }
    }
}

/// The renderer's state after all of `lines`.
pub open spec fn weave_lines(langs: Map<Seq<char>, Seq<char>>, lines: Seq<Seq<char>>) -> WeaveState
    decreases lines.len(),
{
    if lines.len() == 0 {
        WeaveState { out: Seq::empty(), in_block: false, lang: Seq::empty() }
    } else {
        weave_step(langs, weave_lines(langs, lines.drop_last()), lines.last())
    }
}

/// Renders a document, given as its lines, with the languages `langs`.
pub fn render(lines: &Vec<String>, langs: &LanguageMap) -> (out: Vec<String>)
    ensures
        text_lines(out@) == weave_lines(langs@, text_lines(lines@)).out,
{
    let mut out: Vec<String> = Vec::new();
    let mut in_block = false;
    let mut lang = String::new();
    let ghost all = text_lines(lines@);
    let mut i: usize = 0;
    proof {
        assert(text_lines(out@) =~= Seq::<Seq<char>>::empty());
    }
    while i < lines.len()
        invariant
            i <= lines@.len(),
            all == text_lines(lines@),
            text_lines(out@) == weave_lines(langs@, all.take(i as int)).out,
            in_block == weave_lines(langs@, all.take(i as int)).in_block,
            lang@ == weave_lines(langs@, all.take(i as int)).lang,
        decreases lines@.len() - i,
    {
        proof {
            assert(all.take(i + 1).drop_last() =~= all.take(i as int));
            assert(all.take(i + 1).last() == lines@[i as int]@);
            lemma_marker_shapes(trimmed(lines@[i as int]@));
        }
        let ghost before = text_lines(out@);
        let line = &lines[i];
        let kind = classify(line.as_str());
        if in_block {
            match kind {
                LineKind::Close => {
                    in_block = false;
                },
                _ => {
                    let rendered = process_code_line(line.as_str(), lang.as_str());
                    out.push(rendered);
                    proof {
                        assert(text_lines(out@) =~= before.push(rendered@));
                    }
                },
            }
        } else {
            match kind {
                LineKind::Opener(name) => {
                    in_block = true;
                    lang = match langs.get(name.as_str()) {
                        Some(l) => String::from_str(l),
                        None => String::new(),
                    };
                    let header = render_header(name.as_str());
                    out.push(header);
                    proof {
                        assert(text_lines(out@) =~= before.push(header@));
                    }
                },
                _ => {
                    out.push(line.clone());
                    proof {
                        assert(text_lines(out@) =~= before.push(line@));
                    }
                },
            }
        }
        i += 1;
    }
    proof {
        assert(all.take(i as int) =~= all);
    }
    out
}

/// The annotated document: what `render` gives with the languages that the
/// document's own roots and references assign.
pub open spec fn woven(lines: Seq<Seq<char>>) -> Seq<Seq<char>> {
    weave_lines(assigned(scan_lines(lines).edges, scan_lines(lines).roots), lines).out
}

/// Weaves a document, given as its lines.
pub fn weave(lines: &Vec<String>) -> (out: Vec<String>)
    ensures
        text_lines(out@) == woven(text_lines(lines@)),
{
    let langs = build_language_map(lines);
    render(lines, &langs)
}

} // verus!
