//! Line-level text handling: surrounding whitespace and the three markers
//! `<<name>>=`, `<<name>>` and `@`.

use vstd::prelude::*;
use vstd::string::*;

verus! {

/// The characters that count as whitespace when a line is trimmed: the
/// Unicode code points with the White_Space property.
pub open spec fn is_space(c: char) -> bool {
    let u = c as u32;
    (0x09 <= u <= 0x0D) || u == 0x20 || u == 0x85 || u == 0xA0 || u == 0x1680
        || (0x2000 <= u <= 0x200A) || u == 0x2028 || u == 0x2029 || u == 0x202F
        || u == 0x205F || u == 0x3000
}

/// Index of the first character at or after `i` that is not whitespace
/// (the length of `s` if there is none).
pub open spec fn skip_spaces(s: Seq<char>, i: int) -> int
    decreases s.len() - i,
{
    if 0 <= i < s.len() && is_space(s[i]) {
        skip_spaces(s, i + 1)
    } else {
        i
    }
}

/// One past the index of the last character before `j` that is not
/// whitespace (zero if there is none).
pub open spec fn skip_spaces_back(s: Seq<char>, j: int) -> int
    decreases j,
{
    if 0 < j <= s.len() && is_space(s[j - 1]) {
        skip_spaces_back(s, j - 1)
    } else {
        j
    }
}

/// Number of whitespace characters at the start of `s`.
pub open spec fn leading_spaces(s: Seq<char>) -> int {
    skip_spaces(s, 0)
}

/// Where the trimmed content of `s` ends; never before `leading_spaces(s)`.
pub open spec fn content_end(s: Seq<char>) -> int {
    let e = skip_spaces_back(s, s.len() as int);
    if e < leading_spaces(s) {
        leading_spaces(s)
    } else {
        e
    }
}

/// `s` without its leading and trailing whitespace.
pub open spec fn trimmed(s: Seq<char>) -> Seq<char> {
    s.subrange(leading_spaces(s), content_end(s))
}

/// The leading whitespace of `s`.
pub open spec fn indent_of(s: Seq<char>) -> Seq<char> {
    s.subrange(0, leading_spaces(s))
}

/// `t` is the closing marker `@`.
pub open spec fn is_close(t: Seq<char>) -> bool {
    t.len() == 1 && t[0] == '@'
}

/// `t` begins with `<<`.
pub open spec fn starts_marker(t: Seq<char>) -> bool {
    t.len() >= 2 && t[0] == '<' && t[1] == '<'
}

/// `t` has the shape `<<name>>=`.
pub open spec fn is_opener(t: Seq<char>) -> bool {
    starts_marker(t) && t.len() >= 3 && t[t.len() - 3] == '>' && t[t.len() - 2] == '>' && t[t.len()
        - 1] == '='
}

/// `t` has the shape `<<name>>`.
pub open spec fn is_reference(t: Seq<char>) -> bool {
    starts_marker(t) && t[t.len() - 2] == '>' && t[t.len() - 1] == '>'
}

/// The name between the delimiters of an opener.
pub open spec fn opener_name(t: Seq<char>) -> Seq<char> {
    t.subrange(2, t.len() - 3)
}

/// The name between the delimiters of a reference.
pub open spec fn reference_name(t: Seq<char>) -> Seq<char> {
    t.subrange(2, t.len() - 2)
}

/// The lines held by a vector of strings, each as its characters.
pub open spec fn text_lines(v: Seq<String>) -> Seq<Seq<char>> {
    v.map_values(|s: String| s@)
}

/// What a line of the document is, judged by its trimmed content.
#[derive(Debug, PartialEq, Eq)]
pub enum LineKind {
    /// `<<name>>=`, with the name.
    Opener(String),
    /// `@`.
    Close,
    /// `<<name>>`, with the name and the whitespace that precedes the marker.
    Reference(String, String),
    /// Anything else.
    Text,
}

/// The meaning of a `LineKind` for the line `line`.
pub open spec fn kind_matches(k: LineKind, line: Seq<char>) -> bool {
    let t = trimmed(line);
    match k {
        LineKind::Opener(name) => is_opener(t) && name@ == opener_name(t),
        LineKind::Close => is_close(t),
        LineKind::Reference(name, indent) => is_reference(t) && name@ == reference_name(t)
            && indent@ == indent_of(line),
        LineKind::Text => !is_opener(t) && !is_close(t) && !is_reference(t),
    }
}

/// The three markers have distinct shapes, an opener holds at least the five
/// delimiter characters and a reference at least four.
pub proof fn lemma_marker_shapes(t: Seq<char>)
    ensures
        is_opener(t) ==> t.len() >= 5 && !is_reference(t) && !is_close(t),
        is_reference(t) ==> t.len() >= 4 && !is_close(t),
{
}

/// No `<<` begins inside the leading whitespace of a line, so the indent of
/// a reference line is exactly what precedes its first `<<`.
pub proof fn lemma_indent_precedes_marker(s: Seq<char>, j: int)
    requires
        0 <= j < leading_spaces(s),
    ensures
        j < s.len(),
        s[j] != '<',
{
    lemma_skip_spaces(s, 0);
}

/// `skip_spaces(s, i)` stays within `s`, every character it passes is
/// whitespace, and the one it stops at is not.
pub proof fn lemma_skip_spaces(s: Seq<char>, i: int)
    requires
        0 <= i <= s.len(),
    ensures
        i <= skip_spaces(s, i) <= s.len(),
        forall|j: int| i <= j < skip_spaces(s, i) ==> is_space(#[trigger] s[j]),
        skip_spaces(s, i) < s.len() ==> !is_space(s[skip_spaces(s, i)]),
    decreases s.len() - i,
{
    if i < s.len() && is_space(s[i]) {
        lemma_skip_spaces(s, i + 1);
    }
}

/// `skip_spaces_back(s, j)` stays within `s`, every character it passes is
/// whitespace, and the one before the place it stops at is not.
pub proof fn lemma_skip_spaces_back(s: Seq<char>, j: int)
    requires
        0 <= j <= s.len(),
    ensures
        0 <= skip_spaces_back(s, j) <= j,
        forall|k: int| skip_spaces_back(s, j) <= k < j ==> is_space(#[trigger] s[k]),
        skip_spaces_back(s, j) > 0 ==> !is_space(s[skip_spaces_back(s, j) - 1]),
    decreases j,
{
    if 0 < j && is_space(s[j - 1]) {
        lemma_skip_spaces_back(s, j - 1);
    }
}

/// Trimming takes whitespace from both ends and nothing else: a line is its
/// indent, its trimmed content and trailing whitespace, and the trimmed
/// content neither begins nor ends with whitespace.
pub proof fn lemma_trimmed(s: Seq<char>)
    ensures
        0 <= leading_spaces(s) <= content_end(s) <= s.len(),
        s == indent_of(s) + trimmed(s) + s.subrange(content_end(s), s.len() as int),
        forall|j: int| 0 <= j < leading_spaces(s) ==> is_space(#[trigger] s[j]),
        forall|j: int| content_end(s) <= j < s.len() ==> is_space(#[trigger] s[j]),
        trimmed(s).len() > 0 ==> !is_space(trimmed(s).first()) && !is_space(trimmed(s).last()),
{
    lemma_skip_spaces(s, 0);
    lemma_skip_spaces_back(s, s.len() as int);
    assert(s =~= indent_of(s) + trimmed(s) + s.subrange(content_end(s), s.len() as int));
}

/// Whether `c` is whitespace.
pub fn is_whitespace(c: char) -> (r: bool)
    ensures
        r == is_space(c),
{
    let u: u32 = c as u32;
    (0x09 <= u && u <= 0x0D) || u == 0x20 || u == 0x85 || u == 0xA0 || u == 0x1680 || (0x2000 <= u
        && u <= 0x200A) || u == 0x2028 || u == 0x2029 || u == 0x202F || u == 0x205F || u == 0x3000
}

/// The bounds of the trimmed content of `s`, in characters.
pub fn trim_bounds(s: &str) -> (r: (usize, usize))
    ensures
        r.0 == leading_spaces(s@),
        r.1 == content_end(s@),
        r.0 <= r.1 <= s@.len(),
{
    let n: usize = s.unicode_len();
    let mut a: usize = 0;
    while a < n && is_whitespace(s.get_char(a))
        invariant
            n == s@.len(),
            a <= n,
            skip_spaces(s@, a as int) == skip_spaces(s@, 0),
        decreases n - a,
    {
        a += 1;
    }
    let mut b: usize = n;
    proof {
        lemma_skip_spaces_back(s@, n as int);
    }
    while b > a && is_whitespace(s.get_char(b - 1))
        invariant
            n == s@.len(),
            a <= b <= n,
            a == skip_spaces(s@, 0),
            b > a ==> skip_spaces_back(s@, b as int) == skip_spaces_back(s@, n as int),
            b == a ==> skip_spaces_back(s@, n as int) <= a,
        decreases b,
    {
        proof {
            lemma_skip_spaces_back(s@, b - 1);
        }
        b -= 1;
    }
    (a, b)
}

/// `s` without its leading and trailing whitespace.
pub fn trim(s: &str) -> (r: String)
    ensures
        r@ == trimmed(s@),
{
    let (a, b) = trim_bounds(s);
    String::from_str(s.substring_char(a, b))
}

/// Whether one of the strings in `v` equals `s`.
pub fn contains_line(v: &Vec<String>, s: &str) -> (r: bool)
    ensures
        r == text_lines(v@).contains(s@),
{
    let wanted = String::from_str(s);
    let mut i: usize = 0;
    while i < v.len()
        invariant
            i <= v@.len(),
            wanted@ == s@,
            forall|j: int| 0 <= j < i ==> text_lines(v@)[j] != s@,
        decreases v@.len() - i,
    {
        if v[i] == wanted {
            assert(text_lines(v@)[i as int] == s@);
            return true;
        }
        i += 1;
    }
    false
}

/// Classifies one line of the document.
pub fn classify(line: &str) -> (k: LineKind)
    ensures
        kind_matches(k, line@),
{
    let (a, b) = trim_bounds(line);
    let t = line.substring_char(a, b);
    let n: usize = b - a;
    proof {
        lemma_marker_shapes(t@);
    }
    if n == 1 && t.get_char(0) == '@' {
        return LineKind::Close;
    }
    if n >= 4 && t.get_char(0) == '<' && t.get_char(1) == '<' {
        let last: char = t.get_char(n - 1);
        if last == '=' {
            if n >= 5 && t.get_char(n - 2) == '>' && t.get_char(n - 3) == '>' {
                return LineKind::Opener(String::from_str(t.substring_char(2, n - 3)));
            }
        } else if last == '>' && t.get_char(n - 2) == '>' {
            return LineKind::Reference(
                String::from_str(t.substring_char(2, n - 2)),
                String::from_str(line.substring_char(0, a)),
            );
        }
    }
    LineKind::Text
}

} // verus!
