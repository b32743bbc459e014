use litprog::label::{chunk_name_to_label, hash_name, to_hex};
use litprog::language::{get_lang_from_ext, root_language, LanguageMap, ReferenceGraph};
use litprog::propagate::{build_language_map, propagate_lang, scan_document};
use litprog::weave::{escape, process_code_line, render, render_header, weave};

fn doc(lines: &[&str]) -> Vec<String> {
    lines.iter().map(|s| s.to_string()).collect()
}

#[test]
fn extension_table() {
    assert_eq!(get_lang_from_ext("v"), "verilog");
    assert_eq!(get_lang_from_ext("vh"), "verilog");
    assert_eq!(get_lang_from_ext("sv"), "verilog");
    assert_eq!(get_lang_from_ext("rs"), "rust");
    assert_eq!(get_lang_from_ext("c"), "c");
    assert_eq!(get_lang_from_ext("h"), "c");
    assert_eq!(get_lang_from_ext("cpp"), "cpp");
    assert_eq!(get_lang_from_ext("hpp"), "cpp");
    assert_eq!(get_lang_from_ext("py"), "python");
    assert_eq!(get_lang_from_ext("js"), "javascript");
    assert_eq!(get_lang_from_ext("sh"), "bash");
    assert_eq!(get_lang_from_ext("typ"), "typst");
    assert_eq!(get_lang_from_ext("txt"), "");
    assert_eq!(get_lang_from_ext(""), "");
    assert_eq!(get_lang_from_ext("RS"), "");
}

#[test]
fn root_language_splits_at_the_last_dot() {
    assert_eq!(root_language("main.rs"), Some("rust"));
    assert_eq!(root_language("a.b.py"), Some("python"));
    assert_eq!(root_language("archive.tar.gz"), Some(""));
    assert_eq!(root_language("trailing."), Some(""));
    assert_eq!(root_language(".sh"), Some("bash"));
    assert_eq!(root_language("helper"), None);
    assert_eq!(root_language(""), None);
}

#[test]
fn hash_and_hex_have_exact_values() {
    assert_eq!(hash_name(""), 0xcbf29ce484222325);
    assert_eq!(hash_name("a"), 0xaf63dc4c8601ec8c);
    assert_eq!(to_hex(0), "0");
    assert_eq!(to_hex(15), "f");
    assert_eq!(to_hex(16), "10");
    assert_eq!(to_hex(255), "ff");
    assert_eq!(to_hex(u64::MAX), "ffffffffffffffff");
    assert_eq!(to_hex(0xaf63dc4c8601ec8c), format!("{:x}", 0xaf63dc4c8601ec8cu64));
}

#[test]
fn label_is_stable_and_tells_names_apart() {
    assert_eq!(chunk_name_to_label(""), "chunk-cbf29ce484222325");
    assert_eq!(chunk_name_to_label("a"), "chunk-af63dc4c8601ec8c");
    assert_eq!(chunk_name_to_label("main.rs"), chunk_name_to_label("main.rs"));
    assert_ne!(chunk_name_to_label("main.rs"), chunk_name_to_label("main.py"));
    assert_eq!(
        chunk_name_to_label("body"),
        format!("chunk-{:x}", hash_name("body"))
    );
}

#[test]
fn escape_backslash_and_quote_only() {
    assert_eq!(escape(""), "");
    assert_eq!(escape("plain <text> #1"), "plain <text> #1");
    assert_eq!(escape("a\\b"), "a\\\\b");
    assert_eq!(escape("say \"hi\""), "say \\\"hi\\\"");
    assert_eq!(escape("\\\""), "\\\\\\\"");
    assert_eq!(escape("é\"ü"), "é\\\"ü");
}

#[test]
fn header_carries_name_and_label() {
    let label = chunk_name_to_label("out.rs");
    assert_eq!(
        render_header("out.rs"),
        format!("_\u{27E8}out.rs\u{27E9}_\u{2261} <{}> \\", label)
    );
}

#[test]
fn code_line_is_a_tagged_unit() {
    assert_eq!(
        process_code_line("    println!(\"hi\");", "rust"),
        "#raw(lang: \"rust\", \"    println!(\\\"hi\\\");\") \\"
    );
    assert_eq!(process_code_line("", ""), "#raw(lang: \"\", \"\") \\");
}

#[test]
fn reference_line_is_a_link_after_its_indent() {
    let label = chunk_name_to_label("body");
    let link = format!(
        "#link(<{0}>)[_\u{27E8}{1} _*#link(<{0}>)[#context counter(page).at(<{0}>).first()]*\u{27E9}]\\",
        label, "body"
    );
    assert_eq!(process_code_line("<<body>>", "rust"), link);
    assert_eq!(
        process_code_line("  <<body>> ", "rust"),
        format!("#raw(lang: \"rust\", \"  \"){}", link)
    );
}

#[test]
fn propagation_gives_children_the_roots_language() {
    let lines = doc(&[
        "<<main.rs>>=",
        "fn main() {",
        "<<helper>>",
        "}",
        "@",
        "<<helper>>=",
        "<<deep>>",
        "@",
        "<<script.py>>=",
        "print(1)",
        "@",
        "<<lonely>>=",
        "x",
        "@",
    ]);
    let map = build_language_map(&lines);
    assert_eq!(map.get("main.rs"), Some("rust"));
    assert_eq!(map.get("helper"), Some("rust"));
    assert_eq!(map.get("deep"), Some("rust"));
    assert_eq!(map.get("script.py"), Some("python"));
    assert_eq!(map.get("lonely"), None);
}

#[test]
fn unrelated_root_does_not_change_a_chunk() {
    let with = build_language_map(&doc(&[
        "<<main.rs>>=",
        "<<helper>>",
        "@",
        "<<script.py>>=",
        "<<other>>",
        "@",
    ]));
    let without = build_language_map(&doc(&["<<main.rs>>=", "<<helper>>", "@"]));
    assert_eq!(with.get("helper"), Some("rust"));
    assert_eq!(without.get("helper"), Some("rust"));
    assert_eq!(with.get("other"), Some("python"));
}

#[test]
fn later_root_overwrites_a_shared_chunk() {
    let map = build_language_map(&doc(&[
        "<<a.rs>>=",
        "<<shared>>",
        "@",
        "<<b.py>>=",
        "<<shared>>",
        "@",
    ]));
    assert_eq!(map.get("a.rs"), Some("rust"));
    assert_eq!(map.get("b.py"), Some("python"));
    assert_eq!(map.get("shared"), Some("python"));
}

#[test]
fn propagation_ends_on_a_cyclic_graph() {
    let map = build_language_map(&doc(&[
        "<<a.rs>>=",
        "<<b>>",
        "@",
        "<<b>>=",
        "<<a.rs>>",
        "<<b>>",
        "@",
        "<<c.py>>=",
        "<<b>>",
        "@",
    ]));
    assert_eq!(map.get("a.rs"), Some("python"));
    assert_eq!(map.get("b"), Some("python"));
    assert_eq!(map.get("c.py"), Some("python"));
}

#[test]
fn propagate_skips_what_has_the_language_already() {
    let mut graph = ReferenceGraph::new();
    graph.add_edge("p", "q");
    graph.add_edge("q", "r");
    graph.add_edge("p", "s");
    assert_eq!(graph.len(), 3);
    let mut map = LanguageMap::new();
    map.insert("q", "rust");
    map.insert("r", "c");
    map.insert("s", "c");
    propagate_lang("p", "rust", &graph, &mut map);
    assert_eq!(map.get("p"), Some("rust"));
    assert_eq!(map.get("q"), Some("rust"));
    assert_eq!(map.get("r"), Some("c"));
    assert_eq!(map.get("s"), Some("rust"));
    assert!(map.has("s", "rust"));
    assert!(!map.has("r", "rust"));
    assert!(!map.has("zz", "rust"));
}

#[test]
fn scan_finds_roots_once_and_edges_in_order() {
    let scan = scan_document(&doc(&[
        "<<x.c>>=",
        "<<a>>",
        "<<b>>",
        "@",
        "<<a>>",
        "<<y.h>>=",
        "<<a>>",
        "<<x.c>>=",
        "<<c>>",
    ]));
    assert_eq!(scan.roots, doc(&["x.c", "y.h"]));
    assert_eq!(scan.graph.len(), 4);
    assert_eq!(scan.graph.parent_at(0), "x.c");
    assert_eq!(scan.graph.child_at(0), "a");
    assert_eq!(scan.graph.child_at(1), "b");
    assert_eq!(scan.graph.parent_at(2), "y.h");
    assert_eq!(scan.graph.child_at(2), "a");
    assert_eq!(scan.graph.parent_at(3), "x.c");
    assert_eq!(scan.graph.child_at(3), "c");
}

#[test]
fn weave_renders_the_whole_document() {
    let lines = doc(&[
        "= Title",
        "<<out.rs>>=",
        "fn main() {",
        "    <<body>>",
        "}",
        "@",
        "prose \"kept\" as is",
        "<<body>>=",
        "println!(\"hi\");",
        "@",
        "@",
    ]);
    let out = weave(&lines);
    let expected = vec![
        "= Title".to_string(),
        render_header("out.rs"),
        "#raw(lang: \"rust\", \"fn main() {\") \\".to_string(),
        process_code_line("    <<body>>", "rust"),
        "#raw(lang: \"rust\", \"}\") \\".to_string(),
        "prose \"kept\" as is".to_string(),
        render_header("body"),
        "#raw(lang: \"rust\", \"println!(\\\"hi\\\");\") \\".to_string(),
        "@".to_string(),
    ];
    assert_eq!(out, expected);
}

#[test]
fn weave_links_a_reference_to_an_undefined_chunk_without_failing() {
    let out = weave(&doc(&["<<a.py>>=", "<<missing>>", "@"]));
    assert_eq!(out, vec![render_header("a.py"), process_code_line("<<missing>>", "python")]);
}

#[test]
fn render_uses_the_given_languages() {
    let mut langs = LanguageMap::new();
    langs.insert("a", "bash");
    langs.insert("a", "c");
    let out = render(&doc(&["<<a>>=", "x", "@", "<<b>>=", "y"]), &langs);
    assert_eq!(
        out,
        vec![
            render_header("a"),
            "#raw(lang: \"c\", \"x\") \\".to_string(),
            render_header("b"),
            "#raw(lang: \"\", \"y\") \\".to_string(),
        ]
    );
}
