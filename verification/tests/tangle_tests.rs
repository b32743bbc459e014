use litprog::chunk::{parse_input, ChunkStore, Fragment};
use litprog::tangle::{expand, join_lines, tangle, TangleError};

fn doc(lines: &[&str]) -> Vec<String> {
    lines.iter().map(|s| s.to_string()).collect()
}

#[test]
fn end_to_end_example() {
    let store = parse_input(&doc(&[
        "<<out.rs>>=",
        "fn main() {",
        "<<body>>",
        "}",
        "@",
        "<<body>>=",
        "    println!(\"hi\");",
        "@",
    ]));
    let lines = tangle(&store, "out.rs").unwrap();
    assert_eq!(lines, doc(&["fn main() {", "    println!(\"hi\");", "}"]));
    assert_eq!(join_lines(&lines), "fn main() {\n    println!(\"hi\");\n}\n");
}

#[test]
fn reference_indent_is_composed_onto_base() {
    let store = parse_input(&doc(&[
        "<<top>>=",
        "  <<mid>>",
        "@",
        "<<mid>>=",
        "m",
        "    <<leaf>>",
        "@",
        "<<leaf>>=",
        "x",
        " y",
        "@",
    ]));
    assert_eq!(tangle(&store, "top").unwrap(), doc(&["  m", "      x", "       y"]));
    assert_eq!(tangle(&store, "mid").unwrap(), doc(&["m", "    x", "     y"]));
    assert_eq!(tangle(&store, "leaf").unwrap(), doc(&["x", " y"]));
}

#[test]
fn expansion_at_an_indent_prefixes_every_line() {
    let store = parse_input(&doc(&["<<a>>=", "one", "\t<<b>>", "@", "<<b>>=", "two", "@"]));
    let mut stack: Vec<String> = Vec::new();
    let mut out: Vec<String> = vec!["kept".to_string()];
    assert!(expand("a", &store, "  ", &mut stack, &mut out).is_ok());
    assert_eq!(out, doc(&["kept", "  one", "  \ttwo"]));
    assert!(stack.is_empty());
}

#[test]
fn definitions_of_one_name_accumulate_in_order() {
    let store = parse_input(&doc(&["<<X>>=", "a", "@", "between", "<<X>>=", "b", "@"]));
    assert_eq!(tangle(&store, "X").unwrap(), doc(&["a", "b"]));
    assert_eq!(store.len(), 1);
}

#[test]
fn mutual_references_are_a_cycle() {
    let store = parse_input(&doc(&["<<A>>=", "<<B>>", "@", "<<B>>=", "<<A>>", "@"]));
    assert_eq!(tangle(&store, "A"), Err(TangleError::Cycle("A".to_string())));
    assert_eq!(tangle(&store, "B"), Err(TangleError::Cycle("B".to_string())));
}

#[test]
fn self_reference_is_a_cycle() {
    let store = parse_input(&doc(&["<<A>>=", "first", "<<A>>", "last", "@"]));
    assert_eq!(tangle(&store, "A"), Err(TangleError::Cycle("A".to_string())));
}

#[test]
fn cycle_below_the_root_names_the_repeated_chunk() {
    let store = parse_input(&doc(&[
        "<<root>>=",
        "r",
        "<<A>>",
        "@",
        "<<A>>=",
        "a",
        "<<B>>",
        "@",
        "<<B>>=",
        "b",
        "<<A>>",
        "@",
    ]));
    assert_eq!(tangle(&store, "root"), Err(TangleError::Cycle("A".to_string())));
    let mut stack: Vec<String> = Vec::new();
    let mut out: Vec<String> = Vec::new();
    let r = expand("root", &store, "", &mut stack, &mut out);
    assert_eq!(r, Err(TangleError::Cycle("A".to_string())));
    assert_eq!(out, doc(&["r", "a", "b"]));
    assert!(stack.is_empty());
}

#[test]
fn chunk_on_the_stack_is_a_cycle() {
    let store = parse_input(&doc(&["<<A>>=", "a", "@"]));
    let mut stack: Vec<String> = vec!["A".to_string()];
    let mut out: Vec<String> = Vec::new();
    let r = expand("A", &store, "", &mut stack, &mut out);
    assert_eq!(r, Err(TangleError::Cycle("A".to_string())));
    assert!(out.is_empty());
    assert_eq!(stack, doc(&["A"]));
}

#[test]
fn repeated_reference_without_cycle_expands_twice() {
    let store = parse_input(&doc(&["<<A>>=", "<<B>>", "  <<B>>", "@", "<<B>>=", "b", "@"]));
    assert_eq!(tangle(&store, "A").unwrap(), doc(&["b", "  b"]));
}

#[test]
fn dangling_reference_expands_to_nothing() {
    let store = parse_input(&doc(&["<<A>>=", "before", "  <<missing>>", "after", "@"]));
    assert_eq!(tangle(&store, "A").unwrap(), doc(&["before", "after"]));
    let only = parse_input(&doc(&["<<A>>=", "<<missing>>", "@"]));
    assert_eq!(tangle(&only, "A").unwrap(), Vec::<String>::new());
}

#[test]
fn missing_root_is_an_error() {
    let store = parse_input(&doc(&["<<A>>=", "a", "@"]));
    assert_eq!(tangle(&store, "nope"), Err(TangleError::RootNotFound("nope".to_string())));
    assert_eq!(tangle(&store, "A").unwrap(), doc(&["a"]));
}

#[test]
fn tangling_twice_gives_the_same_lines() {
    let store = parse_input(&doc(&["<<A>>=", "a", " <<B>>", "@", "<<B>>=", "b", "@"]));
    let first = tangle(&store, "A").unwrap();
    let second = tangle(&store, "A").unwrap();
    assert_eq!(first, second);
    assert_eq!(first, doc(&["a", " b"]));
}

#[test]
fn roots_are_expanded_independently() {
    let store = parse_input(&doc(&["<<A>>=", "<<B>>", "@", "<<B>>=", "b", "@"]));
    assert_eq!(tangle(&store, "B").unwrap(), doc(&["b"]));
    assert_eq!(tangle(&store, "A").unwrap(), doc(&["b"]));
    assert_eq!(tangle(&store, "B").unwrap(), doc(&["b"]));
}

#[test]
fn parser_records_fragments_in_source_order() {
    let store = parse_input(&doc(&["<<A>>=", "  text ", "\t<<B>>  ", "@"]));
    let chunk = store.get("A").unwrap();
    assert_eq!(
        chunk.fragments,
        vec![
            Fragment::Literal("  text ".to_string()),
            Fragment::Reference("B".to_string(), "\t".to_string()),
        ]
    );
    assert!(store.get("B").is_none());
    assert!(store.contains("A"));
    assert!(!store.contains("B"));
}

#[test]
fn opener_inside_a_chunk_is_literal_text() {
    let store = parse_input(&doc(&["<<A>>=", "<<B>>=", "x", "@", "y"]));
    assert_eq!(tangle(&store, "A").unwrap(), doc(&["<<B>>=", "x"]));
    assert!(!store.contains("B"));
}

#[test]
fn lines_outside_chunks_are_ignored_by_the_parser() {
    let store = parse_input(&doc(&["prose", "<<ref>>", "@", "<<A>>=", "a", "@", "more"]));
    assert_eq!(store.len(), 1);
    assert_eq!(store.name_at(0), "A");
    assert_eq!(tangle(&store, "A").unwrap(), doc(&["a"]));
}

#[test]
fn unterminated_chunk_runs_to_the_end() {
    let store = parse_input(&doc(&["<<A>>=", "a", "b"]));
    assert_eq!(tangle(&store, "A").unwrap(), doc(&["a", "b"]));
}

#[test]
fn definition_without_content_defines_nothing() {
    let store = parse_input(&doc(&["<<A>>=", "@"]));
    assert_eq!(store.len(), 0);
    assert_eq!(tangle(&store, "A"), Err(TangleError::RootNotFound("A".to_string())));
}

#[test]
fn store_append_creates_then_extends() {
    let mut store = ChunkStore::new();
    assert_eq!(store.len(), 0);
    store.append("a", Fragment::Literal("1".to_string()));
    store.append("b", Fragment::Literal("2".to_string()));
    store.append("a", Fragment::Literal("3".to_string()));
    assert_eq!(store.len(), 2);
    assert_eq!(store.name_at(0), "a");
    assert_eq!(store.name_at(1), "b");
    assert_eq!(tangle(&store, "a").unwrap(), vec!["1".to_string(), "3".to_string()]);
    assert_eq!(tangle(&store, "b").unwrap(), vec!["2".to_string()]);
}

#[test]
fn join_lines_ends_each_line() {
    assert_eq!(join_lines(&Vec::new()), "");
    assert_eq!(join_lines(&doc(&["a"])), "a\n");
    assert_eq!(join_lines(&doc(&["a", "", "b"])), "a\n\nb\n");
}
