use fastfmt::elses::split_with;
use fastfmt::join::round_with;
use fastfmt::syntax::{nodes_in_chars, SyntaxNode};

fn node(kind: &str, field: Option<&str>, named: bool, depth: usize, start: usize, end: usize) -> SyntaxNode {
    SyntaxNode { kind: kind.to_string(), field: field.map(|f| f.to_string()), named, depth, start, end }
}

fn chars(s: &str) -> Vec<char> {
    s.chars().collect()
}

fn text(v: &[char]) -> String {
    v.iter().collect()
}

fn fn_tree() -> Vec<SyntaxNode> {
    vec![
        node("source_file", None, true, 0, 0, 19),
        node("function_item", None, true, 1, 0, 18),
        node("fn", None, false, 2, 0, 2),
        node("identifier", Some("name"), true, 2, 3, 4),
        node("parameters", Some("parameters"), true, 2, 4, 6),
        node("(", None, false, 3, 4, 5),
        node(")", None, false, 3, 5, 6),
        node("block", Some("body"), true, 2, 7, 18),
        node("{", None, false, 3, 7, 8),
        node("call_expression", None, true, 3, 13, 16),
        node("identifier", Some("function"), true, 4, 13, 14),
        node("arguments", Some("arguments"), true, 4, 14, 16),
        node("(", None, false, 5, 14, 15),
        node(")", None, false, 5, 15, 16),
        node("}", None, false, 3, 17, 18),
    ]
}

#[test]
fn round_over_a_given_tree() {
    let s = chars("fn f() {\n    a()\n}\n");
    assert_eq!(text(&round_with(&fn_tree(), &s, 150)), "fn f() { a() }\n");
    // The whole resulting line counts: 14 bytes.
    assert_eq!(text(&round_with(&fn_tree(), &s, 14)), "fn f() { a() }\n");
    assert_eq!(text(&round_with(&fn_tree(), &s, 13)), "fn f() {\n    a()\n}\n");
    // A comment inside the block keeps it as it is.
    let mut t = fn_tree();
    t[9] = node("line_comment", None, true, 3, 13, 16);
    t.truncate(10);
    t.push(node("}", None, false, 3, 17, 18));
    assert_eq!(text(&round_with(&t, &s, 150)), "fn f() {\n    a()\n}\n");
}

fn if_tree(parent: &str) -> Vec<SyntaxNode> {
    vec![
        node("source_file", None, true, 0, 0, 29),
        node(parent, None, true, 1, 0, 25),
        node("if_expression", None, true, 2, 0, 25),
        node("if", None, false, 3, 0, 2),
        node("identifier", Some("condition"), true, 3, 3, 4),
        node("block", Some("consequence"), true, 3, 5, 12),
        node("else_clause", Some("alternative"), true, 3, 13, 25),
        node("else", None, false, 4, 13, 17),
        node("block", None, true, 4, 18, 25),
        node("expression_statement", None, true, 1, 26, 28),
        node("identifier", None, true, 2, 26, 27),
    ]
}

#[test]
fn else_split_over_a_given_tree() {
    let s = chars("if c { a() } else { b() }\nx;\n");
    assert_eq!(text(&split_with(&if_tree("expression_statement"), &s)), "if c { a() }\nelse { b() }\nx;\n");
    // The same `if` under anything but an expression statement is a value.
    assert_eq!(text(&split_with(&if_tree("let_declaration"), &s)), "if c { a() } else { b() }\nx;\n");
}

#[test]
fn byte_ranges_become_character_ranges() {
    // "fn é() {}\n": 10 characters, 11 bytes; `é` is bytes 3..5.
    let s = chars("fn é() {}\n");
    let raw = vec![node("source_file", None, true, 0, 0, 11), node("identifier", Some("name"), true, 1, 3, 5)];
    let t = nodes_in_chars(&raw, &s).unwrap();
    assert_eq!((t[0].start, t[0].end), (0, 10));
    assert_eq!((t[1].start, t[1].end), (3, 4));
    assert_eq!(t[1].field.as_deref(), Some("name"));
    // A range that ends inside `é` has no character index.
    let inside = vec![node("source_file", None, true, 0, 0, 11), node("identifier", None, true, 1, 3, 4)];
    assert!(nodes_in_chars(&inside, &s).is_none());
    // A node two levels below its predecessor does not describe a tree.
    let jump = vec![node("source_file", None, true, 0, 0, 11), node("identifier", None, true, 2, 3, 5)];
    assert!(nodes_in_chars(&jump, &s).is_none());
}
