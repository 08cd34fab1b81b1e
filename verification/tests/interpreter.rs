//! End-to-end exercises of the interpreter: the construction and parsing
//! entry points driven through repeated reduction steps.

use ski::Node;
use ski::NodeKind;

#[test]
fn it_works() {
    let mut root = Node {
        kind: NodeKind::ROOT,
        children: vec![
            Node::s(vec![]),
            Node::i(vec![]),
            Node::i(vec![]),
            Node::new(String::from("a"), vec![]),
        ]
        .into_iter()
        .rev()
        .collect(),
    };
    for _ in 0..5 {
        println!("{}", root.to_text());
        root.apply().unwrap();
    }
    println!("{}", root.to_text());
}

#[test]
fn parse() {
    let mut root = Node::from_str("S(K(SII))(S(S(KS)K)(K(SII)))I").unwrap();
    for _ in 0..1000 {
        println!("{}", root.to_text());
        root.apply().unwrap();
    }
    println!("{}", root.to_text());
}

#[test]
fn parse_round_trips_nested_groups() {
    let root = Node::from_str("S(K(SII))").unwrap();
    assert_eq!(root.to_text(), "(#S(K(SII)))");
}

#[test]
fn parse_builds_initial_spine() {
    let root = Node::from_str("SII").unwrap();
    assert_eq!(root.to_text(), "(#SII)");
}

#[test]
fn parse_empty_input_fails() {
    assert!(Node::from_str("").is_err());
}

#[test]
fn parse_empty_group_fails() {
    assert!(Node::from_str("()").is_err());
    assert!(Node::from_str("(").is_err());
    assert!(Node::from_str("a()b").is_err());
}

#[test]
fn parse_tolerates_unbalanced_parens() {
    // A missing `)` runs to the end of the input.
    let open = Node::from_str("a(Sb").unwrap();
    assert_eq!(open.to_text(), "(#a(Sb))");
    // An extra `)` ends the outermost level early; the rest is dropped.
    let extra = Node::from_str("a)b").unwrap();
    assert_eq!(extra.to_text(), "(#a)");
}

#[test]
fn leading_group_donates_only_its_tag() {
    // The first token of a level donates its tag alone; a parenthesized
    // group standing first loses its own arguments to the tokens after it.
    let root = Node::from_str("(ab)c").unwrap();
    assert_eq!(root.to_text(), "(#ac)");
}

#[test]
fn leaves_print_bare() {
    assert_eq!(Node::s(vec![]).to_text(), "S");
    assert_eq!(Node::k(vec![]).to_text(), "K");
    assert_eq!(Node::i(vec![]).to_text(), "I");
    assert_eq!(Node::new(String::from("x"), vec![]).to_text(), "x");
    let root = Node {
        kind: NodeKind::ROOT,
        children: vec![],
    };
    assert_eq!(root.to_text(), "#");
}
