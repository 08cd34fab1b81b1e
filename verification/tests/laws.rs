//! Concrete scenarios for the engine's laws: one instance of each proved
//! property, on small terms with known printed forms.

use ski::ArityError;
use ski::Node;
use ski::NodeKind;

#[test]
fn flatten_is_idempotent_after_one_pass() {
    let mut root = Node {
        kind: NodeKind::ROOT,
        children: vec![Node::k(vec![Node::i(vec![])])],
    };
    root.normalize();
    let once = root.to_text();
    root.normalize();
    assert_eq!(root.to_text(), once);
}

#[test]
fn k_elimination_discards_second_argument() {
    let mut root = Node::from_str("Kab").unwrap();
    root.apply().unwrap();
    assert_eq!(root.to_text(), "(#a)");
    assert!(!root.to_text().contains('b'));
}

#[test]
fn i_elimination_keeps_argument_unchanged() {
    let mut root = Node::from_str("Ia").unwrap();
    root.apply().unwrap();
    assert_eq!(root.to_text(), "(#a)");
    let mut nested = Node::from_str("I(ab)").unwrap();
    nested.apply().unwrap();
    assert_eq!(nested.to_text(), "(#ab)");
}

#[test]
fn s_expansion_duplicates_third_argument() {
    let mut root = Node::from_str("Sabc").unwrap();
    root.apply().unwrap();
    assert_eq!(root.to_text(), "(#ac(bc))");
}

#[test]
fn arity_guard_reports_and_leaves_term_unchanged() {
    let mut s_short = Node::from_str("Sa").unwrap();
    let before = s_short.to_text();
    assert_eq!(s_short.apply(), Err(ArityError::S));
    assert_eq!(s_short.to_text(), before);

    let mut k_short = Node::from_str("Ka").unwrap();
    let before = k_short.to_text();
    assert_eq!(k_short.apply(), Err(ArityError::K));
    assert_eq!(k_short.to_text(), before);
}

#[test]
fn atom_skip_reduces_beneath_and_restores_atom() {
    let mut root = Node::from_str("aIb").unwrap();
    root.apply().unwrap();
    assert_eq!(root.to_text(), "(#ab)");
}

#[test]
fn self_application_grows_instead_of_collapsing() {
    // `SII` alone is a printable term on which a step is stuck for want of a
    // third argument; applied to itself it reduces forever, growing.
    let mut short = Node::from_str("SII").unwrap();
    assert_eq!(short.apply(), Err(ArityError::S));
    assert_eq!(short.to_text(), "(#SII)");
    assert_eq!(short.apply(), Err(ArityError::S));
    assert_eq!(short.to_text(), "(#SII)");

    let mut omega = Node::from_str("SII(SII)").unwrap();
    let start = omega.to_text().len();
    for _ in 0..10 {
        omega.apply().unwrap();
    }
    assert!(omega.to_text().len() > start);
}

#[test]
fn reduction_to_bare_combinator() {
    let mut root = Node::from_str("KIS").unwrap();
    root.apply().unwrap();
    assert_eq!(root.to_text(), "(#I)");
}
