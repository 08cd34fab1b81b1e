//! The parser: turns source text into a term tree.
//!
//! The grammar is read character by character: `S`, `K` and `I` are
//! combinator leaves, `(` opens a nested group closed by `)` or by the end of
//! the input, and any other character is an atom leaf named by it.  The
//! tokens of one level form a left-associated application chain; unbalanced
//! parentheses are not rejected, only a level that holds no token at all
//! fails.

use vstd::prelude::*;
use vstd::string::StrSliceExecFns;

use crate::term::flatten_top;
use crate::term::leaf;
use crate::term::lemma_terms_of;
use crate::term::lemma_terms_of_push;
use crate::term::lemma_terms_of_singleton;
use crate::term::term_of;
use crate::term::terms_of;
use crate::term::Node;
use crate::term::NodeKind;
use crate::term::Tag;
use crate::term::Term;

verus! {

/// Reported when a parsed level holds no token at all: an empty program, or
/// an empty parenthesized group.
#[derive(Clone, Copy, Debug, PartialEq, Eq, Structural)]
pub struct ParseError;

/// The leaf a single non-structural character parses to.
pub open spec fn tag_of_char(c: char) -> Tag {
    if c == 'S' {
        Tag::S
    } else if c == 'K' {
        Tag::K
    } else if c == 'I' {
        Tag::I
    } else {
        Tag::Atom(seq![c])
    }
}

/// Assembling one level's tokens, read left to right, into a single term:
/// the first token donates its tag, and the remaining tokens become the
/// argument stack with the second token topmost (so that the stack unwinds
/// in application order).
pub open spec fn assembled(items: Seq<Term>) -> Term
    recommends
        items.len() > 0,
{
    Term { tag: items[0].tag, args: items.subrange(1, items.len() as int).reverse() }
}

/// What parsing one level of the input yields: whether every nested group
/// held a token, the tokens of this level in reading order, and the position
/// the scan stopped at (a `)` left for the enclosing level, or the end of the
/// input; on failure, the position where the failing group ended).
pub struct ParseOut {
    pub ok: bool,
    pub items: Seq<Term>,
    pub next: int,
}

/// Parse one level of `chars` from position `i`: collect leaves and
/// assembled groups until a `)` or the end of the input.  After a nested
/// group returns, the `)` it stopped at is consumed by this level.
pub open spec fn parse_items(chars: Seq<char>, i: int) -> ParseOut
    decreases chars.len() - i,
{
    if i < 0 || i >= chars.len() || chars[i] == ')' {
        ParseOut { ok: true, items: Seq::empty(), next: i }
    } else if chars[i] == '(' {
        let inner = parse_items(chars, i + 1);
        if !inner.ok || inner.items.len() == 0 {
            ParseOut { ok: false, items: Seq::empty(), next: inner.next }
        } else {
            // The nested scan in fact stops between `i + 1` and the end of
            // the input (the bounds lemma below), but that cannot be cited
            // while this function is still being defined; restating the
            // bounds here keeps the recursion visibly well-founded.
            let ni = if inner.next < i + 1 {
                i + 1
            } else if inner.next > chars.len() {
                chars.len() as int
            } else {
                inner.next
            };
            let j = if ni < chars.len() {
                ni + 1
            } else {
                ni
            };
            let rest = parse_items(chars, j);
            if !rest.ok {
                ParseOut { ok: false, items: Seq::empty(), next: rest.next }
            } else {
                ParseOut {
                    ok: true,
                    items: seq![assembled(inner.items)] + rest.items,
                    next: rest.next,
                }
            }
        }
    } else {
        let rest = parse_items(chars, i + 1);
        if !rest.ok {
            ParseOut { ok: false, items: Seq::empty(), next: rest.next }
        } else {
            ParseOut {
                ok: true,
                items: seq![leaf(tag_of_char(chars[i]))] + rest.items,
                next: rest.next,
            }
        }
    }
}

/// The scan never moves backwards and never runs past the end of the input.
pub proof fn lemma_parse_items_bounds(chars: Seq<char>, i: int)
    requires
        0 <= i <= chars.len(),
    ensures
        i <= parse_items(chars, i).next <= chars.len(),
    decreases chars.len() - i,
{
    if i >= chars.len() || chars[i] == ')' {
    } else if chars[i] == '(' {
        lemma_parse_items_bounds(chars, i + 1);
        let inner = parse_items(chars, i + 1);
        if inner.ok && inner.items.len() > 0 {
            let j = if inner.next < chars.len() {
                inner.next + 1
            } else {
                inner.next
            };
            lemma_parse_items_bounds(chars, j);
        }
    } else {
        lemma_parse_items_bounds(chars, i + 1);
    }
}

/// Relies on `String::from` for `char`: the returned string holds exactly
/// the one character.
#[verifier::external_body]
fn char_to_string(c: char) -> (r: String)
    ensures
        r@ == seq![c],
{
    String::from(c)
}

impl Node {
    /// Parse one level of `chars` starting at `*i`, realizing
    /// [`parse_items`] followed by [`assembled`]: leaves and parenthesized
    /// groups are collected until a `)` or the end of the input, and the
    /// tokens are assembled into one term.  `*i` is left at the position the
    /// scan stopped at.  Fails when this level, or a nested group, holds no
    /// token.
    #[verifier::loop_isolation(false)]
    pub fn parse_slice_chars(chars: &[char], i: &mut usize) -> (r: Result<Self, ParseError>)
        requires
            *old(i) <= chars@.len(),
        ensures
            ({
                let out = parse_items(chars@, *old(i) as int);
                &&& *final(i) as int == out.next
                &&& *old(i) <= *final(i) <= chars@.len()
                &&& (match r {
                    Ok(node) => out.ok && out.items.len() > 0 && node@ == assembled(out.items),
                    Err(_) => !out.ok || out.items.len() == 0,
                })
            }),
        decreases chars@.len() - *old(i),
    {
        let ghost cs = chars@;
        let ghost i0 = *i as int;
        let ghost full = parse_items(cs, i0);
        let mut nodes: Vec<Node> = Vec::new();
        while *i < chars.len() && chars[*i] != ')'
            invariant
                i0 <= *i as int <= cs.len(),
                ({
                    let rem = parse_items(cs, *i as int);
                    &&& (rem.ok ==> full.ok && full.items == terms_of(nodes@) + rem.items
                        && full.next == rem.next)
                    &&& (!rem.ok ==> !full.ok && full.next == rem.next)
                }),
            decreases cs.len() - *i,
        {
            let ghost ip = *i as int;
            let ghost rem_here = parse_items(cs, ip);
            let c = chars[*i];
            if c == '(' {
                *i = *i + 1;
                let sub = Node::parse_slice_chars(chars, i);
                proof {
                    lemma_parse_items_bounds(cs, ip + 1);
                }
                match sub {
                    Ok(node) => {
                        if *i < chars.len() {
                            *i = *i + 1;
                        }
                        proof {
                            let inner = parse_items(cs, ip + 1);
                            let rem_new = parse_items(cs, *i as int);
                            lemma_terms_of_push(nodes@, node);
                            if rem_new.ok {
                                assert(rem_here.items == seq![assembled(inner.items)]
                                    + rem_new.items);
                                assert(terms_of(nodes@) + rem_here.items =~= terms_of(
                                    nodes@.push(node),
                                ) + rem_new.items);
                            }
                        }
                        nodes.push(node);
                    },
                    Err(e) => {
                        return Err(e);
                    },
                }
            } else {
                let node = if c == 'S' {
                    Node::s(Vec::new())
                } else if c == 'K' {
                    Node::k(Vec::new())
                } else if c == 'I' {
                    Node::i(Vec::new())
                } else {
                    Node::new(char_to_string(c), Vec::new())
                };
                proof {
                    let rem_new = parse_items(cs, ip + 1);
                    assert(term_of(node) == leaf(tag_of_char(cs[ip]))) by {
                        assert(terms_of(Seq::<Node>::empty()) =~= Seq::<Term>::empty());
                        assert(term_of(node) =~= leaf(tag_of_char(cs[ip])));
                    }
                    lemma_terms_of_push(nodes@, node);
                    if rem_new.ok {
                        assert(rem_here.items == seq![leaf(tag_of_char(cs[ip]))] + rem_new.items);
                        assert(terms_of(nodes@) + rem_here.items =~= terms_of(nodes@.push(node))
                            + rem_new.items);
                    }
                }
                nodes.push(node);
                *i = *i + 1;
            }
        }
        let ghost nodes0 = nodes@;
        proof {
            let rem = parse_items(cs, *i as int);
            assert(rem.items =~= Seq::<Term>::empty());
            assert(full.items =~= terms_of(nodes0)) by {
                assert(terms_of(nodes0) + rem.items =~= terms_of(nodes0));
            }
            lemma_terms_of(nodes0);
        }
        if nodes.len() == 0 {
            return Err(ParseError);
        }
        let first = nodes.remove(0);
        let ghost rest0 = nodes@;
        proof {
            assert(rest0 =~= nodes0.subrange(1, nodes0.len() as int));
            assert(first == nodes0[0]);
        }
        let mut stack: Vec<Node> = Vec::new();
        while nodes.len() > 0
            invariant
                stack@.len() + nodes@.len() == rest0.len(),
                nodes@ == rest0.take(nodes@.len() as int),
                forall|k: int|
                    0 <= k < stack@.len() ==> stack@[k] == rest0[rest0.len() - 1 - k],
            decreases nodes@.len(),
        {
            let ghost before = nodes@;
            let n = nodes.pop().unwrap();
            proof {
                assert(before.last() == rest0[before.len() - 1]);
                assert(nodes@ =~= rest0.take(nodes@.len() as int));
            }
            stack.push(n);
        }
        let r = Node { kind: first.kind, children: stack };
        proof {
            lemma_terms_of(stack@);
            lemma_terms_of(nodes0);
            assert(rest0.take(0) =~= Seq::<Node>::empty());
            assert(terms_of(stack@) =~= assembled(full.items).args);
            assert(r@ =~= assembled(full.items));
        }
        Ok(r)
    }

    /// Parse a whole program: the text's tokens are assembled into one term,
    /// wrapped in a `Root` sentinel node, and canonicalized once, yielding
    /// the initial flattened spine.  Fails when the text yields no token at
    /// the outermost level, or holds an empty parenthesized group.
    pub fn from_str(s: &str) -> (r: Result<Self, ParseError>)
        ensures
            ({
                let out = parse_items(s@, 0);
                match r {
                    Ok(node) => out.ok && out.items.len() > 0 && node@ == flatten_top(
                        (Term { tag: Tag::Root, args: seq![assembled(out.items)] }),
                    ),
                    Err(_) => !out.ok || out.items.len() == 0,
                }
            }),
    {
        let n = s.unicode_len();
        let mut chars: Vec<char> = Vec::new();
        let mut k: usize = 0;
        while k < n
            invariant
                n == s@.len(),
                k <= n,
                chars@ == s@.take(k as int),
            decreases n - k,
        {
            let c = s.get_char(k);
            proof {
                assert(s@.take(k + 1) =~= s@.take(k as int).push(s@[k as int]));
            }
            chars.push(c);
            k = k + 1;
        }
        proof {
            assert(s@.take(n as int) =~= s@);
        }
        let mut pos: usize = 0;
        let child = match Node::parse_slice_chars(chars.as_slice(), &mut pos) {
            Ok(c) => c,
            Err(e) => {
                return Err(e);
            },
        };
        let ghost childv = term_of(child);
        let mut root = Node { kind: NodeKind::ROOT, children: Vec::new() };
        root.children.push(child);
        proof {
            lemma_terms_of_singleton(child);
            assert(root@ == (Term { tag: Tag::Root, args: seq![childv] })) by {
                assert(terms_of(root.children@) =~= seq![childv]);
            }
        }
        root.normalize();
        Ok(root)
    }
}

} // verus!
