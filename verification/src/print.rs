//! The printer: serializes a term back to source notation, reconstructing
//! the left-associated application syntax.

use vstd::prelude::*;

use crate::term::lemma_terms_of;
use crate::term::Node;
use crate::term::NodeKind;
use crate::term::Tag;
use crate::term::Term;

verus! {

/// The characters a tag prints as: the sentinel symbol `#` for the root, the
/// combinator's own letter for `S`, `K` and `I`, and an atom's name verbatim,
/// matching the parser's unquoted atom syntax.
pub open spec fn tag_text(g: Tag) -> Seq<char> {
    match g {
        Tag::Root => seq!['#'],
        Tag::S => seq!['S'],
        Tag::K => seq!['K'],
        Tag::I => seq!['I'],
        Tag::Atom(name) => name,
    }
}

/// The printed form of a term: a leaf prints as its tag's text alone; a node
/// with arguments prints as `(`, the tag's text, the arguments rendered from
/// the topmost stack element downwards, and `)`.
pub open spec fn rendered(t: Term) -> Seq<char>
    decreases t,
{
    if t.args.len() == 0 {
        tag_text(t.tag)
    } else {
        seq!['('] + tag_text(t.tag) + rendered_args(t.args) + seq![')']
    }
}

/// The arguments of a spine rendered topmost-first: the reverse of the
/// stack's insertion order.
pub open spec fn rendered_args(s: Seq<Term>) -> Seq<char>
    decreases s,
{
    if s.len() == 0 {
        Seq::empty()
    } else {
        rendered(s.last()) + rendered_args(s.drop_last())
    }
}

impl NodeKind {
    /// The text of this tag, realizing [`tag_text`].
    pub fn text(&self) -> (r: String)
        ensures
            r@ == tag_text(self@),
    {
        match self {
            NodeKind::ROOT => {
                let r = "#".to_owned();
                proof {
                    reveal_strlit("#");
                    assert(r@ =~= seq!['#']);
                }
                r
            },
            NodeKind::S => {
                let r = "S".to_owned();
                proof {
                    reveal_strlit("S");
                    assert(r@ =~= seq!['S']);
                }
                r
            },
            NodeKind::K => {
                let r = "K".to_owned();
                proof {
                    reveal_strlit("K");
                    assert(r@ =~= seq!['K']);
                }
                r
            },
            NodeKind::I => {
                let r = "I".to_owned();
                proof {
                    reveal_strlit("I");
                    assert(r@ =~= seq!['I']);
                }
                r
            },
            NodeKind::IDENT(name) => name.clone(),
        }
    }
}

impl Node {
    /// Serialize the receiver, realizing [`rendered`].
    pub fn to_text(&self) -> (r: String)
        ensures
            r@ == rendered(self@),
        decreases *self,
    {
        proof {
            lemma_terms_of(self.children@);
        }
        if self.children.len() == 0 {
            proof {
                assert(self@.args.len() == 0);
            }
            self.kind.text()
        } else {
            let mut out = "(".to_owned();
            proof {
                reveal_strlit("(");
                assert(out@ =~= seq!['(']);
            }
            let head = self.kind.text();
            out.append(head.as_str());
            let ghost prefix = seq!['('] + tag_text(self@.tag);
            let mut j: usize = self.children.len();
            proof {
                assert(self@.args.take(j as int) =~= self@.args);
            }
            while j > 0
                invariant
                    j <= self.children@.len(),
                    out@ + rendered_args(self@.args.take(j as int)) == prefix + rendered_args(
                        self@.args,
                    ),
                decreases j,
            {
                proof {
                    lemma_terms_of(self.children@);
                    assert(self@.args.take(j as int).last() == self@.args[j - 1]);
                    assert(self@.args.take(j as int).drop_last() =~= self@.args.take(j - 1));
                    assert(self@.args[j - 1] == self.children@[j - 1]@);
                }
                j = j - 1;
                let part = self.children[j].to_text();
                out.append(part.as_str());
            }
            proof {
                assert(self@.args.take(0) =~= Seq::<Term>::empty());
                assert(out@ + Seq::<char>::empty() =~= out@);
            }
            out.append(")");
            proof {
                reveal_strlit(")");
                assert(")"@ =~= seq![')']);
                assert(out@ =~= rendered(self@));
            }
            out
        }
    }
}

} // verus!
