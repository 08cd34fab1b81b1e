//! The one-step reducer: a single rewrite under one of the three combinator
//! laws, applied at the topmost reducible position of the flattened spine.

use vstd::prelude::*;

use crate::term::flatten_top;
use crate::term::lemma_flatten_top_size;
use crate::term::lemma_terms_of_concat;
use crate::term::lemma_terms_of_singleton;
use crate::term::lemma_terms_of_push;
use crate::term::lemma_terms_of_take;
use crate::term::lemma_terms_of;
use crate::term::size;
use crate::term::size_seq;
use crate::term::term_of;
use crate::term::terms_of;
use crate::term::Node;
use crate::term::NodeKind;
use crate::term::Tag;
use crate::term::Term;

verus! {

/// Reported when a reduction step dispatches to `S` or `K` but the spine
/// holds fewer arguments than the combinator's law requires.
#[derive(Clone, Copy, Debug, PartialEq, Eq, Structural)]
pub enum ArityError {
    /// `S` was topmost with fewer than three arguments beneath it.
    S,
    /// `K` was topmost with fewer than two arguments beneath it.
    K,
}

/// What one reduction step does to a term: either the rewritten (and
/// re-canonicalized) term, or the arity failure that stopped the step.
pub enum StepOutcome {
    Stepped(Term),
    Stuck(ArityError),
}

/// One reduction step on a term, as a mathematical function.
///
/// The term is first canonicalized with [`flatten_top`], then the topmost
/// stack element `op` is removed and dispatched on:
/// - `S` pops `x`, `y`, `z` and pushes back `y` with `z` appended as its new
///   rightmost argument, then `z`, then `x`, realizing `S x y z -> x z (y z)`;
///   with fewer than three arguments the step is stuck.
/// - `K` pops `x`, discards the next element, and pushes `x` back, realizing
///   `K x y -> x`; with fewer than two arguments the step is stuck.
/// - `I` pushes nothing back: removing the `I` exposes the element beneath
///   it, realizing `I x -> x`.
/// - `Root` never reduces; the sentinel is simply removed from the stack.
/// - an atom is skipped: the step recurses on the stack beneath it and the
///   atom is restored on top afterwards, unchanged.
/// A final [`flatten_top`] keeps the result canonical.  A term whose stack is
/// empty after canonicalization is left as it is.
pub open spec fn spec_step(t: Term) -> StepOutcome
    decreases size(t),
{
    let f = flatten_top(t);
    if f.args.len() == 0 {
        StepOutcome::Stepped(flatten_top(f))
    } else {
        let op = f.args.last();
        let body = Term { tag: f.tag, args: f.args.drop_last() };
        match op.tag {
            Tag::S => {
                if body.args.len() >= 3 {
                    let n = body.args.len() as int;
                    let x = body.args[n - 1];
                    let y = body.args[n - 2];
                    let z = body.args[n - 3];
                    let yz = Term { tag: y.tag, args: seq![z] + y.args };
                    let rewritten = Term {
                        tag: body.tag,
                        args: body.args.take(n - 3) + seq![yz, z, x],
                    };
                    StepOutcome::Stepped(flatten_top(rewritten))
                } else {
                    StepOutcome::Stuck(ArityError::S)
                }
            },
            Tag::K => {
                if body.args.len() >= 2 {
                    let n = body.args.len() as int;
                    let x = body.args[n - 1];
                    let rewritten = Term { tag: body.tag, args: body.args.take(n - 2).push(x) };
                    StepOutcome::Stepped(flatten_top(rewritten))
                } else {
                    StepOutcome::Stuck(ArityError::K)
                }
            },
            Tag::I => StepOutcome::Stepped(flatten_top(body)),
            Tag::Root => StepOutcome::Stepped(flatten_top(body)),
            Tag::Atom(_) => {
                proof {
                    lemma_step_decreases(t);
                }
                match spec_step(body) {
                    StepOutcome::Stepped(inner) => StepOutcome::Stepped(
                        flatten_top(Term { tag: inner.tag, args: inner.args.push(op) }),
                    ),
                    StepOutcome::Stuck(e) => StepOutcome::Stuck(e),
                }
            },
        }
    }
}

/// Removing the topmost element of the flattened spine shrinks the term, so
/// the atom-skip recursion terminates.
pub proof fn lemma_step_decreases(t: Term)
    requires
        flatten_top(t).args.len() > 0,
    ensures
        size(Term { tag: flatten_top(t).tag, args: flatten_top(t).args.drop_last() }) < size(t),
{
    let f = flatten_top(t);
    lemma_flatten_top_size(t);
    let body = Term { tag: f.tag, args: f.args.drop_last() };
    assert(size_seq(f.args) == size(f.args.last()) + size_seq(f.args.drop_last()));
    assert(size(f.args.last()) >= 1);
}

impl Node {
    /// Perform exactly one reduction step on the receiver, realizing
    /// [`spec_step`]: canonicalize, rewrite at the topmost reducible
    /// position, canonicalize again.  On an arity failure the receiver is
    /// left exactly as it was and the failing combinator is reported.
    pub fn apply(&mut self) -> (r: Result<(), ArityError>)
        ensures
            (match spec_step(old(self)@) {
                StepOutcome::Stepped(t2) => r == Ok::<(), ArityError>(()) && final(self)@ == t2,
                StepOutcome::Stuck(e) => r == Err::<(), ArityError>(e) && *final(self) == *old(
                    self,
                ),
            }),
    {
        let mut scratch = self.clone();
        match scratch.step_work() {
            Ok(()) => {
                *self = scratch;
                Ok(())
            },
            Err(e) => Err(e),
        }
    }

    /// The mutating body of a reduction step.  On failure the receiver may
    /// be left mid-rewrite; `apply` works on a scratch copy so that callers
    /// never observe such a state.
    fn step_work(&mut self) -> (r: Result<(), ArityError>)
        ensures
            (match r {
                Ok(()) => spec_step(old(self)@) matches StepOutcome::Stepped(t2) && final(self)@
                    == t2,
                Err(e) => spec_step(old(self)@) == StepOutcome::Stuck(e),
            }),
        decreases size(self@),
    {
        let ghost t = old(self)@;
        self.normalize();
        let ghost f = flatten_top(t);
        let ghost c = self.children@;
        proof {
            lemma_terms_of(c);
        }
        match self.children.pop() {
            None => {
                self.normalize();
                Ok(())
            },
            Some(op) => {
                let ghost opv = term_of(op);
                proof {
                    assert(opv == f.args.last());
                    assert(self.children@ =~= c.drop_last());
                    lemma_terms_of_take(c, c.len() - 1);
                    assert(c.drop_last() =~= c.take(c.len() - 1));
                    assert(terms_of(self.children@) == f.args.drop_last()) by {
                        assert(f.args.drop_last() =~= f.args.take(c.len() - 1));
                    }
                }
                let ghost body = Term { tag: f.tag, args: f.args.drop_last() };
                match &op.kind {
                    NodeKind::S => {
                        if self.children.len() < 3 {
                            return Err(ArityError::S);
                        }
                        let ghost n = body.args.len() as int;
                        let x = self.children.pop().unwrap();
                        let y = self.children.pop().unwrap();
                        let z = self.children.pop().unwrap();
                        proof {
                            lemma_terms_of(c.drop_last());
                            assert(term_of(x) == body.args[n - 1]);
                            assert(term_of(y) == body.args[n - 2]);
                            assert(term_of(z) == body.args[n - 3]);
                            assert(self.children@ =~= c.drop_last().take(c.len() - 4));
                        }
                        let zc = z.clone();
                        let mut yz = y;
                        let ghost yc = yz.children@;
                        yz.children.insert(0, zc);
                        proof {
                            let yv = body.args[n - 2];
                            let zv = body.args[n - 3];
                            assert(yz.children@ =~= seq![zc] + yc);
                            lemma_terms_of_concat(seq![zc], yc);
                            lemma_terms_of_singleton(zc);
                            assert(term_of(yz) == (Term { tag: yv.tag, args: seq![zv] + yv.args }))
                                by {
                                assert(terms_of(yz.children@) =~= seq![zv] + yv.args);
                            }
                        }
                        self.children.push(yz);
                        self.children.push(z);
                        self.children.push(x);
                        proof {
                            let yv = body.args[n - 2];
                            let zv = body.args[n - 3];
                            let yzv = Term { tag: yv.tag, args: seq![zv] + yv.args };
                            let rewritten = Term {
                                tag: body.tag,
                                args: body.args.take(n - 3) + seq![yzv, zv, body.args[n - 1]],
                            };
                            lemma_terms_of_take(c.drop_last(), c.len() - 4);
                            lemma_terms_of_push(c.drop_last().take(c.len() - 4), yz);
                            lemma_terms_of_push(c.drop_last().take(c.len() - 4).push(yz), z);
                            lemma_terms_of_push(
                                c.drop_last().take(c.len() - 4).push(yz).push(z),
                                x,
                            );
                            assert(self.children@ =~= c.drop_last().take(c.len() - 4).push(
                                yz,
                            ).push(z).push(x));
                            assert(body.args.take(n - 3) == terms_of(c.drop_last()).take(n - 3));
                            assert(terms_of(self.children@) =~= rewritten.args);
                            assert(self@ =~= rewritten);
                        }
                    },
                    NodeKind::K => {
                        if self.children.len() < 2 {
                            return Err(ArityError::K);
                        }
                        let ghost n = body.args.len() as int;
                        let x = self.children.pop().unwrap();
                        let _dropped = self.children.pop();
                        proof {
                            lemma_terms_of(c.drop_last());
                            assert(term_of(x) == body.args[n - 1]);
                            assert(self.children@ =~= c.drop_last().take(c.len() - 3));
                        }
                        self.children.push(x);
                        proof {
                            let rewritten = Term {
                                tag: body.tag,
                                args: body.args.take(n - 2).push(body.args[n - 1]),
                            };
                            lemma_terms_of_take(c.drop_last(), c.len() - 3);
                            lemma_terms_of_push(c.drop_last().take(c.len() - 3), x);
                            assert(terms_of(self.children@) =~= rewritten.args);
                            assert(self@ =~= rewritten);
                        }
                    },
                    NodeKind::I => {
                        proof {
                            assert(self@ =~= body);
                        }
                    },
                    NodeKind::ROOT => {
                        proof {
                            assert(self@ =~= body);
                        }
                    },
                    NodeKind::IDENT(_) => {
                        proof {
                            lemma_step_decreases(t);
                            assert(self@ =~= body);
                        }
                        let inner = self.step_work();
                        match inner {
                            Ok(()) => {
                                proof {
                                    lemma_terms_of_push(self.children@, op);
                                }
                                self.children.push(op);
                                proof {
                                    let ghost stepped = (match spec_step(body) {
                                        StepOutcome::Stepped(t2) => t2,
                                        StepOutcome::Stuck(_) => body,
                                    });
                                    assert(self@ =~= (Term {
                                        tag: stepped.tag,
                                        args: stepped.args.push(opv),
                                    }));
                                }
                            },
                            Err(e) => {
                                return Err(e);
                            },
                        }
                    },
                }
                self.normalize();
                Ok(())
            },
        }
    }
}

} // verus!
