//! The laws of the rewrite engine, stated over the mathematical model and
//! proved once and for all: flatten idempotence, the three combinator laws,
//! the arity guard, and the atom skip.

use vstd::prelude::*;

use crate::reduce::spec_step;
use crate::reduce::ArityError;
use crate::reduce::StepOutcome;
use crate::term::flatten_top;
use crate::term::leaf;
use crate::term::Tag;
use crate::term::Term;

verus! {

/// A spine anchored in the `Root` sentinel: the given arguments stacked
/// under it, the last one topmost.
pub open spec fn rooted(args: Seq<Term>) -> Term {
    Term { tag: Tag::Root, args: args }
}

/// Flatten idempotence: after one flattening the topmost stack element is a
/// bare head with no nesting of its own left to absorb, so a second
/// flattening straight after the first changes nothing.
pub proof fn lemma_flatten_top_idempotent(t: Term)
    ensures
        flatten_top(flatten_top(t)) == flatten_top(t),
{
    if t.args.len() > 0 {
        let h = t.args.last();
        let f = flatten_top(t);
        assert(f.args.last() == leaf(h.tag));
        assert(flatten_top(f).args =~= f.args);
        assert(flatten_top(f) =~= f);
    }
}

/// K elimination: for any terms `x` and `y`, one step on the spine `K x y`
/// yields exactly `x` — re-anchored as the whole spine — and `y` is
/// discarded, appearing nowhere in the result.
pub proof fn lemma_k_elimination(x: Term, y: Term)
    ensures
        spec_step(rooted(seq![y, x, leaf(Tag::K)])) == StepOutcome::Stepped(
            flatten_top(rooted(seq![x])),
        ),
{
    let t = rooted(seq![y, x, leaf(Tag::K)]);
    assert(flatten_top(t).args =~= t.args);
    assert(flatten_top(t) =~= t);
    let body = Term { tag: t.tag, args: t.args.drop_last() };
    assert(body.args =~= seq![y, x]);
    assert(body.args.take(0).push(x) =~= seq![x]);
    assert((Term { tag: body.tag, args: body.args.take(0).push(x) }) =~= rooted(seq![x]));
}

/// I elimination: for any term `x`, one step on the spine `I x` yields
/// exactly `x`, by deletion of the `I` alone; `x` itself is not rebuilt.
pub proof fn lemma_i_elimination(x: Term)
    ensures
        spec_step(rooted(seq![x, leaf(Tag::I)])) == StepOutcome::Stepped(
            flatten_top(rooted(seq![x])),
        ),
{
    let t = rooted(seq![x, leaf(Tag::I)]);
    assert(flatten_top(t).args =~= t.args);
    assert(flatten_top(t) =~= t);
    let body = Term { tag: t.tag, args: t.args.drop_last() };
    assert(body.args =~= seq![x]);
    assert(body =~= rooted(seq![x]));
}

/// S expansion: for any terms `x`, `y` and `z`, one step on the spine
/// `S x y z` yields the spine `x z (y z)`, where `(y z)` is a fresh term:
/// `y` with `z` appended as its new rightmost argument.
pub proof fn lemma_s_expansion(x: Term, y: Term, z: Term)
    ensures
        spec_step(rooted(seq![z, y, x, leaf(Tag::S)])) == StepOutcome::Stepped(
            flatten_top(rooted(seq![(Term { tag: y.tag, args: seq![z] + y.args }), z, x])),
        ),
{
    let t = rooted(seq![z, y, x, leaf(Tag::S)]);
    assert(flatten_top(t).args =~= t.args);
    assert(flatten_top(t) =~= t);
    let body = Term { tag: t.tag, args: t.args.drop_last() };
    assert(body.args =~= seq![z, y, x]);
    let yz = Term { tag: y.tag, args: seq![z] + y.args };
    assert(body.args.take(0) + seq![yz, z, x] =~= seq![yz, z, x]);
    assert((Term { tag: body.tag, args: body.args.take(0) + seq![yz, z, x] }) =~= rooted(
        seq![yz, z, x],
    ));
}

/// Arity guard: one step on `S x` or on `K x`, where the combinator has only
/// one argument beneath it, is stuck with the arity failure naming that
/// combinator; `apply` then reports the failure and leaves the term
/// untouched.
pub proof fn lemma_arity_guard(x: Term)
    ensures
        spec_step(rooted(seq![x, leaf(Tag::S)])) == StepOutcome::Stuck(ArityError::S),
        spec_step(rooted(seq![x, leaf(Tag::K)])) == StepOutcome::Stuck(ArityError::K),
{
    let ts = rooted(seq![x, leaf(Tag::S)]);
    assert(flatten_top(ts).args =~= ts.args);
    assert(flatten_top(ts) =~= ts);
    let tk = rooted(seq![x, leaf(Tag::K)]);
    assert(flatten_top(tk).args =~= tk.args);
    assert(flatten_top(tk) =~= tk);
}

/// Atom skip: a step on a spine whose topmost element is an atom reduces the
/// spine beneath the atom and restores the atom on top afterwards, in its
/// original topmost position; if the spine beneath is stuck, so is the whole
/// step, with the same failure.
pub proof fn lemma_atom_skip(t: Term, name: Seq<char>)
    ensures
        spec_step(Term { tag: t.tag, args: t.args.push(leaf(Tag::Atom(name))) })
            == (match spec_step(t) {
            StepOutcome::Stepped(inner) => StepOutcome::Stepped(
                flatten_top(Term { tag: inner.tag, args: inner.args.push(leaf(Tag::Atom(name))) }),
            ),
            StepOutcome::Stuck(e) => StepOutcome::Stuck(e),
        }),
{
    let a = leaf(Tag::Atom(name));
    let u = Term { tag: t.tag, args: t.args.push(a) };
    assert(flatten_top(u).args =~= u.args);
    assert(flatten_top(u) =~= u);
    let body = Term { tag: u.tag, args: u.args.drop_last() };
    assert(body.args =~= t.args);
    assert(body =~= t);
}

} // verus!
