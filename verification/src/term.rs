//! The term representation: a tagged node with an argument stack, its
//! mathematical model, and the canonicalizing flatten operation.

use vstd::prelude::*;

verus! {

/// The mathematical tag of a term head: the sentinel root, one of the three
/// combinators, or an atom named by its characters.
pub enum Tag {
    Root,
    S,
    K,
    I,
    Atom(Seq<char>),
}

/// The mathematical model of a term: a tag applied to an ordered argument
/// stack.  `args.last()` is the topmost element of the stack, which is the
/// leftmost argument of the application; `args[0]` is the bottommost, the
/// rightmost argument.  The term denotes the left-associated application of
/// `tag` to the arguments read from the top of the stack downwards.
#[verifier::ext_equal]
pub struct Term {
    pub tag: Tag,
    pub args: Seq<Term>,
}

/// The executable tag of a node.  Variant names follow the source alphabet;
/// `IDENT` carries the name of an atom.
#[allow(non_camel_case_types)]
#[derive(Debug)]
pub enum NodeKind {
    ROOT,
    S,
    K,
    I,
    IDENT(String),
}

/// A term tree node: a tag plus the stack of argument subtrees, with the
/// topmost stack element stored last.  Any tree is a well-formed term; there
/// is no further invariant.
#[derive(Debug)]
pub struct Node {
    pub kind: NodeKind,
    pub children: Vec<Node>,
}

/// The tag a node kind stands for.
pub open spec fn tag_of(k: NodeKind) -> Tag {
    match k {
        NodeKind::ROOT => Tag::Root,
        NodeKind::S => Tag::S,
        NodeKind::K => Tag::K,
        NodeKind::I => Tag::I,
        NodeKind::IDENT(name) => Tag::Atom(name@),
    }
}

/// The term a node tree stands for.
pub open spec fn term_of(n: Node) -> Term
    decreases n,
{
    Term { tag: tag_of(n.kind), args: terms_of(n.children@) }
}

/// The terms a sequence of node trees stands for, element by element.
pub open spec fn terms_of(s: Seq<Node>) -> Seq<Term>
    decreases s,
{
    if s.len() == 0 {
        Seq::empty()
    } else {
        terms_of(s.drop_last()).push(term_of(s.last()))
    }
}

impl View for NodeKind {
    type V = Tag;

    open spec fn view(&self) -> Tag {
        tag_of(*self)
    }
}

impl View for Node {
    type V = Term;

    open spec fn view(&self) -> Term {
        term_of(*self)
    }
}

/// The number of nodes in a term: the head itself plus all argument subtrees.
pub open spec fn size(t: Term) -> nat
    decreases t,
{
    1 + size_seq(t.args)
}

/// The total number of nodes in a sequence of terms.
pub open spec fn size_seq(s: Seq<Term>) -> nat
    decreases s,
{
    if s.len() == 0 {
        0
    } else {
        size(s.last()) + size_seq(s.drop_last())
    }
}

/// A childless term.
pub open spec fn leaf(g: Tag) -> Term {
    Term { tag: g, args: Seq::empty() }
}

/// One canonicalization pass: absorb one level of nesting from the topmost
/// argument into the term's own stack.  The topmost argument `h` is removed,
/// its own arguments are spliced into the stack in their stored order, and a
/// bare (childless) copy of `h` becomes the new topmost element.  A term with
/// an empty stack is left unchanged.
pub open spec fn flatten_top(t: Term) -> Term {
    if t.args.len() == 0 {
        t
    } else {
        let h = t.args.last();
        Term { tag: t.tag, args: t.args.drop_last() + h.args + seq![leaf(h.tag)] }
    }
}

/// `terms_of` maps the sequence element by element.
pub proof fn lemma_terms_of(s: Seq<Node>)
    ensures
        terms_of(s).len() == s.len(),
        forall|i: int| 0 <= i < s.len() ==> terms_of(s)[i] == term_of(s[i]),
    decreases s.len(),
{
    if s.len() > 0 {
        lemma_terms_of(s.drop_last());
    }
}

/// `terms_of` distributes over concatenation.
pub proof fn lemma_terms_of_concat(a: Seq<Node>, b: Seq<Node>)
    ensures
        terms_of(a + b) == terms_of(a) + terms_of(b),
    decreases b.len(),
{
    if b.len() == 0 {
        assert(a + b =~= a);
        assert(terms_of(a) + terms_of(b) =~= terms_of(a));
    } else {
        lemma_terms_of_concat(a, b.drop_last());
        assert((a + b).drop_last() =~= a + b.drop_last());
        assert((a + b).last() == b.last());
        assert(terms_of(a + b) =~= terms_of(a) + terms_of(b));
    }
}

/// `terms_of` commutes with `push`.
pub proof fn lemma_terms_of_push(s: Seq<Node>, n: Node)
    ensures
        terms_of(s.push(n)) == terms_of(s).push(term_of(n)),
{
    assert(s.push(n).drop_last() =~= s);
    assert(s.push(n).last() == n);
}

/// `terms_of` on a one-element sequence.
pub proof fn lemma_terms_of_singleton(n: Node)
    ensures
        terms_of(seq![n]) == seq![term_of(n)],
{
    let s = seq![n];
    assert(s.len() == 1);
    assert(s.last() == n);
    assert(s.drop_last() =~= Seq::<Node>::empty());
    assert(terms_of(s.drop_last()) =~= Seq::<Term>::empty());
    assert(terms_of(s) == terms_of(s.drop_last()).push(term_of(n)));
    assert(terms_of(s) =~= seq![term_of(n)]);
}

/// `terms_of` commutes with taking a prefix.
pub proof fn lemma_terms_of_take(s: Seq<Node>, m: int)
    requires
        0 <= m <= s.len(),
    ensures
        terms_of(s.take(m)) == terms_of(s).take(m),
{
    lemma_terms_of(s);
    lemma_terms_of(s.take(m));
    assert(terms_of(s.take(m)) =~= terms_of(s).take(m));
}

/// `size_seq` distributes over concatenation.
pub proof fn lemma_size_seq_concat(a: Seq<Term>, b: Seq<Term>)
    ensures
        size_seq(a + b) == size_seq(a) + size_seq(b),
    decreases b.len(),
{
    if b.len() == 0 {
        assert(a + b =~= a);
    } else {
        lemma_size_seq_concat(a, b.drop_last());
        assert((a + b).drop_last() =~= a + b.drop_last());
        assert((a + b).last() == b.last());
    }
}

/// Flattening preserves the number of nodes: the topmost argument's head is
/// kept as the bare copy and its arguments are spliced in unchanged.
pub proof fn lemma_flatten_top_size(t: Term)
    ensures
        size(flatten_top(t)) == size(t),
{
    if t.args.len() > 0 {
        let h = t.args.last();
        lemma_size_seq_concat(t.args.drop_last() + h.args, seq![leaf(h.tag)]);
        lemma_size_seq_concat(t.args.drop_last(), h.args);
        assert(size_seq(seq![leaf(h.tag)]) == size(leaf(h.tag))) by {
            assert(seq![leaf(h.tag)].drop_last() =~= Seq::<Term>::empty());
        }
        assert(size(leaf(h.tag)) == 1) by {
            assert(size_seq(leaf(h.tag).args) == 0);
        }
        assert(size_seq(t.args) == size(h) + size_seq(t.args.drop_last()));
    }
}

impl Clone for NodeKind {
    /// A clone stands for the same tag.
    fn clone(&self) -> (r: Self)
        ensures
            r@ == self@,
    {
        match self {
            NodeKind::ROOT => NodeKind::ROOT,
            NodeKind::S => NodeKind::S,
            NodeKind::K => NodeKind::K,
            NodeKind::I => NodeKind::I,
            NodeKind::IDENT(name) => NodeKind::IDENT(name.clone()),
        }
    }
}

impl Clone for Node {
    /// A clone stands for the same term.
    fn clone(&self) -> (r: Self)
        ensures
            r@ == self@,
        decreases *self,
    {
        let mut copies: Vec<Node> = Vec::new();
        let mut j: usize = 0;
        while j < self.children.len()
            invariant
                j <= self.children@.len(),
                copies@.len() == j,
                terms_of(copies@) == terms_of(self.children@.take(j as int)),
            decreases self.children@.len() - j,
        {
            let child = self.children[j].clone();
            proof {
                assert(copies@.push(child).drop_last() =~= copies@);
                assert(self.children@.take(j + 1).drop_last() =~= self.children@.take(
                    j as int,
                ));
                assert(self.children@.take(j + 1).last() == self.children@[j as int]);
            }
            copies.push(child);
            j += 1;
        }
        proof {
            assert(self.children@.take(self.children@.len() as int) =~= self.children@);
        }
        let r = Node { kind: self.kind.clone(), children: copies };
        proof {
            assert(r@ =~= self@);
        }
        r
    }
}

impl Node {
    /// A leaf or composite node headed by the `S` combinator.
    pub fn s(children: Vec<Node>) -> (r: Self)
        ensures
            r@ == (Term { tag: Tag::S, args: terms_of(children@) }),
    {
        Node { kind: NodeKind::S, children }
    }

    /// A leaf or composite node headed by the `K` combinator.
    pub fn k(children: Vec<Node>) -> (r: Self)
        ensures
            r@ == (Term { tag: Tag::K, args: terms_of(children@) }),
    {
        Node { kind: NodeKind::K, children }
    }

    /// A leaf or composite node headed by the `I` combinator.
    pub fn i(children: Vec<Node>) -> (r: Self)
        ensures
            r@ == (Term { tag: Tag::I, args: terms_of(children@) }),
    {
        Node { kind: NodeKind::I, children }
    }

    /// A leaf or composite node headed by an atom with the given name.
    pub fn new(ident: String, children: Vec<Node>) -> (r: Self)
        ensures
            r@ == (Term { tag: Tag::Atom(ident@), args: terms_of(children@) }),
    {
        Node { kind: NodeKind::IDENT(ident), children }
    }

    /// One canonicalization pass over the receiver, realizing
    /// [`flatten_top`]: the topmost argument's nesting is absorbed into the
    /// receiver's own stack.
    pub fn normalize(&mut self)
        ensures
            final(self)@ == flatten_top(old(self)@),
    {
        let ghost t = old(self)@;
        if let Some(mut h) = self.children.pop() {
            proof {
                lemma_terms_of(old(self).children@);
                assert(old(self).children@.drop_last() =~= old(self).children@.subrange(
                    0,
                    old(self).children@.len() - 1,
                ));
            }
            self.children.append(&mut h.children);
            let bare = Node { kind: h.kind, children: Vec::new() };
            self.children.push(bare);
            proof {
                let oc = old(self).children@;
                let hn = oc.last();
                lemma_terms_of_concat(oc.drop_last(), hn.children@);
                assert(terms_of(oc.drop_last()) == terms_of(oc).drop_last()) by {
                    lemma_terms_of(oc);
                    lemma_terms_of(oc.drop_last());
                    assert(terms_of(oc.drop_last()) =~= terms_of(oc).drop_last());
                }
                assert(self.children@ =~= oc.drop_last() + hn.children@ + seq![
                    Node { kind: hn.kind, children: bare.children },
                ]);
                assert(terms_of(self.children@) == terms_of(oc.drop_last() + hn.children@).push(
                    term_of(self.children@.last()),
                )) by {
                    assert(self.children@.drop_last() =~= oc.drop_last() + hn.children@);
                }
                assert(term_of(self.children@.last()) == leaf(tag_of(hn.kind))) by {
                    assert(terms_of(self.children@.last().children@) =~= Seq::<Term>::empty());
                }
                assert(t.args.last() == term_of(hn)) by {
                    lemma_terms_of(oc);
                }
                let fargs = t.args.drop_last() + term_of(hn).args + seq![leaf(term_of(hn).tag)];
                assert(flatten_top(t).args == fargs);
                assert(terms_of(self.children@) =~= fargs);
                assert(final(self)@ =~= flatten_top(t));
            }
        } else {
            proof {
                assert(final(self)@ =~= flatten_top(t));
            }
        }
    }
}

} // verus!
