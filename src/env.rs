use vstd::prelude::*;
use crate::text::str_eq;

verus! {

/// A name bound to the index of its defining node.
pub struct Binding {
    pub name: String,
    pub node: usize,
}

/// A lexical environment: bindings from outermost to innermost. A `let` body
/// sees one more binding on top; resolution finds the innermost one.
pub struct Env {
    bindings: Vec<Binding>,
}

/// The innermost binding of a name, if any.
pub open spec fn resolve_in(bs: Seq<(Seq<char>, usize)>, name: Seq<char>) -> Option<usize>
    decreases bs.len(),
{
    if bs.len() == 0 {
        None
    } else if bs.last().0 == name {
        Some(bs.last().1)
    } else {
        resolve_in(bs.drop_last(), name)
    }
}

impl Env {
    /// The bindings, outermost first.
    pub closed spec fn view(&self) -> Seq<(Seq<char>, usize)> {
        self.bindings@.map_values(|b: Binding| (b.name@, b.node))
    }

    pub open spec fn resolve_spec(&self, name: Seq<char>) -> Option<usize> {
        resolve_in(self.view(), name)
    }

    /// Every binding refers to a node below `n`.
    pub open spec fn bound_below(&self, n: int) -> bool {
        forall|j: int| 0 <= j < self.view().len() ==> self.view()[j].1 < n
    }

    pub fn new() -> (e: Env)
        ensures
            e.view() == Seq::<(Seq<char>, usize)>::empty(),
    {
        let e = Env { bindings: Vec::new() };
        assert(e.view() =~= Seq::<(Seq<char>, usize)>::empty());
        e
    }

    /// The defining node of a name: the innermost binding wins.
    pub fn resolve(&self, name: &str) -> (r: Option<usize>)
        ensures
            r == self.resolve_spec(name@),
    {
        let mut j: usize = self.bindings.len();
        let ghost v = self.view();
        assert(v.take(j as int) == v);
        while j > 0
            invariant
                j <= self.bindings@.len(),
                v == self.view(),
                resolve_in(v, name@) == resolve_in(v.take(j as int), name@),
            decreases j,
        {
            assert(v.take(j as int).drop_last() == v.take(j as int - 1));
            if str_eq(self.bindings[j - 1].name.as_str(), name) {
                return Some(self.bindings[j - 1].node);
            }
            j = j - 1;
        }
        None
    }

    /// Binds a name in the innermost frame.
    pub fn bind(&mut self, name: String, node: usize)
        ensures
            final(self).view() == old(self).view().push((name@, node)),
    {
        let ghost n = name@;
        self.bindings.push(Binding { name, node });
        assert(self.view() =~= old(self).view().push((n, node)));
    }

    /// Drops the innermost binding.
    pub fn unbind_last(&mut self)
        requires
            old(self).view().len() > 0,
        ensures
            final(self).view() == old(self).view().drop_last(),
    {
        self.bindings.pop();
        assert(self.view() =~= old(self).view().drop_last());
    }

    pub fn len(&self) -> (r: usize)
        ensures
            r == self.view().len(),
    {
        self.bindings.len()
    }
}

/// A name bound last resolves to the node it was bound to, and every other name
/// resolves as before.
pub proof fn lemma_resolve_after_bind(bs: Seq<(Seq<char>, usize)>, name: Seq<char>, node: usize, other: Seq<char>)
    ensures
        resolve_in(bs.push((name, node)), name) == Some(node),
        other != name ==> resolve_in(bs.push((name, node)), other) == resolve_in(bs, other),
{
    assert(bs.push((name, node)).drop_last() == bs);
}

} // verus!
