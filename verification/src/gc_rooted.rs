use vstd::prelude::*;

use crate::gc::{Node, Traverser, Visitor};

verus! {

/// An expression kept as a garbage-collection root.
pub struct GCRooted<T>(pub T);

/// Keeps the expressions that are still to be evaluated reachable.
pub struct GCRootManager<T> {
    roots: Vec<GCRooted<T>>,
    first_live: usize,
}

impl<T: Traverser> GCRootManager<T> {
    /// The expressions still rooted.
    pub closed spec fn live(&self) -> Seq<GCRooted<T>> {
        if self.first_live <= self.roots@.len() {
            self.roots@.skip(self.first_live as int)
        } else {
            Seq::empty()
        }
    }

    /// Every expression rooted, including those already evaluated.
    pub closed spec fn all(&self) -> Seq<GCRooted<T>> {
        self.roots@
    }

    pub closed spec fn wf(&self) -> bool {
        self.first_live <= self.roots@.len()
    }

    pub fn new() -> (res: Self)
        ensures
            res.wf(),
            res.live().len() == 0,
    {
        GCRootManager { roots: Vec::new(), first_live: 0 }
    }

    /// Roots `expressions`, in place of whatever was rooted before.
    pub fn root(&mut self, expressions: Vec<T>)
        ensures
            final(self).wf(),
            final(self).all().len() == expressions@.len(),
            final(self).live() == final(self).all(),
            final(self).live().len() == expressions@.len(),
            forall|i: int| 0 <= i < expressions@.len() ==> #[trigger] final(self).live()[i].0 == expressions@[i],
    {
        let mut roots: Vec<GCRooted<T>> = Vec::new();
        let mut expressions = expressions;
        let ghost all = expressions@;
        let mut reversed: Vec<T> = Vec::new();
        while expressions.len() > 0
            invariant
                expressions@.len() + reversed@.len() == all.len(),
                forall|i: int| 0 <= i < expressions@.len() ==> #[trigger] expressions@[i] == all[i],
                forall|i: int| 0 <= i < reversed@.len() ==> #[trigger] reversed@[i] == all[all.len() - 1 - i],
            decreases expressions@.len(),
        {
            let e = expressions.pop().unwrap();
            reversed.push(e);
        }
        while reversed.len() > 0
            invariant
                roots@.len() + reversed@.len() == all.len(),
                forall|i: int| 0 <= i < reversed@.len() ==> #[trigger] reversed@[i] == all[all.len() - 1 - i],
                forall|i: int| 0 <= i < roots@.len() ==> #[trigger] roots@[i].0 == all[i],
            decreases reversed@.len(),
        {
            let e = reversed.pop().unwrap();
            roots.push(GCRooted(e));
        }
        self.roots = roots;
        self.first_live = 0;
        assert(self.live() =~= self.roots@);
        assert(self.all() == self.roots@);
    }

    /// How many expressions are rooted, including those already evaluated.
    pub fn len(&self) -> (res: usize)
        ensures
            res == self.all().len(),
    {
        self.roots.len()
    }

    /// The `i`th rooted expression.
    pub fn get(&self, i: usize) -> (res: &T)
        requires
            i < self.all().len(),
        ensures
            *res == self.all()[i as int].0,
    {
        &self.roots[i].0
    }

    /// Stops rooting the expressions before position `i` (all of them, if
    /// there are fewer).
    pub fn unroot_before(&mut self, i: usize)
        ensures
            final(self).all() == old(self).all(),
            i <= old(self).all().len() ==> final(self).live() == old(self).all().skip(i as int),
            i > old(self).all().len() ==> final(self).live().len() == 0,
    {
        if i <= self.roots.len() {
            self.first_live = i;
        } else {
            self.first_live = self.roots.len();
            assert(self.live() =~= Seq::<GCRooted<T>>::empty());
        }
    }

    /// Hands every expression still rooted to the visitor.
    pub fn traverse_roots(&self, visitor: &mut Visitor)
        ensures
            final(visitor).debug == old(visitor).debug,
            final(visitor).pending() == old(visitor).pending() + rooted_nodes(self.live()),
    {
        if self.first_live > self.roots.len() {
            assert(old(visitor).pending() + rooted_nodes(self.live()) =~= old(visitor).pending());
            return;
        }
        let mut i = self.first_live;
        while i < self.roots.len()
            invariant
                self.first_live <= i <= self.roots@.len(),
                visitor.debug == old(visitor).debug,
                visitor.pending() == old(visitor).pending() + rooted_nodes(
                    self.roots@.subrange(self.first_live as int, i as int),
                ),
            decreases self.roots.len() - i,
        {
            let ghost before = visitor.pending();
            visitor.traverse(&self.roots[i].0);
            proof {
                let part = self.roots@.subrange(self.first_live as int, i + 1);
                assert(part.drop_last() =~= self.roots@.subrange(self.first_live as int, i as int));
                assert(part.last() == self.roots@[i as int]);
                assert(visitor.pending() =~= old(visitor).pending() + rooted_nodes(part));
            }
            i = i + 1;
        }
        assert(self.roots@.subrange(self.first_live as int, i as int) =~= self.live());
    }
}

/// The objects that the rooted expressions refer to directly, in order.
pub open spec fn rooted_nodes<T: Traverser>(s: Seq<GCRooted<T>>) -> Seq<Node>
    decreases s.len(),
{
    if s.len() == 0 {
        Seq::empty()
    } else {
        rooted_nodes(s.drop_last()) + s.last().0.spec_nodes()
    }
}

impl<T: Traverser> Traverser for GCRooted<T> {
    open spec fn spec_nodes(&self) -> Seq<Node> {
        self.0.spec_nodes()
    }

    fn traverse(&self, visitor: &mut Visitor) {
        visitor.traverse(&self.0)
    }
}

} // verus!
