use vstd::prelude::*;

use crate::compound_procedure::ClosureData;
use crate::environment::{Bindings, ScopeHeap};
use crate::gc::{value_nodes, Node, Visitor};
use crate::gc_rooted::rooted_nodes;
use crate::interpreter::Interpreter;
use crate::number::NumberSystem;
use crate::object_tracker::{TrackedObject, TrackedRef};
use crate::pair::{count_unvisited, lemma_count_unvisited_update, PairHeap};
use crate::text::{concat, decimal, usize_to_string};
use crate::value::SourceValue;

verus! {

/// The objects that a sequence of values refers to, in order.
pub open spec fn values_nodes(s: Seq<SourceValue>) -> Seq<Node>
    decreases s.len(),
{
    if s.len() == 0 {
        Seq::empty()
    } else {
        values_nodes(s.drop_last()) + value_nodes(s.last().0)
    }
}

/// The objects that the values of some bindings refer to, in order.
pub open spec fn bindings_nodes(b: Bindings) -> Seq<Node>
    decreases b.len(),
{
    if b.len() == 0 {
        Seq::empty()
    } else {
        bindings_nodes(b.drop_last()) + value_nodes(b.last().1.0)
    }
}

/// The scope that an optional scope reference refers to.
pub open spec fn scope_nodes(r: Option<TrackedRef>) -> Seq<Node> {
    match r {
        Some(r) => seq![Node::Scope(r.0)],
        None => Seq::empty(),
    }
}

/// The scopes of a stack of scope references.
pub open spec fn stack_nodes(s: Seq<TrackedRef>) -> Seq<Node>
    decreases s.len(),
{
    if s.len() == 0 {
        Seq::empty()
    } else {
        stack_nodes(s.drop_last()) + seq![Node::Scope(s.last().0)]
    }
}

/// The objects that object `n` refers to: a pair its car and cdr, a scope its
/// parent and the values bound in it, a procedure the scope it captured and
/// the expressions of its body. An object that is not there refers to nothing.
pub open spec fn node_children(pairs: PairHeap, scopes: ScopeHeap, procedures: Seq<ClosureData>, n: Node) -> Seq<Node> {
    match n {
        Node::Pair(i) => if i < pairs.len() {
            value_nodes(pairs[i as int].object.car.0) + value_nodes(pairs[i as int].object.cdr.0)
        } else {
            Seq::empty()
        },
        Node::Scope(i) => if i < scopes.len() {
            scope_nodes(scopes[i as int].object.parent) + bindings_nodes(scopes[i as int].object.bindings@)
        } else {
            Seq::empty()
        },
        Node::Procedure(i) => if i < procedures.len() {
            scope_nodes(procedures[i as int].captured_lexical_scope.0) + values_nodes(
                procedures[i as int].body.0.0@,
            )
        } else {
            Seq::empty()
        },
    }
}

/// Whether `path` follows references: each object refers to the next.
pub open spec fn is_path(pairs: PairHeap, scopes: ScopeHeap, procedures: Seq<ClosureData>, path: Seq<Node>) -> bool {
    forall|k: int|
        0 <= k < path.len() - 1 ==> #[trigger] node_children(pairs, scopes, procedures, path[k]).contains(path[k + 1])
}

/// Whether object `n` carries a reachability mark (an object that is not there
/// counts as marked).
pub open spec fn is_marked(pairs: PairHeap, scopes: ScopeHeap, seen: Seq<bool>, n: Node) -> bool {
    match n {
        Node::Pair(i) => i >= pairs.len() || pairs[i as int].is_reachable,
        Node::Scope(i) => i >= scopes.len() || scopes[i as int].is_reachable,
        Node::Procedure(i) => i >= seen.len() || seen[i as int],
    }
}

/// Every object that a marked object refers to is marked or still pending.
pub open spec fn marks_closed(
    pairs: PairHeap,
    scopes: ScopeHeap,
    seen: Seq<bool>,
    pairs0: PairHeap,
    scopes0: ScopeHeap,
    procedures: Seq<ClosureData>,
    pending: Seq<Node>,
) -> bool {
    forall|m: Node, c: Node|
        #![trigger is_marked(pairs, scopes, seen, m), node_children(pairs0, scopes0, procedures, m).contains(c)]
        is_marked(pairs, scopes, seen, m) && node_children(pairs0, scopes0, procedures, m).contains(c) ==> is_marked(
            pairs,
            scopes,
            seen,
            c,
        ) || pending.contains(c)
}

/// Every root is marked or still pending.
pub open spec fn roots_covered(pairs: PairHeap, scopes: ScopeHeap, seen: Seq<bool>, roots: Seq<Node>, pending: Seq<Node>) -> bool {
    forall|j: int| 0 <= j < roots.len() ==> is_marked(pairs, scopes, seen, #[trigger] roots[j]) || pending.contains(roots[j])
}

/// Whether object `n` is the same in the heaps before and after: its contents
/// and whether its cycles were broken.
pub open spec fn kept(pairs0: PairHeap, scopes0: ScopeHeap, pairs1: PairHeap, scopes1: ScopeHeap, n: Node) -> bool {
    match n {
        Node::Pair(i) => i < pairs0.len() ==> i < pairs1.len() && pairs1[i as int].object == pairs0[i as int].object
            && pairs1[i as int].has_had_cycles_broken == pairs0[i as int].has_had_cycles_broken,
        Node::Scope(i) => i < scopes0.len() ==> i < scopes1.len() && scopes1[i as int].object == scopes0[i as int].object
            && scopes1[i as int].has_had_cycles_broken == scopes0[i as int].has_had_cycles_broken,
        Node::Procedure(_) => true,
    }
}

/// The reachability marks of a heap.
pub open spec fn reach_flags<T>(heap: Seq<TrackedObject<T>>) -> Seq<bool> {
    heap.map_values(|o: TrackedObject<T>| o.is_reachable)
}

/// Whether two heaps hold the same objects, whatever their marks.
pub open spec fn same_objects<T>(a: Seq<TrackedObject<T>>, b: Seq<TrackedObject<T>>) -> bool {
    &&& a.len() == b.len()
    &&& forall|i: int| 0 <= i < a.len() ==> (#[trigger] b[i]).object == a[i].object
        && b[i].has_had_cycles_broken == a[i].has_had_cycles_broken
}

/// Whether `b` is `a` with only unmarked objects changed, and no marks changed.
pub open spec fn marked_kept<T>(a: Seq<TrackedObject<T>>, b: Seq<TrackedObject<T>>) -> bool {
    &&& a.len() == b.len()
    &&& forall|i: int| 0 <= i < a.len() ==> (#[trigger] b[i]).is_reachable == a[i].is_reachable
    &&& forall|i: int| 0 <= i < a.len() && a[i].is_reachable ==> #[trigger] b[i] == a[i]
}

proof fn lemma_contains_in_tail(a: Seq<Node>, extra: Seq<Node>, c: Node)
    requires
        extra.contains(c),
    ensures
        (a + extra).contains(c),
{
    let k = choose|k: int| 0 <= k < extra.len() && extra[k] == c;
    assert((a + extra)[a.len() + k] == c);
}

proof fn lemma_contains_after_pop(pending: Seq<Node>, extra: Seq<Node>, c: Node)
    requires
        pending.len() > 0,
        pending.contains(c),
        c != pending.last(),
    ensures
        (pending.drop_last() + extra).contains(c),
{
    let k = choose|k: int| 0 <= k < pending.len() && pending[k] == c;
    assert(k < pending.len() - 1);
    assert((pending.drop_last() + extra)[k] == c);
}

/// Objects reached from a root through references are marked, once the marks
/// are closed and cover the roots.
proof fn lemma_path_marked(
    pairs: PairHeap,
    scopes: ScopeHeap,
    seen: Seq<bool>,
    pairs0: PairHeap,
    scopes0: ScopeHeap,
    procedures: Seq<ClosureData>,
    roots: Seq<Node>,
    path: Seq<Node>,
)
    requires
        marks_closed(pairs, scopes, seen, pairs0, scopes0, procedures, Seq::empty()),
        roots_covered(pairs, scopes, seen, roots, Seq::empty()),
        path.len() > 0,
        roots.contains(path[0]),
        is_path(pairs0, scopes0, procedures, path),
    ensures
        is_marked(pairs, scopes, seen, path.last()),
    decreases path.len(),
{
    if path.len() == 1 {
        let j = choose|j: int| 0 <= j < roots.len() && roots[j] == path[0];
        assert(is_marked(pairs, scopes, seen, roots[j]) || Seq::<Node>::empty().contains(roots[j]));
    } else {
        let shorter = path.drop_last();
        assert forall|k: int| 0 <= k < shorter.len() - 1 implies #[trigger] node_children(
            pairs0,
            scopes0,
            procedures,
            shorter[k],
        ).contains(shorter[k + 1]) by {
            assert(node_children(pairs0, scopes0, procedures, path[k]).contains(path[k + 1]));
        }
        lemma_path_marked(pairs, scopes, seen, pairs0, scopes0, procedures, roots, shorter);
        let k = path.len() - 2;
        assert(node_children(pairs0, scopes0, procedures, path[k]).contains(path[k + 1]));
        assert(shorter.last() == path[k]);
        assert(is_marked(pairs, scopes, seen, path.last()) || Seq::<Node>::empty().contains(path.last()));
    }
}

/// Whether object `n` exists: a pair or scope of the heaps, or a procedure.
pub open spec fn exists_node(pairs: PairHeap, scopes: ScopeHeap, procedures_len: int, n: Node) -> bool {
    match n {
        Node::Pair(i) => i < pairs.len(),
        Node::Scope(i) => i < scopes.len(),
        Node::Procedure(i) => i < procedures_len,
    }
}

/// Whether some path of references leads from one of `roots` to `n`.
pub open spec fn reachable(pairs: PairHeap, scopes: ScopeHeap, procedures: Seq<ClosureData>, roots: Seq<Node>, n: Node) -> bool {
    exists|path: Seq<Node>|
        path.len() > 0 && roots.contains(path[0]) && #[trigger] is_path(pairs, scopes, procedures, path) && path.last()
            == n
}

/// A path extends by any object that its last object refers to.
proof fn lemma_path_push(pairs: PairHeap, scopes: ScopeHeap, procedures: Seq<ClosureData>, path: Seq<Node>, c: Node)
    requires
        path.len() > 0,
        is_path(pairs, scopes, procedures, path),
        node_children(pairs, scopes, procedures, path.last()).contains(c),
    ensures
        is_path(pairs, scopes, procedures, path.push(c)),
{
    assert forall|k: int| 0 <= k < path.push(c).len() - 1 implies #[trigger] node_children(
        pairs,
        scopes,
        procedures,
        path.push(c)[k],
    ).contains(path.push(c)[k + 1]) by {
        if k < path.len() - 1 {
            assert(path.push(c)[k] == path[k]);
            assert(path.push(c)[k + 1] == path[k + 1]);
            assert(node_children(pairs, scopes, procedures, path[k]).contains(path[k + 1]));
        }
    }
}

/// Whatever an object reachable from the roots refers to is reachable too.
proof fn lemma_reachable_child(
    pairs: PairHeap,
    scopes: ScopeHeap,
    procedures: Seq<ClosureData>,
    roots: Seq<Node>,
    n: Node,
    c: Node,
)
    requires
        reachable(pairs, scopes, procedures, roots, n),
        node_children(pairs, scopes, procedures, n).contains(c),
    ensures
        reachable(pairs, scopes, procedures, roots, c),
{
    let path = choose|path: Seq<Node>|
        path.len() > 0 && roots.contains(path[0]) && #[trigger] is_path(pairs, scopes, procedures, path) && path.last()
            == n;
    lemma_path_push(pairs, scopes, procedures, path, c);
    assert(path.push(c)[0] == path[0]);
}

/// How many objects a heap holds that are not marked.
pub open spec fn count_unmarked<T>(heap: Seq<TrackedObject<T>>) -> nat {
    count_unvisited(reach_flags(heap))
}

proof fn lemma_mark_one<T>(heap: Seq<TrackedObject<T>>, i: int)
    requires
        0 <= i < heap.len(),
        !heap[i].is_reachable,
    ensures
        count_unmarked(heap.update(i, crate::object_tracker::with_reachable(heap[i], true))) + 1 == count_unmarked(heap),
{
    assert(reach_flags(heap.update(i, crate::object_tracker::with_reachable(heap[i], true))) =~= reach_flags(
        heap,
    ).update(i, true));
    lemma_count_unvisited_update(reach_flags(heap), i);
}

/// Adds the objects that `values` refer to to the visitor.
fn push_values(values: &Vec<SourceValue>, visitor: &mut Visitor)
    ensures
        final(visitor).pending() == old(visitor).pending() + values_nodes(values@),
        final(visitor).debug == old(visitor).debug,
{
    let mut i: usize = 0;
    while i < values.len()
        invariant
            i <= values@.len(),
            visitor.pending() == old(visitor).pending() + values_nodes(values@.take(i as int)),
            visitor.debug == old(visitor).debug,
        decreases values@.len() - i,
    {
        visitor.traverse(&values[i]);
        proof {
            assert(values@.take(i + 1).drop_last() =~= values@.take(i as int));
            assert(visitor.pending() =~= old(visitor).pending() + values_nodes(values@.take(i + 1)));
        }
        i = i + 1;
    }
    assert(values@.take(i as int) =~= values@);
}

/// Adds the objects that the values of `bindings` refer to to the visitor.
fn push_bindings(bindings: &Vec<(crate::string_interner::InternedString, SourceValue)>, visitor: &mut Visitor)
    ensures
        final(visitor).pending() == old(visitor).pending() + bindings_nodes(bindings@),
        final(visitor).debug == old(visitor).debug,
{
    let mut i: usize = 0;
    while i < bindings.len()
        invariant
            i <= bindings@.len(),
            visitor.pending() == old(visitor).pending() + bindings_nodes(bindings@.take(i as int)),
            visitor.debug == old(visitor).debug,
        decreases bindings@.len() - i,
    {
        visitor.traverse(&bindings[i].1);
        proof {
            assert(bindings@.take(i + 1).drop_last() =~= bindings@.take(i as int));
            assert(visitor.pending() =~= old(visitor).pending() + bindings_nodes(bindings@.take(i + 1)));
        }
        i = i + 1;
    }
    assert(bindings@.take(i as int) =~= bindings@);
}

fn push_scope(r: Option<TrackedRef>, visitor: &mut Visitor)
    ensures
        final(visitor).pending() == old(visitor).pending() + scope_nodes(r),
        final(visitor).debug == old(visitor).debug,
{
    match r {
        Some(r) => {
            visitor.visit(Node::Scope(r.0));
            assert(visitor.pending() =~= old(visitor).pending() + scope_nodes(Some(r)));
        },
        None => {
            assert(visitor.pending() =~= old(visitor).pending() + scope_nodes(r));
        },
    }
}

/// Indegrees of the objects that may be freed, counted over references from
/// such objects.
struct InDegrees {
    pairs: Vec<usize>,
    scopes: Vec<usize>,
    procedures: Vec<usize>,
}

fn zeros(n: usize) -> (res: Vec<usize>)
    ensures
        res@.len() == n,
        forall|k: int| 0 <= k < n ==> res@[k] == 0,
{
    let mut v: Vec<usize> = Vec::new();
    let mut i: usize = 0;
    while i < n
        invariant
            i <= n,
            v@.len() == i,
            forall|k: int| 0 <= k < i ==> v@[k] == 0,
        decreases n - i,
    {
        v.push(0);
        i = i + 1;
    }
    v
}

fn bump(v: &mut Vec<usize>, i: usize)
    ensures
        final(v)@.len() == old(v)@.len(),
        i >= old(v)@.len() ==> final(v)@ == old(v)@,
        i < old(v)@.len() ==> final(v)@ == old(v)@.update(
            i as int,
            if old(v)@[i as int] < usize::MAX {
                (old(v)@[i as int] + 1) as usize
            } else {
                old(v)@[i as int]
            },
        ),
{
    if i < v.len() && v[i] < usize::MAX {
        let d = v[i] + 1;
        v.set(i, d);
    }
}

/// Removes one reference to position `i`; true when none are left.
fn drop_edge(v: &mut Vec<usize>, i: usize) -> (res: bool)
    ensures
        final(v)@.len() == old(v)@.len(),
        i < old(v)@.len() && old(v)@[i as int] > 0 ==> final(v)@ == old(v)@.update(
            i as int,
            (old(v)@[i as int] - 1) as usize,
        ) && res == (old(v)@[i as int] == 1),
        !(i < old(v)@.len() && old(v)@[i as int] > 0) ==> final(v)@ == old(v)@ && !res,
{
    if i < v.len() && v[i] > 0 {
        let d = v[i] - 1;
        v.set(i, d);
        d == 0
    } else {
        false
    }
}

impl InDegrees {
    /// Whether a count is kept for `x`.
    spec fn has(&self, x: Node) -> bool {
        match x {
            Node::Pair(i) => i < self.pairs@.len(),
            Node::Scope(i) => i < self.scopes@.len(),
            Node::Procedure(i) => i < self.procedures@.len(),
        }
    }

    /// The count kept for `x`.
    spec fn deg(&self, x: Node) -> int {
        match x {
            Node::Pair(i) => if i < self.pairs@.len() {
                self.pairs@[i as int] as int
            } else {
                0
            },
            Node::Scope(i) => if i < self.scopes@.len() {
                self.scopes@[i as int] as int
            } else {
                0
            },
            Node::Procedure(i) => if i < self.procedures@.len() {
                self.procedures@[i as int] as int
            } else {
                0
            },
        }
    }

    fn bump(&mut self, node: Node)
        ensures
            final(self).pairs@.len() == old(self).pairs@.len(),
            final(self).scopes@.len() == old(self).scopes@.len(),
            final(self).procedures@.len() == old(self).procedures@.len(),
            forall|x: Node| x != node ==> #[trigger] final(self).deg(x) == old(self).deg(x),
            final(self).deg(node) == if old(self).has(node) && old(self).deg(node) < usize::MAX {
                old(self).deg(node) + 1
            } else {
                old(self).deg(node)
            },
    {
        match node {
            Node::Pair(i) => bump(&mut self.pairs, i),
            Node::Scope(i) => bump(&mut self.scopes, i),
            Node::Procedure(i) => bump(&mut self.procedures, i),
        }
    }

    fn drop_edge(&mut self, node: Node) -> (res: bool)
        ensures
            final(self).pairs@.len() == old(self).pairs@.len(),
            final(self).scopes@.len() == old(self).scopes@.len(),
            final(self).procedures@.len() == old(self).procedures@.len(),
            forall|x: Node| x != node ==> #[trigger] final(self).deg(x) == old(self).deg(x),
            old(self).has(node) && old(self).deg(node) > 0 ==> final(self).deg(node) == old(self).deg(node) - 1 && res
                == (final(self).deg(node) == 0),
            !(old(self).has(node) && old(self).deg(node) > 0) ==> final(self).deg(node) == old(self).deg(node) && !res,
    {
        match node {
            Node::Pair(i) => drop_edge(&mut self.pairs, i),
            Node::Scope(i) => drop_edge(&mut self.scopes, i),
            Node::Procedure(i) => drop_edge(&mut self.procedures, i),
        }
    }

    fn is_zero(&self, node: Node) -> (res: bool)
        ensures
            res == (self.has(node) && self.deg(node) == 0),
    {
        match node {
            Node::Pair(i) => i < self.pairs.len() && self.pairs[i] == 0,
            Node::Scope(i) => i < self.scopes.len() && self.scopes[i] == 0,
            Node::Procedure(i) => i < self.procedures.len() && self.procedures[i] == 0,
        }
    }
}

/// Whether object `n` may be freed: a live unmarked pair or scope, or a
/// procedure neither marked nor freed.
pub open spec fn is_candidate_node(pairs: PairHeap, scopes: ScopeHeap, done: Seq<bool>, n: Node) -> bool {
    match n {
        Node::Pair(i) => i < pairs.len() && crate::object_tracker::is_sweepable(pairs[i as int]),
        Node::Scope(i) => i < scopes.len() && crate::object_tracker::is_sweepable(scopes[i as int]),
        Node::Procedure(i) => i < done.len() && !done[i as int],
    }
}

/// Object number `i` of a kind: pairs, scopes, then procedures.
pub open spec fn node_at(kind: int, i: int) -> Node {
    if kind == 0 {
        Node::Pair(i as usize)
    } else if kind == 1 {
        Node::Scope(i as usize)
    } else {
        Node::Procedure(i as usize)
    }
}

/// How many times `x` occurs in `s`.
pub open spec fn occurrences(s: Seq<Node>, x: Node) -> nat
    decreases s.len(),
{
    if s.len() == 0 {
        0
    } else {
        occurrences(s.drop_last(), x) + if s.last() == x {
            1nat
        } else {
            0nat
        }
    }
}

/// How many references `x` receives from the candidates among the first `n`
/// objects of a kind.
pub open spec fn refs_in_kind(
    pairs: PairHeap,
    scopes: ScopeHeap,
    procedures: Seq<ClosureData>,
    cand: spec_fn(Node) -> bool,
    kind: int,
    n: int,
    x: Node,
) -> nat
    decreases n,
{
    if n <= 0 {
        0
    } else {
        let y = node_at(kind, n - 1);
        refs_in_kind(pairs, scopes, procedures, cand, kind, n - 1, x) + if cand(y) {
            occurrences(node_children(pairs, scopes, procedures, y), x)
        } else {
            0nat
        }
    }
}

/// How many objects there are of a kind.
pub open spec fn kind_len(pairs: PairHeap, scopes: ScopeHeap, procedures_len: int, kind: int) -> int {
    if kind == 0 {
        pairs.len() as int
    } else if kind == 1 {
        scopes.len() as int
    } else {
        procedures_len
    }
}

/// How many references `x` receives from the candidates of the kinds before `kind`.
pub open spec fn refs_before_kind(
    pairs: PairHeap,
    scopes: ScopeHeap,
    procedures: Seq<ClosureData>,
    cand: spec_fn(Node) -> bool,
    procedures_len: int,
    kind: int,
    x: Node,
) -> nat {
    (if kind > 0 {
        refs_in_kind(pairs, scopes, procedures, cand, 0, pairs.len() as int, x)
    } else {
        0nat
    }) + (if kind > 1 {
        refs_in_kind(pairs, scopes, procedures, cand, 1, scopes.len() as int, x)
    } else {
        0nat
    }) + (if kind > 2 {
        refs_in_kind(pairs, scopes, procedures, cand, 2, procedures_len, x)
    } else {
        0nat
    })
}

/// How many references `x` receives from the objects that `cand` holds of,
/// with `procedures_len` procedures.
pub open spec fn refs_to(
    pairs: PairHeap,
    scopes: ScopeHeap,
    procedures: Seq<ClosureData>,
    cand: spec_fn(Node) -> bool,
    procedures_len: int,
    x: Node,
) -> nat {
    refs_before_kind(pairs, scopes, procedures, cand, procedures_len, 3, x)
}

/// The candidates as a predicate.
pub open spec fn candidates(pairs: PairHeap, scopes: ScopeHeap, done: Seq<bool>) -> spec_fn(Node) -> bool {
    |n: Node| is_candidate_node(pairs, scopes, done, n)
}

/// `x` occurs in `s` exactly when it is counted there.
proof fn lemma_occurrences_contains(s: Seq<Node>, x: Node)
    ensures
        occurrences(s, x) > 0 <==> s.contains(x),
    decreases s.len(),
{
    if s.len() > 0 {
        lemma_occurrences_contains(s.drop_last(), x);
        if s.drop_last().contains(x) {
            let k = choose|k: int| 0 <= k < s.drop_last().len() && s.drop_last()[k] == x;
            assert(s[k] == x);
        }
        if s.contains(x) && s.last() != x {
            let k = choose|k: int| 0 <= k < s.len() && s[k] == x;
            assert(s.drop_last()[k] == x);
        }
    }
}

/// A candidate among the first `n` objects of a kind contributes its
/// references to `x` to the count.
proof fn lemma_refs_in_kind_term(
    pairs: PairHeap,
    scopes: ScopeHeap,
    procedures: Seq<ClosureData>,
    cand: spec_fn(Node) -> bool,
    kind: int,
    n: int,
    j: int,
    x: Node,
)
    requires
        0 <= j < n,
        cand(node_at(kind, j)),
    ensures
        refs_in_kind(pairs, scopes, procedures, cand, kind, n, x) >= occurrences(
            node_children(pairs, scopes, procedures, node_at(kind, j)),
            x,
        ),
    decreases n,
{
    if j < n - 1 {
        lemma_refs_in_kind_term(pairs, scopes, procedures, cand, kind, n - 1, j, x);
    }
}

/// A positive count of references to `x` among the first `n` objects of a
/// kind comes from a candidate among them that refers to `x`.
proof fn lemma_refs_in_kind_source(
    pairs: PairHeap,
    scopes: ScopeHeap,
    procedures: Seq<ClosureData>,
    cand: spec_fn(Node) -> bool,
    kind: int,
    n: int,
    x: Node,
) -> (j: int)
    requires
        refs_in_kind(pairs, scopes, procedures, cand, kind, n, x) > 0,
    ensures
        0 <= j < n,
        cand(node_at(kind, j)),
        node_children(pairs, scopes, procedures, node_at(kind, j)).contains(x),
    decreases n,
{
    let y = node_at(kind, n - 1);
    if cand(y) && occurrences(node_children(pairs, scopes, procedures, y), x) > 0 {
        lemma_occurrences_contains(node_children(pairs, scopes, procedures, y), x);
        n - 1
    } else {
        lemma_refs_in_kind_source(pairs, scopes, procedures, cand, kind, n - 1, x)
    }
}

/// Taking object `y` out of the candidates, and changing only what is not a
/// candidate afterwards, takes `y`'s references away from the counts.
proof fn lemma_refs_in_kind_free(
    pairs: PairHeap,
    scopes: ScopeHeap,
    pairs2: PairHeap,
    scopes2: ScopeHeap,
    procedures: Seq<ClosureData>,
    c1: spec_fn(Node) -> bool,
    c2: spec_fn(Node) -> bool,
    y: Node,
    kind: int,
    n: int,
    x: Node,
)
    requires
        forall|z: Node| z != y ==> #[trigger] c2(z) == c1(z),
        c1(y),
        !c2(y),
        forall|z: Node| #[trigger] c2(z) ==> node_children(pairs2, scopes2, procedures, z) == node_children(
            pairs,
            scopes,
            procedures,
            z,
        ),
        n <= usize::MAX + 1,
    ensures
        (exists|j: int| 0 <= j < n && node_at(kind, j) == y) ==> refs_in_kind(pairs2, scopes2, procedures, c2, kind, n, x)
            + occurrences(node_children(pairs, scopes, procedures, y), x) == refs_in_kind(
            pairs,
            scopes,
            procedures,
            c1,
            kind,
            n,
            x,
        ),
        !(exists|j: int| 0 <= j < n && node_at(kind, j) == y) ==> refs_in_kind(pairs2, scopes2, procedures, c2, kind, n, x)
            == refs_in_kind(pairs, scopes, procedures, c1, kind, n, x),
    decreases n,
{
    if n > 0 {
        lemma_refs_in_kind_free(pairs, scopes, pairs2, scopes2, procedures, c1, c2, y, kind, n - 1, x);
        let z = node_at(kind, n - 1);
        if z == y {
            assert(!(exists|j: int| 0 <= j < n - 1 && node_at(kind, j) == y)) by {
                if exists|j: int| 0 <= j < n - 1 && node_at(kind, j) == y {
                    let j = choose|j: int| 0 <= j < n - 1 && node_at(kind, j) == y;
                    assert(node_at(kind, j) == node_at(kind, n - 1));
                }
            }
        } else {
            if exists|j: int| 0 <= j < n && node_at(kind, j) == y {
                let j = choose|j: int| 0 <= j < n && node_at(kind, j) == y;
                assert(j < n - 1);
            }
        }
    }
}

/// Taking an existing object `y` out of the candidates takes its references
/// away from the count of every object.
proof fn lemma_refs_to_free(
    pairs: PairHeap,
    scopes: ScopeHeap,
    pairs2: PairHeap,
    scopes2: ScopeHeap,
    procedures: Seq<ClosureData>,
    c1: spec_fn(Node) -> bool,
    c2: spec_fn(Node) -> bool,
    procedures_len: int,
    y: Node,
    x: Node,
)
    requires
        forall|z: Node| z != y ==> #[trigger] c2(z) == c1(z),
        c1(y),
        !c2(y),
        forall|z: Node| #[trigger] c2(z) ==> node_children(pairs2, scopes2, procedures, z) == node_children(
            pairs,
            scopes,
            procedures,
            z,
        ),
        exists_node(pairs, scopes, procedures_len, y),
        pairs2.len() == pairs.len(),
        scopes2.len() == scopes.len(),
        pairs.len() <= usize::MAX,
        scopes.len() <= usize::MAX,
        0 <= procedures_len <= usize::MAX,
    ensures
        refs_to(pairs2, scopes2, procedures, c2, procedures_len, x) + occurrences(
            node_children(pairs, scopes, procedures, y),
            x,
        ) == refs_to(pairs, scopes, procedures, c1, procedures_len, x),
{
    lemma_refs_in_kind_free(pairs, scopes, pairs2, scopes2, procedures, c1, c2, y, 0, pairs.len() as int, x);
    lemma_refs_in_kind_free(pairs, scopes, pairs2, scopes2, procedures, c1, c2, y, 1, scopes.len() as int, x);
    lemma_refs_in_kind_free(pairs, scopes, pairs2, scopes2, procedures, c1, c2, y, 2, procedures_len, x);
    match y {
        Node::Pair(i) => {
            assert(node_at(0, i as int) == y);
        },
        Node::Scope(i) => {
            assert(node_at(1, i as int) == y);
        },
        Node::Procedure(i) => {
            assert(node_at(2, i as int) == y);
        },
    }
}

/// An object that no candidate refers to gets no references from any
/// existing candidate.
proof fn lemma_refs_to_zero(
    pairs: PairHeap,
    scopes: ScopeHeap,
    procedures: Seq<ClosureData>,
    cand: spec_fn(Node) -> bool,
    procedures_len: int,
    x: Node,
    p: Node,
)
    requires
        refs_to(pairs, scopes, procedures, cand, procedures_len, x) == 0,
        cand(p),
        exists_node(pairs, scopes, procedures_len, p),
    ensures
        !node_children(pairs, scopes, procedures, p).contains(x),
{
    lemma_occurrences_contains(node_children(pairs, scopes, procedures, p), x);
    match p {
        Node::Pair(i) => {
            assert(node_at(0, i as int) == p);
            lemma_refs_in_kind_term(pairs, scopes, procedures, cand, 0, pairs.len() as int, i as int, x);
        },
        Node::Scope(i) => {
            assert(node_at(1, i as int) == p);
            lemma_refs_in_kind_term(pairs, scopes, procedures, cand, 1, scopes.len() as int, i as int, x);
        },
        Node::Procedure(i) => {
            assert(node_at(2, i as int) == p);
            lemma_refs_in_kind_term(pairs, scopes, procedures, cand, 2, procedures_len, i as int, x);
        },
    }
}

/// An object with references from candidates has a candidate referring to it.
proof fn lemma_refs_to_source(
    pairs: PairHeap,
    scopes: ScopeHeap,
    procedures: Seq<ClosureData>,
    cand: spec_fn(Node) -> bool,
    procedures_len: int,
    x: Node,
) -> (p: Node)
    requires
        refs_to(pairs, scopes, procedures, cand, procedures_len, x) > 0,
    ensures
        cand(p),
        node_children(pairs, scopes, procedures, p).contains(x),
{
    if refs_in_kind(pairs, scopes, procedures, cand, 0, pairs.len() as int, x) > 0 {
        let j = lemma_refs_in_kind_source(pairs, scopes, procedures, cand, 0, pairs.len() as int, x);
        node_at(0, j)
    } else if refs_in_kind(pairs, scopes, procedures, cand, 1, scopes.len() as int, x) > 0 {
        let j = lemma_refs_in_kind_source(pairs, scopes, procedures, cand, 1, scopes.len() as int, x);
        node_at(1, j)
    } else {
        let j = lemma_refs_in_kind_source(pairs, scopes, procedures, cand, 2, procedures_len, x);
        node_at(2, j)
    }
}

/// Whether `path` runs through objects that `cand` holds of, each referring
/// to the next.
pub open spec fn is_candidate_path(
    pairs: PairHeap,
    scopes: ScopeHeap,
    procedures: Seq<ClosureData>,
    cand: spec_fn(Node) -> bool,
    path: Seq<Node>,
) -> bool {
    &&& forall|i: int| 0 <= i < path.len() ==> cand(#[trigger] path[i])
    &&& is_path(pairs, scopes, procedures, path)
}

/// Whether `x` is kept alive by a cycle among the objects that `cand` holds
/// of: a path through them longer than there are objects (`total`) leads to
/// it, so some of them refer to each other in a cycle from which `x` is
/// reached.
pub open spec fn kept_by_cycle(
    pairs: PairHeap,
    scopes: ScopeHeap,
    procedures: Seq<ClosureData>,
    cand: spec_fn(Node) -> bool,
    total: int,
    x: Node,
) -> bool {
    exists|path: Seq<Node>|
        path.len() == total + 1 && path.last() == x && #[trigger] is_candidate_path(
            pairs,
            scopes,
            procedures,
            cand,
            path,
        )
}

/// In a set of objects each of which some object of the set refers to, a
/// path of any length through the set leads to each of them.
proof fn lemma_backward_path(
    pairs: PairHeap,
    scopes: ScopeHeap,
    procedures: Seq<ClosureData>,
    rem: spec_fn(Node) -> bool,
    k: nat,
    x: Node,
) -> (path: Seq<Node>)
    requires
        k >= 1,
        rem(x),
        forall|z: Node| #[trigger] rem(z) ==> exists|p: Node| rem(p) && node_children(pairs, scopes, procedures, p).contains(z),
    ensures
        path.len() == k,
        path.last() == x,
        is_candidate_path(pairs, scopes, procedures, rem, path),
    decreases k,
{
    if k == 1 {
        let path = seq![x];
        assert(is_path(pairs, scopes, procedures, path));
        path
    } else {
        let p = choose|p: Node| rem(p) && node_children(pairs, scopes, procedures, p).contains(x);
        let q = lemma_backward_path(pairs, scopes, procedures, rem, (k - 1) as nat, p);
        lemma_path_push(pairs, scopes, procedures, q, x);
        let path = q.push(x);
        assert forall|i: int| 0 <= i < path.len() implies rem(#[trigger] path[i]) by {
            if i < q.len() {
                assert(path[i] == q[i]);
            }
        }
        path
    }
}

/// Along a path through candidates to a freed object, every object was freed,
/// each before the next.
proof fn lemma_path_ranks(
    pairs: PairHeap,
    scopes: ScopeHeap,
    procedures: Seq<ClosureData>,
    c0: spec_fn(Node) -> bool,
    freed: spec_fn(Node) -> bool,
    rank: Map<Node, int>,
    path: Seq<Node>,
    i: int,
)
    requires
        0 <= i < path.len(),
        is_candidate_path(pairs, scopes, procedures, c0, path),
        freed(path.last()),
        forall|z: Node| #[trigger] freed(z) ==> rank.contains_key(z),
        forall|z: Node, p: Node|
            #![trigger freed(z), node_children(pairs, scopes, procedures, p).contains(z)]
            freed(z) && c0(p) && node_children(pairs, scopes, procedures, p).contains(z) ==> freed(p) && rank[p]
                < rank[z],
    ensures
        freed(path[i]),
        rank[path[i]] + (path.len() - 1 - i) <= rank[path.last()],
    decreases path.len() - 1 - i,
{
    if i < path.len() - 1 {
        lemma_path_ranks(pairs, scopes, procedures, c0, freed, rank, path, i + 1);
        assert(node_children(pairs, scopes, procedures, path[i]).contains(path[i + 1]));
        assert(c0(path[i]));
    }
}

/// An object freed by the peel is not kept alive by a cycle.
proof fn lemma_freed_not_kept(
    pairs: PairHeap,
    scopes: ScopeHeap,
    procedures: Seq<ClosureData>,
    c0: spec_fn(Node) -> bool,
    freed: spec_fn(Node) -> bool,
    rank: Map<Node, int>,
    counter: int,
    total: int,
    x: Node,
)
    requires
        freed(x),
        counter <= total,
        forall|z: Node| #[trigger] freed(z) ==> rank.contains_key(z) && 0 <= rank[z] < counter,
        forall|z: Node, p: Node|
            #![trigger freed(z), node_children(pairs, scopes, procedures, p).contains(z)]
            freed(z) && c0(p) && node_children(pairs, scopes, procedures, p).contains(z) ==> freed(p) && rank[p]
                < rank[z],
    ensures
        !kept_by_cycle(pairs, scopes, procedures, c0, total, x),
{
    if kept_by_cycle(pairs, scopes, procedures, c0, total, x) {
        let path = choose|path: Seq<Node>|
            path.len() == total + 1 && path.last() == x && #[trigger] is_candidate_path(
                pairs,
                scopes,
                procedures,
                c0,
                path,
            );
        lemma_path_ranks(pairs, scopes, procedures, c0, freed, rank, path, 0);
        assert(freed(path[0]));
    }
}

/// A prefix holds an object no more often than the whole.
proof fn lemma_occurrences_take(s: Seq<Node>, k: int, x: Node)
    requires
        0 <= k <= s.len(),
    ensures
        occurrences(s.take(k), x) <= occurrences(s, x),
    decreases s.len(),
{
    if k < s.len() {
        assert(s.drop_last().take(k) =~= s.take(k));
        lemma_occurrences_take(s.drop_last(), k, x);
    } else {
        assert(s.take(k) =~= s);
    }
}

proof fn lemma_count_sweepable_le<T>(s: Seq<TrackedObject<T>>)
    ensures
        crate::object_tracker::count_sweepable(s) <= s.len(),
    decreases s.len(),
{
    if s.len() > 0 {
        lemma_count_sweepable_le(s.drop_last());
    }
}

proof fn lemma_count_unvisited_le(v: Seq<bool>)
    ensures
        count_unvisited(v) <= v.len(),
    decreases v.len(),
{
    if v.len() > 0 {
        lemma_count_unvisited_le(v.drop_last());
    }
}

/// Whether every object of `b` that may still be freed is as it was in `a`.
pub open spec fn candidates_unchanged<T>(a: Seq<TrackedObject<T>>, b: Seq<TrackedObject<T>>) -> bool {
    &&& a.len() == b.len()
    &&& forall|i: int| 0 <= i < b.len() && crate::object_tracker::is_sweepable(#[trigger] b[i]) ==> b[i] == a[i]
}

/// Whether objects of kinds already scanned (all kinds before `kind`, and
/// the first `i` of `kind`) include `x`.
pub open spec fn scanned(kind: int, i: int, x: Node) -> bool {
    match x {
        Node::Pair(j) => kind > 0 || (kind == 0 && j < i),
        Node::Scope(j) => kind > 1 || (kind == 1 && j < i),
        Node::Procedure(j) => kind > 2 || (kind == 2 && j < i),
    }
}

/// `t`, or the largest `usize` where `t` is larger.
pub open spec fn capped(t: nat) -> int {
    if t < usize::MAX {
        t as int
    } else {
        usize::MAX as int
    }
}

/// How many objects may still be freed: live unmarked pairs and scopes, and
/// procedures neither marked nor freed.
pub open spec fn count_candidates(pairs: PairHeap, scopes: ScopeHeap, done: Seq<bool>) -> nat {
    crate::object_tracker::count_sweepable(pairs) + crate::object_tracker::count_sweepable(scopes) + count_unvisited(done)
}

proof fn lemma_free_one<T>(a: Seq<TrackedObject<T>>, b: Seq<TrackedObject<T>>, i: int)
    requires
        a.len() == b.len(),
        0 <= i < a.len(),
        crate::object_tracker::is_sweepable(a[i]),
        !crate::object_tracker::is_sweepable(b[i]),
        forall|j: int| 0 <= j < a.len() && j != i ==> b[j] == a[j],
    ensures
        crate::object_tracker::count_sweepable(b) + 1 == crate::object_tracker::count_sweepable(a),
    decreases a.len(),
{
    if i < a.len() - 1 {
        lemma_free_one(a.drop_last(), b.drop_last(), i);
        assert(b.last() == a.last());
    } else {
        assert(a.drop_last() =~= b.drop_last());
    }
}

/// Every object that was a candidate at the start and is one no longer has
/// been given a rank below `counter`.
#[verifier::opaque]
spec fn freed_ranked(
    c0: spec_fn(Node) -> bool,
    pairs: PairHeap,
    scopes: ScopeHeap,
    done: Seq<bool>,
    rank: Map<Node, int>,
    counter: int,
) -> bool {
    forall|z: Node|
        #![trigger rank.contains_key(z)]
        (c0(z) && !is_candidate_node(pairs, scopes, done, z)) ==> (rank.contains_key(z) && 0 <= rank[z] && rank[z] < counter)
}

/// What the peel keeps true between steps: the objects still candidates are
/// unchanged candidates from the start; each freed one was ranked when it was
/// freed; and, where no count overflows, the counts kept are the references
/// each candidate gets from candidates, the worklist holds every candidate
/// without any and only such candidates, and every candidate that refers to
/// a freed object was freed before it.
spec fn peel_inv(
    pairs0: PairHeap,
    scopes0: ScopeHeap,
    procedures: Seq<ClosureData>,
    c0: spec_fn(Node) -> bool,
    plen: int,
    count0: nat,
    bounded: bool,
    pairs: PairHeap,
    scopes: ScopeHeap,
    done: Seq<bool>,
    degrees: InDegrees,
    worklist: Seq<Node>,
    rank: Map<Node, int>,
    counter: int,
) -> bool {
    &&& candidates_unchanged(pairs0, pairs)
    &&& candidates_unchanged(scopes0, scopes)
    &&& done.len() == plen
    &&& plen <= usize::MAX
    &&& pairs.len() <= usize::MAX
    &&& scopes.len() <= usize::MAX
    &&& degrees.pairs@.len() == pairs.len()
    &&& degrees.scopes@.len() == scopes.len()
    &&& degrees.procedures@.len() == done.len()
    &&& counter >= 0
    &&& counter + count_candidates(pairs, scopes, done) == count0
    &&& forall|x: Node| #[trigger] is_candidate_node(pairs, scopes, done, x) ==> c0(x)
    &&& freed_ranked(c0, pairs, scopes, done, rank, counter)
    &&& bounded ==> forall|x: Node|
        #[trigger] is_candidate_node(pairs, scopes, done, x) ==> degrees.deg(x) == refs_to(
            pairs,
            scopes,
            procedures,
            candidates(pairs, scopes, done),
            plen,
            x,
        )
    &&& bounded ==> forall|x: Node|
        #[trigger] is_candidate_node(pairs, scopes, done, x) && degrees.deg(x) == 0 ==> worklist.contains(x)
    &&& bounded ==> forall|k: int|
        0 <= k < worklist.len() && is_candidate_node(pairs, scopes, done, #[trigger] worklist[k]) ==> degrees.deg(
            worklist[k],
        ) == 0
    &&& bounded ==> forall|z: Node, p: Node|
        #![trigger node_children(pairs0, scopes0, procedures, p).contains(z)]
        c0(z) && !is_candidate_node(pairs, scopes, done, z) && c0(p) && node_children(pairs0, scopes0, procedures, p).contains(
            z,
        ) ==> !is_candidate_node(pairs, scopes, done, p) && rank[p] < rank[z]
}

/// The ranks that the peel's invariant keeps for the objects freed so far.
proof fn lemma_peel_inv_ranks(
    pairs0: PairHeap,
    scopes0: ScopeHeap,
    procedures: Seq<ClosureData>,
    c0: spec_fn(Node) -> bool,
    plen: int,
    count0: nat,
    bounded: bool,
    pairs: PairHeap,
    scopes: ScopeHeap,
    done: Seq<bool>,
    degrees: InDegrees,
    worklist: Seq<Node>,
    rank: Map<Node, int>,
    counter: int,
)
    requires
        peel_inv(pairs0, scopes0, procedures, c0, plen, count0, bounded, pairs, scopes, done, degrees, worklist, rank, counter),
    ensures
        freed_ranked(c0, pairs, scopes, done, rank, counter),
{
}

/// The peel's invariant holds once each of its parts does.
proof fn lemma_peel_inv_intro(
    pairs0: PairHeap,
    scopes0: ScopeHeap,
    procedures: Seq<ClosureData>,
    c0: spec_fn(Node) -> bool,
    plen: int,
    count0: nat,
    bounded: bool,
    pairs: PairHeap,
    scopes: ScopeHeap,
    done: Seq<bool>,
    degrees: InDegrees,
    worklist: Seq<Node>,
    rank: Map<Node, int>,
    counter: int,
)
    requires
        candidates_unchanged(pairs0, pairs),
        candidates_unchanged(scopes0, scopes),
        done.len() == plen,
        plen <= usize::MAX,
        pairs.len() <= usize::MAX,
        scopes.len() <= usize::MAX,
        degrees.pairs@.len() == pairs.len(),
        degrees.scopes@.len() == scopes.len(),
        degrees.procedures@.len() == done.len(),
        counter >= 0,
        counter + count_candidates(pairs, scopes, done) == count0,
        forall|x: Node| #[trigger] is_candidate_node(pairs, scopes, done, x) ==> c0(x),
        freed_ranked(c0, pairs, scopes, done, rank, counter),
        bounded ==> forall|x: Node|
                #[trigger] is_candidate_node(pairs, scopes, done, x) ==> degrees.deg(x) == refs_to(
                    pairs,
                    scopes,
                    procedures,
                    candidates(pairs, scopes, done),
                    plen,
                    x,
                ),
        bounded ==> forall|x: Node|
                #[trigger] is_candidate_node(pairs, scopes, done, x) && degrees.deg(x) == 0 ==> worklist.contains(x),
        bounded ==> forall|k: int|
                0 <= k < worklist.len() && is_candidate_node(pairs, scopes, done, #[trigger] worklist[k]) ==> degrees.deg(
                    worklist[k],
                ) == 0,
        bounded ==> forall|z: Node, p: Node|
                #![trigger node_children(pairs0, scopes0, procedures, p).contains(z)]
                c0(z) && !is_candidate_node(pairs, scopes, done, z) && c0(p) && node_children(pairs0, scopes0, procedures, p).contains(
                    z,
                ) ==> !is_candidate_node(pairs, scopes, done, p) && rank[p] < rank[z],
    ensures
        peel_inv(pairs0, scopes0, procedures, c0, plen, count0, bounded, pairs, scopes, done, degrees, worklist, rank, counter),
{
}

proof fn lemma_marked_kept_trans<T>(a: Seq<TrackedObject<T>>, b: Seq<TrackedObject<T>>, c: Seq<TrackedObject<T>>)
    requires
        marked_kept(a, b),
        marked_kept(b, c),
    ensures
        marked_kept(a, c),
{
    assert forall|i: int| 0 <= i < a.len() && a[i].is_reachable implies #[trigger] c[i] == a[i] by {
        assert(b[i] == a[i]);
    }
}

/// Freeing candidate `node` and ranking it next keeps a rank for every freed
/// object.
proof fn lemma_rank_contains_after_free(
    c0: spec_fn(Node) -> bool,
    pb: PairHeap,
    sb: ScopeHeap,
    db: Seq<bool>,
    pa: PairHeap,
    sa: ScopeHeap,
    da: Seq<bool>,
    rank: Map<Node, int>,
    counter: int,
    node: Node,
    ranked: Map<Node, int>,
    next: int,
)
    requires
        counter >= 0,
        ranked == rank.insert(node, counter),
        next == counter + 1,
        freed_ranked(c0, pb, sb, db, rank, counter),
        forall|z: Node| z != node ==> #[trigger] is_candidate_node(pa, sa, da, z) == is_candidate_node(pb, sb, db, z),
    ensures
        freed_ranked(c0, pa, sa, da, ranked, next),
{
    reveal(freed_ranked);
    assert forall|z: Node| #![trigger ranked.contains_key(z)] (c0(z) && !is_candidate_node(pa, sa, da, z)) implies (
    ranked.contains_key(z) && 0 <= ranked[z] && ranked[z] < next) by {
        if z != node {
            assert(!is_candidate_node(pb, sb, db, z));
            assert(rank.contains_key(z));
        }
    }
}

/// Freeing a candidate that no candidate refers to keeps every candidate
/// that refers to a freed object freed before it.
proof fn lemma_rank_after_free(
    pairs0: PairHeap,
    scopes0: ScopeHeap,
    procedures: Seq<ClosureData>,
    c0: spec_fn(Node) -> bool,
    pb: PairHeap,
    sb: ScopeHeap,
    db: Seq<bool>,
    pa: PairHeap,
    sa: ScopeHeap,
    da: Seq<bool>,
    rank: Map<Node, int>,
    counter: int,
    node: Node,
)
    requires
        forall|z: Node, p: Node|
            #![trigger node_children(pairs0, scopes0, procedures, p).contains(z)]
            c0(z) && !is_candidate_node(pb, sb, db, z) && c0(p) && node_children(pairs0, scopes0, procedures, p).contains(z)
                ==> !is_candidate_node(pb, sb, db, p) && rank[p] < rank[z],
        forall|p: Node|
            c0(p) && #[trigger] node_children(pairs0, scopes0, procedures, p).contains(node) ==> !is_candidate_node(
                pb,
                sb,
                db,
                p,
            ),
        forall|z: Node| z != node ==> #[trigger] is_candidate_node(pa, sa, da, z) == is_candidate_node(pb, sb, db, z),
        is_candidate_node(pb, sb, db, node),
        !is_candidate_node(pa, sa, da, node),
        freed_ranked(c0, pb, sb, db, rank, counter),
    ensures
        forall|z: Node, p: Node|
            #![trigger node_children(pairs0, scopes0, procedures, p).contains(z)]
            c0(z) && !is_candidate_node(pa, sa, da, z) && c0(p) && node_children(pairs0, scopes0, procedures, p).contains(z)
                ==> !is_candidate_node(pa, sa, da, p) && rank.insert(node, counter)[p] < rank.insert(node, counter)[z],
{
    reveal(freed_ranked);
    let r2 = rank.insert(node, counter);
    assert forall|z: Node, p: Node|
        #![trigger node_children(pairs0, scopes0, procedures, p).contains(z)]
        (c0(z) && !is_candidate_node(pa, sa, da, z) && c0(p) && node_children(pairs0, scopes0, procedures, p).contains(z))
            implies (!is_candidate_node(pa, sa, da, p) && r2[p] < r2[z]) by {
        if z == node {
            assert(!is_candidate_node(pb, sb, db, p));
            assert(p != node);
            assert(rank.contains_key(p));
        } else {
            assert(!is_candidate_node(pb, sb, db, z));
            assert(rank.contains_key(z));
            if p == node {
                assert(false);
            }
        }
    }
}

/// Once no candidate is left without references from candidates, the
/// candidates left are exactly those kept alive by cycles.
proof fn lemma_peel_result(
    pairs0: PairHeap,
    scopes0: ScopeHeap,
    pairs: PairHeap,
    scopes: ScopeHeap,
    procedures: Seq<ClosureData>,
    c0: spec_fn(Node) -> bool,
    seen: Seq<bool>,
    done: Seq<bool>,
    degrees: InDegrees,
    worklist: Seq<Node>,
    rank: Map<Node, int>,
    counter: int,
    plen: int,
    total: int,
)
    requires
        c0 == candidates(pairs0, scopes0, seen),
        worklist.len() == 0,
        plen == seen.len(),
        done.len() == seen.len(),
        total == pairs0.len() + scopes0.len() + seen.len(),
        candidates_unchanged(pairs0, pairs),
        candidates_unchanged(scopes0, scopes),
        counter <= total,
        forall|x: Node|
            #[trigger] is_candidate_node(pairs, scopes, done, x) ==> degrees.deg(x) == refs_to(
                pairs,
                scopes,
                procedures,
                candidates(pairs, scopes, done),
                plen,
                x,
            ),
        forall|x: Node| #[trigger] is_candidate_node(pairs, scopes, done, x) && degrees.deg(x) == 0 ==> worklist.contains(x),
        forall|x: Node| #[trigger] is_candidate_node(pairs, scopes, done, x) ==> c0(x),
        freed_ranked(c0, pairs, scopes, done, rank, counter),
        forall|z: Node, p: Node|
            #![trigger node_children(pairs0, scopes0, procedures, p).contains(z)]
            c0(z) && !is_candidate_node(pairs, scopes, done, z) && c0(p) && node_children(pairs0, scopes0, procedures, p).contains(z) ==> !is_candidate_node(pairs, scopes, done, p)
                && rank[p] < rank[z],
    ensures
        forall|x: Node|
            exists_node(pairs0, scopes0, plen, x) && !(x is Procedure) ==> (#[trigger] is_candidate_node(
                pairs,
                scopes,
                seen,
                x,
            ) <==> c0(x) && kept_by_cycle(
                pairs0,
                scopes0,
                procedures,
                c0,
                total,
                x,
            )),
{
    reveal(freed_ranked);
    let cur = candidates(pairs, scopes, done);
    let freed_set = |z: Node| c0(z) && !cur(z);
    assert forall|z: Node| #[trigger] cur(z) implies exists|p: Node|
        cur(p) && node_children(pairs0, scopes0, procedures, p).contains(z) by {
        assert(is_candidate_node(pairs, scopes, done, z));
        assert(!worklist.contains(z));
        let p = lemma_refs_to_source(pairs, scopes, procedures, cur, plen, z);
        assert(is_candidate_node(pairs, scopes, done, p));
        assert(node_children(pairs, scopes, procedures, p) == node_children(pairs0, scopes0, procedures, p));
    }
    assert forall|z: Node| #[trigger] freed_set(z) implies (rank.contains_key(z) && 0 <= rank[z] < counter) by {
        assert(!is_candidate_node(pairs, scopes, done, z));
    }
    assert forall|z: Node, p: Node|
        #![trigger freed_set(z), node_children(pairs0, scopes0, procedures, p).contains(z)]
        (freed_set(z) && c0(p) && node_children(pairs0, scopes0, procedures, p).contains(z)) implies (freed_set(p)
            && rank[p] < rank[z]) by {
        assert(!is_candidate_node(pairs, scopes, done, z));
        assert(rank.contains_key(z));
        assert(!is_candidate_node(pairs, scopes, done, p));
    }
    assert forall|x: Node|
        exists_node(pairs0, scopes0, plen, x) && !(x is Procedure) implies (#[trigger] is_candidate_node(
        pairs,
        scopes,
        seen,
        x,
    ) <==> c0(x) && kept_by_cycle(pairs0, scopes0, procedures, c0, total, x)) by {
        assert(is_candidate_node(pairs, scopes, seen, x) == cur(x));
        if cur(x) {
            assert(c0(x));
            let path = lemma_backward_path(pairs0, scopes0, procedures, cur, (total + 1) as nat, x);
            assert(is_candidate_path(pairs0, scopes0, procedures, c0, path));
        } else if c0(x) {
            assert(freed_set(x));
            lemma_freed_not_kept(pairs0, scopes0, procedures, c0, freed_set, rank, counter, total, x);
        }
    }
}

/// Whether garbage collection may free object `n`: it exists, no path of
/// references leads to it from `roots`, and, a pair or a scope, its cycles
/// have not been broken already.
pub open spec fn gc_candidate(
    pairs: PairHeap,
    scopes: ScopeHeap,
    procedures: Seq<ClosureData>,
    roots: Seq<Node>,
    n: Node,
) -> bool {
    &&& exists_node(pairs, scopes, procedures.len() as int, n)
    &&& !reachable(pairs, scopes, procedures, roots, n)
    &&& match n {
        Node::Pair(i) => !pairs[i as int].has_had_cycles_broken,
        Node::Scope(i) => !scopes[i as int].has_had_cycles_broken,
        Node::Procedure(_) => true,
    }
}

/// The objects that garbage collection may free, as a predicate.
pub open spec fn gc_candidates(
    pairs: PairHeap,
    scopes: ScopeHeap,
    procedures: Seq<ClosureData>,
    roots: Seq<Node>,
) -> spec_fn(Node) -> bool {
    |n: Node| gc_candidate(pairs, scopes, procedures, roots, n)
}

/// Whether no object that garbage collection may free gets as many
/// references from such objects as a `usize` can count.
pub open spec fn gc_counts_fit(pairs: PairHeap, scopes: ScopeHeap, procedures: Seq<ClosureData>, roots: Seq<Node>) -> bool {
    let cand = gc_candidates(pairs, scopes, procedures, roots);
    forall|x: Node| #[trigger] cand(x) ==> refs_to(pairs, scopes, procedures, cand, procedures.len() as int, x) < usize::MAX
}

/// The objects whose cycles garbage collection breaks: those it may free
/// that a cycle among such objects keeps alive.
pub open spec fn gc_cycle_kept(
    pairs: PairHeap,
    scopes: ScopeHeap,
    procedures: Seq<ClosureData>,
    roots: Seq<Node>,
) -> spec_fn(Node) -> bool {
    let cand = gc_candidates(pairs, scopes, procedures, roots);
    let total = (pairs.len() + scopes.len() + procedures.len()) as int;
    |n: Node| cand(n) && kept_by_cycle(pairs, scopes, procedures, cand, total, n)
}

/// How many of the first `n` objects of a kind `pred` holds of.
pub open spec fn count_nodes(pred: spec_fn(Node) -> bool, kind: int, n: int) -> nat
    decreases n,
{
    if n <= 0 {
        0
    } else {
        count_nodes(pred, kind, n - 1) + if pred(node_at(kind, n - 1)) {
            1nat
        } else {
            0nat
        }
    }
}

/// Heaps with the same references give the same reference counts.
proof fn lemma_refs_in_kind_same(
    p1: PairHeap,
    s1: ScopeHeap,
    p2: PairHeap,
    s2: ScopeHeap,
    procedures: Seq<ClosureData>,
    cand: spec_fn(Node) -> bool,
    kind: int,
    n: int,
    x: Node,
)
    requires
        forall|m: Node| #[trigger] node_children(p1, s1, procedures, m) == node_children(p2, s2, procedures, m),
    ensures
        refs_in_kind(p1, s1, procedures, cand, kind, n, x) == refs_in_kind(p2, s2, procedures, cand, kind, n, x),
    decreases n,
{
    if n > 0 {
        lemma_refs_in_kind_same(p1, s1, p2, s2, procedures, cand, kind, n - 1, x);
        assert(node_children(p1, s1, procedures, node_at(kind, n - 1)) == node_children(p2, s2, procedures, node_at(kind, n - 1)));
    }
}

/// Heaps with the same references have the same paths, reference counts
/// and objects kept alive by cycles.
proof fn lemma_same_references(
    p1: PairHeap,
    s1: ScopeHeap,
    p2: PairHeap,
    s2: ScopeHeap,
    procedures: Seq<ClosureData>,
    cand: spec_fn(Node) -> bool,
    total: int,
)
    requires
        p1.len() == p2.len(),
        s1.len() == s2.len(),
        forall|m: Node| #[trigger] node_children(p1, s1, procedures, m) == node_children(p2, s2, procedures, m),
    ensures
        forall|path: Seq<Node>| #[trigger] is_path(p1, s1, procedures, path) == is_path(p2, s2, procedures, path),
        forall|x: Node|
            #[trigger] refs_to(p1, s1, procedures, cand, procedures.len() as int, x) == refs_to(
                p2,
                s2,
                procedures,
                cand,
                procedures.len() as int,
                x,
            ),
        forall|x: Node|
            #[trigger] kept_by_cycle(p1, s1, procedures, cand, total, x) == kept_by_cycle(p2, s2, procedures, cand, total, x),
{
    assert forall|path: Seq<Node>| #[trigger] is_path(p1, s1, procedures, path) == is_path(p2, s2, procedures, path) by {
        if is_path(p1, s1, procedures, path) {
            assert forall|k: int| 0 <= k < path.len() - 1 implies #[trigger] node_children(p2, s2, procedures, path[k]).contains(
                path[k + 1],
            ) by {
                assert(node_children(p1, s1, procedures, path[k]).contains(path[k + 1]));
            }
        }
        if is_path(p2, s2, procedures, path) {
            assert forall|k: int| 0 <= k < path.len() - 1 implies #[trigger] node_children(p1, s1, procedures, path[k]).contains(
                path[k + 1],
            ) by {
                assert(node_children(p2, s2, procedures, path[k]).contains(path[k + 1]));
            }
        }
    }
    assert forall|x: Node|
        #[trigger] refs_to(p1, s1, procedures, cand, procedures.len() as int, x) == refs_to(
            p2,
            s2,
            procedures,
            cand,
            procedures.len() as int,
            x,
        ) by {
        lemma_refs_in_kind_same(p1, s1, p2, s2, procedures, cand, 0, p1.len() as int, x);
        lemma_refs_in_kind_same(p1, s1, p2, s2, procedures, cand, 1, s1.len() as int, x);
        lemma_refs_in_kind_same(p1, s1, p2, s2, procedures, cand, 2, procedures.len() as int, x);
    }
    assert forall|x: Node|
        #[trigger] kept_by_cycle(p1, s1, procedures, cand, total, x) == kept_by_cycle(p2, s2, procedures, cand, total, x) by {
        if kept_by_cycle(p1, s1, procedures, cand, total, x) {
            let path = choose|path: Seq<Node>|
                path.len() == total + 1 && path.last() == x && #[trigger] is_candidate_path(p1, s1, procedures, cand, path);
            assert(is_path(p1, s1, procedures, path) == is_path(p2, s2, procedures, path));
            assert(is_candidate_path(p2, s2, procedures, cand, path));
        }
        if kept_by_cycle(p2, s2, procedures, cand, total, x) {
            let path = choose|path: Seq<Node>|
                path.len() == total + 1 && path.last() == x && #[trigger] is_candidate_path(p2, s2, procedures, cand, path);
            assert(is_path(p1, s1, procedures, path) == is_path(p2, s2, procedures, path));
            assert(is_candidate_path(p1, s1, procedures, cand, path));
        }
    }
}

/// A sweep breaks as many objects of a kind as `pred` holds of, where it
/// holds of exactly the sweepable ones.
proof fn lemma_count_sweepable_nodes<T>(s: Seq<TrackedObject<T>>, pred: spec_fn(Node) -> bool, kind: int)
    requires
        s.len() <= usize::MAX,
        forall|i: int| 0 <= i < s.len() ==> #[trigger] crate::object_tracker::is_sweepable(s[i]) == pred(node_at(kind, i)),
    ensures
        crate::object_tracker::count_sweepable(s) == count_nodes(pred, kind, s.len() as int),
    decreases s.len(),
{
    if s.len() > 0 {
        let t = s.drop_last();
        assert forall|i: int| 0 <= i < t.len() implies #[trigger] crate::object_tracker::is_sweepable(t[i]) == pred(
            node_at(kind, i),
        ) by {
            assert(t[i] == s[i]);
        }
        lemma_count_sweepable_nodes(t, pred, kind);
        assert(crate::object_tracker::is_sweepable(s[s.len() - 1]) == pred(node_at(kind, s.len() - 1)));
    }
}

/// After marking from `roots`, the objects left unmarked and live are
/// exactly those that garbage collection may free.
proof fn lemma_marked_candidates(
    p0: PairHeap,
    s0: ScopeHeap,
    pc: PairHeap,
    sc: ScopeHeap,
    pm: PairHeap,
    sm: ScopeHeap,
    seen: Seq<bool>,
    procedures: Seq<ClosureData>,
    roots: Seq<Node>,
)
    requires
        pc.len() == p0.len(),
        sc.len() == s0.len(),
        forall|i: int| 0 <= i < p0.len() ==> #[trigger] pc[i] == crate::object_tracker::with_reachable(p0[i], false),
        forall|i: int| 0 <= i < s0.len() ==> #[trigger] sc[i] == crate::object_tracker::with_reachable(s0[i], false),
        same_objects(pc, pm),
        same_objects(sc, sm),
        seen.len() == procedures.len(),
        marks_closed(pm, sm, seen, pc, sc, procedures, Seq::empty()),
        roots_covered(pm, sm, seen, roots, Seq::empty()),
        forall|x: Node|
            exists_node(pc, sc, procedures.len() as int, x) && #[trigger] is_marked(pm, sm, seen, x) ==> reachable(
                pc,
                sc,
                procedures,
                roots,
                x,
            ),
    ensures
        pm.len() == p0.len(),
        sm.len() == s0.len(),
        forall|m: Node| #[trigger] node_children(pm, sm, procedures, m) == node_children(p0, s0, procedures, m),
        candidates(pm, sm, seen) == gc_candidates(p0, s0, procedures, roots),
        forall|x: Node|
            exists_node(p0, s0, procedures.len() as int, x) ==> (#[trigger] is_marked(pm, sm, seen, x) <==> reachable(
                p0,
                s0,
                procedures,
                roots,
                x,
            )),
{
    assert forall|m: Node| #[trigger] node_children(pc, sc, procedures, m) == node_children(p0, s0, procedures, m) by {
        match m {
            Node::Pair(i) => {
                if i < pc.len() {
                    assert(pc[i as int].object == p0[i as int].object);
                }
            },
            Node::Scope(i) => {
                if i < sc.len() {
                    assert(sc[i as int].object == s0[i as int].object);
                }
            },
            Node::Procedure(_) => {},
        }
    }
    assert forall|m: Node| #[trigger] node_children(pm, sm, procedures, m) == node_children(p0, s0, procedures, m) by {
        assert(node_children(pc, sc, procedures, m) == node_children(p0, s0, procedures, m));
        match m {
            Node::Pair(i) => {
                if i < pc.len() {
                    assert(pm[i as int].object == pc[i as int].object);
                }
            },
            Node::Scope(i) => {
                if i < sc.len() {
                    assert(sm[i as int].object == sc[i as int].object);
                }
            },
            Node::Procedure(_) => {},
        }
    }
    lemma_same_references(pc, sc, p0, s0, procedures, |n: Node| true, 0);
    let cand = candidates(pm, sm, seen);
    let gcc = gc_candidates(p0, s0, procedures, roots);
    assert forall|n: Node| #[trigger] cand(n) == gcc(n) && (exists_node(p0, s0, procedures.len() as int, n) ==> (is_marked(
        pm,
        sm,
        seen,
        n,
    ) <==> reachable(p0, s0, procedures, roots, n))) by {
        let live = exists_node(pc, sc, procedures.len() as int, n);
        if live {
            if reachable(pc, sc, procedures, roots, n) {
                let path = choose|path: Seq<Node>|
                    path.len() > 0 && roots.contains(path[0]) && #[trigger] is_path(pc, sc, procedures, path) && path.last()
                        == n;
                lemma_path_marked(pm, sm, seen, pc, sc, procedures, roots, path);
                assert(is_path(p0, s0, procedures, path));
                assert(reachable(p0, s0, procedures, roots, n));
            } else {
                if reachable(p0, s0, procedures, roots, n) {
                    let path = choose|path: Seq<Node>|
                        path.len() > 0 && roots.contains(path[0]) && #[trigger] is_path(p0, s0, procedures, path)
                            && path.last() == n;
                    assert(is_path(pc, sc, procedures, path));
                }
                assert(!is_marked(pm, sm, seen, n));
            }
            match n {
                Node::Pair(i) => {
                    assert(pm[i as int].has_had_cycles_broken == pc[i as int].has_had_cycles_broken);
                },
                Node::Scope(i) => {
                    assert(sm[i as int].has_had_cycles_broken == sc[i as int].has_had_cycles_broken);
                },
                Node::Procedure(_) => {},
            }
        }
    }
    assert(cand =~= gcc);
    assert forall|x: Node|
        exists_node(p0, s0, procedures.len() as int, x) implies (#[trigger] is_marked(pm, sm, seen, x) <==> reachable(
        p0,
        s0,
        procedures,
        roots,
        x,
    )) by {
        assert(cand(x) == gcc(x));
    }
}

impl<N: NumberSystem> Interpreter<N> {
    /// The objects that garbage collection starts from: the values of the
    /// global bindings, the active lexical scopes, and the expressions still
    /// to be evaluated.
    pub open spec fn gc_roots(&self) -> Seq<Node> {
        bindings_nodes(self.environment.globals()) + stack_nodes(self.environment.stack()) + rooted_nodes(
            self.stack_traversal_root.live(),
        )
    }

    /// Adds the objects that object `node` refers to to the visitor.
    fn push_children(&self, node: Node, visitor: &mut Visitor)
        ensures
            final(visitor).pending() == old(visitor).pending() + node_children(
                self.pair_manager@,
                self.environment.scopes(),
                self.procedures@,
                node,
            ),
            final(visitor).debug == old(visitor).debug,
    {
        match node {
            Node::Pair(i) => {
                if i < self.pair_manager.0.len() {
                    let inner = *self.pair_manager.0.get(TrackedRef(i));
                    visitor.traverse(&inner.car);
                    visitor.traverse(&inner.cdr);
                    assert(visitor.pending() =~= old(visitor).pending() + node_children(
                        self.pair_manager@,
                        self.environment.scopes(),
                        self.procedures@,
                        node,
                    ));
                } else {
                    assert(visitor.pending() =~= old(visitor).pending() + node_children(
                        self.pair_manager@,
                        self.environment.scopes(),
                        self.procedures@,
                        node,
                    ));
                }
            },
            Node::Scope(i) => {
                match self.environment.scope(TrackedRef(i)) {
                    Some(scope) => {
                        push_scope(scope.parent, visitor);
                        push_bindings(&scope.bindings, visitor);
                        assert(visitor.pending() =~= old(visitor).pending() + node_children(
                            self.pair_manager@,
                            self.environment.scopes(),
                            self.procedures@,
                            node,
                        ));
                    },
                    None => {
                        assert(visitor.pending() =~= old(visitor).pending() + node_children(
                            self.pair_manager@,
                            self.environment.scopes(),
                            self.procedures@,
                            node,
                        ));
                    },
                }
            },
            Node::Procedure(i) => {
                if i < self.procedures.len() {
                    push_scope(self.procedures[i].captured_lexical_scope.0, visitor);
                    push_values(&self.procedures[i].body.0.0, visitor);
                    assert(visitor.pending() =~= old(visitor).pending() + node_children(
                        self.pair_manager@,
                        self.environment.scopes(),
                        self.procedures@,
                        node,
                    ));
                } else {
                    assert(visitor.pending() =~= old(visitor).pending() + node_children(
                        self.pair_manager@,
                        self.environment.scopes(),
                        self.procedures@,
                        node,
                    ));
                }
            },
        }
    }

    /// The objects that object `node` refers to.
    fn children_of(&self, node: Node) -> (res: Vec<Node>)
        ensures
            res@ == node_children(self.pair_manager@, self.environment.scopes(), self.procedures@, node),
    {
        let mut visitor = Visitor::new(false);
        self.push_children(node, &mut visitor);
        assert(visitor.pending() =~= node_children(
            self.pair_manager@,
            self.environment.scopes(),
            self.procedures@,
            node,
        ));
        visitor.pending
    }

    /// Adds the roots to the visitor.
    fn push_roots(&self, visitor: &mut Visitor)
        ensures
            final(visitor).pending() == old(visitor).pending() + self.gc_roots(),
            final(visitor).debug == old(visitor).debug,
    {
        push_bindings(self.environment.global_values(), visitor);
        let stack = self.environment.lexical_scopes();
        let ghost after_globals = visitor.pending();
        let mut i: usize = 0;
        while i < stack.len()
            invariant
                i <= stack@.len(),
                stack@ == self.environment.stack(),
                visitor.pending() == after_globals + stack_nodes(stack@.take(i as int)),
                visitor.debug == old(visitor).debug,
            decreases stack@.len() - i,
        {
            visitor.visit(Node::Scope(stack[i].0));
            proof {
                assert(stack@.take(i + 1).drop_last() =~= stack@.take(i as int));
                assert(visitor.pending() =~= after_globals + stack_nodes(stack@.take(i + 1)));
            }
            i = i + 1;
        }
        assert(stack@.take(i as int) =~= stack@);
        self.stack_traversal_root.traverse_roots(visitor);
        assert(visitor.pending() =~= old(visitor).pending() + self.gc_roots());
    }
}


impl<N: NumberSystem> Interpreter<N> {
    /// Marks every object reachable from the roots, and nothing else; `seen`
    /// receives the marks of the procedures.
    fn mark_reachable(&mut self, debug: bool) -> (seen: Vec<bool>)
        requires
            forall|i: int| 0 <= i < old(self).pair_manager@.len() ==> !(#[trigger] old(self).pair_manager@[i]).is_reachable,
            forall|i: int| 0 <= i < old(self).environment.scopes().len() ==> !(#[trigger] old(self).environment.scopes()[i]).is_reachable,
        ensures
            seen@.len() == old(self).procedures@.len(),
            same_objects(old(self).pair_manager@, final(self).pair_manager@),
            same_objects(old(self).environment.scopes(), final(self).environment.scopes()),
            final(self).procedures@ == old(self).procedures@,
            final(self).history == old(self).history,
            final(self).environment.globals() == old(self).environment.globals(),
            final(self).environment.stack() == old(self).environment.stack(),
            final(self).stack_traversal_root == old(self).stack_traversal_root,
            final(self).stack@ == old(self).stack@,
            final(self).steps_left == old(self).steps_left,
            final(self).source_mapper@ == old(self).source_mapper@,
            final(self).has_evaluated_library == old(self).has_evaluated_library,
            marks_closed(
                final(self).pair_manager@,
                final(self).environment.scopes(),
                seen@,
                old(self).pair_manager@,
                old(self).environment.scopes(),
                old(self).procedures@,
                Seq::empty(),
            ),
            roots_covered(
                final(self).pair_manager@,
                final(self).environment.scopes(),
                seen@,
                old(self).gc_roots(),
                Seq::empty(),
            ),
            forall|x: Node|
                exists_node(old(self).pair_manager@, old(self).environment.scopes(), old(self).procedures@.len() as int, x)
                    && #[trigger] is_marked(final(self).pair_manager@, final(self).environment.scopes(), seen@, x)
                    ==> reachable(
                    old(self).pair_manager@,
                    old(self).environment.scopes(),
                    old(self).procedures@,
                    old(self).gc_roots(),
                    x,
                ),
    {
        let ghost pairs0 = self.pair_manager@;
        let ghost scopes0 = self.environment.scopes();
        let ghost procedures = self.procedures@;
        let ghost roots = self.gc_roots();
        let mut seen: Vec<bool> = Vec::new();
        let mut k: usize = 0;
        while k < self.procedures.len()
            invariant
                self.history == old(self).history,
                k <= self.procedures@.len(),
                seen@.len() == k,
                forall|j: int| 0 <= j < k ==> !(#[trigger] seen@[j]),
            decreases self.procedures@.len() - k,
        {
            seen.push(false);
            k = k + 1;
        }
        let mut visitor = Visitor::new(debug);
        self.push_roots(&mut visitor);
        proof {
            assert(visitor.pending() =~= roots);
            assert forall|j: int| 0 <= j < roots.len() implies is_marked(
                self.pair_manager@,
                self.environment.scopes(),
                seen@,
                #[trigger] roots[j],
            ) || visitor.pending().contains(roots[j]) by {
                assert(visitor.pending()[j] == roots[j]);
            }
            assert forall|m: Node, c: Node|
                is_marked(self.pair_manager@, self.environment.scopes(), seen@, m) && #[trigger] node_children(
                    pairs0,
                    scopes0,
                    procedures,
                    m,
                ).contains(c) implies is_marked(self.pair_manager@, self.environment.scopes(), seen@, c)
                || visitor.pending().contains(c) by {
                assert(node_children(pairs0, scopes0, procedures, m).len() == 0);
            }
            assert forall|k: int| 0 <= k < visitor.pending().len() implies reachable(
                pairs0,
                scopes0,
                procedures,
                roots,
                #[trigger] visitor.pending()[k],
            ) by {
                let path = seq![roots[k]];
                assert(is_path(pairs0, scopes0, procedures, path));
                assert(roots.contains(path[0]));
            }
        }
        while visitor.pending_len() > 0
            invariant
                self.history == old(self).history,
                same_objects(pairs0, self.pair_manager@),
                same_objects(scopes0, self.environment.scopes()),
                self.procedures@ == procedures,
                seen@.len() == procedures.len(),
                self.environment.globals() == old(self).environment.globals(),
                self.environment.stack() == old(self).environment.stack(),
                self.stack_traversal_root == old(self).stack_traversal_root,
                self.stack@ == old(self).stack@,
                self.steps_left == old(self).steps_left,
                self.source_mapper@ == old(self).source_mapper@,
                self.has_evaluated_library == old(self).has_evaluated_library,
                marks_closed(
                    self.pair_manager@,
                    self.environment.scopes(),
                    seen@,
                    pairs0,
                    scopes0,
                    procedures,
                    visitor.pending(),
                ),
                roots_covered(self.pair_manager@, self.environment.scopes(), seen@, roots, visitor.pending()),
                forall|x: Node|
                    exists_node(pairs0, scopes0, procedures.len() as int, x) && #[trigger] is_marked(
                        self.pair_manager@,
                        self.environment.scopes(),
                        seen@,
                        x,
                    ) ==> reachable(pairs0, scopes0, procedures, roots, x),
                forall|k: int|
                    0 <= k < visitor.pending().len() ==> reachable(pairs0, scopes0, procedures, roots, #[trigger] visitor.pending()[k]),
            decreases count_unmarked(self.pair_manager@) + count_unmarked(self.environment.scopes())
                + count_unvisited(seen@), visitor.pending().len(),
        {
            let ghost pending = visitor.pending();
            let ghost pairs_before = self.pair_manager@;
            let ghost scopes_before = self.environment.scopes();
            let ghost seen_before = seen@;
            let node = visitor.take().unwrap();
            let fresh = match node {
                Node::Pair(i) => i < self.pair_manager.0.len() && !self.pair_manager.0.is_reachable(TrackedRef(i)),
                Node::Scope(i) => i < self.environment.scope_count() && !self.environment.is_scope_reachable(TrackedRef(i)),
                Node::Procedure(i) => i < seen.len() && !seen[i],
            };
            if fresh {
                match node {
                    Node::Pair(i) => {
                        proof {
                            lemma_mark_one(self.pair_manager@, i as int);
                        }
                        self.pair_manager.0.mark_as_reachable(TrackedRef(i));
                    },
                    Node::Scope(i) => {
                        proof {
                            lemma_mark_one(self.environment.scopes(), i as int);
                        }
                        self.environment.mark_scope_reachable(TrackedRef(i));
                    },
                    Node::Procedure(i) => {
                        proof {
                            lemma_count_unvisited_update(seen@, i as int);
                        }
                        seen.set(i, true);
                    },
                }
                if debug {
                    self.printer.println(concat("Visiting ", node_name(node).as_str()).as_str());
                }
                let ghost after_pop = visitor.pending();
                assert(node_children(self.pair_manager@, self.environment.scopes(), self.procedures@, node)
                    == node_children(pairs0, scopes0, procedures, node));
                self.push_children(node, &mut visitor);
                proof {
                    let children = node_children(pairs0, scopes0, procedures, node);
                    assert(visitor.pending() == pending.drop_last() + children);
                    assert forall|x: Node|
                        #![trigger is_marked(self.pair_manager@, self.environment.scopes(), seen@, x)]
                        is_marked(self.pair_manager@, self.environment.scopes(), seen@, x) == (is_marked(
                            pairs_before,
                            scopes_before,
                            seen_before,
                            x,
                        ) || x == node) by {}
                    assert forall|m: Node, c: Node|
                        is_marked(self.pair_manager@, self.environment.scopes(), seen@, m) && #[trigger] node_children(
                            pairs0,
                            scopes0,
                            procedures,
                            m,
                        ).contains(c) implies is_marked(self.pair_manager@, self.environment.scopes(), seen@, c)
                        || visitor.pending().contains(c) by {
                        if m == node {
                            lemma_contains_in_tail(pending.drop_last(), children, c);
                        } else {
                            assert(is_marked(pairs_before, scopes_before, seen_before, m));
                            if c != node && !is_marked(pairs_before, scopes_before, seen_before, c) {
                                lemma_contains_after_pop(pending, children, c);
                            }
                        }
                    }
                    assert forall|j: int| 0 <= j < roots.len() implies is_marked(
                        self.pair_manager@,
                        self.environment.scopes(),
                        seen@,
                        #[trigger] roots[j],
                    ) || visitor.pending().contains(roots[j]) by {
                        let c = roots[j];
                        if c != node && !is_marked(pairs_before, scopes_before, seen_before, c) {
                            lemma_contains_after_pop(pending, children, c);
                        }
                    }
                    assert(reachable(pairs0, scopes0, procedures, roots, pending[pending.len() - 1]));
                    assert forall|k: int| 0 <= k < visitor.pending().len() implies reachable(
                        pairs0,
                        scopes0,
                        procedures,
                        roots,
                        #[trigger] visitor.pending()[k],
                    ) by {
                        if k < pending.len() - 1 {
                            assert(visitor.pending()[k] == pending[k]);
                        } else {
                            let c = visitor.pending()[k];
                            assert(c == children[k - (pending.len() - 1)]);
                            assert(children.contains(c));
                            lemma_reachable_child(pairs0, scopes0, procedures, roots, node, c);
                        }
                    }
                }
            } else {
                if debug {
                    self.printer.println(concat("Already visited ", node_name(node).as_str()).as_str());
                }
                proof {
                    assert(is_marked(self.pair_manager@, self.environment.scopes(), seen@, node));
                    assert forall|m: Node, c: Node|
                        is_marked(self.pair_manager@, self.environment.scopes(), seen@, m) && #[trigger] node_children(
                            pairs0,
                            scopes0,
                            procedures,
                            m,
                        ).contains(c) implies is_marked(self.pair_manager@, self.environment.scopes(), seen@, c)
                        || visitor.pending().contains(c) by {
                        if c != node && !is_marked(self.pair_manager@, self.environment.scopes(), seen@, c) {
                            lemma_contains_after_pop(pending, Seq::empty(), c);
                            assert(pending.drop_last() + Seq::<Node>::empty() =~= pending.drop_last());
                        }
                    }
                    assert forall|j: int| 0 <= j < roots.len() implies is_marked(
                        self.pair_manager@,
                        self.environment.scopes(),
                        seen@,
                        #[trigger] roots[j],
                    ) || visitor.pending().contains(roots[j]) by {
                        let c = roots[j];
                        if c != node && !is_marked(self.pair_manager@, self.environment.scopes(), seen@, c) {
                            lemma_contains_after_pop(pending, Seq::empty(), c);
                            assert(pending.drop_last() + Seq::<Node>::empty() =~= pending.drop_last());
                        }
                    }
                    assert forall|k: int| 0 <= k < visitor.pending().len() implies reachable(
                        pairs0,
                        scopes0,
                        procedures,
                        roots,
                        #[trigger] visitor.pending()[k],
                    ) by {
                        assert(visitor.pending()[k] == pending[k]);
                    }
                }
            }
        }
        proof {
            assert(visitor.pending() =~= Seq::<Node>::empty());
        }
        seen
    }
}

/// A short description of an object, for the verbose collector: its kind,
/// ` #` and its number.
fn node_name(node: Node) -> (res: String)
    ensures
        res@ == match node {
            Node::Pair(i) => "Pair #"@ + decimal(i as nat),
            Node::Scope(i) => "Scope #"@ + decimal(i as nat),
            Node::Procedure(i) => "Procedure #"@ + decimal(i as nat),
        },
{
    match node {
        Node::Pair(i) => concat("Pair #", usize_to_string(i).as_str()),
        Node::Scope(i) => concat("Scope #", usize_to_string(i).as_str()),
        Node::Procedure(i) => concat("Procedure #", usize_to_string(i).as_str()),
    }
}


impl<N: NumberSystem> Interpreter<N> {
    /// Collects garbage: breaks the objects that nothing reachable from the
    /// roots refers to and that are kept alive by cycles among themselves, and
    /// returns how many there were. Unreachable objects outside such cycles
    /// are freed without being counted. Nothing is collected while a call is
    /// under way.
    ///
    /// No object reachable from the roots is changed.
    pub fn gc(&mut self, debug: bool) -> (res: usize)
        ensures
            final(self).procedures@ == old(self).procedures@,
            final(self).history == old(self).history,
            final(self).steps_left == old(self).steps_left,
            final(self).source_mapper@ == old(self).source_mapper@,
            final(self).has_evaluated_library == old(self).has_evaluated_library,
            final(self).environment.globals() == old(self).environment.globals(),
            final(self).environment.stack() == old(self).environment.stack(),
            final(self).stack@ == old(self).stack@,
            final(self).pair_manager@.len() == old(self).pair_manager@.len(),
            final(self).environment.scopes().len() == old(self).environment.scopes().len(),
            forall|path: Seq<Node>|
                #![trigger is_path(old(self).pair_manager@, old(self).environment.scopes(), old(self).procedures@, path)]
                path.len() > 0 && old(self).gc_roots().contains(path[0]) && is_path(
                    old(self).pair_manager@,
                    old(self).environment.scopes(),
                    old(self).procedures@,
                    path,
                ) ==> kept(
                    old(self).pair_manager@,
                    old(self).environment.scopes(),
                    final(self).pair_manager@,
                    final(self).environment.scopes(),
                    path.last(),
                ),
            old(self).stack@.len() > 1 ==> res == 0 && final(self).pair_manager@ == old(self).pair_manager@
                && final(self).environment.scopes() == old(self).environment.scopes(),
            old(self).stack@.len() > 1 ==> crate::stdio_printer::printed_line(
                old(self).printer,
                final(self).printer,
                "Cannot currently collect garbage when call stack is non-empty."@,
            ),
            old(self).stack@.len() <= 1 ==> forall|i: int|
                0 <= i < old(self).pair_manager@.len() && !reachable(
                    old(self).pair_manager@,
                    old(self).environment.scopes(),
                    old(self).procedures@,
                    old(self).gc_roots(),
                    Node::Pair(i as usize),
                ) ==> (#[trigger] final(self).pair_manager@[i]).has_had_cycles_broken,
            old(self).stack@.len() <= 1 ==> forall|i: int|
                0 <= i < old(self).environment.scopes().len() && !reachable(
                    old(self).pair_manager@,
                    old(self).environment.scopes(),
                    old(self).procedures@,
                    old(self).gc_roots(),
                    Node::Scope(i as usize),
                ) ==> (#[trigger] final(self).environment.scopes()[i]).has_had_cycles_broken,
            old(self).stack@.len() <= 1 && gc_counts_fit(
                old(self).pair_manager@,
                old(self).environment.scopes(),
                old(self).procedures@,
                old(self).gc_roots(),
            ) ==> res == capped(
                count_nodes(
                    gc_cycle_kept(
                        old(self).pair_manager@,
                        old(self).environment.scopes(),
                        old(self).procedures@,
                        old(self).gc_roots(),
                    ),
                    0,
                    old(self).pair_manager@.len() as int,
                ) + count_nodes(
                    gc_cycle_kept(
                        old(self).pair_manager@,
                        old(self).environment.scopes(),
                        old(self).procedures@,
                        old(self).gc_roots(),
                    ),
                    1,
                    old(self).environment.scopes().len() as int,
                ),
            ),
    {
        if self.stack.len() > 1 {
            // It would be nice to support this at some point, but right now we can't
            // because we're not pinning temporary objects in the call stack to the GC
            // root--as a result, unexpected things would be considered unreachable and
            // GC'd.
            self.printer.println("Cannot currently collect garbage when call stack is non-empty.");
            return 0;
        }
        let ghost pairs0 = self.pair_manager@;
        let ghost scopes0 = self.environment.scopes();
        let ghost procedures = self.procedures@;
        let ghost roots = self.gc_roots();
        self.environment.begin_mark();
        self.pair_manager.begin_mark();
        let ghost pairs_cleared = self.pair_manager@;
        let ghost scopes_cleared = self.environment.scopes();
        assert(node_children(pairs_cleared, scopes_cleared, procedures, Node::Pair(0))
            == node_children(pairs0, scopes0, procedures, Node::Pair(0)));
        assert forall|n: Node| #[trigger] node_children(pairs_cleared, scopes_cleared, procedures, n)
            == node_children(pairs0, scopes0, procedures, n) by {}
        assert(self.gc_roots() == roots);
        let seen = self.mark_reachable(debug);
        let ghost pairs_marked = self.pair_manager@;
        let ghost scopes_marked = self.environment.scopes();
        let freed = self.free_unreferenced(&seen);
        let ghost pairs_freed = self.pair_manager@;
        let ghost scopes_freed = self.environment.scopes();
        let env_cycles = self.environment.sweep();
        let pair_cycles = self.pair_manager.sweep();
        proof {
            assert forall|path: Seq<Node>|
                #![trigger is_path(pairs0, scopes0, procedures, path)]
                path.len() > 0 && roots.contains(path[0]) && is_path(pairs0, scopes0, procedures, path) implies kept(
                    pairs0,
                    scopes0,
                    self.pair_manager@,
                    self.environment.scopes(),
                    path.last(),
                ) by {
                assert forall|k: int| 0 <= k < path.len() - 1 implies #[trigger] node_children(
                    pairs_cleared,
                    scopes_cleared,
                    procedures,
                    path[k],
                ).contains(path[k + 1]) by {
                    assert(node_children(pairs0, scopes0, procedures, path[k]).contains(path[k + 1]));
                }
                lemma_path_marked(
                    pairs_marked,
                    scopes_marked,
                    seen@,
                    pairs_cleared,
                    scopes_cleared,
                    procedures,
                    roots,
                    path,
                );
                let n = path.last();
                match n {
                    Node::Pair(i) => {
                        if i < pairs0.len() {
                            assert(pairs_marked[i as int].is_reachable);
                            assert(pairs_freed[i as int] == pairs_marked[i as int]);
                            assert(crate::object_tracker::swept(pairs_freed[i as int], self.pair_manager@[i as int]));
                        }
                    },
                    Node::Scope(i) => {
                        if i < scopes0.len() {
                            assert(scopes_marked[i as int].is_reachable);
                            assert(scopes_freed[i as int] == scopes_marked[i as int]);
                            assert(crate::object_tracker::swept(scopes_freed[i as int], self.environment.scopes()[i as int]));
                        }
                    },
                    Node::Procedure(_) => {},
                }
            }
            lemma_marked_candidates(
                pairs0,
                scopes0,
                pairs_cleared,
                scopes_cleared,
                pairs_marked,
                scopes_marked,
                seen@,
                procedures,
                roots,
            );
            let gcc = gc_candidates(pairs0, scopes0, procedures, roots);
            let c0 = candidates(pairs_marked, scopes_marked, seen@);
            let total = (pairs0.len() + scopes0.len() + procedures.len()) as int;
            let broken = gc_cycle_kept(pairs0, scopes0, procedures, roots);
            assert forall|i: int|
                0 <= i < pairs0.len() && !reachable(pairs0, scopes0, procedures, roots, Node::Pair(i as usize)) implies (
                #[trigger] self.pair_manager@[i]).has_had_cycles_broken by {
                assert(!is_marked(pairs_marked, scopes_marked, seen@, Node::Pair(i as usize)));
                assert(pairs_freed[i].is_reachable == pairs_marked[i].is_reachable);
                assert(crate::object_tracker::swept(pairs_freed[i], self.pair_manager@[i]));
            }
            assert forall|i: int|
                0 <= i < scopes0.len() && !reachable(pairs0, scopes0, procedures, roots, Node::Scope(i as usize)) implies (
                #[trigger] self.environment.scopes()[i]).has_had_cycles_broken by {
                assert(!is_marked(pairs_marked, scopes_marked, seen@, Node::Scope(i as usize)));
                assert(scopes_freed[i].is_reachable == scopes_marked[i].is_reachable);
                assert(crate::object_tracker::swept(scopes_freed[i], self.environment.scopes()[i]));
            }
            lemma_same_references(pairs_marked, scopes_marked, pairs0, scopes0, procedures, c0, total);
            if gc_counts_fit(pairs0, scopes0, procedures, roots) {
                assert forall|x: Node| #[trigger] c0(x) implies refs_to(
                    pairs_marked,
                    scopes_marked,
                    procedures,
                    c0,
                    seen@.len() as int,
                    x,
                ) < usize::MAX by {
                    assert(gcc(x));
                }
                assert forall|i: int| 0 <= i < pairs_freed.len() implies #[trigger] crate::object_tracker::is_sweepable(
                    pairs_freed[i],
                ) == broken(node_at(0, i)) by {
                    let x = node_at(0, i);
                    assert(i <= usize::MAX);
                    assert(exists_node(pairs_marked, scopes_marked, seen@.len() as int, x));
                    assert(is_candidate_node(pairs_freed, scopes_freed, seen@, x) == crate::object_tracker::is_sweepable(pairs_freed[i]));
                    assert(c0(x) == gcc(x));
                    assert(kept_by_cycle(pairs_marked, scopes_marked, procedures, c0, total, x) == kept_by_cycle(pairs0, scopes0, procedures, gcc, total, x));
                    assert(broken(x) == (gcc(x) && kept_by_cycle(pairs0, scopes0, procedures, gcc, total, x)));
                    assert(is_candidate_node(pairs_freed, scopes_freed, seen@, x) == (c0(x) && kept_by_cycle(
                        pairs_marked,
                        scopes_marked,
                        procedures,
                        c0,
                        total,
                        x,
                    )));
                }
                assert forall|i: int| 0 <= i < scopes_freed.len() implies #[trigger] crate::object_tracker::is_sweepable(
                    scopes_freed[i],
                ) == broken(node_at(1, i)) by {
                    let x = node_at(1, i);
                    assert(i <= usize::MAX);
                    assert(exists_node(pairs_marked, scopes_marked, seen@.len() as int, x));
                    assert(is_candidate_node(pairs_freed, scopes_freed, seen@, x) == crate::object_tracker::is_sweepable(scopes_freed[i]));
                    assert(c0(x) == gcc(x));
                    assert(kept_by_cycle(pairs_marked, scopes_marked, procedures, c0, total, x) == kept_by_cycle(pairs0, scopes0, procedures, gcc, total, x));
                    assert(broken(x) == (gcc(x) && kept_by_cycle(pairs0, scopes0, procedures, gcc, total, x)));
                    assert(is_candidate_node(pairs_freed, scopes_freed, seen@, x) == (c0(x) && kept_by_cycle(
                        pairs_marked,
                        scopes_marked,
                        procedures,
                        c0,
                        total,
                        x,
                    )));
                }
                lemma_count_sweepable_nodes(pairs_freed, broken, 0);
                lemma_count_sweepable_nodes(scopes_freed, broken, 1);
            }
        }
        if debug {
            let scopes_line = concat("Lexical scopes reclaimed: ", usize_to_string(env_cycles).as_str());
            let pairs_line = concat("Pairs reclaimed: ", usize_to_string(pair_cycles).as_str());
            let freed_line = concat("Objects freed outside cycles: ", usize_to_string(freed).as_str());
            self.printer.println(scopes_line.as_str());
            self.printer.println(pairs_line.as_str());
            self.printer.println(freed_line.as_str());
        }
        if pair_cycles <= usize::MAX - env_cycles {
            env_cycles + pair_cycles
        } else {
            usize::MAX
        }
    }

    /// Whether `node` may be freed: a live unmarked pair or scope, or a
    /// procedure neither marked nor freed.
    fn is_candidate(&self, node: Node, done: &Vec<bool>) -> (res: bool)
        ensures
            res == is_candidate_node(self.pair_manager@, self.environment.scopes(), done@, node),
    {
        match node {
            Node::Pair(i) => i < self.pair_manager.0.len() && !self.pair_manager.0.is_reachable(TrackedRef(i))
                && !self.pair_manager.0.is_broken(TrackedRef(i)),
            Node::Scope(i) => i < self.environment.scope_count() && !self.environment.is_scope_reachable(TrackedRef(i))
                && !self.environment.is_scope_broken(TrackedRef(i)),
            Node::Procedure(i) => i < done.len() && !done[i],
        }
    }

    /// Counts, for each candidate, the references to it from candidates (a
    /// count that would not fit stays at the largest `usize`).
    fn count_references(&self, done: &Vec<bool>) -> (res: InDegrees)
        ensures
            res.pairs@.len() == self.pair_manager@.len(),
            res.scopes@.len() == self.environment.scopes().len(),
            res.procedures@.len() == done@.len(),
            forall|x: Node|
                #[trigger] is_candidate_node(self.pair_manager@, self.environment.scopes(), done@, x) ==> res.deg(x)
                    == capped(
                    refs_to(
                        self.pair_manager@,
                        self.environment.scopes(),
                        self.procedures@,
                        candidates(self.pair_manager@, self.environment.scopes(), done@),
                        done@.len() as int,
                        x,
                    ),
                ),
    {
        let ghost pairs = self.pair_manager@;
        let ghost scopes = self.environment.scopes();
        let ghost procedures = self.procedures@;
        let mut degrees = InDegrees {
            pairs: zeros(self.pair_manager.0.len()),
            scopes: zeros(self.environment.scope_count()),
            procedures: zeros(done.len()),
        };
        let total_pairs = self.pair_manager.0.len();
        let total_scopes = self.environment.scope_count();
        let mut kind: usize = 0;
        proof {
            assert forall|x: Node| #[trigger] is_candidate_node(pairs, scopes, done@, x) implies degrees.deg(x) == capped(
                refs_before_kind(pairs, scopes, procedures, candidates(pairs, scopes, done@), done@.len() as int, 0, x),
            ) by {}
        }
        while kind < 3
            invariant
                kind <= 3,
                pairs == self.pair_manager@,
                scopes == self.environment.scopes(),
                procedures == self.procedures@,
                degrees.pairs@.len() == self.pair_manager@.len(),
                degrees.scopes@.len() == self.environment.scopes().len(),
                degrees.procedures@.len() == done@.len(),
                total_pairs == self.pair_manager@.len(),
                total_scopes == self.environment.scopes().len(),
                forall|x: Node|
                    #[trigger] is_candidate_node(pairs, scopes, done@, x) ==> degrees.deg(x) == capped(
                        refs_before_kind(pairs, scopes, procedures, candidates(pairs, scopes, done@), done@.len() as int, kind as int, x),
                    ),
            decreases 3 - kind,
        {
            let count = if kind == 0 { total_pairs } else if kind == 1 { total_scopes } else { done.len() };
            let mut i: usize = 0;
            while i < count
                invariant
                    i <= count,
                    kind < 3,
                    count == kind_len(pairs, scopes, done@.len() as int, kind as int),
                    pairs == self.pair_manager@,
                    scopes == self.environment.scopes(),
                    procedures == self.procedures@,
                    degrees.pairs@.len() == self.pair_manager@.len(),
                    degrees.scopes@.len() == self.environment.scopes().len(),
                    degrees.procedures@.len() == done@.len(),
                    forall|x: Node|
                        #[trigger] is_candidate_node(pairs, scopes, done@, x) ==> degrees.deg(x) == capped(
                            refs_before_kind(pairs, scopes, procedures, candidates(pairs, scopes, done@), done@.len() as int, kind as int, x) + refs_in_kind(
                                pairs,
                                scopes,
                                procedures,
                                candidates(pairs, scopes, done@),
                                kind as int,
                                i as int,
                                x,
                            ),
                        ),
                decreases count - i,
            {
                let node = if kind == 0 { Node::Pair(i) } else if kind == 1 { Node::Scope(i) } else { Node::Procedure(i) };
                assert(node == node_at(kind as int, i as int));
                if self.is_candidate(node, done) {
                    let children = self.children_of(node);
                    let mut j: usize = 0;
                    proof {
                        assert(children@.take(0) =~= Seq::<Node>::empty());
                    }
                    while j < children.len()
                        invariant
                            j <= children@.len(),
                            children@ == node_children(pairs, scopes, procedures, node),
                            pairs == self.pair_manager@,
                            scopes == self.environment.scopes(),
                            procedures == self.procedures@,
                            degrees.pairs@.len() == self.pair_manager@.len(),
                            degrees.scopes@.len() == self.environment.scopes().len(),
                            degrees.procedures@.len() == done@.len(),
                            forall|x: Node|
                                #[trigger] is_candidate_node(pairs, scopes, done@, x) ==> degrees.deg(x) == capped(
                                    refs_before_kind(pairs, scopes, procedures, candidates(pairs, scopes, done@), done@.len() as int, kind as int, x) + refs_in_kind(
                                        pairs,
                                        scopes,
                                        procedures,
                                        candidates(pairs, scopes, done@),
                                        kind as int,
                                        i as int,
                                        x,
                                    ) + occurrences(children@.take(j as int), x),
                                ),
                        decreases children@.len() - j,
                    {
                        proof {
                            assert(children@.take(j + 1).drop_last() =~= children@.take(j as int));
                            assert(children@.take(j + 1).last() == children@[j as int]);
                        }
                        if self.is_candidate(children[j], done) {
                            degrees.bump(children[j]);
                        }
                        j = j + 1;
                    }
                    proof {
                        assert(children@.take(children@.len() as int) =~= children@);
                    }
                }
                i = i + 1;
            }
            kind = kind + 1;
        }
        degrees
    }

    /// Takes the references that a freed object held away from the counts of
    /// the candidates among `children`, adding to the worklist each whose
    /// count drops to zero.
    fn release_children(
        &self,
        children: &Vec<Node>,
        done: &Vec<bool>,
        degrees: &mut InDegrees,
        worklist: &mut Vec<Node>,
        Ghost(bounded): Ghost<bool>,
        Ghost(plen): Ghost<int>,
    )
        requires
            old(degrees).pairs@.len() == self.pair_manager@.len(),
            old(degrees).scopes@.len() == self.environment.scopes().len(),
            old(degrees).procedures@.len() == done@.len(),
            bounded ==> forall|x: Node|
                #[trigger] is_candidate_node(self.pair_manager@, self.environment.scopes(), done@, x) ==> old(degrees).deg(x)
                    == refs_to(
                    self.pair_manager@,
                    self.environment.scopes(),
                    self.procedures@,
                    candidates(self.pair_manager@, self.environment.scopes(), done@),
                    plen,
                    x,
                ) + occurrences(children@, x),
            bounded ==> forall|x: Node|
                #[trigger] is_candidate_node(self.pair_manager@, self.environment.scopes(), done@, x) && old(degrees).deg(x)
                    == 0 ==> old(worklist)@.contains(x),
            bounded ==> forall|k: int|
                0 <= k < old(worklist)@.len() && is_candidate_node(
                    self.pair_manager@,
                    self.environment.scopes(),
                    done@,
                    #[trigger] old(worklist)@[k],
                ) ==> old(degrees).deg(old(worklist)@[k]) == 0,
        ensures
            final(degrees).pairs@.len() == self.pair_manager@.len(),
            final(degrees).scopes@.len() == self.environment.scopes().len(),
            final(degrees).procedures@.len() == done@.len(),
            bounded ==> forall|x: Node|
                #[trigger] is_candidate_node(self.pair_manager@, self.environment.scopes(), done@, x) ==> final(degrees).deg(
                    x,
                ) == refs_to(
                    self.pair_manager@,
                    self.environment.scopes(),
                    self.procedures@,
                    candidates(self.pair_manager@, self.environment.scopes(), done@),
                    plen,
                    x,
                ),
            bounded ==> forall|x: Node|
                #[trigger] is_candidate_node(self.pair_manager@, self.environment.scopes(), done@, x) && final(degrees).deg(x)
                    == 0 ==> final(worklist)@.contains(x),
            bounded ==> forall|k: int|
                0 <= k < final(worklist)@.len() && is_candidate_node(
                    self.pair_manager@,
                    self.environment.scopes(),
                    done@,
                    #[trigger] final(worklist)@[k],
                ) ==> final(degrees).deg(final(worklist)@[k]) == 0,
    {
        let ghost cur = candidates(self.pair_manager@, self.environment.scopes(), done@);
        let mut j: usize = 0;
        proof {
            assert(children@.take(0) =~= Seq::<Node>::empty());
        }
        while j < children.len()
            invariant
                j <= children@.len(),
                cur == candidates(self.pair_manager@, self.environment.scopes(), done@),
                degrees.pairs@.len() == self.pair_manager@.len(),
                degrees.scopes@.len() == self.environment.scopes().len(),
                degrees.procedures@.len() == done@.len(),
                bounded ==> forall|x: Node|
                    #[trigger] is_candidate_node(self.pair_manager@, self.environment.scopes(), done@, x) ==> degrees.deg(x)
                        + occurrences(children@.take(j as int), x) == refs_to(
                        self.pair_manager@,
                        self.environment.scopes(),
                        self.procedures@,
                        cur,
                        plen,
                        x,
                    ) + occurrences(children@, x),
                bounded ==> forall|x: Node|
                    #[trigger] is_candidate_node(self.pair_manager@, self.environment.scopes(), done@, x) && degrees.deg(x)
                        == 0 ==> worklist@.contains(x),
                bounded ==> forall|k: int|
                    0 <= k < worklist@.len() && is_candidate_node(
                        self.pair_manager@,
                        self.environment.scopes(),
                        done@,
                        #[trigger] worklist@[k],
                    ) ==> degrees.deg(worklist@[k]) == 0,
            decreases children@.len() - j,
        {
            let child = children[j];
            let ghost before = worklist@;
            proof {
                assert(children@.take(j + 1).drop_last() =~= children@.take(j as int));
                assert(children@.take(j + 1).last() == child);
                lemma_occurrences_take(children@, j + 1, child);
            }
            if self.is_candidate(child, done) && degrees.drop_edge(child) {
                worklist.push(child);
            }
            proof {
                if bounded {
                    assert forall|x: Node|
                        #[trigger] is_candidate_node(self.pair_manager@, self.environment.scopes(), done@, x) && degrees.deg(x)
                            == 0 implies worklist@.contains(x) by {
                        if x == child {
                            assert(worklist@[worklist@.len() - 1] == child);
                        } else {
                            assert(before.contains(x));
                            let k = choose|k: int| 0 <= k < before.len() && before[k] == x;
                            assert(worklist@[k] == x);
                        }
                    }
                    assert forall|k: int|
                        0 <= k < worklist@.len() && is_candidate_node(
                            self.pair_manager@,
                            self.environment.scopes(),
                            done@,
                            #[trigger] worklist@[k],
                        ) implies degrees.deg(worklist@[k]) == 0 by {
                        if k < before.len() {
                            assert(worklist@[k] == before[k]);
                        }
                    }
                }
            }
            j = j + 1;
        }
        proof {
            assert(children@.take(children@.len() as int) =~= children@);
        }
    }

    /// One step of the peel: takes an object off the worklist and, if it is
    /// still a candidate, frees it and takes its references away from the
    /// counts. Gives the ranks and the number of objects freed so far.
    fn peel_step(
        &mut self,
        done: &mut Vec<bool>,
        degrees: &mut InDegrees,
        worklist: &mut Vec<Node>,
        freed: &mut usize,
        Ghost(pairs0): Ghost<PairHeap>,
        Ghost(scopes0): Ghost<ScopeHeap>,
        Ghost(procedures): Ghost<Seq<ClosureData>>,
        Ghost(c0): Ghost<spec_fn(Node) -> bool>,
        Ghost(plen): Ghost<int>,
        Ghost(count0): Ghost<nat>,
        Ghost(bounded): Ghost<bool>,
        Ghost(rank_in): Ghost<Map<Node, int>>,
        Ghost(counter_in): Ghost<int>,
    ) -> (res: (Ghost<Map<Node, int>>, Ghost<int>))
        requires
            old(worklist)@.len() > 0,
            procedures == old(self).procedures@,
            peel_inv(
                pairs0,
                scopes0,
                procedures,
                c0,
                plen,
                count0,
                bounded,
                old(self).pair_manager@,
                old(self).environment.scopes(),
                old(done)@,
                *old(degrees),
                old(worklist)@,
                rank_in,
                counter_in,
            ),
        ensures
            peel_inv(
                pairs0,
                scopes0,
                procedures,
                c0,
                plen,
                count0,
                bounded,
                final(self).pair_manager@,
                final(self).environment.scopes(),
                final(done)@,
                *final(degrees),
                final(worklist)@,
                res.0@,
                res.1@,
            ),
            marked_kept(old(self).pair_manager@, final(self).pair_manager@),
            marked_kept(old(self).environment.scopes(), final(self).environment.scopes()),
            final(self).procedures@ == old(self).procedures@,
            final(self).history == old(self).history,
            final(self).environment.globals() == old(self).environment.globals(),
            final(self).environment.stack() == old(self).environment.stack(),
            final(self).stack_traversal_root == old(self).stack_traversal_root,
            final(self).stack@ == old(self).stack@,
            final(self).steps_left == old(self).steps_left,
            final(self).source_mapper@ == old(self).source_mapper@,
            final(self).has_evaluated_library == old(self).has_evaluated_library,
            count_candidates(final(self).pair_manager@, final(self).environment.scopes(), final(done)@) < count_candidates(
                old(self).pair_manager@,
                old(self).environment.scopes(),
                old(done)@,
            ) || (count_candidates(final(self).pair_manager@, final(self).environment.scopes(), final(done)@)
                == count_candidates(old(self).pair_manager@, old(self).environment.scopes(), old(done)@)
                && final(worklist)@.len() < old(worklist)@.len()),
    {
        let ghost mut rank = rank_in;
        let ghost mut counter = counter_in;
        proof {
            lemma_peel_inv_ranks(
                pairs0,
                scopes0,
                procedures,
                c0,
                plen,
                count0,
                bounded,
                old(self).pair_manager@,
                old(self).environment.scopes(),
                old(done)@,
                *old(degrees),
                old(worklist)@,
                rank_in,
                counter_in,
            );
        }
        let ghost pending = worklist@;
        let node = worklist.pop().unwrap();
        if self.is_candidate(node, done) {
            let children = self.children_of(node);
            let ghost pairs_before = self.pair_manager@;
            let ghost scopes_before = self.environment.scopes();
            let ghost done_before = done@;
            let ghost cur_before = candidates(pairs_before, scopes_before, done_before);
            let ghost rank_before = rank;
            proof {
                assert(children@ == node_children(pairs0, scopes0, procedures, node));
                if bounded {
                    assert(node == pending[pending.len() - 1]);
                    assert(degrees.deg(node) == 0);
                    assert forall|p: Node|
                        c0(p) && #[trigger] node_children(pairs0, scopes0, procedures, p).contains(node) implies !is_candidate_node(
                        pairs_before,
                        scopes_before,
                        done_before,
                        p,
                    ) by {
                        if is_candidate_node(pairs_before, scopes_before, done_before, p) {
                            assert(cur_before(p));
                            assert(node_children(pairs_before, scopes_before, procedures, p) == node_children(
                                pairs0,
                                scopes0,
                                procedures,
                                p,
                            ));
                            lemma_refs_to_zero(pairs_before, scopes_before, procedures, cur_before, plen, node, p);
                        }
                    }
                }
            }
            match node {
                Node::Pair(i) => {
                    self.pair_manager.0.free(TrackedRef(i));
                    proof {
                        lemma_free_one(pairs_before, self.pair_manager@, i as int);
                    }
                },
                Node::Scope(i) => {
                    self.environment.free_scope(TrackedRef(i));
                    proof {
                        lemma_free_one(scopes_before, self.environment.scopes(), i as int);
                    }
                },
                Node::Procedure(i) => {
                    proof {
                        lemma_count_unvisited_update(done@, i as int);
                    }
                    done.set(i, true);
                },
            }
            let ghost cur_after = candidates(self.pair_manager@, self.environment.scopes(), done@);
            proof {
                assert forall|z: Node| z != node implies #[trigger] is_candidate_node(
                    self.pair_manager@,
                    self.environment.scopes(),
                    done@,
                    z,
                ) == is_candidate_node(pairs_before, scopes_before, done_before, z) by {}
                assert forall|z: Node| z != node implies #[trigger] cur_after(z) == cur_before(z) by {
                    assert(cur_after(z) == is_candidate_node(self.pair_manager@, self.environment.scopes(), done@, z));
                    assert(cur_before(z) == is_candidate_node(pairs_before, scopes_before, done_before, z));
                }
                assert(!cur_after(node));
                assert(cur_before(node));
                assert forall|z: Node| #[trigger] cur_after(z) implies node_children(
                    self.pair_manager@,
                    self.environment.scopes(),
                    procedures,
                    z,
                ) == node_children(pairs_before, scopes_before, procedures, z) by {}
                if bounded {
                    assert forall|x: Node|
                        #[trigger] is_candidate_node(self.pair_manager@, self.environment.scopes(), done@, x) implies degrees.deg(
                        x,
                    ) == refs_to(
                        self.pair_manager@,
                        self.environment.scopes(),
                        procedures,
                        candidates(self.pair_manager@, self.environment.scopes(), done@),
                        plen,
                        x,
                    ) + occurrences(children@, x) by {
                        assert(cur_after(x));
                        lemma_refs_to_free(
                            pairs_before,
                            scopes_before,
                            self.pair_manager@,
                            self.environment.scopes(),
                            procedures,
                            cur_before,
                            cur_after,
                            plen,
                            node,
                            x,
                        );
                        assert(cur_before(x));
                        assert(is_candidate_node(pairs_before, scopes_before, done_before, x));
                    }
                    assert forall|x: Node|
                        #[trigger] is_candidate_node(self.pair_manager@, self.environment.scopes(), done@, x) && degrees.deg(x)
                            == 0 implies worklist@.contains(x) by {
                        assert(cur_after(x));
                        assert(x != node);
                        assert(is_candidate_node(pairs_before, scopes_before, done_before, x));
                        lemma_contains_after_pop(pending, Seq::empty(), x);
                        assert(pending.drop_last() + Seq::<Node>::empty() =~= pending.drop_last());
                    }
                    assert forall|k: int|
                        0 <= k < worklist@.len() && is_candidate_node(
                            self.pair_manager@,
                            self.environment.scopes(),
                            done@,
                            #[trigger] worklist@[k],
                        ) implies degrees.deg(worklist@[k]) == 0 by {
                        assert(worklist@[k] == pending[k]);
                        assert(cur_after(pending[k]));
                        assert(pending[k] != node);
                        assert(is_candidate_node(pairs_before, scopes_before, done_before, pending[k]));
                    }
                    lemma_rank_after_free(
                        pairs0,
                        scopes0,
                        procedures,
                        c0,
                        pairs_before,
                        scopes_before,
                        done_before,
                        self.pair_manager@,
                        self.environment.scopes(),
                        done@,
                        rank_before,
                        counter,
                        node,
                    );
                }
                let counter_before = counter;
                rank = rank_before.insert(node, counter);
                counter = counter + 1;
                lemma_rank_contains_after_free(
                    c0,
                    pairs_before,
                    scopes_before,
                    done_before,
                    self.pair_manager@,
                    self.environment.scopes(),
                    done@,
                    rank_before,
                    counter_before,
                    node,
                    rank,
                    counter,
                );
            }
            if *freed < usize::MAX {
                *freed = *freed + 1;
            }
            self.release_children(&children, done, degrees, worklist, Ghost(bounded), Ghost(plen));
        } else {
            proof {
                if bounded {
                    assert forall|x: Node|
                        #[trigger] is_candidate_node(self.pair_manager@, self.environment.scopes(), done@, x) && degrees.deg(
                            x,
                        ) == 0 implies worklist@.contains(x) by {
                        lemma_contains_after_pop(pending, Seq::empty(), x);
                        assert(pending.drop_last() + Seq::<Node>::empty() =~= pending.drop_last());
                    }
                    assert forall|k: int|
                        0 <= k < worklist@.len() && is_candidate_node(
                            self.pair_manager@,
                            self.environment.scopes(),
                            done@,
                            #[trigger] worklist@[k],
                        ) implies degrees.deg(worklist@[k]) == 0 by {
                        assert(worklist@[k] == pending[k]);
                    }
                }
            }
        }
            proof {
            lemma_peel_inv_intro(
                pairs0,
                scopes0,
                procedures,
                c0,
                plen,
                count0,
                bounded,
                self.pair_manager@,
                self.environment.scopes(),
                done@,
                *degrees,
                worklist@,
                rank,
                counter,
            );
        }
        (Ghost(rank), Ghost(counter))
    }

    /// Frees the unmarked objects that no other unmarked object keeps alive,
    /// repeatedly, as reference counting would have; what is left unmarked is
    /// kept alive by cycles. Returns how many objects were freed.
    #[verifier::spinoff_prover]
    #[verifier::rlimit(60)]
    fn free_unreferenced(&mut self, seen: &Vec<bool>) -> (res: usize)
        requires
            seen@.len() == old(self).procedures@.len(),
        ensures
            old(self).pair_manager@.len() <= usize::MAX,
            old(self).environment.scopes().len() <= usize::MAX,
            marked_kept(old(self).pair_manager@, final(self).pair_manager@),
            marked_kept(old(self).environment.scopes(), final(self).environment.scopes()),
            candidates_unchanged(old(self).pair_manager@, final(self).pair_manager@),
            candidates_unchanged(old(self).environment.scopes(), final(self).environment.scopes()),
            final(self).procedures@ == old(self).procedures@,
            final(self).history == old(self).history,
            final(self).environment.globals() == old(self).environment.globals(),
            final(self).environment.stack() == old(self).environment.stack(),
            final(self).stack_traversal_root == old(self).stack_traversal_root,
            final(self).stack@ == old(self).stack@,
            final(self).steps_left == old(self).steps_left,
            final(self).source_mapper@ == old(self).source_mapper@,
            final(self).has_evaluated_library == old(self).has_evaluated_library,
            ({
                let pairs0 = old(self).pair_manager@;
                let scopes0 = old(self).environment.scopes();
                let c0 = candidates(pairs0, scopes0, seen@);
                let total = (pairs0.len() + scopes0.len() + seen@.len()) as int;
                (forall|x: Node|
                    #[trigger] c0(x) ==> refs_to(pairs0, scopes0, old(self).procedures@, c0, seen@.len() as int, x)
                        < usize::MAX) ==> (forall|x: Node|
                    exists_node(pairs0, scopes0, seen@.len() as int, x) && !(x is Procedure) ==> (#[trigger] is_candidate_node(
                        final(self).pair_manager@,
                        final(self).environment.scopes(),
                        seen@,
                        x,
                    ) <==> c0(x) && kept_by_cycle(pairs0, scopes0, old(self).procedures@, c0, total, x)))
            }),
    {
        let ghost pairs0 = self.pair_manager@;
        let ghost scopes0 = self.environment.scopes();
        let ghost procedures = self.procedures@;
        let ghost c0 = candidates(pairs0, scopes0, seen@);
        let ghost total = (pairs0.len() + scopes0.len() + seen@.len()) as int;
        let ghost plen = seen@.len() as int;
        let ghost bounded = forall|x: Node|
            #[trigger] c0(x) ==> refs_to(pairs0, scopes0, procedures, c0, plen, x) < usize::MAX;
        let mut done: Vec<bool> = Vec::new();
        let mut k: usize = 0;
        while k < seen.len()
            invariant
                k <= seen@.len(),
                done@ == seen@.take(k as int),
            decreases seen@.len() - k,
        {
            done.push(seen[k]);
            k = k + 1;
            assert(done@ =~= seen@.take(k as int));
        }
        assert(done@ =~= seen@);
        let mut degrees = self.count_references(&done);
        proof {
            assert(candidates(self.pair_manager@, self.environment.scopes(), done@) == c0);
        }
        let mut worklist: Vec<Node> = Vec::new();
        let total_pairs = self.pair_manager.0.len();
        let total_scopes = self.environment.scope_count();
        let mut kind: usize = 0;
        while kind < 3
            invariant
                self.history == old(self).history,
                kind <= 3,
                total_pairs == self.pair_manager@.len(),
                total_scopes == self.environment.scopes().len(),
                self.pair_manager@ == pairs0,
                self.environment.scopes() == scopes0,
                self.procedures@ == procedures,
                done@ == seen@,
                plen == seen@.len(),
                c0 == candidates(pairs0, scopes0, seen@),
                degrees.pairs@.len() == pairs0.len(),
                degrees.scopes@.len() == scopes0.len(),
                degrees.procedures@.len() == done@.len(),
                forall|x: Node| #[trigger] c0(x) ==> degrees.deg(x) == capped(refs_to(pairs0, scopes0, procedures, c0, plen, x)),
                forall|x: Node|
                    #[trigger] c0(x) && scanned(kind as int, 0, x) && degrees.deg(x) == 0 ==> worklist@.contains(x),
                forall|j: int| 0 <= j < worklist@.len() ==> c0(#[trigger] worklist@[j]) && degrees.deg(worklist@[j]) == 0,
            decreases 3 - kind,
        {
            let count = if kind == 0 { total_pairs } else if kind == 1 { total_scopes } else { done.len() };
            let mut i: usize = 0;
            while i < count
                invariant
                    self.history == old(self).history,
                    i <= count,
                    kind < 3,
                    count == kind_len(pairs0, scopes0, plen, kind as int),
                    self.pair_manager@ == pairs0,
                    self.environment.scopes() == scopes0,
                    done@ == seen@,
                    plen == seen@.len(),
                    c0 == candidates(pairs0, scopes0, seen@),
                    degrees.pairs@.len() == pairs0.len(),
                    degrees.scopes@.len() == scopes0.len(),
                    degrees.procedures@.len() == done@.len(),
                    forall|x: Node|
                        #[trigger] c0(x) && scanned(kind as int, i as int, x) && degrees.deg(x) == 0 ==> worklist@.contains(
                            x,
                        ),
                    forall|j: int| 0 <= j < worklist@.len() ==> c0(#[trigger] worklist@[j]) && degrees.deg(worklist@[j]) == 0,
                decreases count - i,
            {
                let node = if kind == 0 { Node::Pair(i) } else if kind == 1 { Node::Scope(i) } else { Node::Procedure(i) };
                let ghost before = worklist@;
                assert(node == node_at(kind as int, i as int));
                let pushed = self.is_candidate(node, &done) && degrees.is_zero(node);
                if pushed {
                    worklist.push(node);
                    proof {
                        assert(worklist@[worklist@.len() - 1] == node);
                    }
                }
                proof {
                    assert forall|x: Node|
                        #[trigger] c0(x) && scanned(kind as int, i + 1, x) && degrees.deg(x) == 0 implies worklist@.contains(
                        x,
                    ) by {
                        if x == node {
                            assert(c0(node) == is_candidate_node(pairs0, scopes0, seen@, node));
                            assert(pushed);
                            assert(worklist@[worklist@.len() - 1] == node);
                        } else {
                            assert(scanned(kind as int, i as int, x));
                            assert(before.contains(x));
                            let j = choose|j: int| 0 <= j < before.len() && before[j] == x;
                            assert(worklist@[j] == x);
                        }
                    }
                }
                i = i + 1;
            }
            proof {
                assert forall|x: Node|
                    #[trigger] c0(x) && scanned(kind + 1, 0, x) && degrees.deg(x) == 0 implies worklist@.contains(x) by {
                    assert(c0(x) == is_candidate_node(pairs0, scopes0, seen@, x));
                    assert(scanned(kind as int, count as int, x));
                }
            }
            kind = kind + 1;
        }
        let seen_len = seen.len();
        assert(plen == seen_len);
        let mut freed: usize = 0;
        let ghost mut rank: Map<Node, int> = Map::empty();
        let ghost mut counter: int = 0;
        let ghost count0 = count_candidates(pairs0, scopes0, seen@);
        let pairs_len = self.pair_manager.0.len();
        let scopes_len = self.environment.scope_count();
        proof {
            lemma_count_sweepable_le(pairs0);
            lemma_count_sweepable_le(scopes0);
            lemma_count_unvisited_le(seen@);
            assert(candidates(self.pair_manager@, self.environment.scopes(), done@) == c0);
            assert forall|x: Node| #[trigger] c0(x) implies scanned(3, 0, x) by {}
            assert forall|x: Node|
                #[trigger] is_candidate_node(self.pair_manager@, self.environment.scopes(), done@, x) implies c0(x) by {}
            if bounded {
                assert forall|x: Node|
                    #[trigger] is_candidate_node(self.pair_manager@, self.environment.scopes(), done@, x) implies degrees.deg(x)
                    == refs_to(
                    self.pair_manager@,
                    self.environment.scopes(),
                    procedures,
                    candidates(self.pair_manager@, self.environment.scopes(), done@),
                    plen,
                    x,
                ) by {
                    assert(c0(x));
                }
                assert forall|x: Node|
                    #[trigger] is_candidate_node(self.pair_manager@, self.environment.scopes(), done@, x) && degrees.deg(x)
                    == 0 implies worklist@.contains(x) by {
                    assert(c0(x));
                    assert(scanned(3, 0, x));
                }
                assert forall|k: int|
                    0 <= k < worklist@.len() && is_candidate_node(
                        self.pair_manager@,
                        self.environment.scopes(),
                        done@,
                        #[trigger] worklist@[k],
                    ) implies degrees.deg(worklist@[k]) == 0 by {}
            }
            assert(candidates_unchanged(pairs0, self.pair_manager@));
            assert(candidates_unchanged(scopes0, self.environment.scopes()));
            assert(freed_ranked(c0, self.pair_manager@, self.environment.scopes(), done@, rank, counter)) by {
                reveal(freed_ranked);
            }
        }
        while worklist.len() > 0
            invariant
                self.history == old(self).history,
                marked_kept(old(self).pair_manager@, self.pair_manager@),
                marked_kept(old(self).environment.scopes(), self.environment.scopes()),
                pairs0 == old(self).pair_manager@,
                scopes0 == old(self).environment.scopes(),
                self.procedures@ == procedures,
                procedures == old(self).procedures@,
                plen == seen@.len(),
                c0 == candidates(pairs0, scopes0, seen@),
                total == pairs0.len() + scopes0.len() + seen@.len(),
                count0 == count_candidates(pairs0, scopes0, seen@),
                count0 <= total,
                self.environment.globals() == old(self).environment.globals(),
                self.environment.stack() == old(self).environment.stack(),
                self.stack_traversal_root == old(self).stack_traversal_root,
                self.stack@ == old(self).stack@,
                self.steps_left == old(self).steps_left,
                self.source_mapper@ == old(self).source_mapper@,
                self.has_evaluated_library == old(self).has_evaluated_library,
                bounded == forall|x: Node|
                    #[trigger] c0(x) ==> refs_to(pairs0, scopes0, procedures, c0, plen, x) < usize::MAX,
                peel_inv(
                    pairs0,
                    scopes0,
                    procedures,
                    c0,
                    plen,
                    count0,
                    bounded,
                    self.pair_manager@,
                    self.environment.scopes(),
                    done@,
                    degrees,
                    worklist@,
                    rank,
                    counter,
                ),
            decreases count_candidates(self.pair_manager@, self.environment.scopes(), done@), worklist@.len(),
        {
            let ghost pairs_before = self.pair_manager@;
            let ghost scopes_before = self.environment.scopes();
            let (Ghost(r), Ghost(c)) = self.peel_step(
                &mut done,
                &mut degrees,
                &mut worklist,
                &mut freed,
                Ghost(pairs0),
                Ghost(scopes0),
                Ghost(procedures),
                Ghost(c0),
                Ghost(plen),
                Ghost(count0),
                Ghost(bounded),
                Ghost(rank),
                Ghost(counter),
            );
            proof {
                lemma_marked_kept_trans(old(self).pair_manager@, pairs_before, self.pair_manager@);
                lemma_marked_kept_trans(old(self).environment.scopes(), scopes_before, self.environment.scopes());
                rank = r;
                counter = c;
            }
        }
        proof {
            lemma_peel_inv_ranks(
                pairs0,
                scopes0,
                procedures,
                c0,
                plen,
                count0,
                bounded,
                self.pair_manager@,
                self.environment.scopes(),
                done@,
                degrees,
                worklist@,
                rank,
                counter,
            );
            if bounded {
                lemma_peel_result(
                    pairs0,
                    scopes0,
                    self.pair_manager@,
                    self.environment.scopes(),
                    procedures,
                    c0,
                    seen@,
                    done@,
                    degrees,
                    worklist@,
                    rank,
                    counter,
                    plen,
                    total,
                );
            }
        }
        freed
    }
}

} // verus!
