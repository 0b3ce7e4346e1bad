use vstd::prelude::*;

use crate::object_tracker::{
    count_sweepable, fresh, swept, with_object, CycleBreaker, ObjectTracker, TrackedObject,
    TrackedRef,
};
use crate::source_mapped::SourceMapped;
use crate::value::{SourceValue, Value};

verus! {

/// A Scheme pair: a handle on a `PairInner` held by a `PairManager`. Two
/// handles are the same pair exactly when they are equal.
#[derive(Debug, Clone, Copy, PartialEq, Eq, Structural)]
pub struct Pair(pub TrackedRef);

/// The contents of a pair.
#[derive(Debug, Clone, Copy)]
pub struct PairInner {
    pub car: SourceValue,
    pub cdr: SourceValue,
}

/// The shape of the structure that starts at a pair.
#[derive(Debug, Clone, Copy, PartialEq, Eq, Structural)]
pub enum PairType {
    List,
    ImproperList,
    Cyclic,
}

/// A pair structure flattened into its items; an improper list keeps its final
/// `cdr` as the last item.
#[derive(Debug)]
pub enum VecPair {
    List(Vec<SourceValue>),
    ImproperList(Vec<SourceValue>),
}

pub open spec fn undefined_value() -> SourceValue {
    SourceMapped(Value::Undefined, (0usize, 0usize, None))
}

impl CycleBreaker for PairInner {
    fn debug_name(&self) -> (res: &'static str)
        ensures
            res@ == "Pair"@,
    {
        "Pair"
    }

    open spec fn is_broken_form(&self, original: &Self) -> bool {
        self.car == undefined_value() && self.cdr == undefined_value()
    }

    fn break_cycles(&self) -> (res: Self) {
        PairInner { car: SourceMapped(Value::Undefined, (0, 0, None)), cdr: SourceMapped(Value::Undefined, (0, 0, None)) }
    }
}

pub type PairHeap = Seq<TrackedObject<PairInner>>;

/// Whether `p` refers to a pair of `heap`.
pub open spec fn valid_pair(heap: PairHeap, p: Pair) -> bool {
    p.0.0 < heap.len()
}

/// The contents of pair `p` in `heap`.
pub open spec fn inner(heap: PairHeap, p: Pair) -> PairInner {
    heap[p.0.0 as int].object
}

/// Whether `v` is a chain of pairs whose cars are `items` in order and whose
/// last cdr is `tail` (with no items, `v` is `tail` itself). A proper list is a
/// chain whose tail is the empty list.
pub open spec fn is_chain(heap: PairHeap, v: Value, items: Seq<SourceValue>, tail: Value) -> bool
    decreases items.len(),
{
    if items.len() == 0 {
        v == tail
    } else {
        &&& v is Pair
        &&& valid_pair(heap, v->Pair_0)
        &&& inner(heap, v->Pair_0).car == items[0]
        &&& is_chain(heap, inner(heap, v->Pair_0).cdr.0, items.drop_first(), tail)
    }
}

/// Adding pairs to a heap keeps every chain it holds.
proof fn lemma_chain_push(
    heap: PairHeap,
    v: Value,
    items: Seq<SourceValue>,
    tail: Value,
    x: TrackedObject<PairInner>,
)
    requires
        is_chain(heap, v, items, tail),
    ensures
        is_chain(heap.push(x), v, items, tail),
    decreases items.len(),
{
    if items.len() > 0 {
        lemma_chain_push(heap, inner(heap, v->Pair_0).cdr.0, items.drop_first(), tail, x);
    }
}

/// The line that reports how many pairs `heap` has allocated, freed and live.
pub open spec fn pair_stats_text(heap: PairHeap) -> Seq<char> {
    "Pairs: "@ + crate::text::decimal(heap.len()) + " allocated, "@ + crate::text::decimal(
        crate::object_tracker::count_broken(heap),
    ) + " free, "@ + crate::text::decimal((heap.len() - crate::object_tracker::count_broken(heap)) as nat) + " live"@
}

/// The cdr of the `n`th pair of the chain that starts at `v`.
pub open spec fn last_cdr(heap: PairHeap, v: Value, n: nat) -> SourceValue
    decreases n,
{
    if n <= 1 {
        inner(heap, v->Pair_0).cdr
    } else {
        last_cdr(heap, inner(heap, v->Pair_0).cdr.0, (n - 1) as nat)
    }
}

/// Adding pairs to a heap keeps the cdr that ends a chain it holds.
pub proof fn lemma_last_cdr_push(
    heap: PairHeap,
    v: Value,
    items: Seq<SourceValue>,
    tail: Value,
    x: TrackedObject<PairInner>,
)
    requires
        is_chain(heap, v, items, tail),
        items.len() >= 1,
    ensures
        last_cdr(heap.push(x), v, items.len()) == last_cdr(heap, v, items.len()),
    decreases items.len(),
{
    if items.len() > 1 {
        lemma_last_cdr_push(heap, inner(heap, v->Pair_0).cdr.0, items.drop_first(), tail, x);
    }
}

/// A chain ending at a pair extends by that pair's car to its cdr.
pub proof fn lemma_chain_extend(heap: PairHeap, v: Value, items: Seq<SourceValue>, last: Pair)
    requires
        is_chain(heap, v, items, Value::Pair(last)),
        valid_pair(heap, last),
    ensures
        is_chain(heap, v, items.push(inner(heap, last).car), inner(heap, last).cdr.0),
    decreases items.len(),
{
    let c = inner(heap, last).car;
    if items.len() == 0 {
        assert(items.push(c).drop_first() =~= Seq::<SourceValue>::empty());
        assert(items.push(c)[0] == c);
        assert(is_chain(heap, inner(heap, last).cdr.0, Seq::<SourceValue>::empty(), inner(heap, last).cdr.0));
    } else {
        assert(items.push(c)[0] == items[0]);
        let next = inner(heap, v->Pair_0).cdr.0;
        lemma_chain_extend(heap, next, items.drop_first(), last);
        assert(items.push(inner(heap, last).car).drop_first() =~= items.drop_first().push(
            inner(heap, last).car,
        ));
    }
}

/// Whether `v` is a proper list: a chain of pairs ending in the empty list.
pub open spec fn is_proper_list(heap: PairHeap, v: Value) -> bool {
    exists|items: Seq<SourceValue>| #[trigger] is_chain(heap, v, items, Value::EmptyList)
}

/// Whether `v` is an improper list: a chain of pairs ending in a value that is
/// neither a pair nor the empty list.
pub open spec fn is_improper_list(heap: PairHeap, v: Value) -> bool {
    exists|items: Seq<SourceValue>, tail: Value|
        #[trigger] is_chain(heap, v, items, tail) && items.len() > 0 && !(tail is Pair) && !(tail is EmptyList)
}

/// The value reached from `root` by following `path`: each step takes the car
/// (`false`) or the cdr (`true`) of the pair reached so far. `None` when a step
/// starts from a value that is not a pair of `heap`.
pub open spec fn follow(heap: PairHeap, root: Value, path: Seq<bool>) -> Option<Value>
    decreases path.len(),
{
    if path.len() == 0 {
        Some(root)
    } else {
        match follow(heap, root, path.drop_last()) {
            Some(Value::Pair(q)) => if valid_pair(heap, q) {
                Some(
                    if path.last() {
                        inner(heap, q).cdr.0
                    } else {
                        inner(heap, q).car.0
                    },
                )
            } else {
                None
            },
            _ => None,
        }
    }
}

/// Whether `path` leads from `root` to a handle on pair number `i`.
pub open spec fn leads_to_pair(heap: PairHeap, root: Value, path: Seq<bool>, i: int) -> bool {
    follow(heap, root, path) matches Some(Value::Pair(q)) && q.0.0 == i
}

/// Whether the walk from `root` through cars and cdrs meets some pair twice
/// (two different paths lead to it) or meets a handle that refers to no pair.
/// A cyclic structure, and one that holds the same pair in two places, both
/// share structure.
pub open spec fn shares_structure(heap: PairHeap, root: Value) -> bool {
    ||| exists|s1: Seq<bool>, s2: Seq<bool>, i: int|
        s1 != s2 && #[trigger] leads_to_pair(heap, root, s1, i) && #[trigger] leads_to_pair(heap, root, s2, i)
    ||| exists|s: Seq<bool>| #[trigger] follow(heap, root, s) matches Some(Value::Pair(q)) && !valid_pair(heap, q)
}

/// One more step of a path: the car or cdr of the pair the path reaches.
proof fn lemma_follow_push(heap: PairHeap, root: Value, path: Seq<bool>, b: bool)
    ensures
        follow(heap, root, path.push(b)) == match follow(heap, root, path) {
            Some(Value::Pair(q)) => if valid_pair(heap, q) {
                Some(
                    if b {
                        inner(heap, q).cdr.0
                    } else {
                        inner(heap, q).car.0
                    },
                )
            } else {
                None
            },
            _ => None,
        },
{
    assert(path.push(b).drop_last() =~= path);
}

/// A path that passes through a value that is not a pair leads nowhere.
proof fn lemma_follow_dead(heap: PairHeap, root: Value, prefix: Seq<bool>, s: Seq<bool>)
    requires
        prefix.is_prefix_of(s),
        prefix.len() < s.len(),
        !(follow(heap, root, prefix) matches Some(Value::Pair(_))),
    ensures
        follow(heap, root, s) is None,
    decreases s.len(),
{
    let d = s.drop_last();
    if d.len() == prefix.len() {
        assert(d =~= prefix);
    } else {
        assert(prefix.is_prefix_of(d));
        lemma_follow_dead(heap, root, prefix, d);
    }
}

/// A path that extends `cp` either is `cp` or goes on through its car or its cdr.
proof fn lemma_prefix_cases(cp: Seq<bool>, s: Seq<bool>)
    requires
        cp.is_prefix_of(s),
    ensures
        s == cp || cp.push(false).is_prefix_of(s) || cp.push(true).is_prefix_of(s),
{
    if s.len() > cp.len() {
        if s[cp.len() as int] {
            assert(cp.push(true) =~= s.subrange(0, cp.len() + 1int));
        } else {
            assert(cp.push(false) =~= s.subrange(0, cp.len() + 1int));
        }
    } else {
        assert(s =~= cp);
    }
}

/// Being a prefix is transitive.
proof fn lemma_prefix_trans(a: Seq<bool>, b: Seq<bool>, c: Seq<bool>)
    requires
        a.is_prefix_of(b),
        b.is_prefix_of(c),
    ensures
        a.is_prefix_of(c),
{
    assert forall|k: int| 0 <= k < a.len() implies a[k] == c[k] by {
        assert(a[k] == b.subrange(0, a.len() as int)[k]);
        assert(b[k] == c.subrange(0, b.len() as int)[k]);
    }
    assert(a =~= c.subrange(0, a.len() as int));
}

/// Being one path further by a car is incompatible with being one further by a cdr.
proof fn lemma_prefix_diverge(cp: Seq<bool>, r: Seq<bool>)
    requires
        cp.push(true).is_prefix_of(r),
    ensures
        !cp.push(false).is_prefix_of(r),
{
    assert(cp.push(true)[cp.len() as int] == r.subrange(0, cp.len() + 1int)[cp.len() as int]);
    if cp.push(false).is_prefix_of(r) {
        assert(cp.push(false)[cp.len() as int] == r.subrange(0, cp.len() + 1int)[cp.len() as int]);
    }
}

/// `visited` marks exactly the pairs that `rec` holds a path for, and each
/// path leads from `root` to its pair.
spec fn recorded(heap: PairHeap, root: Value, visited: Seq<bool>, rec: Map<int, Seq<bool>>) -> bool {
    &&& forall|i: int| 0 <= i < visited.len() ==> (#[trigger] visited[i] <==> rec.contains_key(i))
    &&& forall|i: int| #[trigger] rec.contains_key(i) ==> 0 <= i < visited.len() && leads_to_pair(heap, root, rec[i], i)
}

/// Whether `reached`, where path `s` leads, is either no pair handle or a
/// pair of `heap` that `rec` holds with the path `s`.
spec fn reached_recorded(heap: PairHeap, rec: Map<int, Seq<bool>>, s: Seq<bool>, reached: Option<Value>) -> bool {
    match reached {
        Some(Value::Pair(q)) => valid_pair(heap, q) && rec.contains_key(q.0.0 as int) && rec[q.0.0 as int] == s,
        _ => true,
    }
}

/// Every path from `root` that extends `base` and reaches a pair handle
/// reaches a pair of `heap` that `rec` holds with that very path.
spec fn explored(heap: PairHeap, root: Value, base: Seq<bool>, rec: Map<int, Seq<bool>>) -> bool {
    forall|s: Seq<bool>| base.is_prefix_of(s) ==> reached_recorded(heap, rec, s, #[trigger] follow(heap, root, s))
}

/// The same as `explored`, for the paths that do not extend `skip`.
spec fn explored_except(heap: PairHeap, root: Value, base: Seq<bool>, skip: Seq<bool>, rec: Map<int, Seq<bool>>) -> bool {
    forall|s: Seq<bool>|
        base.is_prefix_of(s) && !skip.is_prefix_of(s) ==> reached_recorded(heap, rec, s, #[trigger] follow(heap, root, s))
}

/// After a pair and its car are walked, only the paths through its cdr are
/// left to walk.
proof fn lemma_step_explored(
    heap: PairHeap,
    root: Value,
    base: Seq<bool>,
    cp: Seq<bool>,
    m_head: Map<int, Seq<bool>>,
    m_mid: Map<int, Seq<bool>>,
    m: Map<int, Seq<bool>>,
    j: int,
)
    requires
        explored_except(heap, root, base, cp, m_head),
        !m_head.contains_key(j),
        leads_to_pair(heap, root, cp, j),
        0 <= j < heap.len(),
        m_mid == m_head.insert(j, cp),
        forall|i: int| #[trigger] m_mid.contains_key(i) ==> m.contains_key(i) && m[i] == m_mid[i],
        (follow(heap, root, cp.push(false)) matches Some(Value::Pair(_))) ==> explored(heap, root, cp.push(false), m),
    ensures
        explored_except(heap, root, base, cp.push(true), m),
{
    assert forall|s: Seq<bool>| base.is_prefix_of(s) && !cp.push(true).is_prefix_of(s) implies reached_recorded(
        heap,
        m,
        s,
        #[trigger] follow(heap, root, s),
    ) by {
        if !cp.is_prefix_of(s) {
            assert(reached_recorded(heap, m_head, s, follow(heap, root, s)));
            if let Some(Value::Pair(q)) = follow(heap, root, s) {
                assert(m_head.contains_key(q.0.0 as int));
                assert(m_mid.contains_key(q.0.0 as int));
            }
        } else {
            lemma_prefix_cases(cp, s);
            if s == cp {
                assert(m_mid.contains_key(j));
            } else if cp.push(false).is_prefix_of(s) {
                if !(follow(heap, root, cp.push(false)) matches Some(Value::Pair(_))) {
                    if s != cp.push(false) {
                        if s.len() == cp.push(false).len() {
                            assert(s =~= cp.push(false));
                        }
                        lemma_follow_dead(heap, root, cp.push(false), s);
                    }
                }
            }
        }
    }
}

/// Once the cdr of the last pair walked is not a pair, every path is walked.
proof fn lemma_leaf_explored(heap: PairHeap, root: Value, base: Seq<bool>, cp: Seq<bool>, m: Map<int, Seq<bool>>)
    requires
        explored_except(heap, root, base, cp.push(true), m),
        !(follow(heap, root, cp.push(true)) matches Some(Value::Pair(_))),
    ensures
        explored(heap, root, base, m),
{
    assert forall|s: Seq<bool>| base.is_prefix_of(s) implies reached_recorded(heap, m, s, #[trigger] follow(heap, root, s)) by {
        if cp.push(true).is_prefix_of(s) && s != cp.push(true) {
            if s.len() == cp.push(true).len() {
                assert(s =~= cp.push(true));
            }
            lemma_follow_dead(heap, root, cp.push(true), s);
        }
    }
}

/// A finite set of indices below `n` has at most `n` members.
proof fn lemma_indices_bound(indices: Set<int>, n: int)
    requires
        indices.finite(),
        n >= 0,
        forall|i: int| #[trigger] indices.contains(i) ==> 0 <= i < n,
    ensures
        indices.len() <= n,
{
    vstd::set_lib::lemma_int_range(0, n);
    vstd::set_lib::lemma_len_subset(indices, vstd::set_lib::set_int_range(0, n));
}

/// A value starts at most one chain that ends in something other than a pair.
pub proof fn lemma_chain_unique(
    heap: PairHeap,
    v: Value,
    items1: Seq<SourceValue>,
    tail1: Value,
    items2: Seq<SourceValue>,
    tail2: Value,
)
    requires
        is_chain(heap, v, items1, tail1),
        is_chain(heap, v, items2, tail2),
        !(tail1 is Pair),
        !(tail2 is Pair),
    ensures
        items1 == items2,
        tail1 == tail2,
    decreases items1.len(),
{
    if items1.len() == 0 {
        assert(items2.len() == 0);
    } else {
        assert(items2.len() > 0);
        lemma_chain_unique(
            heap,
            inner(heap, v->Pair_0).cdr.0,
            items1.drop_first(),
            tail1,
            items2.drop_first(),
            tail2,
        );
        assert forall|k: int| 0 <= k < items1.len() implies items1[k] == items2[k] by {
            if k > 0 {
                assert(items1[k] == items1.drop_first()[k - 1]);
                assert(items2[k] == items2.drop_first()[k - 1]);
            }
        }
        assert(items1 =~= items2);
    }
}

/// A new pair reads back as it was made: `pair` puts a pair at the end of the
/// heap whose car and cdr are the values it was given, and leaves every other
/// pair as it was.
pub proof fn lemma_new_pair_reads_back(heap: PairHeap, car: SourceValue, cdr: SourceValue, q: Pair)
    ensures
        ({
            let heap2 = heap.push(fresh(PairInner { car, cdr }));
            let p = Pair(TrackedRef(heap.len() as usize));
            heap.len() < usize::MAX ==> valid_pair(heap2, p) && inner(heap2, p).car == car && inner(heap2, p).cdr == cdr
        }),
        valid_pair(heap, q) ==> inner(heap.push(fresh(PairInner { car, cdr })), q) == inner(heap, q),
{
}

/// A pair reads back what was last written to it: after `set_car` its car is
/// the new value and its cdr is unchanged, and after `set_cdr` the other way
/// round; every other pair is left as it was.
pub proof fn lemma_set_reads_back(heap: PairHeap, p: Pair, value: SourceValue, q: Pair)
    requires
        valid_pair(heap, p),
    ensures
        ({
            let heap2 = heap.update(p.0.0 as int, with_object(heap[p.0.0 as int], PairInner { car: value, ..inner(heap, p) }));
            &&& inner(heap2, p).car == value
            &&& inner(heap2, p).cdr == inner(heap, p).cdr
            &&& q != p && valid_pair(heap, q) ==> inner(heap2, q) == inner(heap, q)
        }),
        ({
            let heap2 = heap.update(p.0.0 as int, with_object(heap[p.0.0 as int], PairInner { cdr: value, ..inner(heap, p) }));
            &&& inner(heap2, p).cdr == value
            &&& inner(heap2, p).car == inner(heap, p).car
            &&& q != p && valid_pair(heap, q) ==> inner(heap2, q) == inner(heap, q)
        }),
{
}

/// How many positions of `v` are still `false`.
pub open spec fn count_unvisited(v: Seq<bool>) -> nat
    decreases v.len(),
{
    if v.len() == 0 {
        0
    } else {
        count_unvisited(v.drop_last()) + if !v.last() { 1nat } else { 0nat }
    }
}

pub proof fn lemma_count_unvisited_update(v: Seq<bool>, i: int)
    requires
        0 <= i < v.len(),
        !v[i],
    ensures
        count_unvisited(v.update(i, true)) + 1 == count_unvisited(v),
    decreases v.len(),
{
    if i < v.len() - 1 {
        assert(v.update(i, true).drop_last() =~= v.drop_last().update(i, true));
        lemma_count_unvisited_update(v.drop_last(), i);
    } else {
        assert(v.update(i, true).drop_last() =~= v.drop_last());
    }
}

/// Holds every pair ever made; pairs are never moved or reused.
pub struct PairManager(pub ObjectTracker<PairInner>);

impl PairManager {
    pub open spec fn view(&self) -> PairHeap {
        self.0@
    }

    pub fn new() -> (res: Self)
        ensures
            res@ == Seq::<TrackedObject<PairInner>>::empty(),
    {
        PairManager(ObjectTracker::new())
    }

    pub fn get_stats_as_string(&self) -> (res: String)
        ensures
            res@ == pair_stats_text(self@),
    {
        let stats = self.0.stats();
        crate::text::concat("Pairs: ", stats.as_str())
    }

    /// Makes a new pair.
    pub fn pair(&mut self, car: SourceValue, cdr: SourceValue) -> (res: Pair)
        ensures
            res.0.0 == old(self)@.len(),
            final(self)@ == old(self)@.push(fresh(PairInner { car, cdr })),
    {
        Pair(self.0.track(PairInner { car, cdr }))
    }

    pub fn is_valid(&self, p: Pair) -> (res: bool)
        ensures
            res == valid_pair(self@, p),
    {
        p.0.0 < self.0.len()
    }

    /// The car of `p` (undefined if `p` is not a pair of this manager).
    pub fn car(&self, p: Pair) -> (res: SourceValue)
        ensures
            valid_pair(self@, p) ==> res == inner(self@, p).car,
            !valid_pair(self@, p) ==> res == undefined_value(),
    {
        if p.0.0 < self.0.len() {
            self.0.get(p.0).car
        } else {
            SourceMapped(Value::Undefined, (0, 0, None))
        }
    }

    /// The cdr of `p` (undefined if `p` is not a pair of this manager).
    pub fn cdr(&self, p: Pair) -> (res: SourceValue)
        ensures
            valid_pair(self@, p) ==> res == inner(self@, p).cdr,
            !valid_pair(self@, p) ==> res == undefined_value(),
    {
        if p.0.0 < self.0.len() {
            self.0.get(p.0).cdr
        } else {
            SourceMapped(Value::Undefined, (0, 0, None))
        }
    }

    pub fn set_car(&mut self, p: Pair, value: SourceValue)
        ensures
            valid_pair(old(self)@, p) ==> final(self)@ == old(self)@.update(
                p.0.0 as int,
                with_object(old(self)@[p.0.0 as int], PairInner { car: value, ..inner(old(self)@, p) }),
            ),
            !valid_pair(old(self)@, p) ==> final(self)@ == old(self)@,
    {
        if p.0.0 < self.0.len() {
            let current = *self.0.get(p.0);
            self.0.replace(p.0, PairInner { car: value, cdr: current.cdr });
        }
    }

    pub fn set_cdr(&mut self, p: Pair, value: SourceValue)
        ensures
            valid_pair(old(self)@, p) ==> final(self)@ == old(self)@.update(
                p.0.0 as int,
                with_object(old(self)@[p.0.0 as int], PairInner { cdr: value, ..inner(old(self)@, p) }),
            ),
            !valid_pair(old(self)@, p) ==> final(self)@ == old(self)@,
    {
        if p.0.0 < self.0.len() {
            let current = *self.0.get(p.0);
            self.0.replace(p.0, PairInner { car: current.car, cdr: value });
        }
    }

    /// Builds a chain of new pairs whose cars are `initial_values` and whose
    /// last cdr is `final_value`.
    pub fn vec_to_pair(&mut self, initial_values: Vec<SourceValue>, final_value: SourceValue) -> (res: Value)
        requires
            initial_values.len() > 0,
        ensures
            is_chain(final(self)@, res, initial_values@, final_value.0),
            last_cdr(final(self)@, res, initial_values@.len()) == final_value,
            res is Pair,
            final(self)@.len() == old(self)@.len() + initial_values@.len(),
            forall|k: int| old(self)@.len() <= k < final(self)@.len() ==> !(#[trigger] final(self)@[k]).has_had_cycles_broken,
            final(self)@.len() >= old(self)@.len(),
            final(self)@.take(old(self)@.len() as int) == old(self)@,
    {
        let mut latest = final_value;
        let mut i: usize = initial_values.len();
        while i > 0
            invariant
                i <= initial_values.len(),
                self@.len() >= old(self)@.len(),
                self@.len() == old(self)@.len() + (initial_values@.len() - i),
                forall|k: int| old(self)@.len() <= k < self@.len() ==> !(#[trigger] self@[k]).has_had_cycles_broken,
                self@.take(old(self)@.len() as int) == old(self)@,
                is_chain(self@, latest.0, initial_values@.skip(i as int), final_value.0),
                i < initial_values.len() ==> latest.0 is Pair,
                i < initial_values.len() ==> last_cdr(self@, latest.0, (initial_values@.len() - i) as nat) == final_value,
                i == initial_values.len() ==> latest == final_value,
            decreases i,
        {
            i = i - 1;
            let ghost before = self@;
            let ghost rest = initial_values@.skip(i + 1);
            let p = self.pair(initial_values[i], latest);
            proof {
                lemma_chain_push(before, latest.0, rest, final_value.0, fresh(PairInner { car: initial_values@[i as int], cdr: latest }));
                if i + 1 < initial_values.len() {
                    lemma_last_cdr_push(before, latest.0, rest, final_value.0, fresh(PairInner { car: initial_values@[i as int], cdr: latest }));
                }
                assert(initial_values@.skip(i as int).drop_first() =~= rest);
                assert(self@.take(old(self)@.len() as int) =~= old(self)@);
                let n = (initial_values@.len() - i) as nat;
                assert(inner(self@, p).cdr == latest);
                if i + 1 < initial_values.len() {
                    assert(last_cdr(self@, Value::Pair(p), n) == last_cdr(self@, latest.0, (n - 1) as nat));
                }
            }
            latest = SourceMapped(Value::Pair(p), (0, 0, None));
        }
        assert(initial_values@.skip(0) =~= initial_values@);
        latest.0
    }

    /// Builds a proper list of new pairs holding `values`.
    pub fn vec_to_list(&mut self, values: Vec<SourceValue>) -> (res: Value)
        ensures
            is_chain(final(self)@, res, values@, Value::EmptyList),
            values@.len() == 0 ==> res == Value::EmptyList && final(self)@ == old(self)@,
            values@.len() > 0 ==> res is Pair,
            final(self)@.len() >= old(self)@.len(),
            final(self)@.take(old(self)@.len() as int) == old(self)@,
    {
        if values.len() == 0 {
            assert(old(self)@.take(old(self)@.len() as int) =~= old(self)@);
            return Value::EmptyList;
        }
        self.vec_to_pair(values, SourceMapped(Value::EmptyList, (0, 0, None)))
    }

    /// Walks the structure that starts at `p`, which `base` leads to from
    /// `root`: the cdrs in a loop, each car by recursion. `visited` marks the
    /// pairs met so far and `rec` the path by which each was met.
    fn get_type_recursive(
        &self,
        p: Pair,
        visited: &mut Vec<bool>,
        Ghost(root): Ghost<Value>,
        Ghost(base): Ghost<Seq<bool>>,
        Ghost(rec): Ghost<Map<int, Seq<bool>>>,
    ) -> (res: (PairType, Ghost<Map<int, Seq<bool>>>))
        requires
            old(visited)@.len() == self@.len(),
            recorded(self@, root, old(visited)@, rec),
            follow(self@, root, base) == Some(Value::Pair(p)),
            forall|i: int| #[trigger] rec.contains_key(i) ==> !base.is_prefix_of(rec[i]),
        ensures
            final(visited)@.len() == old(visited)@.len(),
            count_unvisited(final(visited)@) <= count_unvisited(old(visited)@),
            recorded(self@, root, final(visited)@, res.1@),
            forall|i: int| #[trigger] rec.contains_key(i) ==> res.1@.contains_key(i) && res.1@[i] == rec[i],
            forall|i: int| #[trigger] res.1@.contains_key(i) && !rec.contains_key(i) ==> base.is_prefix_of(res.1@[i]),
            res.0 == PairType::Cyclic ==> shares_structure(self@, root),
            res.0 != PairType::Cyclic ==> explored(self@, root, base, res.1@),
            res.0 == PairType::List ==> is_proper_list(self@, Value::Pair(p)),
            res.0 == PairType::ImproperList ==> is_improper_list(self@, Value::Pair(p)),
        decreases count_unvisited(old(visited)@),
    {
        let mut latest = p;
        let ghost mut items: Seq<SourceValue> = Seq::empty();
        let ghost mut cp: Seq<bool> = base;
        let ghost mut m: Map<int, Seq<bool>> = rec;
        proof {
            assert(base.is_prefix_of(base));
        }
        loop
            invariant
                visited@.len() == self@.len(),
                old(visited)@.len() == self@.len(),
                count_unvisited(visited@) <= count_unvisited(old(visited)@),
                is_chain(self@, Value::Pair(p), items, Value::Pair(latest)),
                recorded(self@, root, visited@, m),
                forall|i: int| #[trigger] rec.contains_key(i) ==> m.contains_key(i) && m[i] == rec[i],
                forall|i: int| #[trigger] m.contains_key(i) && !rec.contains_key(i) ==> base.is_prefix_of(m[i]),
                follow(self@, root, cp) == Some(Value::Pair(latest)),
                base.is_prefix_of(cp),
                forall|i: int| #[trigger] m.contains_key(i) ==> !cp.is_prefix_of(m[i]),
                explored_except(self@, root, base, cp, m),
            decreases count_unvisited(visited@),
        {
            let ghost m_head = m;
            let ghost j = latest.0.0 as int;
            if latest.0.0 >= visited.len() {
                proof {
                    assert(follow(self@, root, cp) matches Some(Value::Pair(q)) && !valid_pair(self@, q));
                }
                return (PairType::Cyclic, Ghost(m));
            }
            if visited[latest.0.0] {
                proof {
                    let rp = m[j];
                    assert(leads_to_pair(self@, root, rp, j));
                    assert(leads_to_pair(self@, root, cp, j));
                    assert(cp.is_prefix_of(cp));
                }
                return (PairType::Cyclic, Ghost(m));
            }
            proof {
                lemma_count_unvisited_update(visited@, j);
                assert(!visited@[j]);
                assert(!m.contains_key(j));
            }
            visited.set(latest.0.0, true);
            proof {
                m = m.insert(j, cp);
            }
            let pair = *self.0.get(latest.0);
            proof {
                lemma_chain_extend(self@, Value::Pair(p), items, latest);
                items = items.push(pair.car);
                lemma_follow_push(self@, root, cp, false);
                lemma_follow_push(self@, root, cp, true);
                lemma_prefix_trans(base, cp, cp.push(false));
                lemma_prefix_trans(base, cp, cp.push(true));
                assert(cp.is_prefix_of(cp.push(false)));
                assert(cp.is_prefix_of(cp.push(true)));
            }
            let ghost m_mid = m;
            if let Value::Pair(child) = pair.car.0 {
                proof {
                    assert forall|i: int| #[trigger] m.contains_key(i) implies !cp.push(false).is_prefix_of(m[i]) by {
                        if i != j && cp.push(false).is_prefix_of(m[i]) {
                            lemma_prefix_trans(cp, cp.push(false), m[i]);
                        }
                    }
                }
                let (t, Ghost(m2)) = self.get_type_recursive(child, visited, Ghost(root), Ghost(cp.push(false)), Ghost(m));
                proof {
                    assert forall|i: int| #[trigger] rec.contains_key(i) implies m2.contains_key(i) && m2[i] == rec[i] by {
                        assert(m_mid.contains_key(i));
                    }
                    assert forall|i: int| #[trigger] m2.contains_key(i) && !rec.contains_key(i) implies base.is_prefix_of(m2[i]) by {
                        if !m_mid.contains_key(i) {
                            lemma_prefix_trans(base, cp.push(false), m2[i]);
                        }
                    }
                    m = m2;
                }
                if t == PairType::Cyclic {
                    return (PairType::Cyclic, Ghost(m));
                }
            }
            proof {
                lemma_step_explored(self@, root, base, cp, m_head, m_mid, m, j);
            }
            match pair.cdr.0 {
                Value::EmptyList => {
                    proof {
                        lemma_leaf_explored(self@, root, base, cp, m);
                    }
                    return (PairType::List, Ghost(m));
                },
                Value::Pair(next) => {
                    proof {
                        assert forall|i: int| #[trigger] m.contains_key(i) implies !cp.push(true).is_prefix_of(m[i]) by {
                            if cp.push(true).is_prefix_of(m[i]) {
                                lemma_prefix_trans(cp, cp.push(true), m[i]);
                                if m_mid.contains_key(i) {
                                    assert(i == j);
                                } else {
                                    lemma_prefix_diverge(cp, m[i]);
                                }
                            }
                        }
                        cp = cp.push(true);
                    }
                    latest = next;
                },
                _ => {
                    proof {
                        lemma_leaf_explored(self@, root, base, cp, m);
                    }
                    return (PairType::ImproperList, Ghost(m));
                },
            }
        }
    }

    /// Classifies the structure that starts at `p`: a proper list, an improper
    /// list, or `Cyclic` when the walk over it (through cdrs and into cars)
    /// meets some pair twice.
    pub fn get_type(&self, p: Pair) -> (res: PairType)
        ensures
            res == PairType::Cyclic <==> shares_structure(self@, Value::Pair(p)),
            res == PairType::List ==> is_proper_list(self@, Value::Pair(p)),
            res == PairType::ImproperList ==> is_improper_list(self@, Value::Pair(p)),
    {
        let mut visited: Vec<bool> = Vec::new();
        let mut i: usize = 0;
        while i < self.0.len()
            invariant
                i <= self@.len(),
                visited@.len() == i,
                forall|k: int| 0 <= k < i ==> !visited@[k],
            decreases self@.len() - i,
        {
            visited.push(false);
            i = i + 1;
        }
        let ghost root = Value::Pair(p);
        let ghost start: Seq<bool> = Seq::empty();
        let (res, Ghost(m)) = self.get_type_recursive(
            p,
            &mut visited,
            Ghost(root),
            Ghost(start),
            Ghost(Map::empty()),
        );
        proof {
            if res != PairType::Cyclic {
                assert forall|s1: Seq<bool>, s2: Seq<bool>, k: int|
                    #[trigger] leads_to_pair(self@, root, s1, k) && #[trigger] leads_to_pair(self@, root, s2, k) implies s1 == s2 by {
                    assert(start.is_prefix_of(s1));
                    assert(start.is_prefix_of(s2));
                }
                assert forall|s: Seq<bool>| !(#[trigger] follow(self@, root, s) matches Some(Value::Pair(q)) && !valid_pair(self@, q)) by {
                    assert(start.is_prefix_of(s));
                }
            }
        }
        res
    }

    /// Walks the cdrs from `p` collecting the cars, for at most as many steps as
    /// there are pairs; returns the cars and the final cdr.
    fn walk(&self, p: Pair) -> (res: Option<(Vec<SourceValue>, SourceValue)>)
        ensures
            res matches Some((items, last)) ==> items@.len() >= 1 && is_chain(
                self@,
                Value::Pair(p),
                items@,
                last.0,
            ) && !(last.0 is Pair),
            !shares_structure(self@, Value::Pair(p)) ==> res is Some,
    {
        let mut items: Vec<SourceValue> = Vec::new();
        let mut latest = p;
        let mut steps: usize = 0;
        let ghost root = Value::Pair(p);
        let ghost mut cp: Seq<bool> = Seq::empty();
        let ghost mut rec: Map<int, Seq<bool>> = Map::empty();
        proof {
            assert(rec.dom() =~= Set::<int>::empty());
        }
        while steps <= self.0.len()
            invariant
                is_chain(self@, Value::Pair(p), items@, Value::Pair(latest)),
                items@.len() == steps,
                root == Value::Pair(p),
                cp.len() == steps,
                follow(self@, root, cp) == Some(Value::Pair(latest)),
                !shares_structure(self@, root) ==> rec.dom().finite() && rec.dom().len() == steps,
                !shares_structure(self@, root) ==> forall|i: int| #[trigger] rec.contains_key(i) ==> 0 <= i < self@.len()
                    && leads_to_pair(self@, root, rec[i], i) && rec[i].len() < steps,
            decreases self@.len() + 1 - steps,
        {
            if latest.0.0 >= self.0.len() {
                proof {
                    assert(follow(self@, root, cp) matches Some(Value::Pair(q)) && !valid_pair(self@, q));
                    assert(shares_structure(self@, root));
                }
                return None;
            }
            let pair = *self.0.get(latest.0);
            proof {
                lemma_chain_extend(self@, Value::Pair(p), items@, latest);
                lemma_follow_push(self@, root, cp, true);
                let j = latest.0.0 as int;
                if !shares_structure(self@, root) {
                    if rec.contains_key(j) {
                        assert(leads_to_pair(self@, root, cp, j));
                        assert(rec[j] != cp);
                    }
                    rec = rec.insert(j, cp);
                }
                cp = cp.push(true);
            }
            items.push(pair.car);
            match pair.cdr.0 {
                Value::Pair(next) => {
                    latest = next;
                },
                _ => {
                    return Some((items, pair.cdr));
                },
            }
            if steps == usize::MAX {
                proof {
                    if !shares_structure(self@, root) {
                        lemma_indices_bound(rec.dom(), self@.len() as int);
                    }
                }
                return None;
            }
            steps = steps + 1;
        }
        proof {
            if !shares_structure(self@, root) {
                lemma_indices_bound(rec.dom(), self@.len() as int);
            }
        }
        None
    }

    /// If the pair starts a proper list, and the structure that starts there
    /// shares no pair, returns its items.
    pub fn try_as_rc_list(&self, p: Pair) -> (res: Option<Vec<SourceValue>>)
        ensures
            res matches Some(items) ==> items@.len() >= 1 && is_chain(
                self@,
                Value::Pair(p),
                items@,
                Value::EmptyList,
            ),
            res is Some <==> !shares_structure(self@, Value::Pair(p)) && is_proper_list(self@, Value::Pair(p)),
    {
        match self.get_type(p) {
            PairType::List => match self.walk(p) {
                Some((items, last)) => {
                    proof {
                        let cars = choose|cars: Seq<SourceValue>| is_chain(self@, Value::Pair(p), cars, Value::EmptyList);
                        lemma_chain_unique(self@, Value::Pair(p), cars, Value::EmptyList, items@, last.0);
                    }
                    if let Value::EmptyList = last.0 {
                        Some(items)
                    } else {
                        None
                    }
                },
                None => None,
            },
            PairType::ImproperList => {
                proof {
                    if is_proper_list(self@, Value::Pair(p)) {
                        let cars = choose|cars: Seq<SourceValue>| is_chain(self@, Value::Pair(p), cars, Value::EmptyList);
                        let (items, tail) = choose|items: Seq<SourceValue>, tail: Value|
                            is_chain(self@, Value::Pair(p), items, tail) && items.len() > 0 && !(tail is Pair) && !(
                            tail is EmptyList);
                        lemma_chain_unique(self@, Value::Pair(p), cars, Value::EmptyList, items, tail);
                    }
                }
                None
            },
            PairType::Cyclic => None,
        }
    }

    /// The cars of the chain of pairs starting at `p`, followed by its final
    /// cdr; `None` when the chain never ends.
    pub fn iter(&self, p: Pair) -> (res: Option<Vec<SourceValue>>)
        ensures
            res matches Some(items) ==> items@.len() >= 2 && is_chain(
                self@,
                Value::Pair(p),
                items@.drop_last(),
                items@.last().0,
            ) && !(items@.last().0 is Pair),
            !shares_structure(self@, Value::Pair(p)) ==> res is Some,
    {
        match self.walk(p) {
            Some((items, last)) => {
                let mut all = items;
                let ghost cars = all@;
                all.push(last);
                assert(all@.drop_last() =~= cars);
                Some(all)
            },
            None => None,
        }
    }

    /// The structure starting at `p` flattened, or `None` if it shares some
    /// pair (as a cyclic one does).
    pub fn try_get_vec_pair(&self, p: Pair) -> (res: Option<VecPair>)
        ensures
            res is None <==> shares_structure(self@, Value::Pair(p)),
            res matches Some(VecPair::List(items)) ==> is_chain(
                self@,
                Value::Pair(p),
                items@,
                Value::EmptyList,
            ),
            res matches Some(VecPair::ImproperList(items)) ==> items@.len() >= 2 && is_chain(
                self@,
                Value::Pair(p),
                items@.drop_last(),
                items@.last().0,
            ) && !(items@.last().0 is Pair) && !(items@.last().0 is EmptyList),
    {
        match self.get_type(p) {
            PairType::List => match self.try_as_rc_list(p) {
                Some(items) => Some(VecPair::List(items)),
                None => None,
            },
            PairType::ImproperList => match self.walk(p) {
                Some((items, last)) => {
                    proof {
                        let (cars, tail) = choose|cars: Seq<SourceValue>, tail: Value|
                            is_chain(self@, Value::Pair(p), cars, tail) && cars.len() > 0 && !(tail is Pair) && !(
                            tail is EmptyList);
                        lemma_chain_unique(self@, Value::Pair(p), cars, tail, items@, last.0);
                    }
                    let mut all = items;
                    let ghost cars = all@;
                    all.push(last);
                    assert(all@.drop_last() =~= cars);
                    Some(VecPair::ImproperList(all))
                },
                None => None,
            },
            PairType::Cyclic => None,
        }
    }

    pub fn begin_mark(&mut self)
        ensures
            final(self)@.len() == old(self)@.len(),
            forall|i: int|
                0 <= i < old(self)@.len() ==> #[trigger] final(self)@[i]
                    == crate::object_tracker::with_reachable(old(self)@[i], false),
    {
        self.0.begin_mark();
    }

    pub fn sweep(&mut self) -> (res: usize)
        ensures
            res == count_sweepable(old(self)@),
            final(self)@.len() == old(self)@.len(),
            forall|i: int| 0 <= i < old(self)@.len() ==> swept(old(self)@[i], #[trigger] final(self)@[i]),
    {
        self.0.sweep()
    }
}

} // verus!
