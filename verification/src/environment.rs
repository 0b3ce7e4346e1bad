use vstd::prelude::*;

use crate::interpreter::RuntimeErrorType;
use crate::object_tracker::{
    count_broken, count_sweepable, swept, CycleBreaker, ObjectTracker, TrackedObject, TrackedRef,
};
use crate::source_mapped::SourceRange;
use crate::string_interner::{InternedString, StringInterner};
use crate::text::{concat, decimal, has_prefix, starts_with};
use crate::value::SourceValue;

verus! {

pub type Bindings = Seq<(InternedString, SourceValue)>;

/// The value bound to `name` in `b`: the latest binding of the name.
pub open spec fn lookup_in(b: Bindings, name: InternedString) -> Option<SourceValue>
    decreases b.len(),
{
    if b.len() == 0 {
        None
    } else if b.last().0 == name {
        Some(b.last().1)
    } else {
        lookup_in(b.drop_last(), name)
    }
}

/// A lexical scope: its bindings and the scope it inherits from.
pub struct Scope {
    pub parent: Option<TrackedRef>,
    pub bindings: Vec<(InternedString, SourceValue)>,
    pub range: SourceRange,
}

impl CycleBreaker for Scope {
    fn debug_name(&self) -> (res: &'static str)
        ensures
            res@ == "Scope"@,
    {
        "Scope"
    }

    open spec fn is_broken_form(&self, original: &Self) -> bool {
        self.parent is None && self.bindings@.len() == 0 && self.range == original.range
    }

    fn break_cycles(&self) -> (res: Self) {
        Scope { parent: None, bindings: Vec::new(), range: self.range }
    }
}

} // verus!

verus! {

pub type ScopeHeap = Seq<TrackedObject<Scope>>;

/// The value that `name` has as seen from scope `r`: its binding in `r`, or
/// else in `r`'s parent, and so on. A parent always comes before its child in
/// the heap; a chain that does not lies outside the lookup.
pub open spec fn scope_lookup(heap: ScopeHeap, r: TrackedRef, name: InternedString) -> Option<SourceValue>
    decreases r.0,
{
    if r.0 >= heap.len() {
        None
    } else {
        let s = heap[r.0 as int].object;
        match lookup_in(s.bindings@, name) {
            Some(v) => Some(v),
            None => match s.parent {
                Some(p) => if p.0 < r.0 {
                    scope_lookup(heap, p, name)
                } else {
                    None
                },
                None => None,
            },
        }
    }
}

/// Changing one scope of a heap, keeping its parent and what `name` is bound
/// to in it, keeps what `name` is bound to as seen from any scope.
proof fn lemma_scope_lookup_frame(heap: ScopeHeap, heap2: ScopeHeap, r: TrackedRef, changed: int, name: InternedString)
    requires
        heap2.len() == heap.len(),
        0 <= changed < heap.len(),
        forall|i: int| 0 <= i < heap.len() && i != changed ==> #[trigger] heap2[i] == heap[i],
        heap2[changed].object.parent == heap[changed].object.parent,
        lookup_in(heap2[changed].object.bindings@, name) == lookup_in(heap[changed].object.bindings@, name),
    ensures
        scope_lookup(heap2, r, name) == scope_lookup(heap, r, name),
    decreases r.0,
{
    if r.0 < heap.len() {
        if r.0 != changed {
            assert(heap2[r.0 as int] == heap[r.0 as int]);
        }
        match heap[r.0 as int].object.parent {
            Some(p) => {
                if p.0 < r.0 {
                    lemma_scope_lookup_frame(heap, heap2, p, changed, name);
                }
            },
            None => {},
        }
    }
}

/// What a lookup from scope `r` finds depends only on the scopes made up to
/// `r`: scopes made after it, and what they hold, change nothing it finds.
pub proof fn lemma_lookup_ignores_later_scopes(heap: ScopeHeap, heap2: ScopeHeap, r: TrackedRef, n: int, name: InternedString)
    requires
        r.0 < n,
        n <= heap.len(),
        n <= heap2.len(),
        forall|i: int| 0 <= i < n ==> #[trigger] heap2[i].object == heap[i].object,
    ensures
        scope_lookup(heap2, r, name) == scope_lookup(heap, r, name),
    decreases r.0,
{
    assert(heap2[r.0 as int].object == heap[r.0 as int].object);
    match heap[r.0 as int].object.parent {
        Some(p) => {
            if p.0 < r.0 {
                lemma_lookup_ignores_later_scopes(heap, heap2, p, n, name);
            }
        },
        None => {},
    }
}

/// The value of `name` in an environment with these globals, active scopes and scope heap.
pub open spec fn env_lookup(globals: Bindings, stack: Seq<TrackedRef>, heap: ScopeHeap, name: InternedString) -> Option<SourceValue> {
    if stack.len() > 0 {
        match scope_lookup(heap, stack.last(), name) {
            Some(v) => Some(v),
            None => lookup_in(globals, name),
        }
    } else {
        lookup_in(globals, name)
    }
}

/// A scope captured by a procedure when it is defined.
#[derive(Debug, Clone, Copy, PartialEq, Eq, Structural)]
pub struct CapturedLexicalScope(pub Option<TrackedRef>);

/// The global bindings and the stack of active lexical scopes.
pub struct Environment {
    globals: Vec<(InternedString, SourceValue)>,
    lexical_scopes: Vec<TrackedRef>,
    tracker: ObjectTracker<Scope>,
}

/// The line that reports how many scopes `scopes` has allocated, freed and
/// live.
pub open spec fn scope_stats_text(scopes: ScopeHeap) -> Seq<char> {
    "Lexical scopes: "@ + decimal(scopes.len()) + " allocated, "@ + decimal(count_broken(scopes)) + " free, "@ + decimal(
        (scopes.len() - count_broken(scopes)) as nat,
    ) + " live"@
}

/// The names of the bindings of `b`, in order, whose text in `names` starts
/// with `query`; a binding whose name `names` does not hold is skipped.
pub open spec fn global_matches(b: Bindings, names: Seq<Seq<char>>, query: Seq<char>) -> Seq<Seq<char>>
    decreases b.len(),
{
    if b.len() == 0 {
        Seq::empty()
    } else {
        let rest = global_matches(b.drop_last(), names, query);
        let id = b.last().0.id();
        if 0 <= id < names.len() && has_prefix(names[id], query) {
            rest.push(names[id])
        } else {
            rest
        }
    }
}

/// Looks up the latest binding of `name` in `b`.
fn lookup_binding(b: &Vec<(InternedString, SourceValue)>, name: InternedString) -> (res: Option<usize>)
    ensures
        res is None ==> lookup_in(b@, name) is None,
        res matches Some(i) ==> i < b@.len() && b@[i as int].0 == name && lookup_in(b@, name) == Some(
            b@[i as int].1,
        ) && forall|j: int| i < j < b@.len() ==> b@[j].0 != name,
{
    let mut i: usize = b.len();
    assert(b@.take(b@.len() as int) =~= b@);
    while i > 0
        invariant
            i <= b@.len(),
            lookup_in(b@.take(i as int), name) == lookup_in(b@, name),
            forall|j: int| i <= j < b@.len() ==> b@[j].0 != name,
        decreases i,
    {
        assert(b@.take(i as int).drop_last() =~= b@.take(i - 1));
        if b[i - 1].0 == name {
            return Some(i - 1);
        }
        i = i - 1;
    }
    assert(b@.take(0) =~= Seq::<(InternedString, SourceValue)>::empty());
    None
}

proof fn lemma_lookup_push(b: Bindings, name: InternedString, other: InternedString, v: SourceValue)
    ensures
        lookup_in(b.push((name, v)), name) == Some(v),
        other != name ==> lookup_in(b.push((name, v)), other) == lookup_in(b, other),
{
    assert(b.push((name, v)).drop_last() =~= b);
}

/// Whether `new` is `old` with one binding of `name` in scope `c` set to
/// `value`, and nothing else changed.
pub open spec fn binding_changed(old: ScopeHeap, new: ScopeHeap, c: int, name: InternedString, value: SourceValue) -> bool {
    &&& 0 <= c < old.len()
    &&& new.len() == old.len()
    &&& forall|j: int| 0 <= j < old.len() && j != c ==> #[trigger] new[j] == old[j]
    &&& new[c].is_reachable == old[c].is_reachable
    &&& new[c].has_had_cycles_broken == old[c].has_had_cycles_broken
    &&& new[c].object.parent == old[c].object.parent
    &&& new[c].object.range == old[c].object.range
    &&& exists|i: int|
        0 <= i < old[c].object.bindings@.len() && old[c].object.bindings@[i].0 == name && #[trigger] new[c].object.bindings@
            == old[c].object.bindings@.update(i, (name, value))
}

proof fn lemma_lookup_update(b: Bindings, i: int, name: InternedString, other: InternedString, v: SourceValue)
    requires
        0 <= i < b.len(),
        b[i].0 == name,
        forall|j: int| i < j < b.len() ==> b[j].0 != name,
    ensures
        lookup_in(b.update(i, (name, v)), name) == Some(v),
        other != name ==> lookup_in(b.update(i, (name, v)), other) == lookup_in(b, other),
    decreases b.len(),
{
    if i < b.len() - 1 {
        assert(b.update(i, (name, v)).drop_last() =~= b.drop_last().update(i, (name, v)));
        lemma_lookup_update(b.drop_last(), i, name, other, v);
    } else {
        assert(b.update(i, (name, v)).drop_last() =~= b.drop_last());
    }
}

/// Binds `name` to `value` in `b`, replacing its latest binding if there is one.
fn define_in(b: &mut Vec<(InternedString, SourceValue)>, name: InternedString, value: SourceValue)
    ensures
        lookup_in(final(b)@, name) == Some(value),
        forall|other: InternedString| other != name ==> lookup_in(final(b)@, other) == lookup_in(old(b)@, other),
{
    match lookup_binding(b, name) {
        Some(i) => {
            proof {
                assert forall|other: InternedString| other != name implies lookup_in(b@.update(i as int, (name, value)), other)
                    == lookup_in(b@, other) by {
                    lemma_lookup_update(b@, i as int, name, other, value);
                }
                lemma_lookup_update(b@, i as int, name, name, value);
            }
            b.set(i, (name, value));
        },
        None => {
            proof {
                assert forall|other: InternedString| other != name implies lookup_in(b@.push((name, value)), other)
                    == lookup_in(b@, other) by {
                    lemma_lookup_push(b@, name, other, value);
                }
                lemma_lookup_push(b@, name, name, value);
            }
            b.push((name, value));
        },
    }
}

impl Environment {
    pub closed spec fn globals(&self) -> Bindings {
        self.globals@
    }

    pub closed spec fn stack(&self) -> Seq<TrackedRef> {
        self.lexical_scopes@
    }

    pub closed spec fn scopes(&self) -> ScopeHeap {
        self.tracker@
    }

    /// The value of `name` as `get` finds it.
    pub open spec fn spec_get(&self, name: InternedString) -> Option<SourceValue> {
        env_lookup(self.globals(), self.stack(), self.scopes(), name)
    }

    /// Whether the innermost active scope (if any) is a scope of this environment.
    pub open spec fn top_is_valid(&self) -> bool {
        self.stack().len() > 0 ==> self.stack().last().0 < self.scopes().len()
    }

    pub fn new() -> (res: Self)
        ensures
            res.globals().len() == 0,
            res.stack().len() == 0,
            res.scopes().len() == 0,
    {
        Environment { globals: Vec::new(), lexical_scopes: Vec::new(), tracker: ObjectTracker::new() }
    }

    pub fn get_stats_as_string(&self) -> (res: String)
        ensures
            res@ == scope_stats_text(self.scopes()),
    {
        concat("Lexical scopes: ", self.tracker.stats().as_str())
    }

    pub fn begin_mark(&mut self)
        ensures
            final(self).globals() == old(self).globals(),
            final(self).stack() == old(self).stack(),
            final(self).scopes().len() == old(self).scopes().len(),
            forall|i: int|
                0 <= i < old(self).scopes().len() ==> #[trigger] final(self).scopes()[i]
                    == crate::object_tracker::with_reachable(old(self).scopes()[i], false),
    {
        self.tracker.begin_mark();
    }

    pub fn sweep(&mut self) -> (res: usize)
        ensures
            res == count_sweepable(old(self).scopes()),
            final(self).globals() == old(self).globals(),
            final(self).stack() == old(self).stack(),
            final(self).scopes().len() == old(self).scopes().len(),
            forall|i: int| 0 <= i < old(self).scopes().len() ==> swept(old(self).scopes()[i], #[trigger] final(self).scopes()[i]),
    {
        self.tracker.sweep()
    }

    pub fn clear_lexical_scopes(&mut self)
        ensures
            final(self).globals() == old(self).globals(),
            final(self).stack().len() == 0,
            final(self).scopes() == old(self).scopes(),
    {
        self.lexical_scopes.clear();
    }

    pub fn capture_lexical_scope(&self) -> (res: CapturedLexicalScope)
        ensures
            self.stack().len() == 0 ==> res.0 is None,
            self.stack().len() > 0 ==> res.0 == Some(self.stack().last()),
    {
        if self.lexical_scopes.len() == 0 {
            CapturedLexicalScope(None)
        } else {
            CapturedLexicalScope(Some(self.lexical_scopes[self.lexical_scopes.len() - 1]))
        }
    }

    /// Activate a new lexical scope that inherits from the current one.
    pub fn push_inherited(&mut self, source_range: SourceRange)
        ensures
            final(self).globals() == old(self).globals(),
            final(self).stack() == old(self).stack().push(TrackedRef(old(self).scopes().len() as usize)),
            final(self).top_is_valid(),
            final(self).scopes().len() == old(self).scopes().len() + 1,
            final(self).scopes().take(old(self).scopes().len() as int) == old(self).scopes(),
    {
        let scope = self.capture_lexical_scope();
        self.push_captured(scope, source_range);
    }

    /// Activate a new lexical scope that inherits from the given captured scope.
    pub fn push_captured(&mut self, scope: CapturedLexicalScope, source_range: SourceRange)
        ensures
            final(self).globals() == old(self).globals(),
            final(self).stack() == old(self).stack().push(TrackedRef(old(self).scopes().len() as usize)),
            final(self).scopes().len() == old(self).scopes().len() + 1,
            final(self).scopes().take(old(self).scopes().len() as int) == old(self).scopes(),
            final(self).scopes().last().object.parent == scope.0,
            final(self).scopes().last().object.bindings@.len() == 0,
            final(self).top_is_valid(),
    {
        let new_scope = Scope { parent: scope.0, bindings: Vec::new(), range: source_range };
        let r = self.tracker.track(new_scope);
        self.lexical_scopes.push(r);
        assert(self.scopes().take(old(self).scopes().len() as int) =~= old(self).scopes());
    }

    /// Deactivate the current lexical scope, activating whatever lexical scope
    /// was active before it.
    pub fn pop(&mut self)
        ensures
            final(self).globals() == old(self).globals(),
            final(self).scopes() == old(self).scopes(),
            old(self).stack().len() > 0 ==> final(self).stack() == old(self).stack().drop_last(),
            old(self).stack().len() == 0 ==> final(self).stack() == old(self).stack(),
    {
        self.lexical_scopes.pop();
    }

    /// The innermost active scope, if any.
    pub fn top(&self) -> (res: Option<TrackedRef>)
        ensures
            self.stack().len() == 0 ==> res is None,
            self.stack().len() > 0 ==> res == Some(self.stack().last()),
    {
        if self.lexical_scopes.len() == 0 {
            None
        } else {
            Some(self.lexical_scopes[self.lexical_scopes.len() - 1])
        }
    }

    fn scope_get(&self, r: TrackedRef, name: InternedString) -> (res: Option<SourceValue>)
        ensures
            res == scope_lookup(self.scopes(), r, name),
    {
        let mut current = r;
        loop
            invariant
                scope_lookup(self.scopes(), current, name) == scope_lookup(self.scopes(), r, name),
            decreases current.0,
        {
            if current.0 >= self.tracker.len() {
                return None;
            }
            let scope = self.tracker.get(current);
            match lookup_binding(&scope.bindings, name) {
                Some(i) => {
                    return Some(scope.bindings[i].1);
                },
                None => match scope.parent {
                    Some(p) => {
                        if p.0 < current.0 {
                            current = p;
                        } else {
                            return None;
                        }
                    },
                    None => {
                        return None;
                    },
                },
            }
        }
    }

    pub fn get(&self, identifier: InternedString) -> (res: Option<SourceValue>)
        ensures
            res == self.spec_get(identifier),
    {
        if let Some(scope) = self.top() {
            if let Some(value) = self.scope_get(scope, identifier) {
                return Some(value);
            }
        }
        match lookup_binding(&self.globals, identifier) {
            Some(i) => Some(self.globals[i].1),
            None => None,
        }
    }

    /// Sets the latest binding of `name` in scope `r` or its ancestors, if there is one.
    fn scope_change(&mut self, r: TrackedRef, name: InternedString, value: SourceValue) -> (res: bool)
        ensures
            final(self).globals() == old(self).globals(),
            final(self).stack() == old(self).stack(),
            final(self).scopes().len() == old(self).scopes().len(),
            res == (scope_lookup(old(self).scopes(), r, name) is Some),
            res ==> scope_lookup(final(self).scopes(), r, name) == Some(value),
            res ==> exists|c: int| binding_changed(old(self).scopes(), final(self).scopes(), c, name, value),
            !res ==> final(self).scopes() == old(self).scopes(),
            forall|j: int| r.0 < j < old(self).scopes().len() ==> #[trigger] final(self).scopes()[j] == old(self).scopes()[j],
        decreases r.0,
    {
        if r.0 >= self.tracker.len() {
            return false;
        }
        let parent = self.tracker.get(r).parent;
        match lookup_binding(&self.tracker.get(r).bindings, name) {
            Some(i) => {
                let mut scope = self.tracker.take(r);
                proof {
                    lemma_lookup_update(scope.bindings@, i as int, name, name, value);
                }
                let ghost before = scope.bindings@;
                scope.bindings.set(i, (name, value));
                let ghost mid = self.scopes();
                self.tracker.replace(r, scope);
                proof {
                    assert(self.scopes()[r.0 as int].object.bindings@ == before.update(i as int, (name, value)));
                    assert(binding_changed(old(self).scopes(), self.scopes(), r.0 as int, name, value));
                }
                true
            },
            None => match parent {
                Some(p) => {
                    if p.0 < r.0 {
                        let changed = self.scope_change(p, name, value);
                        proof {
                            assert(self.scopes()[r.0 as int] == old(self).scopes()[r.0 as int]);
                        }
                        changed
                    } else {
                        false
                    }
                },
                None => false,
            },
        }
    }

    /// Attempt to change the value of an existing binding. Errors if no binding exists.
    pub fn change(&mut self, identifier: InternedString, value: SourceValue) -> (res: Result<(), RuntimeErrorType>)
        ensures
            final(self).stack() == old(self).stack(),
            final(self).scopes().len() == old(self).scopes().len(),
            res is Ok <==> old(self).spec_get(identifier) is Some,
            res is Ok ==> final(self).spec_get(identifier) == Some(value),
            res is Err ==> res == Err::<(), RuntimeErrorType>(RuntimeErrorType::UnboundVariable(identifier))
                && final(self).globals() == old(self).globals() && final(self).scopes() == old(self).scopes(),
            res is Ok ==> (final(self).globals() == old(self).globals() && exists|c: int|
                binding_changed(old(self).scopes(), final(self).scopes(), c, identifier, value)) || (final(self).scopes()
                == old(self).scopes() && exists|i: int|
                0 <= i < old(self).globals().len() && old(self).globals()[i].0 == identifier && #[trigger] final(self).globals()
                    == old(self).globals().update(i, (identifier, value))),
    {
        if let Some(scope) = self.top() {
            if self.scope_change(scope, identifier, value) {
                return Ok(());
            }
        }
        match lookup_binding(&self.globals, identifier) {
            Some(i) => {
                proof {
                    lemma_lookup_update(self.globals@, i as int, identifier, identifier, value);
                }
                self.globals.set(i, (identifier, value));
                Ok(())
            },
            None => Err(RuntimeErrorType::UnboundVariable(identifier)),
        }
    }

    /// This works like the `define` Scheme builtin, which creates/sets the value at the
    /// current scope--it will *not* modify an existing binding in a parent lexical scope.
    pub fn define(&mut self, identifier: InternedString, value: SourceValue)
        ensures
            final(self).stack() == old(self).stack(),
            final(self).scopes().len() == old(self).scopes().len(),
            old(self).top_is_valid() ==> final(self).spec_get(identifier) == Some(value),
            forall|other: InternedString| other != identifier ==> #[trigger] final(self).spec_get(other) == old(self).spec_get(other),
            old(self).stack().len() > 0 ==> final(self).globals() == old(self).globals(),
            old(self).stack().len() > 0 ==> forall|i: int|
                0 <= i < old(self).scopes().len() && i != old(self).stack().last().0 ==> #[trigger] final(self).scopes()[i]
                    == old(self).scopes()[i],
    {
        match self.top() {
            Some(scope) => {
                if scope.0 < self.tracker.len() {
                    let ghost heap = self.scopes();
                    let mut s = self.tracker.take(scope);
                    define_in(&mut s.bindings, identifier, value);
                    self.tracker.replace(scope, s);
                    proof {
                        assert forall|other: InternedString| other != identifier implies #[trigger] self.spec_get(other)
                            == old(self).spec_get(other) by {
                            lemma_scope_lookup_frame(heap, self.scopes(), scope, scope.0 as int, other);
                        }
                    }
                }
            },
            None => {
                define_in(&mut self.globals, identifier, value);
            },
        }
    }

    /// The global bindings, for traversal.
    pub fn global_values(&self) -> (res: &Vec<(InternedString, SourceValue)>)
        ensures
            res@ == self.globals(),
    {
        &self.globals
    }

    /// The active lexical scopes, innermost last.
    pub fn lexical_scopes(&self) -> (res: &Vec<TrackedRef>)
        ensures
            res@ == self.stack(),
    {
        &self.lexical_scopes
    }

    /// The scope that `r` refers to, if it is one of ours.
    pub fn scope(&self, r: TrackedRef) -> (res: Option<&Scope>)
        ensures
            r.0 < self.scopes().len() ==> (res matches Some(s) && *s == self.scopes()[r.0 as int].object),
            r.0 >= self.scopes().len() ==> res is None,
    {
        if r.0 < self.tracker.len() {
            Some(self.tracker.get(r))
        } else {
            None
        }
    }

    pub fn scope_count(&self) -> (res: usize)
        ensures
            res == self.scopes().len(),
    {
        self.tracker.len()
    }

    pub fn is_scope_reachable(&self, r: TrackedRef) -> (res: bool)
        requires
            r.0 < self.scopes().len(),
        ensures
            res == self.scopes()[r.0 as int].is_reachable,
    {
        self.tracker.is_reachable(r)
    }

    pub fn is_scope_broken(&self, r: TrackedRef) -> (res: bool)
        requires
            r.0 < self.scopes().len(),
        ensures
            res == self.scopes()[r.0 as int].has_had_cycles_broken,
    {
        self.tracker.is_broken(r)
    }

    pub fn mark_scope_reachable(&mut self, r: TrackedRef)
        requires
            r.0 < old(self).scopes().len(),
        ensures
            final(self).globals() == old(self).globals(),
            final(self).stack() == old(self).stack(),
            final(self).scopes() == old(self).scopes().update(
                r.0 as int,
                crate::object_tracker::with_reachable(old(self).scopes()[r.0 as int], true),
            ),
    {
        self.tracker.mark_as_reachable(r);
    }

    /// Breaks the scope that `r` refers to, as when nothing refers to it any more.
    pub fn free_scope(&mut self, r: TrackedRef)
        requires
            r.0 < old(self).scopes().len(),
        ensures
            final(self).globals() == old(self).globals(),
            final(self).stack() == old(self).stack(),
            final(self).scopes().len() == old(self).scopes().len(),
            forall|i: int| 0 <= i < old(self).scopes().len() && i != r.0 ==> #[trigger] final(self).scopes()[i] == old(self).scopes()[i],
            final(self).scopes()[r.0 as int].has_had_cycles_broken,
            final(self).scopes()[r.0 as int].is_reachable == old(self).scopes()[r.0 as int].is_reachable,
    {
        self.tracker.free(r);
    }

    /// The names of global bindings that start with `query`.
    pub fn find_global_matches(&self, query: &str, interner: &StringInterner) -> (res: Vec<String>)
        ensures
            forall|i: int| 0 <= i < res@.len() ==> has_prefix(#[trigger] res@[i]@, query@),
            res@.map_values(|t: String| t@) == global_matches(self.globals(), interner@, query@),
    {
        let mut results: Vec<String> = Vec::new();
        let mut i: usize = 0;
        while i < self.globals.len()
            invariant
                i <= self.globals.len(),
                forall|k: int| 0 <= k < results@.len() ==> has_prefix(#[trigger] results@[k]@, query@),
                results@.map_values(|t: String| t@) == global_matches(self.globals().take(i as int), interner@, query@),
            decreases self.globals.len() - i,
        {
            let ghost before = results@;
            proof {
                assert(self.globals().take(i + 1).drop_last() =~= self.globals().take(i as int));
                assert(self.globals().take(i + 1).last() == self.globals@[i as int]);
            }
            if let Some(name) = interner.try_get(self.globals[i].0) {
                if starts_with(name, query) {
                    let found = String::from_str(name);
                    assert(has_prefix(found@, query@));
                    results.push(found);
                    proof {
                        assert(results@.map_values(|t: String| t@) =~= before.map_values(|t: String| t@).push(found@));
                    }
                }
            }
            i = i + 1;
        }
        proof {
            assert(self.globals().take(i as int) =~= self.globals());
        }
        results
    }
}

/// Lexical scoping: entering a new scope, defining a name there and leaving
/// the scope again leaves every name bound as it was before. Here `e1` is
/// `e0` after `push_inherited`, `e2` is `e1` after `define`, and `e3` is `e2`
/// after `pop`, as their contracts describe them.
pub proof fn lemma_scope_definitions_are_local(
    e0: Environment,
    e1: Environment,
    e2: Environment,
    e3: Environment,
    name: InternedString,
)
    requires
        e0.top_is_valid(),
        e0.scopes().len() < usize::MAX,
        e1.globals() == e0.globals(),
        e1.stack() == e0.stack().push(TrackedRef(e0.scopes().len() as usize)),
        e1.scopes().len() == e0.scopes().len() + 1,
        e1.scopes().take(e0.scopes().len() as int) == e0.scopes(),
        e2.stack() == e1.stack(),
        e2.globals() == e1.globals(),
        e2.scopes().len() == e1.scopes().len(),
        forall|i: int|
            0 <= i < e1.scopes().len() && i != e1.stack().last().0 ==> #[trigger] e2.scopes()[i] == e1.scopes()[i],
        e3.globals() == e2.globals(),
        e3.scopes() == e2.scopes(),
        e3.stack() == e2.stack().drop_last(),
    ensures
        e3.spec_get(name) == e0.spec_get(name),
{
    let n = e0.scopes().len() as int;
    assert(e3.stack() =~= e0.stack());
    assert forall|i: int| 0 <= i < n implies #[trigger] e3.scopes()[i].object == e0.scopes()[i].object by {
        assert(e1.scopes().take(n)[i] == e1.scopes()[i]);
        assert(e2.scopes()[i] == e1.scopes()[i]);
    }
    if e0.stack().len() > 0 {
        lemma_lookup_ignores_later_scopes(e0.scopes(), e3.scopes(), e0.stack().last(), n, name);
    }
}

/// A procedure's body sees the scope it was defined in: in a fresh scope
/// made over a captured scope (as `push_captured` makes it, `e1` from `e0`),
/// every name is bound as it is in the captured scope, or else globally.
pub proof fn lemma_fresh_scope_sees_captured(
    e0: Environment,
    e1: Environment,
    scope: CapturedLexicalScope,
    name: InternedString,
)
    requires
        e0.scopes().len() < usize::MAX,
        scope.0 matches Some(r) ==> r.0 < e0.scopes().len(),
        e1.globals() == e0.globals(),
        e1.stack() == e0.stack().push(TrackedRef(e0.scopes().len() as usize)),
        e1.scopes().len() == e0.scopes().len() + 1,
        e1.scopes().take(e0.scopes().len() as int) == e0.scopes(),
        e1.scopes().last().object.parent == scope.0,
        e1.scopes().last().object.bindings@.len() == 0,
    ensures
        e1.spec_get(name) == match scope.0 {
            Some(r) => match scope_lookup(e0.scopes(), r, name) {
                Some(v) => Some(v),
                None => lookup_in(e0.globals(), name),
            },
            None => lookup_in(e0.globals(), name),
        },
{
    let n = e0.scopes().len() as int;
    assert(e1.stack().last().0 == n);
    assert(e1.scopes()[n] == e1.scopes().last());
    if let Some(r) = scope.0 {
        assert forall|i: int| 0 <= i < n implies #[trigger] e1.scopes()[i].object == e0.scopes()[i].object by {
            assert(e1.scopes().take(n)[i] == e1.scopes()[i]);
        }
        lemma_lookup_ignores_later_scopes(e0.scopes(), e1.scopes(), r, n, name);
    }
}

} // verus!
