use vstd::prelude::*;

use crate::text::{concat, decimal, usize_to_string};

verus! {

/// Refers to one object held by an `ObjectTracker`.
#[derive(Debug, Clone, Copy, PartialEq, Eq, Structural)]
pub struct TrackedRef(pub usize);

/// Objects that can lose their references to other objects, so that cycles
/// among unreachable objects are broken.
pub trait CycleBreaker: Sized {
    fn debug_name(&self) -> &'static str;

    /// Whether this object is `original` with its references to other objects removed.
    spec fn is_broken_form(&self, original: &Self) -> bool;

    /// This object with its references to other objects removed.
    fn break_cycles(&self) -> (res: Self)
        ensures
            res.is_broken_form(self),
    ;
}

/// One tracked object and its garbage-collection marks.
pub struct TrackedObject<T> {
    pub object: T,
    pub is_reachable: bool,
    pub has_had_cycles_broken: bool,
}

/// `o` with its reachability mark set to `b`.
pub open spec fn with_reachable<T>(o: TrackedObject<T>, b: bool) -> TrackedObject<T> {
    TrackedObject { is_reachable: b, ..o }
}

/// `o` holding `object` in place of its object.
pub open spec fn with_object<T>(o: TrackedObject<T>, object: T) -> TrackedObject<T> {
    TrackedObject { object, ..o }
}

/// A newly tracked object.
pub open spec fn fresh<T>(object: T) -> TrackedObject<T> {
    TrackedObject { object, is_reachable: false, has_had_cycles_broken: false }
}

/// Whether a sweep turned `o` into `n`: a sweepable object is broken, others are kept.
pub open spec fn swept<T: CycleBreaker>(o: TrackedObject<T>, n: TrackedObject<T>) -> bool {
    if is_sweepable(o) {
        &&& n.object.is_broken_form(&o.object)
        &&& !n.is_reachable
        &&& n.has_had_cycles_broken
    } else {
        n == o
    }
}

/// Whether a sweep breaks this object: it was not marked reachable and is still live.
pub open spec fn is_sweepable<T>(o: TrackedObject<T>) -> bool {
    !o.is_reachable && !o.has_had_cycles_broken
}

/// How many objects of `s` a sweep breaks.
pub open spec fn count_sweepable<T>(s: Seq<TrackedObject<T>>) -> nat
    decreases s.len(),
{
    if s.len() == 0 {
        0
    } else {
        count_sweepable(s.drop_last()) + if is_sweepable(s.last()) { 1nat } else { 0nat }
    }
}

/// How many objects of `s` have had their cycles broken.
pub open spec fn count_broken<T>(s: Seq<TrackedObject<T>>) -> nat
    decreases s.len(),
{
    if s.len() == 0 {
        0
    } else {
        count_broken(s.drop_last()) + if s.last().has_had_cycles_broken { 1nat } else { 0nat }
    }
}

/// The slots of an object tracker.
pub struct ObjectTrackerInner<T> {
    objects: Vec<TrackedObject<T>>,
}

impl<T: CycleBreaker> ObjectTrackerInner<T> {
    pub closed spec fn view(&self) -> Seq<TrackedObject<T>> {
        self.objects@
    }

    /// "N allocated, N free, N live": how many objects were ever tracked, how
    /// many of them have had their cycles broken, and how many have not.
    pub fn stats(&self) -> (res: String)
        ensures
            res@ == decimal(self@.len()) + " allocated, "@ + decimal(count_broken(self@)) + " free, "@
                + decimal((self@.len() - count_broken(self@)) as nat) + " live"@,
    {
        let allocated = self.objects.len();
        let mut free: usize = 0;
        let mut i: usize = 0;
        while i < self.objects.len()
            invariant
                i <= self.objects.len(),
                free == count_broken(self@.take(i as int)),
                free <= i,
            decreases self.objects.len() - i,
        {
            proof {
                assert(self@.take(i + 1).drop_last() =~= self@.take(i as int));
            }
            if self.objects[i].has_had_cycles_broken {
                free = free + 1;
            }
            i = i + 1;
        }
        assert(self@.take(i as int) =~= self@);
        let s = concat(usize_to_string(allocated).as_str(), " allocated, ");
        let s = concat(s.as_str(), usize_to_string(free).as_str());
        let s = concat(s.as_str(), " free, ");
        let s = concat(s.as_str(), usize_to_string(allocated - free).as_str());
        concat(s.as_str(), " live")
    }
}

/// Keeps every object of one kind, so that unreachable ones can be found.
/// Slots are never reused: a `TrackedRef` always refers to the same object.
pub struct ObjectTracker<T>(ObjectTrackerInner<T>);

impl<T: CycleBreaker> ObjectTracker<T> {
    pub closed spec fn view(&self) -> Seq<TrackedObject<T>> {
        self.0@
    }

    /// Whether `r` refers to an object of this tracker.
    pub open spec fn contains(&self, r: TrackedRef) -> bool {
        r.0 < self@.len()
    }

    pub fn new() -> (res: Self)
        ensures
            res@ == Seq::<TrackedObject<T>>::empty(),
    {
        ObjectTracker(ObjectTrackerInner { objects: Vec::new() })
    }

    pub fn len(&self) -> (res: usize)
        ensures
            res == self@.len(),
    {
        self.0.objects.len()
    }

    /// Starts tracking `object`.
    pub fn track(&mut self, object: T) -> (res: TrackedRef)
        ensures
            res.0 == old(self)@.len(),
            final(self)@ == old(self)@.push(fresh(object)),
    {
        let id = self.0.objects.len();
        self.0.objects.push(
            TrackedObject { object, is_reachable: false, has_had_cycles_broken: false },
        );
        TrackedRef(id)
    }

    pub fn get(&self, r: TrackedRef) -> (res: &T)
        requires
            self.contains(r),
        ensures
            *res == self@[r.0 as int].object,
    {
        &self.0.objects[r.0].object
    }

    pub fn is_broken(&self, r: TrackedRef) -> (res: bool)
        requires
            self.contains(r),
        ensures
            res == self@[r.0 as int].has_had_cycles_broken,
    {
        self.0.objects[r.0].has_had_cycles_broken
    }

    pub fn is_reachable(&self, r: TrackedRef) -> (res: bool)
        requires
            self.contains(r),
        ensures
            res == self@[r.0 as int].is_reachable,
    {
        self.0.objects[r.0].is_reachable
    }

    /// Replaces the object that `r` refers to, keeping its marks.
    pub fn replace(&mut self, r: TrackedRef, object: T)
        requires
            old(self).contains(r),
        ensures
            final(self)@ == old(self)@.update(r.0 as int, with_object(old(self)@[r.0 as int], object)),
    {
        self.0.objects[r.0].object = object;
    }

    /// Clears every object's reachability mark.
    pub fn begin_mark(&mut self)
        ensures
            final(self)@.len() == old(self)@.len(),
            forall|i: int|
                0 <= i < old(self)@.len() ==> #[trigger] final(self)@[i] == with_reachable(
                    old(self)@[i],
                    false,
                ),
    {
        let mut i: usize = 0;
        while i < self.0.objects.len()
            invariant
                i <= self.0.objects.len(),
                self@.len() == old(self)@.len(),
                forall|j: int|
                    0 <= j < i ==> #[trigger] self@[j] == with_reachable(old(self)@[j], false),
                forall|j: int| i <= j < self@.len() ==> #[trigger] self@[j] == old(self)@[j],
            decreases self.0.objects.len() - i,
        {
            self.set_reachable(TrackedRef(i), false);
            i = i + 1;
        }
    }

    fn set_reachable(&mut self, r: TrackedRef, value: bool)
        requires
            old(self).contains(r),
        ensures
            final(self)@ == old(self)@.update(r.0 as int, with_reachable(old(self)@[r.0 as int], value)),
    {
        self.0.objects[r.0].is_reachable = value;
    }

    /// Marks the object that `r` refers to as reachable.
    pub fn mark_as_reachable(&mut self, r: TrackedRef)
        requires
            old(self).contains(r),
        ensures
            final(self)@ == old(self)@.update(r.0 as int, with_reachable(old(self)@[r.0 as int], true)),
    {
        self.set_reachable(r, true);
    }

    /// Breaks the object that `r` refers to, as when nothing refers to it any
    /// more and it is freed; its reachability mark is kept.
    pub fn free(&mut self, r: TrackedRef)
        requires
            old(self).contains(r),
        ensures
            final(self)@.len() == old(self)@.len(),
            forall|i: int| 0 <= i < old(self)@.len() && i != r.0 ==> #[trigger] final(self)@[i] == old(self)@[i],
            final(self)@[r.0 as int].object.is_broken_form(&old(self)@[r.0 as int].object),
            final(self)@[r.0 as int].has_had_cycles_broken,
            final(self)@[r.0 as int].is_reachable == old(self)@[r.0 as int].is_reachable,
    {
        let broken = self.0.objects[r.0].object.break_cycles();
        self.0.objects[r.0].object = broken;
        self.0.objects[r.0].has_had_cycles_broken = true;
    }

    /// Breaks the cycles of every live object that was not marked reachable,
    /// and returns how many there were.
    pub fn sweep(&mut self) -> (res: usize)
        ensures
            res == count_sweepable(old(self)@),
            final(self)@.len() == old(self)@.len(),
            forall|i: int| 0 <= i < old(self)@.len() ==> swept(old(self)@[i], #[trigger] final(self)@[i]),
    {
        let mut count: usize = 0;
        let mut i: usize = 0;
        while i < self.0.objects.len()
            invariant
                i <= self.0.objects.len(),
                self@.len() == old(self)@.len(),
                count == count_sweepable(old(self)@.take(i as int)),
                count <= i,
                forall|j: int| 0 <= j < i ==> swept(old(self)@[j], #[trigger] self@[j]),
                forall|j: int| i <= j < self@.len() ==> #[trigger] self@[j] == old(self)@[j],
            decreases self.0.objects.len() - i,
        {
            proof {
                assert(old(self)@.take(i + 1).drop_last() =~= old(self)@.take(i as int));
            }
            if !self.0.objects[i].is_reachable && !self.0.objects[i].has_had_cycles_broken {
                let broken = self.0.objects[i].object.break_cycles();
                self.0.objects[i].object = broken;
                self.0.objects[i].has_had_cycles_broken = true;
                count = count + 1;
            }
            i = i + 1;
        }
        assert(old(self)@.take(i as int) =~= old(self)@);
        count
    }

    pub fn stats(&self) -> (res: String)
        ensures
            res@ == decimal(self@.len()) + " allocated, "@ + decimal(count_broken(self@)) + " free, "@
                + decimal((self@.len() - count_broken(self@)) as nat) + " live"@,
    {
        self.0.stats()
    }
}

impl TrackedRef {
    /// Marks the object this refers to as reachable in `tracker`.
    pub fn mark_as_reachable<T: CycleBreaker>(&self, tracker: &mut ObjectTracker<T>)
        requires
            old(tracker).contains(*self),
        ensures
            final(tracker)@ == old(tracker)@.update(
                self.0 as int,
                with_reachable(old(tracker)@[self.0 as int], true),
            ),
    {
        tracker.mark_as_reachable(*self);
    }
}

impl<T: CycleBreaker> ObjectTracker<T> {
    /// Moves the object that `r` refers to out of the tracker, leaving its
    /// broken form in its place until `replace` puts an object back.
    pub fn take(&mut self, r: TrackedRef) -> (res: T)
        requires
            old(self).contains(r),
        ensures
            res == old(self)@[r.0 as int].object,
            final(self)@.len() == old(self)@.len(),
            forall|i: int| 0 <= i < old(self)@.len() && i != r.0 ==> #[trigger] final(self)@[i] == old(self)@[i],
            final(self)@[r.0 as int].is_reachable == old(self)@[r.0 as int].is_reachable,
            final(self)@[r.0 as int].has_had_cycles_broken == old(self)@[r.0 as int].has_had_cycles_broken,
    {
        let mut tmp = self.0.objects[r.0].object.break_cycles();
        std::mem::swap(&mut tmp, &mut self.0.objects[r.0].object);
        tmp
    }
}

} // verus!
