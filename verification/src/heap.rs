//! Memory management for the Scheme core: arenas, slot handles, the tagged
//! `GcThing` reference that the collector works on, rooting, and the `Heap`
//! that owns everything and drives garbage collection.
//!
//! Objects are not allocated from the operating system one by one. Instead
//! every kind of heap object lives in an [`Arena`]: a pre-allocated pool of
//! slots together with a free list of the indices that are still available.
//! Allocating pops an index from the free list; collecting garbage marks
//! every slot reachable from the roots and then rebuilds each free list from
//! the unmarked slots. A slot handle ([`ArenaPtr`]) is the pair of a stable
//! arena identifier and a slot index; it never owns the slot it points at.
//!
//! The collector is precise: it only follows the references enumerated by
//! the [`Trace`] implementations, so any handle that must survive an
//! allocation has to be registered in the root table, normally by wrapping
//! it in a [`Rooted`] handle.

use vstd::pervasive::unreached;
use vstd::prelude::*;

use crate::environment::{extend_frame, frame_find, lemma_live_activation_ok, values_refs, Activation, Environment};
use crate::value::{Cons, Procedure, Value};

verus! {

/// A slot handle: the stable identifier of an arena together with the index
/// of one slot inside that arena's pool. Copying a handle never copies the
/// referent, and equality is identity of the slot, not of its contents.
#[derive(Clone, Copy, PartialEq, Eq, Structural, Debug)]
pub struct ArenaPtr {
    /// The stable identifier of the arena the slot lives in.
    pub arena: u64,
    /// The index of the slot inside the arena's pool.
    pub index: usize,
}

/// A typed handle to a cons cell on the heap.
#[derive(Clone, Copy, PartialEq, Eq, Structural, Debug)]
pub struct ConsPtr(pub ArenaPtr);

/// A typed handle to a string on the heap.
#[derive(Clone, Copy, PartialEq, Eq, Structural, Debug)]
pub struct StringPtr(pub ArenaPtr);

/// A typed handle to an activation on the heap.
#[derive(Clone, Copy, PartialEq, Eq, Structural, Debug)]
pub struct ActivationPtr(pub ArenaPtr);

/// A typed handle to a procedure on the heap.
#[derive(Clone, Copy, PartialEq, Eq, Structural, Debug)]
pub struct ProcedurePtr(pub ArenaPtr);

/// The union of the various types that are managed by the garbage
/// collector. A `GcThing` is the collector's unit of work: everything it
/// marks, traces, or sweeps is one of these.
#[derive(Clone, Copy, PartialEq, Eq, Structural, Debug)]
pub enum GcThing {
    Cons(ConsPtr),
    String(StringPtr),
    Activation(ActivationPtr),
    Procedure(ProcedurePtr),
}

impl GcThing {
    /// Create a `GcThing` from a `StringPtr`.
    pub fn from_string_ptr(str: StringPtr) -> (r: GcThing)
        ensures
            r == GcThing::String(str),
    {
        GcThing::String(str)
    }

    /// Create a `GcThing` from a `ConsPtr`.
    pub fn from_cons_ptr(cons: ConsPtr) -> (r: GcThing)
        ensures
            r == GcThing::Cons(cons),
    {
        GcThing::Cons(cons)
    }

    /// Create a `GcThing` from a `ProcedurePtr`.
    pub fn from_procedure_ptr(procedure: ProcedurePtr) -> (r: GcThing)
        ensures
            r == GcThing::Procedure(procedure),
    {
        GcThing::Procedure(procedure)
    }

    /// Create a `GcThing` from an `ActivationPtr`.
    pub fn from_activation_ptr(act: ActivationPtr) -> (r: GcThing)
        ensures
            r == GcThing::Activation(act),
    {
        GcThing::Activation(act)
    }
}

/// A trait for types that can be coerced to a `GcThing`.
///
/// Leaf values (integers, booleans, characters, the empty list) coerce to
/// `None`; values that carry a slot handle coerce to the handle, tagged with
/// its kind.
pub trait ToGcThing: Sized {
    /// The `GcThing` this value stands for, if any.
    spec fn spec_gc_thing(&self) -> Option<GcThing>;

    /// Coerce this value to a `GcThing`.
    fn to_gc_thing(&self) -> (r: Option<GcThing>)
        ensures
            r == self.spec_gc_thing(),
    ;
}

impl ToGcThing for ConsPtr {
    open spec fn spec_gc_thing(&self) -> Option<GcThing> {
        Some(GcThing::Cons(*self))
    }

    fn to_gc_thing(&self) -> (r: Option<GcThing>) {
        Some(GcThing::Cons(*self))
    }
}

impl ToGcThing for StringPtr {
    open spec fn spec_gc_thing(&self) -> Option<GcThing> {
        Some(GcThing::String(*self))
    }

    fn to_gc_thing(&self) -> (r: Option<GcThing>) {
        Some(GcThing::String(*self))
    }
}

impl ToGcThing for ActivationPtr {
    open spec fn spec_gc_thing(&self) -> Option<GcThing> {
        Some(GcThing::Activation(*self))
    }

    fn to_gc_thing(&self) -> (r: Option<GcThing>) {
        Some(GcThing::Activation(*self))
    }
}

impl ToGcThing for ProcedurePtr {
    open spec fn spec_gc_thing(&self) -> Option<GcThing> {
        Some(GcThing::Procedure(*self))
    }

    fn to_gc_thing(&self) -> (r: Option<GcThing>) {
        Some(GcThing::Procedure(*self))
    }
}

/// The `Trace` trait lets every kind of heap object tell the collector
/// which other heap objects it is holding alive, and lets an arena fill a
/// freshly allocated slot with the kind's default contents.
pub trait Trace: Sized {
    /// The outgoing references of this object, as the collector sees them.
    spec fn spec_refs(&self) -> Seq<GcThing>;

    /// Whether this object still has the contents a freshly allocated slot
    /// holds.
    spec fn is_fresh(&self) -> bool;

    /// The default contents of a freshly allocated slot of this kind.
    fn fresh_object() -> (r: Self)
        ensures
            r.is_fresh(),
            r.spec_refs() == Seq::<GcThing>::empty(),
    ;

    /// Return all of the GC things referenced by this object.
    fn trace(&self) -> (r: Vec<GcThing>)
        ensures
            r@ == self.spec_refs(),
    ;
}

/// The number of `true` entries of a sequence of booleans; used to count
/// marked slots.
pub open spec fn count_true(s: Seq<bool>) -> nat
    decreases s.len(),
{
    if s.len() == 0 {
        0
    } else {
        (if s.first() {
            1nat
        } else {
            0nat
        }) + count_true(s.drop_first())
    }
}

proof fn lemma_count_true_take_step(s: Seq<bool>, k: int)
    requires
        0 <= k < s.len(),
    ensures
        count_true(s.take(k + 1)) == count_true(s.take(k)) + (if s[k] {
            1nat
        } else {
            0nat
        }),
    decreases k,
{
    if k == 0 {
        assert(s.take(1).drop_first() =~= Seq::<bool>::empty());
        assert(s.take(0) =~= Seq::<bool>::empty());
        assert(s.take(1).first() == s[0]);
    } else {
        assert(s.take(k + 1).drop_first() =~= s.drop_first().take(k));
        assert(s.take(k).drop_first() =~= s.drop_first().take(k - 1));
        assert(s.take(k + 1).first() == s.first());
        assert(s.take(k).first() == s.first());
        lemma_count_true_take_step(s.drop_first(), k - 1);
        assert(s.drop_first()[k - 1] == s[k]);
    }
}

proof fn lemma_count_true_le(s: Seq<bool>)
    ensures
        count_true(s) <= s.len(),
    decreases s.len(),
{
    if s.len() > 0 {
        lemma_count_true_le(s.drop_first());
    }
}

proof fn lemma_count_true_zero(s: Seq<bool>)
    ensures
        (count_true(s) == 0) <==> (forall|i: int| 0 <= i < s.len() ==> !s[i]),
    decreases s.len(),
{
    if s.len() > 0 {
        lemma_count_true_zero(s.drop_first());
        assert(s.first() == s[0]);
        if count_true(s) == 0 {
            assert forall|i: int| 0 <= i < s.len() implies !(#[trigger] s[i]) by {
                if i == 0 {
                    assert(!s.first());
                } else {
                    assert(s.drop_first()[i - 1] == s[i]);
                }
            }
        }
        if forall|i: int| 0 <= i < s.len() ==> !(#[trigger] s[i]) {
            assert forall|i: int| 0 <= i < s.drop_first().len() implies !(#[trigger] s.drop_first()[
                i
            ]) by {
                assert(s.drop_first()[i] == s[i + 1]);
            }
            assert(count_true(s.drop_first()) == 0);
        }
    }
}

proof fn lemma_count_true_update(s: Seq<bool>, i: int)
    requires
        0 <= i < s.len(),
    ensures
        count_true(s.update(i, true)) == count_true(s) + (if s[i] {
            0nat
        } else {
            1nat
        }),
    decreases s.len(),
{
    if i == 0 {
        assert(s.update(0, true).drop_first() =~= s.drop_first());
        assert(s.update(0, true).first() == true);
    } else {
        assert(s.update(i, true).drop_first() =~= s.drop_first().update(i - 1, true));
        assert(s.update(i, true).first() == s.first());
        lemma_count_true_update(s.drop_first(), i - 1);
        assert(s.drop_first()[i - 1] == s[i]);
    }
}

/// Strings are leaves of the heap graph: they reference no other GC things.
impl Trace for String {
    open spec fn spec_refs(&self) -> Seq<GcThing> {
        Seq::empty()
    }

    open spec fn is_fresh(&self) -> bool {
        self@.len() == 0
    }

    fn fresh_object() -> (r: String) {
        String::new()
    }

    fn trace(&self) -> (r: Vec<GcThing>) {
        Vec::new()
    }
}

/// An arena from which to allocate `T` objects.
///
/// The arena owns a pre-allocated pool of slots, a free list of the indices
/// that are available for allocation, and one mark bit per slot for the
/// collector. The `id` field is the stable identity that slot handles refer
/// to; the [`ArenaSet`] that owns the arena assigns it.
pub struct Arena<T> {
    /// The stable identifier handles use to refer to this arena.
    pub id: u64,
    /// The pre-allocated object pool.
    pub pool: Vec<T>,
    /// The set of free indices into `pool` that are available for
    /// allocating an object from.
    pub free: Vec<usize>,
    /// During a GC, if the nth entry of `marked` is set, the nth object in
    /// `pool` has been marked as reachable. Outside a collection every
    /// entry is false.
    pub marked: Vec<bool>,
}

impl<T: Trace> Arena<T> {
    /// The number of slots of this arena, as a specification value.
    pub open spec fn cap(&self) -> nat {
        self.pool@.len()
    }

    /// Structural well-formedness: pool and mark bits have the same
    /// length, and the free list holds distinct in-bounds indices.
    pub open spec fn wf(&self) -> bool {
        &&& self.marked@.len() == self.pool@.len()
        &&& self.pool@.len() > 0
        &&& self.free@.no_duplicates()
        &&& forall|k: int|
            0 <= k < self.free@.len() ==> (#[trigger] self.free@[k]) < self.pool@.len()
    }

    /// Whether slot `i` is currently allocated.
    pub open spec fn live_idx(&self, i: usize) -> bool {
        i < self.pool@.len() && !self.free@.contains(i)
    }

    /// Whether every mark bit is clear.
    pub open spec fn all_unmarked(&self) -> bool {
        forall|k: int| 0 <= k < self.marked@.len() ==> !(#[trigger] self.marked@[k])
    }

    /// The number of marked slots.
    pub open spec fn marked_count(&self) -> nat {
        count_true(self.marked@)
    }

    /// Create a new `Arena` with the capacity to hold the given number of
    /// `T` instances. The caller assigns the arena's identity afterwards.
    pub fn new(capacity: usize) -> (r: Arena<T>)
        requires
            capacity > 0,
        ensures
            r.wf(),
            r.id == 0,
            r.cap() == capacity,
            r.all_unmarked(),
            r.free@.len() == capacity,
            forall|k: int| 0 <= k < capacity ==> (#[trigger] r.free@[k]) == k,
            forall|i: usize| !r.live_idx(i),
            forall|i: int|
                0 <= i < capacity ==> (#[trigger] r.pool@[i]).is_fresh() && r.pool@[i].spec_refs()
                    == Seq::<GcThing>::empty(),
    {
        let mut pool: Vec<T> = Vec::new();
        let mut free: Vec<usize> = Vec::new();
        let mut marked: Vec<bool> = Vec::new();
        let mut k: usize = 0;
        while k < capacity
            invariant
                k <= capacity,
                pool@.len() == k,
                free@.len() == k,
                marked@.len() == k,
                forall|i: int| 0 <= i < k ==> (#[trigger] free@[i]) == i,
                forall|i: int| 0 <= i < k ==> !(#[trigger] marked@[i]),
                forall|i: int|
                    0 <= i < k ==> (#[trigger] pool@[i]).is_fresh() && pool@[i].spec_refs()
                        == Seq::<GcThing>::empty(),
            decreases capacity - k,
        {
            pool.push(T::fresh_object());
            free.push(k);
            marked.push(false);
            k += 1;
        }
        let r = Arena { id: 0, pool, free, marked };
        proof {
            assert forall|i: usize| !r.live_idx(i) by {
                if i < r.pool@.len() {
                    assert(r.free@[i as int] == i);
                }
            }
            assert(r.free@.no_duplicates());
        }
        r
    }

    /// Get this arena's capacity for simultaneously allocated objects.
    pub fn capacity(&self) -> (r: usize)
        ensures
            r == self.cap(),
    {
        self.pool.len()
    }

    /// Return true if this arena is at full capacity, and false otherwise.
    pub fn is_full(&self) -> (r: bool)
        ensures
            r == (self.free@.len() == 0),
    {
        self.free.len() == 0
    }

    /// Return true if this arena does not contain any allocated objects
    /// (ie, the free list is full), and false otherwise.
    pub fn is_empty(&self) -> (r: bool)
        ensures
            r == (self.free@.len() == self.cap()),
    {
        self.free.len() == self.pool.len()
    }

    /// Allocate a new `T` instance and return a handle to it.
    ///
    /// The slot is deliberately reset to the kind's fresh contents rather
    /// than left holding whatever its previous occupant held when it was
    /// swept. Callers must initialize a slot before publishing references
    /// into it either way; the reset makes that contract safe to get
    /// wrong. A reused slot could otherwise still carry references to
    /// objects reclaimed by the very sweep that freed it — possibly into
    /// arenas that no longer exist — and since every allocation is rooted
    /// at once, a collection triggered before the caller's initialization
    /// would trace those dangling references. Handing out only fresh
    /// contents is what keeps "live objects reference only live objects"
    /// an invariant of the whole heap, which the collector's correctness
    /// proof stands on.
    ///
    /// The arena must not be at capacity; the arena set that owns this
    /// arena grows a new arena instead of calling this when it is.
    pub fn allocate(&mut self) -> (r: ArenaPtr)
        requires
            old(self).wf(),
            old(self).free@.len() > 0,
        ensures
            final(self).wf(),
            r.arena == old(self).id,
            r.index == old(self).free@.last(),
            r.index < old(self).cap(),
            final(self).id == old(self).id,
            final(self).cap() == old(self).cap(),
            final(self).free@ == old(self).free@.drop_last(),
            final(self).marked@ == old(self).marked@,
            final(self).pool@.len() == old(self).pool@.len(),
            final(self).pool@[r.index as int].is_fresh(),
            final(self).pool@[r.index as int].spec_refs() == Seq::<GcThing>::empty(),
            forall|j: int|
                0 <= j < old(self).pool@.len() && j != r.index ==> final(self).pool@[j] == old(
                    self,
                ).pool@[j],
            !old(self).live_idx(r.index),
            final(self).live_idx(r.index),
            forall|j: usize| j != r.index ==> final(self).live_idx(j) == old(self).live_idx(j),
    {
        let idx = self.free[self.free.len() - 1];
        self.free.pop();
        let fresh = T::fresh_object();
        self.pool.set(idx, fresh);
        proof {
            let of = old(self).free@;
            assert(of.contains(idx)) by {
                assert(of[of.len() - 1] == idx);
            }
            assert(self.free@ == of.drop_last());
            // The popped index is no longer free: the free list holds no
            // duplicates, so the remaining prefix cannot contain it again.
            assert(!self.free@.contains(idx)) by {
                if self.free@.contains(idx) {
                    let k = choose|k: int| 0 <= k < self.free@.len() && self.free@[k] == idx;
                    assert(of[k] == idx);
                    assert(of[of.len() - 1] == idx);
                }
            }
            assert forall|j: usize| j != idx implies self.live_idx(j) == old(self).live_idx(j) by {
                if of.contains(j) {
                    let k = choose|k: int| 0 <= k < of.len() && of[k] == j;
                    assert(k < of.len() - 1);
                    assert(self.free@[k] == j);
                    assert(self.free@.contains(j));
                }
                if self.free@.contains(j) {
                    let k = choose|k: int| 0 <= k < self.free@.len() && self.free@[k] == j;
                    assert(of[k] == j);
                    assert(of.contains(j));
                }
            }
            assert forall|k: int| 0 <= k < self.free@.len() implies (#[trigger] self.free@[k])
                < self.pool@.len() by {
                assert(self.free@[k] == of[k]);
            }
        }
        ArenaPtr { arena: self.id, index: idx }
    }

    /// Sweep the arena: rebuild the free list from the slots that were not
    /// marked during tracing, and clear every mark bit.
    pub fn sweep(&mut self)
        requires
            old(self).wf(),
        ensures
            final(self).wf(),
            final(self).id == old(self).id,
            final(self).cap() == old(self).cap(),
            final(self).pool@ == old(self).pool@,
            final(self).all_unmarked(),
            final(self).marked@.len() == old(self).marked@.len(),
            forall|i: usize|
                final(self).free@.contains(i) <==> (i < old(self).cap() && !old(
                    self,
                ).marked@[i as int]),
            final(self).free@.len() == old(self).cap() - count_true(old(self).marked@),
            forall|i: int, j: int|
                0 <= i < j < final(self).free@.len() ==> final(self).free@[i]
                    < final(self).free@[j],
            forall|j: usize| final(self).live_idx(j) <==> (j < old(self).cap() && old(
                self,
            ).marked@[j as int]),
    {
        let cap = self.pool.len();
        let mut f: Vec<usize> = Vec::new();
        let mut i: usize = 0;
        while i < cap
            invariant
                i <= cap,
                cap == self.pool@.len(),
                self == old(self),
                self.wf(),
                forall|j: usize| f@.contains(j) <==> (j < i && !self.marked@[j as int]),
                forall|k: int| 0 <= k < f@.len() ==> (#[trigger] f@[k]) < i,
                forall|k1: int, k2: int| 0 <= k1 < k2 < f@.len() ==> f@[k1] < f@[k2],
                f@.no_duplicates(),
                f@.len() == i - count_true(self.marked@.take(i as int)),
            decreases cap - i,
        {
            proof {
                lemma_count_true_take_step(self.marked@, i as int);
                lemma_count_true_le(self.marked@.take(i as int));
            }
            if !self.marked[i] {
                let ghost f0 = f@;
                proof {
                    assert(!f0.contains(i));
                }
                f.push(i);
                proof {
                    assert(f@ == f0.push(i));
                    assert forall|j: usize| #[trigger] f@.contains(j) implies (j < i + 1
                        && !self.marked@[j as int]) by {
                        let k = choose|k: int| 0 <= k < f@.len() && f@[k] == j;
                        if k < f@.len() - 1 {
                            assert(f0[k] == j);
                            assert(f0.contains(j));
                        } else {
                            assert(j == i);
                        }
                    }
                    assert forall|j: usize| (j < i + 1 && !self.marked@[j as int]) implies #[
                        trigger
                    ] f@.contains(j) by {
                        if j < i {
                            assert(f0.contains(j));
                            let k = choose|k: int| 0 <= k < f0.len() && f0[k] == j;
                            assert(f@[k] == j);
                        } else {
                            assert(f@[f@.len() - 1] == i);
                        }
                    }
                    assert(f@.no_duplicates()) by {
                        assert forall|k1: int, k2: int| 0 <= k1 < k2 < f@.len() implies f@[k1]
                            != f@[k2] by {
                            if k2 < f@.len() - 1 {
                                assert(f0[k1] == f@[k1] && f0[k2] == f@[k2]);
                            } else {
                                assert(f@[k1] == f0[k1]);
                                assert(f0.contains(f0[k1]));
                                assert(f@[k2] == i);
                            }
                        }
                    }
                }
            } else {
                proof {
                    assert forall|j: usize| (j < i + 1 && !self.marked@[j as int]) implies #[
                        trigger
                    ] f@.contains(j) by {
                        assert(j != i);
                    }
                }
            }
            i += 1;
        }
        proof {
            assert(self.marked@.take(cap as int) =~= self.marked@);
        }
        self.free = f;
        // Reset every mark bit.
        let mut m: Vec<bool> = Vec::new();
        let mut k: usize = 0;
        while k < cap
            invariant
                k <= cap,
                m@.len() == k,
                forall|j: int| 0 <= j < k ==> !(#[trigger] m@[j]),
            decreases cap - k,
        {
            m.push(false);
            k += 1;
        }
        self.marked = m;
    }
}

/// The total number of marked slots over a sequence of arenas.
pub open spec fn arenas_marked_total<T>(s: Seq<Arena<T>>) -> nat
    decreases s.len(),
{
    if s.len() == 0 {
        0
    } else {
        count_true(s.first().marked@) + arenas_marked_total(s.drop_first())
    }
}

/// The total number of slots over a sequence of arenas.
pub open spec fn arenas_cap_total<T>(s: Seq<Arena<T>>) -> nat
    decreases s.len(),
{
    if s.len() == 0 {
        0
    } else {
        s.first().pool@.len() + arenas_cap_total(s.drop_first())
    }
}

proof fn lemma_totals_update<T>(s: Seq<Arena<T>>, k: int, a: Arena<T>)
    requires
        0 <= k < s.len(),
    ensures
        arenas_marked_total(s.update(k, a)) + count_true(s[k].marked@) == arenas_marked_total(s)
            + count_true(a.marked@),
        arenas_cap_total(s.update(k, a)) + s[k].pool@.len() == arenas_cap_total(s)
            + a.pool@.len(),
    decreases s.len(),
{
    if k == 0 {
        assert(s.update(0, a).drop_first() =~= s.drop_first());
        assert(s.update(0, a).first() == a);
    } else {
        assert(s.update(k, a).drop_first() =~= s.drop_first().update(k - 1, a));
        assert(s.update(k, a).first() == s.first());
        lemma_totals_update(s.drop_first(), k - 1, a);
        assert(s.drop_first()[k - 1] == s[k]);
    }
}

proof fn lemma_marked_le_cap<T>(s: Seq<Arena<T>>)
    requires
        forall|k: int| 0 <= k < s.len() ==> (#[trigger] s[k]).marked@.len() == s[k].pool@.len(),
    ensures
        arenas_marked_total(s) <= arenas_cap_total(s),
    decreases s.len(),
{
    if s.len() > 0 {
        lemma_count_true_le(s.first().marked@);
        assert(forall|k: int|
            0 <= k < s.drop_first().len() ==> (#[trigger] s.drop_first()[k]) == s[k + 1]);
        lemma_marked_le_cap(s.drop_first());
    }
}

/// What one arena looks like after a sweep: same identity and pool, every
/// mark bit cleared, and the free list rebuilt from exactly the slots the
/// sweep found unmarked.
pub open spec fn is_swept_of<T: Trace>(b: Arena<T>, a: Arena<T>) -> bool {
    &&& b.id == a.id
    &&& b.pool@ == a.pool@
    &&& b.marked@.len() == a.marked@.len()
    &&& b.all_unmarked()
    &&& b.free@.no_duplicates()
    &&& forall|i: usize| b.free@.contains(i) <==> (i < a.pool@.len() && !a.marked@[i as int])
    &&& b.free@.len() + count_true(a.marked@) == a.pool@.len()
    &&& forall|i: int, j: int| 0 <= i < j < b.free@.len() ==> b.free@[i] < b.free@[j]
}

/// The position of the first arena with a free slot, or -1 if every
/// arena is at capacity.
pub open spec fn first_nonfull<T: Trace>(s: Seq<Arena<T>>) -> int
    decreases s.len(),
{
    if s.len() == 0 {
        -1
    } else if s.first().free@.len() > 0 {
        0
    } else {
        let r = first_nonfull(s.drop_first());
        if r == -1 {
            -1
        } else {
            r + 1
        }
    }
}

/// What `first_nonfull` means: the first arena that still has a free
/// slot, or -1 when every arena is full.
pub proof fn lemma_first_nonfull<T: Trace>(s: Seq<Arena<T>>)
    ensures
        -1 <= first_nonfull(s) < s.len(),
        first_nonfull(s) >= 0 ==> s[first_nonfull(s)].free@.len() > 0,
        forall|j: int| 0 <= j < first_nonfull(s) ==> (#[trigger] s[j]).free@.len() == 0,
        first_nonfull(s) == -1 ==> forall|j: int|
            0 <= j < s.len() ==> (#[trigger] s[j]).free@.len() == 0,
    decreases s.len(),
{
    if s.len() > 0 {
        lemma_first_nonfull(s.drop_first());
        assert(forall|j: int|
            0 <= j < s.drop_first().len() ==> (#[trigger] s.drop_first()[j]) == s[j + 1]);
        if s.first().free@.len() == 0 {
            let r = first_nonfull(s.drop_first());
            if r >= 0 {
                assert(s[r + 1] == s.drop_first()[r]);
                assert forall|j: int| 0 <= j < first_nonfull(s) implies (
                #[trigger] s[j]).free@.len() == 0 by {
                    if j > 0 {
                        assert(s.drop_first()[j - 1].free@.len() == 0);
                    }
                }
            } else {
                assert forall|j: int| 0 <= j < s.len() implies (#[trigger] s[j]).free@.len()
                    == 0 by {
                    if j > 0 {
                        assert(s.drop_first()[j - 1].free@.len() == 0);
                    }
                }
            }
        }
    }
}

/// A set of [`Arena`]s of one object kind, all with the same capacity. The
/// set grows a new arena when every existing arena is full, and releases
/// arenas that hold no allocated objects after a sweep.
pub struct ArenaSet<T> {
    /// The slot capacity that every arena of this set is created with.
    pub capacity: usize,
    /// The arenas of this set.
    pub arenas: Vec<Arena<T>>,
    /// The identifier the next arena created by this set will get.
    pub next_id: u64,
}

impl<T: Trace> ArenaSet<T> {
    /// Well-formedness: every arena is well formed, has this set's
    /// capacity, and has an identifier that is unique within the set and
    /// below the identifier counter.
    pub open spec fn wf(&self) -> bool {
        &&& self.capacity > 0
        &&& forall|k: int|
            0 <= k < self.arenas@.len() ==> (#[trigger] self.arenas@[k]).wf() && self.arenas@[
                k
            ].cap() == self.capacity && self.arenas@[k].id < self.next_id
        &&& forall|k1: int, k2: int|
            0 <= k1 < k2 < self.arenas@.len() ==> (#[trigger] self.arenas@[k1].id) != (
            #[trigger] self.arenas@[k2].id)
    }

    /// Whether the set currently holds an arena with the given identifier.
    pub open spec fn has(&self, id: u64) -> bool {
        exists|k: int| 0 <= k < self.arenas@.len() && (#[trigger] self.arenas@[k]).id == id
    }

    /// The position of the arena with the given identifier.
    pub open spec fn idx_of(&self, id: u64) -> int {
        choose|k: int| 0 <= k < self.arenas@.len() && (#[trigger] self.arenas@[k]).id == id
    }

    /// The arena with the given identifier.
    pub open spec fn arena_of(&self, id: u64) -> Arena<T> {
        self.arenas@[self.idx_of(id)]
    }

    /// Whether the handle points at a currently allocated slot of this
    /// set.
    pub open spec fn live_at(&self, p: ArenaPtr) -> bool {
        self.has(p.arena) && self.arena_of(p.arena).live_idx(p.index)
    }

    /// The contents of the slot the handle points at.
    pub open spec fn slot(&self, p: ArenaPtr) -> T {
        self.arena_of(p.arena).pool@[p.index as int]
    }

    /// Whether the slot the handle points at is marked.
    pub open spec fn marked_at(&self, p: ArenaPtr) -> bool {
        &&& self.has(p.arena)
        &&& p.index < self.arena_of(p.arena).marked@.len()
        &&& self.arena_of(p.arena).marked@[p.index as int]
    }

    /// Whether every mark bit of every arena is clear.
    pub open spec fn all_unmarked(&self) -> bool {
        forall|k: int| 0 <= k < self.arenas@.len() ==> (#[trigger] self.arenas@[k]).all_unmarked()
    }

    /// The number of marked slots over all arenas.
    pub open spec fn marked_total(&self) -> nat {
        arenas_marked_total(self.arenas@)
    }

    /// The number of slots over all arenas.
    pub open spec fn cap_total(&self) -> nat {
        arenas_cap_total(self.arenas@)
    }

    /// An arena position determines the identifier lookup: identifiers are
    /// unique, so the arena found for `arenas[k].id` is the one at `k`.
    proof fn lemma_at(&self, k: int)
        requires
            self.wf(),
            0 <= k < self.arenas@.len(),
        ensures
            self.has(self.arenas@[k].id),
            self.idx_of(self.arenas@[k].id) == k,
            self.arena_of(self.arenas@[k].id) == self.arenas@[k],
    {
        let id = self.arenas@[k].id;
        assert(self.has(id));
        let j = self.idx_of(id);
        assert(0 <= j < self.arenas@.len() && self.arenas@[j].id == id);
        if j != k {
            if j < k {
                assert(self.arenas@[j].id != self.arenas@[k].id);
            } else {
                assert(self.arenas@[k].id != self.arenas@[j].id);
            }
        }
    }

    /// Create a new `ArenaSet` whose arenas will each hold `capacity`
    /// slots. The set starts with no arenas; the first allocation grows
    /// one.
    pub fn new(capacity: usize) -> (r: ArenaSet<T>)
        requires
            capacity > 0,
        ensures
            r.wf(),
            r.capacity == capacity,
            r.arenas@.len() == 0,
            r.next_id == 0,
            forall|id: u64| !r.has(id),
            forall|p: ArenaPtr| !r.live_at(p),
            r.all_unmarked(),
    {
        ArenaSet { capacity, arenas: Vec::new(), next_id: 0 }
    }


    /// Whether the handle points at a currently allocated slot.
    pub fn is_live(&self, p: ArenaPtr) -> (r: bool)
        requires
            self.wf(),
        ensures
            r == self.live_at(p),
    {
        let n = self.arenas.len();
        let mut k: usize = 0;
        while k < n
            invariant
                k <= n,
                n == self.arenas@.len(),
                self.wf(),
                forall|j: int| 0 <= j < k ==> (#[trigger] self.arenas@[j]).id != p.arena,
            decreases n - k,
        {
            if self.arenas[k].id == p.arena {
                proof {
                    self.lemma_at(k as int);
                }
                let a = &self.arenas[k];
                if p.index >= a.pool.len() {
                    return false;
                }
                let m = a.free.len();
                let mut j: usize = 0;
                while j < m
                    invariant
                        j <= m,
                        m == a.free@.len(),
                        self.wf(),
                        k < self.arenas@.len(),
                        *a == self.arenas@[k as int],
                        self.has(p.arena),
                        self.arena_of(p.arena) == *a,
                        p.index < a.pool@.len(),
                        forall|i: int| 0 <= i < j ==> (#[trigger] a.free@[i]) != p.index,
                    decreases m - j,
                {
                    if a.free[j] == p.index {
                        proof {
                            assert(a.free@.contains(p.index));
                        }
                        return false;
                    }
                    j += 1;
                }
                proof {
                    if a.free@.contains(p.index) {
                        let i = choose|i: int| 0 <= i < a.free@.len() && a.free@[i] == p.index;
                        assert(a.free@[i] != p.index);
                    }
                }
                return true;
            }
            k += 1;
        }
        proof {
            if self.has(p.arena) {
                let j = self.idx_of(p.arena);
                assert(self.arenas@[j].id != p.arena);
            }
        }
        false
    }

    /// Find the position of the arena with the given identifier.
    fn find_index(&self, id: u64) -> (r: usize)
        requires
            self.wf(),
            self.has(id),
        ensures
            r < self.arenas@.len(),
            self.arenas@[r as int].id == id,
            r == self.idx_of(id),
    {
        let n = self.arenas.len();
        let mut k: usize = 0;
        while k < n
            invariant
                k <= n,
                n == self.arenas@.len(),
                self.wf(),
                self.has(id),
                forall|j: int| 0 <= j < k ==> (#[trigger] self.arenas@[j]).id != id,
            decreases n - k,
        {
            if self.arenas[k].id == id {
                proof {
                    self.lemma_at(k as int);
                }
                return k;
            }
            k += 1;
        }
        proof {
            let j = choose|j: int| 0 <= j < self.arenas@.len() && self.arenas@[j].id == id;
            assert(self.arenas@[j].id != id);
        }
        unreached()
    }

    /// Read the slot the handle points at.
    pub fn get(&self, p: ArenaPtr) -> (r: &T)
        requires
            self.wf(),
            self.has(p.arena),
            p.index < self.capacity,
        ensures
            *r == self.slot(p),
    {
        let k = self.find_index(p.arena);
        proof {
            self.lemma_at(k as int);
        }
        let a = &self.arenas[k];
        &a.pool[p.index]
    }

    /// Overwrite the slot the handle points at.
    pub fn set_slot(&mut self, p: ArenaPtr, v: T)
        requires
            old(self).wf(),
            old(self).has(p.arena),
            p.index < old(self).capacity,
        ensures
            final(self).wf(),
            final(self).capacity == old(self).capacity,
            final(self).next_id == old(self).next_id,
            final(self).arenas@.len() == old(self).arenas@.len(),
            forall|id: u64| final(self).has(id) == old(self).has(id),
            final(self).slot(p) == v,
            forall|q: ArenaPtr|
                old(self).has(q.arena) && q.index < old(self).capacity && q != p
                    ==> final(self).slot(q) == old(self).slot(q),
            forall|q: ArenaPtr| final(self).live_at(q) == old(self).live_at(q),
            forall|q: ArenaPtr| final(self).marked_at(q) == old(self).marked_at(q),
            forall|k: int|
                0 <= k < old(self).arenas@.len() ==> (#[trigger] final(self).arenas@[k]).marked@
                    == old(self).arenas@[k].marked@ && final(self).arenas@[k].id == old(
                    self,
                ).arenas@[k].id,
            final(self).marked_total() == old(self).marked_total(),
            final(self).cap_total() == old(self).cap_total(),
    {
        let k = self.find_index(p.arena);
        proof {
            old(self).lemma_at(k as int);
        }
        let mut a = self.arenas.remove(k);
        a.pool.set(p.index, v);
        self.arenas.insert(k, a);
        proof {
            assert(self.arenas@ =~= old(self).arenas@.update(k as int, self.arenas@[k as int]));
            self.lemma_set_like(*old(self), k as int, p);
            assert(self.marked_at(p) == old(self).marked_at(p));
            assert(self.slot(p) == v);
            assert(self.live_at(p) == old(self).live_at(p));
        }
    }

    /// Mark the slot the handle points at as reachable.
    pub fn mark_at(&mut self, p: ArenaPtr)
        requires
            old(self).wf(),
            old(self).has(p.arena),
            p.index < old(self).capacity,
        ensures
            final(self).wf(),
            final(self).capacity == old(self).capacity,
            final(self).next_id == old(self).next_id,
            final(self).arenas@.len() == old(self).arenas@.len(),
            forall|id: u64| final(self).has(id) == old(self).has(id),
            forall|q: ArenaPtr|
                old(self).has(q.arena) && q.index < old(self).capacity ==> final(self).slot(q)
                    == old(self).slot(q),
            forall|q: ArenaPtr| final(self).live_at(q) == old(self).live_at(q),
            forall|q: ArenaPtr|
                final(self).marked_at(q) == (old(self).marked_at(q) || q == p),
            final(self).marked_at(p),
            final(self).marked_total() == old(self).marked_total() + (if old(self).marked_at(p) {
                0nat
            } else {
                1nat
            }),
            final(self).cap_total() == old(self).cap_total(),
    {
        let k = self.find_index(p.arena);
        proof {
            old(self).lemma_at(k as int);
        }
        let mut a = self.arenas.remove(k);
        a.marked.set(p.index, true);
        self.arenas.insert(k, a);
        proof {
            assert(self.arenas@ =~= old(self).arenas@.update(k as int, self.arenas@[k as int]));
            lemma_count_true_update(old(self).arenas@[k as int].marked@, p.index as int);
            self.lemma_set_like(*old(self), k as int, p);
            assert forall|q: ArenaPtr| final(self).marked_at(q) == (old(self).marked_at(q) || q
                == p) by {
                if q.arena == p.arena {
                    assert(final(self).arena_of(q.arena).marked@ == old(self).arena_of(
                        q.arena,
                    ).marked@.update(p.index as int, true));
                }
            }
        }
    }

    /// Read the mark bit of the slot the handle points at.
    pub fn is_marked_at(&self, p: ArenaPtr) -> (r: bool)
        requires
            self.wf(),
            self.has(p.arena),
            p.index < self.capacity,
        ensures
            r == self.marked_at(p),
    {
        let k = self.find_index(p.arena);
        self.arenas[k].marked[p.index]
    }

    /// Two arena sets whose arenas carry the same identifiers at the same
    /// positions agree on which identifiers they hold and where.
    proof fn lemma_same_ids(&self, pre: &ArenaSet<T>)
        requires
            self.arenas@.len() == pre.arenas@.len(),
            forall|j: int|
                0 <= j < self.arenas@.len() ==> (#[trigger] self.arenas@[j]).id == pre.arenas@[
                    j
                ].id,
            forall|k1: int, k2: int|
                0 <= k1 < k2 < pre.arenas@.len() ==> (#[trigger] pre.arenas@[k1].id) != (
                #[trigger] pre.arenas@[k2].id),
        ensures
            forall|id: u64| self.has(id) == pre.has(id),
            forall|id: u64|
                #[trigger] self.has(id) ==> 0 <= self.idx_of(id) < self.arenas@.len()
                    && self.idx_of(id) == pre.idx_of(id),
    {
        assert forall|id: u64| self.has(id) == pre.has(id) by {
            if self.has(id) {
                let j = self.idx_of(id);
                assert(pre.arenas@[j].id == id);
            }
            if pre.has(id) {
                let j = pre.idx_of(id);
                assert(self.arenas@[j].id == id);
            }
        }
        assert forall|id: u64| #[trigger] self.has(id) implies 0 <= self.idx_of(id)
            < self.arenas@.len() && self.idx_of(id) == pre.idx_of(id) by {
            let j1 = self.idx_of(id);
            let j2 = pre.idx_of(id);
            assert(pre.arenas@[j1].id == id);
            assert(pre.arenas@[j2].id == id);
            if j1 != j2 {
                if j1 < j2 {
                    assert(pre.arenas@[j1].id != pre.arenas@[j2].id);
                } else {
                    assert(pre.arenas@[j2].id != pre.arenas@[j1].id);
                }
            }
        }
    }

    /// Allocate a `T` object from one of the arenas in this set and
    /// return a handle to it. The slot comes from the first arena that
    /// still has a free slot; only when every existing arena is full is
    /// exactly one fresh arena grown, and the slot comes from it. So the
    /// allocation itself never fails, and the set never grows while any
    /// reserved slot is still free.
    pub fn allocate(&mut self) -> (r: ArenaPtr)
        requires
            old(self).wf(),
            old(self).next_id < u64::MAX,
        ensures
            ({
                let f = first_nonfull(old(self).arenas@);
                if f >= 0 {
                    &&& final(self).arenas@.len() == old(self).arenas@.len()
                    &&& final(self).next_id == old(self).next_id
                    &&& r.arena == old(self).arenas@[f].id
                    &&& forall|j: int|
                        0 <= j < old(self).arenas@.len() && j != f
                            ==> final(self).arenas@[j] == old(self).arenas@[j]
                } else {
                    &&& final(self).arenas@.len() == old(self).arenas@.len() + 1
                    &&& final(self).next_id == old(self).next_id + 1
                    &&& r.arena == old(self).next_id
                    &&& forall|j: int|
                        0 <= j < old(self).arenas@.len() ==> final(self).arenas@[j] == old(
                            self,
                        ).arenas@[j]
                }
            }),
            final(self).wf(),
            final(self).capacity == old(self).capacity,
            r.index < old(self).capacity,
            !old(self).live_at(r),
            final(self).has(r.arena),
            final(self).live_at(r),
            final(self).slot(r).is_fresh(),
            final(self).slot(r).spec_refs() == Seq::<GcThing>::empty(),
            forall|q: ArenaPtr| q != r ==> final(self).live_at(q) == old(self).live_at(q),
            forall|q: ArenaPtr|
                old(self).has(q.arena) && q.index < old(self).capacity && q != r
                    ==> final(self).slot(q) == old(self).slot(q),
            forall|id: u64| old(self).has(id) ==> final(self).has(id),
            forall|id: u64| final(self).has(id) ==> old(self).has(id) || id == old(self).next_id,
            forall|q: ArenaPtr| final(self).marked_at(q) == old(self).marked_at(q),
            old(self).all_unmarked() ==> final(self).all_unmarked(),
            old(self).next_id <= final(self).next_id <= old(self).next_id + 1,
            old(self).arenas@.len() <= final(self).arenas@.len() <= old(self).arenas@.len() + 1,
    {
        let n = self.arenas.len();
        let mut k: usize = 0;
        while k < n
            invariant
                k <= n,
                self == old(self),
                n == self.arenas@.len(),
                self.wf(),
                forall|j: int| 0 <= j < k ==> (#[trigger] self.arenas@[j]).free@.len() == 0,
            decreases n - k,
        {
            if !self.arenas[k].is_full() {
                proof {
                    old(self).lemma_at(k as int);
                }
                let mut a = self.arenas.remove(k);
                let p = a.allocate();
                self.arenas.insert(k, a);
                proof {
                    assert(self.arenas@ =~= old(self).arenas@.update(
                        k as int,
                        self.arenas@[k as int],
                    ));
                    let pre = *old(self);
                    // All arenas before `k` are full and `k` is not, so
                    // `k` is the first non-full position.
                    lemma_first_nonfull(pre.arenas@);
                    let f = first_nonfull(pre.arenas@);
                    assert(pre.arenas@[k as int].free@.len() > 0);
                    if f == -1 {
                        assert(pre.arenas@[k as int].free@.len() == 0);
                    }
                    if f < k {
                        assert(pre.arenas@[f].free@.len() == 0) by {
                            assert(0 <= f < k);
                        }
                        assert(pre.arenas@[f].free@.len() > 0);
                    }
                    if f > k {
                        assert(pre.arenas@[k as int].free@.len() == 0);
                    }
                    assert(f == k);
                    let na = self.arenas@[k as int];
                    assert(na.wf());
                    assert forall|k1: int, k2: int|
                        0 <= k1 < k2 < self.arenas@.len() implies (
                    #[trigger] self.arenas@[k1].id) != (#[trigger] self.arenas@[k2].id) by {
                        assert(self.arenas@[k1].id == pre.arenas@[k1].id);
                        assert(self.arenas@[k2].id == pre.arenas@[k2].id);
                    }
                    self.lemma_same_ids(&pre);
                    self.lemma_at(k as int);
                    assert forall|q: ArenaPtr| q != p implies self.live_at(q) == pre.live_at(
                        q,
                    ) by {
                        if self.has(q.arena) {
                            let j = self.idx_of(q.arena);
                            if j == k {
                                assert(q.index != p.index || q == p);
                            } else {
                                assert(self.arenas@[j] == pre.arenas@[j]);
                            }
                        }
                    }
                    assert forall|q: ArenaPtr|
                        pre.has(q.arena) && q.index < pre.capacity && q != p implies self.slot(q)
                        == pre.slot(q) by {
                        let j = self.idx_of(q.arena);
                        if j == k {
                            assert(q.index != p.index || q == p);
                        } else {
                            assert(self.arenas@[j] == pre.arenas@[j]);
                        }
                    }
                    assert forall|q: ArenaPtr| self.marked_at(q) == pre.marked_at(q) by {
                        if self.has(q.arena) {
                            let j = self.idx_of(q.arena);
                            assert(self.arenas@[j].marked@ == pre.arenas@[j].marked@);
                        }
                    }
                    assert(!pre.live_at(p));
                    assert(self.live_at(p));
                }
                return p;
            }
            k += 1;
        }
        // Every existing arena is at capacity: grow a fresh arena for the
        // requested object and add it to the set.
        let mut a = Arena::new(self.capacity);
        a.id = self.next_id;
        self.next_id = self.next_id + 1;
        let p = a.allocate();
        self.arenas.push(a);
        proof {
            let pre = *old(self);
            let m = pre.arenas@.len() as int;
            // The scan found every arena full, so none is non-full.
            lemma_first_nonfull(pre.arenas@);
            if first_nonfull(pre.arenas@) >= 0 {
                assert(pre.arenas@[first_nonfull(pre.arenas@)].free@.len() == 0);
            }
            assert(first_nonfull(pre.arenas@) == -1);
            assert(self.arenas@ =~= pre.arenas@.push(self.arenas@[m]));
            let na = self.arenas@[m];
            assert(na.id == pre.next_id);
            assert forall|k1: int, k2: int| 0 <= k1 < k2 < self.arenas@.len() implies (
            #[trigger] self.arenas@[k1].id) != (#[trigger] self.arenas@[k2].id) by {
                if k2 == m {
                    assert(pre.arenas@[k1].id < pre.next_id);
                } else {
                    assert(self.arenas@[k1].id == pre.arenas@[k1].id);
                    assert(self.arenas@[k2].id == pre.arenas@[k2].id);
                }
            }
            assert(self.wf());
            self.lemma_at(m);
            assert(p.arena == na.id && self.has(p.arena));
            assert(!pre.has(p.arena)) by {
                if pre.has(p.arena) {
                    let j = pre.idx_of(p.arena);
                    assert(pre.arenas@[j].id < pre.next_id);
                }
            }
            assert forall|id: u64| pre.has(id) implies self.has(id) && self.idx_of(id)
                == pre.idx_of(id) by {
                let j = pre.idx_of(id);
                assert(self.arenas@[j].id == id);
                assert(self.has(id));
                self.lemma_at(j);
            }
            assert forall|id: u64| self.has(id) implies pre.has(id) || id == pre.next_id by {
                let j = self.idx_of(id);
                if j < m {
                    assert(pre.arenas@[j].id == id);
                }
            }
            assert forall|q: ArenaPtr| q != p implies self.live_at(q) == pre.live_at(q) by {
                if self.has(q.arena) {
                    let j = self.idx_of(q.arena);
                    if j == m {
                        assert(!pre.has(q.arena));
                        if q.index != p.index && q.index < na.pool@.len() {
                            // Every slot of the fresh arena except the one
                            // just handed out is still on the free list.
                            assert(p.index == na.pool@.len() - 1);
                            assert(na.free@[q.index as int] == q.index);
                            assert(na.free@.contains(q.index));
                        }
                        assert(q.index != p.index ==> !na.live_idx(q.index));
                    } else {
                        assert(self.arenas@[j] == pre.arenas@[j]);
                        assert(pre.idx_of(q.arena) == j);
                    }
                } else {
                    assert(!pre.has(q.arena));
                }
            }
            assert forall|q: ArenaPtr|
                pre.has(q.arena) && q.index < pre.capacity && q != p implies self.slot(q)
                == pre.slot(q) by {
                let j = pre.idx_of(q.arena);
                assert(self.arenas@[j] == pre.arenas@[j]);
                assert(self.idx_of(q.arena) == j);
            }
            assert forall|q: ArenaPtr| self.marked_at(q) == pre.marked_at(q) by {
                if self.has(q.arena) {
                    let j = self.idx_of(q.arena);
                    if j == m {
                        assert(na.all_unmarked());
                        assert(!pre.has(q.arena));
                        if q.index < na.marked@.len() {
                            assert(!na.marked@[q.index as int]);
                        }
                    } else {
                        assert(self.arenas@[j] == pre.arenas@[j]);
                        assert(pre.idx_of(q.arena) == j);
                    }
                }
            }
        }
        p
    }

    /// Sweep all of the arenas in this set, then deallocate any arena that
    /// no longer contains any reachable object.
    #[verifier::rlimit(100)]
    pub fn sweep(&mut self)
        requires
            old(self).wf(),
        ensures
            final(self).wf(),
            final(self).capacity == old(self).capacity,
            final(self).next_id == old(self).next_id,
            forall|id: u64|
                final(self).has(id) <==> (old(self).has(id) && count_true(
                    #[trigger] old(self).arena_of(id).marked@,
                ) > 0),
            forall|id: u64| #[trigger] final(self).has(id) ==> old(self).has(id),
            forall|p: ArenaPtr| final(self).live_at(p) <==> old(self).marked_at(p),
            forall|p: ArenaPtr|
                old(self).marked_at(p) ==> final(self).slot(p) == old(self).slot(p),
            final(self).all_unmarked(),
            final(self).arenas@.len() <= old(self).arenas@.len(),
    {
        let ghost orig = self.arenas@;
        let n = self.arenas.len();
        let mut kept: Vec<Arena<T>> = Vec::new();
        // `srcs[m]` is the position in the original arena list that
        // `kept[m]` came from; `pos[j]` is the position in `kept` that the
        // original arena at `j` went to, or -1 if it was released.
        let ghost mut srcs: Seq<int> = Seq::empty();
        let ghost mut pos: Seq<int> = Seq::empty();
        let mut k: usize = 0;
        while k < n
            invariant
                k <= n,
                n == orig.len(),
                orig == old(self).arenas@,
                self.capacity == old(self).capacity,
                self.next_id == old(self).next_id,
                old(self).wf(),
                self.arenas@ =~= orig.skip(k as int),
                srcs.len() == kept@.len(),
                pos.len() == k,
                forall|m: int|
                    0 <= m < srcs.len() ==> 0 <= #[trigger] srcs[m] < k && is_swept_of(
                        kept@[m],
                        orig[srcs[m]],
                    ) && count_true(orig[srcs[m]].marked@) > 0,
                forall|m1: int, m2: int|
                    0 <= m1 < m2 < srcs.len() ==> #[trigger] srcs[m1] < #[trigger] srcs[m2],
                forall|j: int|
                    0 <= j < k && count_true((#[trigger] orig[j]).marked@) > 0 ==> 0 <= pos[j]
                        < srcs.len() && srcs[pos[j]] == j,
                forall|j: int|
                    0 <= j < k && count_true((#[trigger] orig[j]).marked@) == 0 ==> pos[j] == -1,
                kept@.len() <= k,
            decreases n - k,
        {
            let ghost a0 = orig[k as int];
            proof {
                assert(self.arenas@[0] == orig[k as int]);
            }
            let mut a = self.arenas.remove(0);
            a.sweep();
            proof {
                lemma_count_true_le(a0.marked@);
                lemma_count_true_zero(a0.marked@);
                assert(is_swept_of(a, a0));
            }
            if !a.is_empty() {
                proof {
                    // A non-full free list means some slot stayed
                    // allocated, so some slot was marked.
                    assert(count_true(a0.marked@) > 0);
                }
                kept.push(a);
                proof {
                    pos = pos.push(srcs.len() as int);
                    srcs = srcs.push(k as int);
                }
            } else {
                proof {
                    assert(a.free@.len() == a.cap());
                    assert(count_true(a0.marked@) == 0);
                    pos = pos.push(-1);
                }
            }
            proof {
                assert(orig.skip(k as int).skip(1) =~= orig.skip(k as int + 1));
            }
            k += 1;
        }
        self.arenas = kept;
        proof {
            let pre = *old(self);
            // Every kept arena is well formed, keeps its identifier and
            // keeps its capacity, so the swept set is well formed.
            assert forall|m: int| 0 <= m < self.arenas@.len() implies (
            #[trigger] self.arenas@[m]).wf() && self.arenas@[m].cap() == self.capacity
                && self.arenas@[m].id < self.next_id && self.arenas@[m].id == orig[srcs[m]].id by {
                let b = self.arenas@[m];
                let j = srcs[m];
                assert(is_swept_of(b, orig[j]));
                assert(orig[j].wf());
                assert(b.pool@.len() == orig[j].pool@.len());
                assert(b.marked@.len() == orig[j].marked@.len());
                assert forall|i: int| 0 <= i < b.free@.len() implies (#[trigger] b.free@[i])
                    < b.pool@.len() by {
                    assert(b.free@.contains(b.free@[i]));
                }
                assert(b.wf());
            }
            assert forall|m1: int, m2: int| 0 <= m1 < m2 < self.arenas@.len() implies (
            #[trigger] self.arenas@[m1].id) != (#[trigger] self.arenas@[m2].id) by {
                assert(srcs[m1] < srcs[m2]);
                assert(self.arenas@[m1].id == orig[srcs[m1]].id);
                assert(self.arenas@[m2].id == orig[srcs[m2]].id);
            }
            assert(self.wf());
            assert forall|id: u64| #[trigger] self.has(id) implies pre.has(id) && count_true(
                pre.arena_of(id).marked@,
            ) > 0 && is_swept_of(self.arena_of(id), pre.arena_of(id)) by {
                let m = self.idx_of(id);
                self.lemma_at(m);
                let j = srcs[m];
                assert(is_swept_of(self.arenas@[m], orig[j]));
                assert(orig[j].id == id);
                pre.lemma_at(j);
            }
            assert forall|id: u64|
                pre.has(id) && count_true(#[trigger] pre.arena_of(id).marked@)
                    > 0 implies self.has(id) by {
                let j = pre.idx_of(id);
                pre.lemma_at(j);
                let m = pos[j];
                assert(srcs[m] == j);
                assert(is_swept_of(self.arenas@[m], orig[j]));
                assert(self.arenas@[m].id == id);
            }
            assert forall|p: ArenaPtr| self.live_at(p) <==> pre.marked_at(p) by {
                if self.has(p.arena) {
                    let b = self.arena_of(p.arena);
                    let a = pre.arena_of(p.arena);
                    assert(is_swept_of(b, a));
                    if p.index < b.pool@.len() && !b.free@.contains(p.index) {
                        assert(a.marked@[p.index as int]);
                    }
                    if p.index < a.marked@.len() && a.marked@[p.index as int] {
                        assert(!b.free@.contains(p.index));
                    }
                } else {
                    if pre.has(p.arena) && p.index < pre.arena_of(p.arena).marked@.len()
                        && pre.arena_of(p.arena).marked@[p.index as int] {
                        lemma_count_true_zero(pre.arena_of(p.arena).marked@);
                        assert(count_true(pre.arena_of(p.arena).marked@) > 0);
                    }
                }
            }
            assert forall|p: ArenaPtr| pre.marked_at(p) implies self.slot(p) == pre.slot(p) by {
                lemma_count_true_zero(pre.arena_of(p.arena).marked@);
                assert(count_true(pre.arena_of(p.arena).marked@) > 0);
                assert(self.has(p.arena));
            }
        }
    }

    /// The shared shape of `set_slot` and `mark_at`: position `k` was
    /// replaced by an arena that agrees with the old one except possibly
    /// in the slot contents and mark bit at `p.index`, and everything
    /// identifier-indexed is otherwise unchanged.
    proof fn lemma_set_like(&self, pre: ArenaSet<T>, k: int, p: ArenaPtr)
        requires
            pre.wf(),
            0 <= k < pre.arenas@.len(),
            pre.arenas@[k].id == p.arena,
            p.index < pre.capacity,
            self.capacity == pre.capacity,
            self.next_id == pre.next_id,
            self.arenas@ == pre.arenas@.update(
                k,
                self.arenas@[k],
            ),
            self.arenas@[k].id == pre.arenas@[k].id,
            self.arenas@[k].free@ == pre.arenas@[k].free@,
            self.arenas@[k].pool@.len() == pre.arenas@[k].pool@.len(),
            self.arenas@[k].marked@.len() == pre.arenas@[k].marked@.len(),
            forall|j: int|
                0 <= j < pre.arenas@[k].pool@.len() && j != p.index ==> (#[trigger] self.arenas@[
                    k
                ].pool@[j]) == pre.arenas@[k].pool@[j],
            forall|j: int|
                0 <= j < pre.arenas@[k].marked@.len() && j != p.index ==> (
                #[trigger] self.arenas@[k].marked@[j]) == pre.arenas@[k].marked@[j],
        ensures
            self.wf(),
            forall|id: u64| self.has(id) == pre.has(id),
            forall|id: u64| self.has(id) ==> self.idx_of(id) == pre.idx_of(id),
            forall|q: ArenaPtr|
                pre.has(q.arena) && q.index < pre.capacity && q != p ==> self.slot(q) == pre.slot(
                    q,
                ),
            forall|q: ArenaPtr| self.live_at(q) == pre.live_at(q),
            forall|q: ArenaPtr| q != p ==> self.marked_at(q) == pre.marked_at(q),
            self.arena_of(p.arena) == self.arenas@[k],
            self.cap_total() == pre.cap_total(),
            self.marked_total() + count_true(pre.arenas@[k].marked@) == pre.marked_total()
                + count_true(self.arenas@[k].marked@),
    {
        let a = self.arenas@[k];
        assert(a.wf()) by {
            assert(pre.arenas@[k].wf());
            assert(forall|j: int|
                0 <= j < a.free@.len() ==> (#[trigger] a.free@[j]) < a.pool@.len());
        }
        assert forall|k1: int, k2: int| 0 <= k1 < k2 < self.arenas@.len() implies (
        #[trigger] self.arenas@[k1].id) != (#[trigger] self.arenas@[k2].id) by {
            assert(self.arenas@[k1].id == pre.arenas@[k1].id);
            assert(self.arenas@[k2].id == pre.arenas@[k2].id);
        }
        assert(self.wf()) by {
            assert(forall|j: int|
                0 <= j < self.arenas@.len() ==> (#[trigger] self.arenas@[j]).id == pre.arenas@[
                    j
                ].id);
        }
        assert forall|id: u64| self.has(id) == pre.has(id) by {
            if pre.has(id) {
                let j = pre.idx_of(id);
                assert(self.arenas@[j].id == id);
            }
            if self.has(id) {
                let j = self.idx_of(id);
                assert(pre.arenas@[j].id == id);
            }
        }
        assert forall|id: u64| self.has(id) implies self.idx_of(id) == pre.idx_of(id) by {
            let j = pre.idx_of(id);
            assert(pre.arenas@[j].id == id);
            assert(self.arenas@[j].id == id);
            self.lemma_at(j);
        }
        assert forall|q: ArenaPtr| self.live_at(q) == pre.live_at(q) by {
            if self.has(q.arena) {
                let j = self.idx_of(q.arena);
                assert(self.arena_of(q.arena) == self.arenas@[j]);
                assert(pre.arena_of(q.arena) == pre.arenas@[j]);
            }
        }
        assert forall|q: ArenaPtr| q != p implies self.marked_at(q) == pre.marked_at(q) by {
            if self.has(q.arena) {
                let j = self.idx_of(q.arena);
                if j == k {
                    assert(q.arena == p.arena);
                    assert(q.index != p.index || q == p);
                }
            }
        }
        assert forall|q: ArenaPtr|
            pre.has(q.arena) && q.index < pre.capacity && q != p implies self.slot(q) == pre.slot(
            q,
        ) by {
            let j = self.idx_of(q.arena);
            if j == k {
                assert(q.arena == p.arena);
                assert(q.index != p.index || q == p);
            }
        }
        self.lemma_at(k);
        lemma_totals_update(pre.arenas@, k, a);
    }
}

/// A source location: the file, line and column a pair was read from.
pub struct Location {
    /// The name of the source file.
    pub file: String,
    /// The 1-based source line.
    pub line: u32,
    /// The 1-based source column.
    pub column: u32,
}

impl Location {
    /// The sentinel returned when a pair has no registered location.
    pub fn unknown() -> (r: Location)
        ensures
            r.file@ == Seq::<char>::empty(),
            r.line == 0,
            r.column == 0,
    {
        Location { file: String::new(), line: 0, column: 0 }
    }

    /// Rebuild this location as an owned value.
    pub fn duplicate(&self) -> (r: Location)
        ensures
            r == *self,
    {
        Location { file: self.file.clone(), line: self.line, column: self.column }
    }
}

/// The reference count a root table holds for `t`: the sum of the counts
/// of every entry for `t`.
pub open spec fn root_count_in(s: Seq<(GcThing, usize)>, t: GcThing) -> nat
    decreases s.len(),
{
    if s.len() == 0 {
        0
    } else {
        (if s.first().0 == t {
            s.first().1 as nat
        } else {
            0nat
        }) + root_count_in(s.drop_first(), t)
    }
}

proof fn lemma_root_count_push(s: Seq<(GcThing, usize)>, e: (GcThing, usize), t: GcThing)
    ensures
        root_count_in(s.push(e), t) == root_count_in(s, t) + (if e.0 == t {
            e.1 as nat
        } else {
            0nat
        }),
    decreases s.len(),
{
    if s.len() == 0 {
        assert(s.push(e).drop_first() =~= Seq::<(GcThing, usize)>::empty());
        assert(s.push(e).first() == e);
        assert(root_count_in(s.push(e).drop_first(), t) == 0);
        assert(root_count_in(s.push(e), t) == (if e.0 == t {
            e.1 as nat
        } else {
            0nat
        }));
    } else {
        assert(s.push(e).drop_first() =~= s.drop_first().push(e));
        assert(s.push(e).first() == s.first());
        lemma_root_count_push(s.drop_first(), e, t);
        assert(root_count_in(s.push(e), t) == (if s.first().0 == t {
            s.first().1 as nat
        } else {
            0nat
        }) + root_count_in(s.drop_first().push(e), t));
    }
}

proof fn lemma_root_count_update(s: Seq<(GcThing, usize)>, i: int, e: (GcThing, usize), t: GcThing)
    requires
        0 <= i < s.len(),
    ensures
        root_count_in(s.update(i, e), t) + (if s[i].0 == t {
            s[i].1 as nat
        } else {
            0nat
        }) == root_count_in(s, t) + (if e.0 == t {
            e.1 as nat
        } else {
            0nat
        }),
    decreases s.len(),
{
    if i == 0 {
        assert(s.update(0, e).drop_first() =~= s.drop_first());
        assert(s.update(0, e).first() == e);
    } else {
        assert(s.update(i, e).drop_first() =~= s.drop_first().update(i - 1, e));
        assert(s.update(i, e).first() == s.first());
        lemma_root_count_update(s.drop_first(), i - 1, e, t);
        assert(s.drop_first()[i - 1] == s[i]);
    }
}

proof fn lemma_root_count_remove(s: Seq<(GcThing, usize)>, i: int, t: GcThing)
    requires
        0 <= i < s.len(),
    ensures
        root_count_in(s.remove(i), t) + (if s[i].0 == t {
            s[i].1 as nat
        } else {
            0nat
        }) == root_count_in(s, t),
    decreases s.len(),
{
    if i == 0 {
        assert(s.remove(0) =~= s.drop_first());
    } else {
        assert(s.remove(i).drop_first() =~= s.drop_first().remove(i - 1));
        assert(s.remove(i).first() == s.first());
        lemma_root_count_remove(s.drop_first(), i - 1, t);
        assert(s.drop_first()[i - 1] == s[i]);
    }
}

/// If no entry carries `t`, its count is zero.
proof fn lemma_root_count_absent(s: Seq<(GcThing, usize)>, t: GcThing)
    requires
        forall|k: int| 0 <= k < s.len() ==> (#[trigger] s[k]).0 != t,
    ensures
        root_count_in(s, t) == 0,
    decreases s.len(),
{
    if s.len() > 0 {
        assert(s[0].0 != t);
        assert(forall|k: int|
            0 <= k < s.drop_first().len() ==> (#[trigger] s.drop_first()[k]) == s[k + 1]);
        lemma_root_count_absent(s.drop_first(), t);
    }
}

/// With distinct keys, the count of the key at `i` is exactly that
/// entry's count.
proof fn lemma_root_count_at(s: Seq<(GcThing, usize)>, i: int)
    requires
        0 <= i < s.len(),
        forall|k1: int, k2: int| 0 <= k1 < k2 < s.len() ==> (#[trigger] s[k1]).0 != (
        #[trigger] s[k2]).0,
    ensures
        root_count_in(s, s[i].0) == s[i].1,
    decreases s.len(),
{
    if i == 0 {
        assert forall|k: int| 0 <= k < s.drop_first().len() implies (
        #[trigger] s.drop_first()[k]).0 != s[0].0 by {
            assert(s.drop_first()[k] == s[k + 1]);
        }
        lemma_root_count_absent(s.drop_first(), s[0].0);
    } else {
        assert(forall|k1: int, k2: int|
            0 <= k1 < k2 < s.drop_first().len() ==> (#[trigger] s.drop_first()[k1]).0 != (
            #[trigger] s.drop_first()[k2]).0);
        lemma_root_count_at(s.drop_first(), i - 1);
        assert(s.drop_first()[i - 1] == s[i]);
        assert(s[0].0 != s[i].0);
    }
}

/// A smart handle wrapping the slot handle `T`. While the mutator holds a
/// `Rooted`, its referent is registered in the heap's root table, so a
/// garbage collection within the handle's lifetime cannot reclaim the
/// referent.
///
/// The registration is explicit at both ends: `Rooted::new` registers the
/// referent, and the mutator gives the handle back with
/// [`Heap::drop_root`] when it no longer needs it.
#[derive(Clone, Copy, PartialEq, Eq, Structural, Debug)]
pub struct Rooted<T> {
    /// The rooted slot handle.
    pub ptr: T,
}

/// A rooted handle to a cons cell.
pub type RootedConsPtr = Rooted<ConsPtr>;

/// A rooted handle to a string.
pub type RootedStringPtr = Rooted<StringPtr>;

/// A rooted handle to an activation.
pub type RootedActivationPtr = Rooted<ActivationPtr>;

/// A rooted handle to a procedure.
pub type RootedProcedurePtr = Rooted<ProcedurePtr>;

/// A rooted value.
pub type RootedValue = Rooted<Value>;

impl<T: Copy + ToGcThing> Rooted<T> {
    /// Create a new `Rooted<T>`, rooting the referent.
    pub fn new(heap: &mut Heap, ptr: T) -> (r: Rooted<T>)
        requires
            old(heap).wf(),
            match ptr.spec_gc_thing() {
                Some(t) => old(heap).live(t) && old(heap).root_count(t) < usize::MAX,
                None => true,
            },
        ensures
            final(heap).wf(),
            r.ptr == ptr,
            heap_with_extra_root(*old(heap), *final(heap), ptr.spec_gc_thing()),
    {
        let r = Rooted { ptr };
        if let Some(t) = ptr.to_gc_thing() {
            heap.add_root(t);
        }
        r
    }

    /// Unroot the current referent and replace it with the given referent,
    /// which then gets rooted.
    pub fn emplace(&mut self, heap: &mut Heap, rhs: T)
        requires
            old(heap).wf(),
            match rhs.spec_gc_thing() {
                Some(t) => old(heap).live(t) && old(heap).root_count(t) < usize::MAX,
                None => true,
            },
        ensures
            final(heap).wf(),
            final(self).ptr == rhs,
            exists|mid: Heap|
                heap_with_dropped_root(*old(heap), mid, old(self).ptr.spec_gc_thing())
                    && heap_with_extra_root(mid, *final(heap), rhs.spec_gc_thing()),
    {
        let ghost pre = *heap;
        heap.drop_root(&*self);
        let ghost mid = *heap;
        self.ptr = rhs;
        if let Some(t) = rhs.to_gc_thing() {
            proof {
                assert(heap.live(t) && heap.root_count(t) < usize::MAX) by {
                    assert(mid.live(t) == pre.live(t));
                    assert(mid.root_count(t) <= pre.root_count(t));
                }
            }
            heap.add_root(t);
        }
        proof {
            assert(heap_with_dropped_root(pre, mid, old(self).ptr.spec_gc_thing())
                && heap_with_extra_root(mid, *heap, rhs.spec_gc_thing()));
        }
    }

    /// The rooted handle itself.
    pub fn get(&self) -> (r: T)
        ensures
            r == self.ptr,
    {
        self.ptr
    }
}

impl<T: Copy + ToGcThing> ToGcThing for Rooted<T> {
    open spec fn spec_gc_thing(&self) -> Option<GcThing> {
        self.ptr.spec_gc_thing()
    }

    fn to_gc_thing(&self) -> (r: Option<GcThing>) {
        self.ptr.to_gc_thing()
    }
}

/// `post` is `pre` with one more root registration of `ot` (and no other
/// change), or exactly `pre` when `ot` is no handle at all.
pub open spec fn heap_with_extra_root(pre: Heap, post: Heap, ot: Option<GcThing>) -> bool {
    &&& heap_eq_but_roots(pre, post)
    &&& match ot {
        Some(t) => forall|u: GcThing|
            post.root_count(u) == pre.root_count(u) + (if u == t {
                1nat
            } else {
                0nat
            }),
        None => post.roots@ == pre.roots@,
    }
}

/// `post` is `pre` with one root registration of `ot` given back (and no
/// other change); an unregistered referent is left as it is.
pub open spec fn heap_with_dropped_root(pre: Heap, post: Heap, ot: Option<GcThing>) -> bool {
    &&& heap_eq_but_roots(pre, post)
    &&& match ot {
        Some(t) => forall|u: GcThing|
            post.root_count(u) == pre.root_count(u) - (if u == t && pre.root_count(u) > 0 {
                1nat
            } else {
                0nat
            }),
        None => post.roots@ == pre.roots@,
    }
}

/// The two heaps agree on everything but the root table.
pub open spec fn heap_eq_but_roots(pre: Heap, post: Heap) -> bool {
    &&& post.environment == pre.environment
    &&& post.cons_cells == pre.cons_cells
    &&& post.strings == pre.strings
    &&& post.activations == pre.activations
    &&& post.procedures == pre.procedures
    &&& post.symbol_table == pre.symbol_table
    &&& post.global_activation == pre.global_activation
    &&& post.allocations == pre.allocations
    &&& post.allocations_threshold == pre.allocations_threshold
    &&& post.locations == pre.locations
}

/// Two heaps whose arena sets, tables and global activation agree have
/// the same object graph: the same live set, contents, successors and
/// structural invariants. Only the root table and the pressure counters
/// may differ.
pub(crate) proof fn lemma_graph_eq(pre: Heap, post: Heap)
    requires
        post.cons_cells == pre.cons_cells,
        post.strings == pre.strings,
        post.activations == pre.activations,
        post.procedures == pre.procedures,
        post.symbol_table == pre.symbol_table,
        post.global_activation == pre.global_activation,
    ensures
        forall|t: GcThing| post.live(t) == pre.live(t),
        forall|t: GcThing| post.succs(t) == pre.succs(t),
        forall|t: GcThing| post.marked(t) == pre.marked(t),
        post.closed() == pre.closed(),
        post.marks_clear() == pre.marks_clear(),
        post.symtab_wf() == pre.symtab_wf(),
        post.locations == pre.locations ==> post.locations_wf() == pre.locations_wf(),
        post.roots == pre.roots ==> post.roots_wf() == pre.roots_wf(),
{
    if post.roots == pre.roots {
        if pre.roots_wf() {
            assert forall|k: int|
                0 <= k < post.roots@.len() implies (#[trigger] post.roots@[k]).1 >= 1
                && post.live(post.roots@[k].0) by {
                assert(post.roots@[k] == pre.roots@[k]);
                assert(pre.live(pre.roots@[k].0));
            }
        }
        if post.roots_wf() {
            assert forall|k: int|
                0 <= k < pre.roots@.len() implies (#[trigger] pre.roots@[k]).1 >= 1 && pre.live(
                pre.roots@[k].0,
            ) by {
                assert(post.roots@[k] == pre.roots@[k]);
                assert(post.live(post.roots@[k].0));
            }
        }
    }
    if post.locations == pre.locations {
        if pre.locations_wf() {
            assert forall|k: int|
                0 <= k < post.locations@.len() implies post.cons_cells.live_at(
                (#[trigger] post.locations@[k]).0.0,
            ) by {
                assert(post.locations@[k] == pre.locations@[k]);
            }
        }
        if post.locations_wf() {
            assert forall|k: int|
                0 <= k < pre.locations@.len() implies pre.cons_cells.live_at(
                (#[trigger] pre.locations@[k]).0.0,
            ) by {
                assert(post.locations@[k] == pre.locations@[k]);
            }
        }
    }
    assert forall|t: GcThing| post.live(t) == pre.live(t) && post.succs(t) == pre.succs(t)
        && post.marked(t) == pre.marked(t) by {
        match t {
            GcThing::Cons(_) => {},
            GcThing::String(_) => {},
            GcThing::Activation(_) => {},
            GcThing::Procedure(_) => {},
        }
    }
    if pre.closed() {
        assert forall|t: GcThing, k: int|
            post.live(t) && 0 <= k < post.succs(t).len() implies post.live(
            #[trigger] post.succs(t)[k],
        ) by {
            assert(pre.live(pre.succs(t)[k]));
        }
    }
    if post.closed() {
        assert forall|t: GcThing, k: int|
            pre.live(t) && 0 <= k < pre.succs(t).len() implies pre.live(
            #[trigger] pre.succs(t)[k],
        ) by {
            assert(post.live(post.succs(t)[k]));
        }
    }
}

/// The scheme heap and GC runtime, containing all allocated cons cells,
/// strings, activations and procedures (including the strings interned
/// for symbols), the root table, and the static environment.
pub struct Heap {
    /// The static environment.
    pub environment: Environment,
    /// The arena set the cons cells live in.
    pub cons_cells: ArenaSet<Cons>,
    /// The arena set the strings live in.
    pub strings: ArenaSet<String>,
    /// The arena set the activations live in.
    pub activations: ArenaSet<Activation>,
    /// The arena set the procedures live in.
    pub procedures: ArenaSet<Procedure>,
    /// The explicit roots: each entry pairs a GC thing with the number of
    /// times it is currently registered.
    pub roots: Vec<(GcThing, usize)>,
    /// The symbol interner: each name maps to its canonical string slot.
    pub symbol_table: Vec<(String, StringPtr)>,
    /// The always-reachable global activation.
    pub global_activation: ActivationPtr,
    /// The number of allocations since the last collection.
    pub allocations: usize,
    /// The allocation count above which the next allocation collects.
    pub allocations_threshold: usize,
    /// The source-location registry; its keys are implicit roots.
    pub locations: Vec<(ConsPtr, Location)>,
}

/// The default capacity of cons cells per arena.
pub const DEFAULT_CONS_CAPACITY: usize = 1024;

/// The default capacity of strings per arena.
pub const DEFAULT_STRINGS_CAPACITY: usize = 1024;

/// The default capacity of activations per arena.
pub const DEFAULT_ACTIVATIONS_CAPACITY: usize = 1024;

/// The default capacity of procedures per arena.
pub const DEFAULT_PROCEDURES_CAPACITY: usize = 1024;

impl Heap {
    /// Whether `t` points at a currently allocated slot of the matching
    /// arena set.
    pub open spec fn live(&self, t: GcThing) -> bool {
        match t {
            GcThing::Cons(p) => self.cons_cells.live_at(p.0),
            GcThing::String(p) => self.strings.live_at(p.0),
            GcThing::Activation(p) => self.activations.live_at(p.0),
            GcThing::Procedure(p) => self.procedures.live_at(p.0),
        }
    }

    /// Whether `t`'s slot is marked.
    pub open spec fn marked(&self, t: GcThing) -> bool {
        match t {
            GcThing::Cons(p) => self.cons_cells.marked_at(p.0),
            GcThing::String(p) => self.strings.marked_at(p.0),
            GcThing::Activation(p) => self.activations.marked_at(p.0),
            GcThing::Procedure(p) => self.procedures.marked_at(p.0),
        }
    }

    /// The cons cell `p` points at.
    pub open spec fn cons_at(&self, p: ConsPtr) -> Cons {
        self.cons_cells.slot(p.0)
    }

    /// The string `p` points at.
    pub open spec fn string_at(&self, p: StringPtr) -> String {
        self.strings.slot(p.0)
    }

    /// The activation `p` points at.
    pub open spec fn act_at(&self, p: ActivationPtr) -> Activation {
        self.activations.slot(p.0)
    }

    /// The procedure `p` points at.
    pub open spec fn proc_at(&self, p: ProcedurePtr) -> Procedure {
        self.procedures.slot(p.0)
    }

    /// The outgoing references of the object `t` points at.
    pub open spec fn succs(&self, t: GcThing) -> Seq<GcThing> {
        match t {
            GcThing::Cons(p) => self.cons_at(p).spec_refs(),
            GcThing::String(_) => Seq::empty(),
            GcThing::Activation(p) => self.act_at(p).spec_refs(),
            GcThing::Procedure(p) => self.proc_at(p).spec_refs(),
        }
    }

    /// The reference count the root table holds for `t`.
    pub open spec fn root_count(&self, t: GcThing) -> nat {
        root_count_in(self.roots@, t)
    }

    /// Whether `t` is explicitly rooted.
    pub open spec fn rooted(&self, t: GcThing) -> bool {
        self.root_count(t) > 0
    }

    /// Whether `t` is the canonical string of an interned symbol.
    pub open spec fn symbol_rooted(&self, t: GcThing) -> bool {
        exists|k: int|
            0 <= k < self.symbol_table@.len() && t == GcThing::String(
                (#[trigger] self.symbol_table@[k]).1,
            )
    }

    /// Whether `t` is a pair registered in the source-location registry.
    pub open spec fn location_rooted(&self, t: GcThing) -> bool {
        exists|k: int|
            0 <= k < self.locations@.len() && t == GcThing::Cons(
                (#[trigger] self.locations@[k]).0,
            )
    }

    /// Whether `t` is a GC root: an interned symbol string, the global
    /// activation, an explicitly rooted thing, or a located pair.
    pub open spec fn is_root(&self, t: GcThing) -> bool {
        ||| self.symbol_rooted(t)
        ||| t == GcThing::Activation(self.global_activation)
        ||| self.rooted(t)
        ||| self.location_rooted(t)
    }

    /// Whether `t` is reachable from the roots in at most `n` reference
    /// steps.
    pub open spec fn reach_n(self, n: nat, t: GcThing) -> bool
        decreases n,
    {
        if n == 0 {
            self.is_root(t)
        } else {
            self.reach_n((n - 1) as nat, t) || exists|u: GcThing|
                self.reach_n((n - 1) as nat, u) && #[trigger] self.succs(u).contains(t)
        }
    }

    /// Whether `t` is transitively reachable from the roots. This is what
    /// the collector preserves: everything reachable survives a
    /// collection, everything else is reclaimed.
    pub open spec fn reachable(&self, t: GcThing) -> bool {
        exists|n: nat| self.reach_n(n, t)
    }

    /// Whether every mark bit of every arena is clear, as it is outside a
    /// collection.
    pub open spec fn marks_clear(&self) -> bool {
        &&& self.cons_cells.all_unmarked()
        &&& self.strings.all_unmarked()
        &&& self.activations.all_unmarked()
        &&& self.procedures.all_unmarked()
    }

    /// Whether every live object only references live objects. This is
    /// the heap-closure invariant every mutation preserves; it is what
    /// makes precise tracing sound.
    pub open spec fn closed(&self) -> bool {
        forall|t: GcThing, k: int|
            self.live(t) && 0 <= k < self.succs(t).len() ==> self.live(
                #[trigger] self.succs(t)[k],
            )
    }

    /// The root table holds positive counts for distinct live things.
    pub open spec fn roots_wf(&self) -> bool {
        &&& forall|k: int|
            0 <= k < self.roots@.len() ==> (#[trigger] self.roots@[k]).1 >= 1 && self.live(
                self.roots@[k].0,
            )
        &&& forall|k1: int, k2: int|
            0 <= k1 < k2 < self.roots@.len() ==> (#[trigger] self.roots@[k1]).0 != (
            #[trigger] self.roots@[k2]).0
    }

    /// The symbol table holds distinct names bound to live strings, and
    /// each canonical string still holds the text it was interned under.
    pub open spec fn symtab_wf(&self) -> bool {
        &&& forall|k: int|
            0 <= k < self.symbol_table@.len() ==> self.strings.live_at(
                (#[trigger] self.symbol_table@[k]).1.0,
            ) && self.string_at(self.symbol_table@[k].1)@ == self.symbol_table@[k].0@
        &&& forall|k1: int, k2: int|
            0 <= k1 < k2 < self.symbol_table@.len() ==> (#[trigger] self.symbol_table@[k1]).0@
                != (#[trigger] self.symbol_table@[k2]).0@
    }

    /// The location registry holds distinct keys, each a live pair.
    pub open spec fn locations_wf(&self) -> bool {
        &&& forall|k: int|
            0 <= k < self.locations@.len() ==> self.cons_cells.live_at(
                (#[trigger] self.locations@[k]).0.0,
            )
        &&& forall|k1: int, k2: int|
            0 <= k1 < k2 < self.locations@.len() ==> (#[trigger] self.locations@[k1]).0 != (
            #[trigger] self.locations@[k2]).0
    }

    /// Heap well-formedness: the arena sets are well formed, no mark bit
    /// is set outside a collection, live objects only reference live
    /// objects, every root is live, and the environment is well formed.
    pub open spec fn wf(&self) -> bool {
        &&& self.cons_cells.wf()
        &&& self.strings.wf()
        &&& self.activations.wf()
        &&& self.procedures.wf()
        &&& self.marks_clear()
        &&& self.closed()
        &&& self.roots_wf()
        &&& self.symtab_wf()
        &&& self.locations_wf()
        &&& self.activations.live_at(self.global_activation.0)
        &&& self.environment.wf()
    }

    /// The collection threshold the pressure counter is reset to: half of
    /// the currently reserved capacity, summed over the four arena sets.
    pub open spec fn gc_threshold(self) -> int {
        (self.cons_cells.capacity as int / 2) * self.cons_cells.arenas@.len() + (
        self.strings.capacity as int / 2) * self.strings.arenas@.len() + (
        self.activations.capacity as int / 2) * self.activations.arenas@.len() + (
        self.procedures.capacity as int / 2) * self.procedures.arenas@.len()
    }

    /// The machine limits an allocation needs: the pressure threshold and
    /// counter fit, and each arena set can still grow an arena.
    pub open spec fn headroom(self) -> bool {
        &&& self.gc_threshold() <= usize::MAX
        &&& self.allocations < usize::MAX
        &&& self.allocations_threshold < usize::MAX
        &&& self.cons_cells.next_id < u64::MAX
        &&& self.strings.next_id < u64::MAX
        &&& self.activations.next_id < u64::MAX
        &&& self.procedures.next_id < u64::MAX
    }

    /// The most the collection threshold can grow by one allocation:
    /// half of one fresh arena's capacity, summed over the four kinds.
    pub open spec fn halfcap_sum(self) -> int {
        self.cons_cells.capacity as int / 2 + self.strings.capacity as int / 2
            + self.activations.capacity as int / 2 + self.procedures.capacity as int / 2
    }

    /// Enough machine headroom for `n` consecutive allocations.
    pub open spec fn alloc_margin(self, n: nat) -> bool {
        &&& self.gc_threshold() + n * self.halfcap_sum() <= usize::MAX - 1
        &&& self.allocations < usize::MAX
        &&& self.allocations_threshold < usize::MAX
        &&& self.cons_cells.next_id + n <= u64::MAX
        &&& self.strings.next_id + n <= u64::MAX
        &&& self.activations.next_id + n <= u64::MAX
        &&& self.procedures.next_id + n <= u64::MAX
    }

    /// A margin for at least one allocation gives the headroom one
    /// allocation needs.
    pub proof fn lemma_margin_headroom(self, n: nat)
        requires
            self.alloc_margin(n),
            n >= 1,
        ensures
            self.headroom(),
    {
        lemma_mul_nonneg(n as int, self.halfcap_sum());
    }

    /// One allocation consumes one unit of margin: if `n` allocations
    /// fit before, `n - 1` fit after.
    pub proof fn lemma_margin_step(pre: Heap, post: Heap, t: GcThing, n: nat)
        requires
            alloc_rel(pre, post, t),
            n >= 1,
            pre.alloc_margin(n),
        ensures
            post.alloc_margin((n - 1) as nat),
    {
        let h = pre.halfcap_sum();
        assert(post.halfcap_sum() == h);
        lemma_mul_nonneg(n as int, h);
        lemma_mul_nonneg((n - 1) as int, h);
        assert(post.gc_threshold() <= pre.gc_threshold() + h) by {
            vstd::arithmetic::mul::lemma_mul_inequality(
                post.cons_cells.arenas@.len() as int,
                pre.cons_cells.arenas@.len() as int + 1,
                pre.cons_cells.capacity as int / 2,
            );
            vstd::arithmetic::mul::lemma_mul_is_commutative(
                post.cons_cells.arenas@.len() as int,
                pre.cons_cells.capacity as int / 2,
            );
            vstd::arithmetic::mul::lemma_mul_is_commutative(
                pre.cons_cells.arenas@.len() as int + 1,
                pre.cons_cells.capacity as int / 2,
            );
            vstd::arithmetic::mul::lemma_mul_is_distributive_add(
                pre.cons_cells.capacity as int / 2,
                pre.cons_cells.arenas@.len() as int,
                1,
            );
            vstd::arithmetic::mul::lemma_mul_inequality(
                post.strings.arenas@.len() as int,
                pre.strings.arenas@.len() as int + 1,
                pre.strings.capacity as int / 2,
            );
            vstd::arithmetic::mul::lemma_mul_is_commutative(
                post.strings.arenas@.len() as int,
                pre.strings.capacity as int / 2,
            );
            vstd::arithmetic::mul::lemma_mul_is_commutative(
                pre.strings.arenas@.len() as int + 1,
                pre.strings.capacity as int / 2,
            );
            vstd::arithmetic::mul::lemma_mul_is_distributive_add(
                pre.strings.capacity as int / 2,
                pre.strings.arenas@.len() as int,
                1,
            );
            vstd::arithmetic::mul::lemma_mul_inequality(
                post.activations.arenas@.len() as int,
                pre.activations.arenas@.len() as int + 1,
                pre.activations.capacity as int / 2,
            );
            vstd::arithmetic::mul::lemma_mul_is_commutative(
                post.activations.arenas@.len() as int,
                pre.activations.capacity as int / 2,
            );
            vstd::arithmetic::mul::lemma_mul_is_commutative(
                pre.activations.arenas@.len() as int + 1,
                pre.activations.capacity as int / 2,
            );
            vstd::arithmetic::mul::lemma_mul_is_distributive_add(
                pre.activations.capacity as int / 2,
                pre.activations.arenas@.len() as int,
                1,
            );
            vstd::arithmetic::mul::lemma_mul_inequality(
                post.procedures.arenas@.len() as int,
                pre.procedures.arenas@.len() as int + 1,
                pre.procedures.capacity as int / 2,
            );
            vstd::arithmetic::mul::lemma_mul_is_commutative(
                post.procedures.arenas@.len() as int,
                pre.procedures.capacity as int / 2,
            );
            vstd::arithmetic::mul::lemma_mul_is_commutative(
                pre.procedures.arenas@.len() as int + 1,
                pre.procedures.capacity as int / 2,
            );
            vstd::arithmetic::mul::lemma_mul_is_distributive_add(
                pre.procedures.capacity as int / 2,
                pre.procedures.arenas@.len() as int,
                1,
            );
        }
        assert((n - 1) as int * h + h == n as int * h) by {
            vstd::arithmetic::mul::lemma_mul_is_distributive_add_other_way(h, (n - 1) as int, 1);
        }
    }
}

/// ## `Heap` constructors
impl Heap {
    /// Create a new `Heap` with the default arena capacities.
    pub fn new() -> (r: Heap)
        ensures
            r.wf(),
            fresh_heap(r),
    {
        Heap::with_arenas(
            ArenaSet::new(DEFAULT_CONS_CAPACITY),
            ArenaSet::new(DEFAULT_STRINGS_CAPACITY),
            ArenaSet::new(DEFAULT_ACTIVATIONS_CAPACITY),
            ArenaSet::new(DEFAULT_PROCEDURES_CAPACITY),
        )
    }

    /// Create a new `Heap` using the given arena sets for allocating cons
    /// cells, strings, activations and procedures within. The global
    /// activation is allocated here and lives until teardown.
    pub fn with_arenas(
        cons_cells: ArenaSet<Cons>,
        strings: ArenaSet<String>,
        acts: ArenaSet<Activation>,
        procs: ArenaSet<Procedure>,
    ) -> (r: Heap)
        requires
            cons_cells.wf(),
            strings.wf(),
            acts.wf(),
            procs.wf(),
            cons_cells.arenas@.len() == 0,
            strings.arenas@.len() == 0,
            acts.arenas@.len() == 0,
            procs.arenas@.len() == 0,
            cons_cells.next_id == 0,
            strings.next_id == 0,
            acts.next_id == 0,
            procs.next_id == 0,
        ensures
            r.wf(),
            fresh_heap(r),
            r.cons_cells.capacity == cons_cells.capacity,
            r.strings.capacity == strings.capacity,
            r.activations.capacity == acts.capacity,
            r.procedures.capacity == procs.capacity,
            r.allocations_threshold == acts.capacity / 2,
    {
        let mut acts = acts;
        let ga = acts.allocate();
        let global_activation = ActivationPtr(ga);
        let environment = Environment::new();
        let mut h = Heap {
            environment,
            cons_cells,
            strings,
            activations: acts,
            procedures: procs,
            global_activation,
            roots: Vec::new(),
            symbol_table: Vec::new(),
            allocations: 0,
            allocations_threshold: 0,
            locations: Vec::new(),
        };
        proof {
            assert(h.activations.arenas@.len() == 1);
            assert(h.activations.next_id == 1);
            assert(h.gc_threshold() == (acts.capacity as int / 2)) by {
                assert(h.cons_cells.arenas@.len() == 0);
                assert(h.strings.arenas@.len() == 0);
                assert(h.procedures.arenas@.len() == 0);
            }
            assert forall|t: GcThing| h.live(t) implies t == GcThing::Activation(
                h.global_activation,
            ) by {
                if h.live(t) {
                    match t {
                        GcThing::Activation(p) => {
                            assert(h.activations.live_at(p.0));
                        },
                        _ => {},
                    }
                }
            }
            assert(h.closed()) by {
                assert forall|t: GcThing, k: int|
                    h.live(t) && 0 <= k < h.succs(t).len() implies h.live(
                    #[trigger] h.succs(t)[k],
                ) by {
                    assert(t == GcThing::Activation(h.global_activation));
                    assert(h.act_at(h.global_activation).spec_refs() == Seq::<GcThing>::empty());
                }
            }
        }
        proof {
            assert(h.environment.frames() =~= seq![Seq::<Seq<char>>::empty()]);
        }
        h.reset_gc_pressure();
        proof {
            assert(h.allocations_threshold == h.activations.capacity as int / 2);
            assert(fresh_heap(h));
        }
        h
    }

    /// Resets the GC pressure, so that it must build all the way back up
    /// to the threshold again before a GC is triggered. The threshold is
    /// computed from the arena counts at the time of the reset.
    fn reset_gc_pressure(&mut self)
        requires
            old(self).gc_threshold() <= usize::MAX,
        ensures
            *final(self) == (Heap {
                allocations: 0,
                allocations_threshold: old(self).gc_threshold() as usize,
                ..*old(self)
            }),
    {
        proof {
            lemma_half_products_fit(*old(self));
        }
        self.allocations = 0;
        self.allocations_threshold = (self.cons_cells.capacity / 2) * self.cons_cells.arenas.len()
            + (self.strings.capacity / 2) * self.strings.arenas.len() + (self.activations.capacity
            / 2) * self.activations.arenas.len() + (self.procedures.capacity / 2)
            * self.procedures.arenas.len();
    }
}

/// A heap that was just constructed: nothing but the fresh global
/// activation is allocated, and every table is empty.
pub open spec fn fresh_heap(h: Heap) -> bool {
    &&& h.environment.frames() == seq![Seq::<Seq<char>>::empty()]
    &&& h.roots@.len() == 0
    &&& h.symbol_table@.len() == 0
    &&& h.locations@.len() == 0
    &&& h.allocations == 0
    &&& h.allocations_threshold == h.activations.capacity as int / 2
    &&& h.act_at(h.global_activation).is_fresh()
    &&& forall|t: GcThing| h.live(t) <==> t == GcThing::Activation(h.global_activation)
    &&& h.cons_cells.arenas@.len() == 0
    &&& h.strings.arenas@.len() == 0
    &&& h.activations.arenas@.len() == 1
    &&& h.procedures.arenas@.len() == 0
    &&& h.cons_cells.next_id == 0
    &&& h.strings.next_id == 0
    &&& h.activations.next_id == 1
    &&& h.procedures.next_id == 0
}

/// A freshly constructed heap has all the machine headroom an
/// allocation or an interning needs: the threshold is half of one
/// activation arena, nothing else is reserved yet, and no root count
/// exists at all.
pub proof fn lemma_fresh_heap_ready(h: Heap)
    requires
        fresh_heap(h),
    ensures
        h.headroom(),
        root_headroom(h),
{
    assert(h.gc_threshold() == h.activations.capacity as int / 2);
    assert forall|t: GcThing| #[trigger] h.root_count(t) < usize::MAX - 1 by {
        assert(root_count_in(h.roots@, t) == 0);
    }
}

/// Each of the four half-capacity products is bounded by the whole
/// threshold sum, so computing them in `usize` cannot overflow when the
/// sum fits.
proof fn lemma_half_products_fit(h: Heap)
    requires
        h.gc_threshold() <= usize::MAX,
    ensures
        (h.cons_cells.capacity as int / 2) * h.cons_cells.arenas@.len() <= usize::MAX,
        (h.strings.capacity as int / 2) * h.strings.arenas@.len() <= usize::MAX,
        (h.activations.capacity as int / 2) * h.activations.arenas@.len() <= usize::MAX,
        (h.procedures.capacity as int / 2) * h.procedures.arenas@.len() <= usize::MAX,
{
    lemma_mul_nonneg(h.cons_cells.capacity as int / 2, h.cons_cells.arenas@.len() as int);
    lemma_mul_nonneg(h.strings.capacity as int / 2, h.strings.arenas@.len() as int);
    lemma_mul_nonneg(h.activations.capacity as int / 2, h.activations.arenas@.len() as int);
    lemma_mul_nonneg(h.procedures.capacity as int / 2, h.procedures.arenas@.len() as int);
}

/// The product of two non-negative integers is non-negative.
proof fn lemma_mul_nonneg(a: int, b: int)
    requires
        0 <= a,
        0 <= b,
    ensures
        0 <= a * b,
{
    vstd::arithmetic::mul::lemma_mul_nonnegative(a, b);
}

/// ## `Heap` root table methods
impl Heap {
    /// Explicitly add the given GC thing as a root.
    pub fn add_root(&mut self, root: GcThing)
        requires
            old(self).wf(),
            old(self).live(root),
            old(self).root_count(root) < usize::MAX,
        ensures
            final(self).wf(),
            heap_with_extra_root(*old(self), *final(self), Some(root)),
    {
        let n = self.roots.len();
        let mut i: usize = 0;
        while i < n
            invariant
                i <= n,
                self == old(self),
                n == self.roots@.len(),
                old(self).wf(),
                old(self).live(root),
                old(self).root_count(root) < usize::MAX,
                forall|k: int| 0 <= k < i ==> (#[trigger] self.roots@[k]).0 != root,
            decreases n - i,
        {
            let (r, count) = self.roots[i];
            if thing_eq(r, root) {
                proof {
                    lemma_root_count_at(self.roots@, i as int);
                    assert(count == old(self).root_count(root));
                }
                self.roots.set(i, (r, count + 1));
                proof {
                    lemma_graph_eq(*old(self), *self);
                    assert forall|k: int|
                        0 <= k < self.roots@.len() implies (#[trigger] self.roots@[k]).1 >= 1
                        && self.live(self.roots@[k].0) by {
                        if k != i {
                            assert(self.roots@[k] == old(self).roots@[k]);
                        }
                    }
                    assert forall|k1: int, k2: int|
                        0 <= k1 < k2 < self.roots@.len() implies (#[trigger] self.roots@[k1]).0
                        != (#[trigger] self.roots@[k2]).0 by {
                        assert(self.roots@[k1].0 == old(self).roots@[k1].0);
                        assert(self.roots@[k2].0 == old(self).roots@[k2].0);
                    }
                }
                proof {
                    lemma_root_count_update(
                        old(self).roots@,
                        i as int,
                        (r, (count + 1) as usize),
                        root,
                    );
                    assert forall|u: GcThing| final(self).root_count(u) == old(self).root_count(
                        u,
                    ) + (if u == root {
                        1nat
                    } else {
                        0nat
                    }) by {
                        lemma_root_count_update(
                            old(self).roots@,
                            i as int,
                            (r, (count + 1) as usize),
                            u,
                        );
                    }
                }
                return ;
            }
            i += 1;
        }
        self.roots.push((root, 1));
        proof {
            lemma_graph_eq(*old(self), *self);
            assert forall|u: GcThing| final(self).root_count(u) == old(self).root_count(u) + (if u
                == root {
                1nat
            } else {
                0nat
            }) by {
                lemma_root_count_push(old(self).roots@, (root, 1usize), u);
            }
            assert forall|k: int|
                0 <= k < self.roots@.len() implies (#[trigger] self.roots@[k]).1 >= 1 && self.live(
                self.roots@[k].0,
            ) by {
                if k < old(self).roots@.len() {
                    assert(self.roots@[k] == old(self).roots@[k]);
                } else {
                    assert(self.roots@[k] == (root, 1usize));
                }
            }
            assert forall|k1: int, k2: int|
                0 <= k1 < k2 < self.roots@.len() implies (#[trigger] self.roots@[k1]).0 != (
            #[trigger] self.roots@[k2]).0 by {
                assert(self.roots@[k1] == old(self).roots@[k1]);
                if k2 < old(self).roots@.len() {
                    assert(self.roots@[k2] == old(self).roots@[k2]);
                } else {
                    assert(self.roots@[k2] == (root, 1usize));
                    assert(old(self).roots@[k1].0 != root);
                }
            }
        }
    }

    /// Unroot a GC thing that was rooted with `add_root` through the given
    /// handle. The entry's count is decremented in place and removed when
    /// it reaches zero; dropping a referent that is not registered leaves
    /// the table unchanged.
    pub fn drop_root<T: Copy + ToGcThing>(&mut self, root: &Rooted<T>)
        requires
            old(self).wf(),
        ensures
            final(self).wf(),
            heap_with_dropped_root(*old(self), *final(self), root.ptr.spec_gc_thing()),
    {
        let t = match root.to_gc_thing() {
            Some(t) => t,
            None => {
                return ;
            },
        };
        let n = self.roots.len();
        let mut i: usize = 0;
        while i < n
            invariant
                i <= n,
                self == old(self),
                n == self.roots@.len(),
                old(self).wf(),
                Some(t) == root.ptr.spec_gc_thing(),
                forall|k: int| 0 <= k < i ==> (#[trigger] self.roots@[k]).0 != t,
            decreases n - i,
        {
            let (r, count) = self.roots[i];
            if thing_eq(r, t) {
                proof {
                    lemma_root_count_at(self.roots@, i as int);
                    assert((#[trigger] self.roots@[i as int]).1 >= 1);
                }
                if count == 1 {
                    self.roots.remove(i);
                    proof {
                        lemma_graph_eq(*old(self), *self);
                        assert forall|u: GcThing| final(self).root_count(u) == old(
                            self,
                        ).root_count(u) - (if u == t && old(self).root_count(u) > 0 {
                            1nat
                        } else {
                            0nat
                        }) by {
                            lemma_root_count_remove(old(self).roots@, i as int, u);
                            if u != t {
                            } else {
                                lemma_root_count_at(old(self).roots@, i as int);
                            }
                        }
                        assert forall|k1: int, k2: int|
                            0 <= k1 < k2 < self.roots@.len() implies (
                        #[trigger] self.roots@[k1]).0 != (#[trigger] self.roots@[k2]).0 by {
                            if k1 < i {
                                if k2 < i {
                                    assert(old(self).roots@[k1] == self.roots@[k1]);
                                } else {
                                    assert(self.roots@[k2] == old(self).roots@[k2 + 1]);
                                }
                            } else {
                                assert(self.roots@[k1] == old(self).roots@[k1 + 1]);
                                assert(self.roots@[k2] == old(self).roots@[k2 + 1]);
                            }
                        }
                        assert forall|k: int|
                            0 <= k < self.roots@.len() implies (#[trigger] self.roots@[k]).1 >= 1
                            && self.live(self.roots@[k].0) by {
                            if k < i {
                                assert(self.roots@[k] == old(self).roots@[k]);
                            } else {
                                assert(self.roots@[k] == old(self).roots@[k + 1]);
                            }
                        }
                    }
                } else {
                    self.roots.set(i, (r, count - 1));
                    proof {
                        lemma_graph_eq(*old(self), *self);
                        assert forall|u: GcThing| final(self).root_count(u) == old(
                            self,
                        ).root_count(u) - (if u == t && old(self).root_count(u) > 0 {
                            1nat
                        } else {
                            0nat
                        }) by {
                            lemma_root_count_update(
                                old(self).roots@,
                                i as int,
                                (r, (count - 1) as usize),
                                u,
                            );
                            if u == t {
                                lemma_root_count_at(old(self).roots@, i as int);
                            }
                        }
                        assert forall|k: int|
                            0 <= k < self.roots@.len() implies (#[trigger] self.roots@[k]).1 >= 1
                            && self.live(self.roots@[k].0) by {
                            if k != i {
                                assert(self.roots@[k] == old(self).roots@[k]);
                            }
                        }
                        assert forall|k1: int, k2: int|
                            0 <= k1 < k2 < self.roots@.len() implies (
                        #[trigger] self.roots@[k1]).0 != (#[trigger] self.roots@[k2]).0 by {
                            assert(self.roots@[k1].0 == old(self).roots@[k1].0);
                            assert(self.roots@[k2].0 == old(self).roots@[k2].0);
                        }
                    }
                }
                return ;
            }
            i += 1;
        }
        proof {
            lemma_root_count_absent(self.roots@, t);
        }
    }

    /// Get a rooted handle to the global activation.
    pub fn global_activation(&mut self) -> (r: RootedActivationPtr)
        requires
            old(self).wf(),
            old(self).root_count(GcThing::Activation(old(self).global_activation)) < usize::MAX,
        ensures
            final(self).wf(),
            r.ptr == old(self).global_activation,
            heap_with_extra_root(
                *old(self),
                *final(self),
                Some(GcThing::Activation(old(self).global_activation)),
            ),
    {
        let act = self.global_activation;
        Rooted::new(self, act)
    }
}

/// Compare two GC things for identity.
fn thing_eq(a: GcThing, b: GcThing) -> (r: bool)
    ensures
        r == (a == b),
{
    match (a, b) {
        (GcThing::Cons(p), GcThing::Cons(q)) => p.0.arena == q.0.arena && p.0.index == q.0.index,
        (GcThing::String(p), GcThing::String(q)) => p.0.arena == q.0.arena && p.0.index
            == q.0.index,
        (GcThing::Activation(p), GcThing::Activation(q)) => p.0.arena == q.0.arena && p.0.index
            == q.0.index,
        (GcThing::Procedure(p), GcThing::Procedure(q)) => p.0.arena == q.0.arena && p.0.index
            == q.0.index,
        _ => false,
    }
}

/// Pushing onto a sequence keeps every element and adds the pushed one.
proof fn lemma_push_contains<A>(s0: Seq<A>, s1: Seq<A>, e: A)
    requires
        s1 == s0.push(e),
    ensures
        forall|x: A| #[trigger] s0.contains(x) ==> s1.contains(x),
        s1.contains(e),
        forall|x: A| #[trigger] s1.contains(x) ==> s0.contains(x) || x == e,
{
    assert forall|x: A| #[trigger] s0.contains(x) implies s1.contains(x) by {
        let m = choose|m: int| 0 <= m < s0.len() && s0[m] == x;
        assert(s1[m] == x);
    }
    assert(s1[s0.len() as int] == e);
    assert forall|x: A| #[trigger] s1.contains(x) implies s0.contains(x) || x == e by {
        let m = choose|m: int| 0 <= m < s1.len() && s1[m] == x;
        if m < s0.len() {
            assert(s0[m] == x);
        }
    }
}

/// Removing the last element removes at most that element from the
/// membership.
proof fn lemma_drop_last_contains<A>(s: Seq<A>)
    requires
        s.len() > 0,
    ensures
        forall|x: A| s.contains(x) ==> s.drop_last().contains(x) || x == s.last(),
        forall|x: A| s.drop_last().contains(x) ==> s.contains(x),
{
    assert forall|x: A| s.contains(x) implies s.drop_last().contains(x) || x == s.last() by {
        let k = choose|k: int| 0 <= k < s.len() && s[k] == x;
        if k < s.len() - 1 {
            assert(s.drop_last()[k] == x);
        }
    }
    assert forall|x: A| s.drop_last().contains(x) implies s.contains(x) by {
        let k = choose|k: int| 0 <= k < s.drop_last().len() && s.drop_last()[k] == x;
        assert(s[k] == x);
    }
}

/// ## `Heap` methods for garbage collection
impl Heap {
    /// The total number of marked slots over all four arena sets.
    pub open spec fn marked_grand(self) -> nat {
        self.cons_cells.marked_total() + self.strings.marked_total()
            + self.activations.marked_total() + self.procedures.marked_total()
    }

    /// The total number of slots over all four arena sets.
    pub open spec fn cap_grand(self) -> nat {
        self.cons_cells.cap_total() + self.strings.cap_total() + self.activations.cap_total()
            + self.procedures.cap_total()
    }

    /// During a GC, determine whether `t` has been marked as reachable.
    fn is_marked(&self, t: GcThing) -> (r: bool)
        requires
            self.cons_cells.wf(),
            self.strings.wf(),
            self.activations.wf(),
            self.procedures.wf(),
            self.live(t),
        ensures
            r == self.marked(t),
    {
        match t {
            GcThing::Cons(p) => self.cons_cells.is_marked_at(p.0),
            GcThing::String(p) => self.strings.is_marked_at(p.0),
            GcThing::Activation(p) => self.activations.is_marked_at(p.0),
            GcThing::Procedure(p) => self.procedures.is_marked_at(p.0),
        }
    }

    /// During a GC, mark `t` as reachable.
    fn mark(&mut self, t: GcThing)
        requires
            old(self).cons_cells.wf(),
            old(self).strings.wf(),
            old(self).activations.wf(),
            old(self).procedures.wf(),
            old(self).live(t),
        ensures
            final(self).cons_cells.wf(),
            final(self).strings.wf(),
            final(self).activations.wf(),
            final(self).procedures.wf(),
            final(self).environment == old(self).environment,
            final(self).roots == old(self).roots,
            final(self).symbol_table == old(self).symbol_table,
            final(self).locations == old(self).locations,
            final(self).global_activation == old(self).global_activation,
            final(self).allocations == old(self).allocations,
            final(self).allocations_threshold == old(self).allocations_threshold,
            final(self).cons_cells.capacity == old(self).cons_cells.capacity,
            final(self).strings.capacity == old(self).strings.capacity,
            final(self).activations.capacity == old(self).activations.capacity,
            final(self).procedures.capacity == old(self).procedures.capacity,
            final(self).cons_cells.next_id == old(self).cons_cells.next_id,
            final(self).strings.next_id == old(self).strings.next_id,
            final(self).activations.next_id == old(self).activations.next_id,
            final(self).procedures.next_id == old(self).procedures.next_id,
            final(self).cons_cells.arenas@.len() == old(self).cons_cells.arenas@.len(),
            final(self).strings.arenas@.len() == old(self).strings.arenas@.len(),
            final(self).activations.arenas@.len() == old(self).activations.arenas@.len(),
            final(self).procedures.arenas@.len() == old(self).procedures.arenas@.len(),
            forall|u: GcThing| final(self).live(u) == old(self).live(u),
            forall|u: GcThing| final(self).marked(u) == (old(self).marked(u) || u == t),
            forall|u: GcThing| old(self).live(u) ==> final(self).succs(u) == old(self).succs(u),
            forall|p: ConsPtr|
                old(self).live(GcThing::Cons(p)) ==> final(self).cons_at(p) == old(self).cons_at(
                    p,
                ),
            forall|p: StringPtr|
                old(self).live(GcThing::String(p)) ==> final(self).string_at(p) == old(
                    self,
                ).string_at(p),
            forall|p: ActivationPtr|
                old(self).live(GcThing::Activation(p)) ==> final(self).act_at(p) == old(
                    self,
                ).act_at(p),
            forall|p: ProcedurePtr|
                old(self).live(GcThing::Procedure(p)) ==> final(self).proc_at(p) == old(
                    self,
                ).proc_at(p),
            final(self).marked_grand() == old(self).marked_grand() + (if old(self).marked(t) {
                0nat
            } else {
                1nat
            }),
            final(self).cap_grand() == old(self).cap_grand(),
    {
        match t {
            GcThing::Cons(p) => self.cons_cells.mark_at(p.0),
            GcThing::String(p) => self.strings.mark_at(p.0),
            GcThing::Activation(p) => self.activations.mark_at(p.0),
            GcThing::Procedure(p) => self.procedures.mark_at(p.0),
        }
    }

    /// During a GC, enumerate the outgoing references of the object `t`
    /// points at.
    fn trace_thing(&self, t: GcThing) -> (r: Vec<GcThing>)
        requires
            self.cons_cells.wf(),
            self.strings.wf(),
            self.activations.wf(),
            self.procedures.wf(),
            self.live(t),
        ensures
            r@ == self.succs(t),
    {
        match t {
            GcThing::Cons(p) => self.cons_cells.get(p.0).trace(),
            GcThing::Activation(p) => self.activations.get(p.0).trace(),
            GcThing::Procedure(p) => self.procedures.get(p.0).trace(),
            // Strings don't hold any references to other GC things.
            GcThing::String(_) => Vec::new(),
        }
    }

    /// Gather every GC root: the interned symbol strings, the global
    /// activation, the explicitly rooted things, and the located pairs.
    fn get_roots(&self) -> (r: Vec<GcThing>)
        requires
            self.wf(),
        ensures
            forall|t: GcThing| r@.contains(t) <==> self.is_root(t),
    {
        let mut roots: Vec<GcThing> = Vec::new();
        let n1 = self.symbol_table.len();
        let mut i: usize = 0;
        while i < n1
            invariant
                i <= n1,
                self.wf(),
                n1 == self.symbol_table@.len(),
                forall|j: int| 0 <= j < roots@.len() ==> self.is_root(#[trigger] roots@[j]),
                forall|k: int|
                    0 <= k < i ==> roots@.contains(
                        GcThing::String((#[trigger] self.symbol_table@[k]).1),
                    ),
            decreases n1 - i,
        {
            let ghost r0 = roots@;
            let (_, p) = self.symbol_table[i];
            roots.push(GcThing::String(p));
            proof {
                lemma_push_contains(r0, roots@, GcThing::String(p));
                assert(self.symbol_rooted(GcThing::String(p)));
                assert forall|j: int| 0 <= j < roots@.len() implies self.is_root(
                    #[trigger] roots@[j],
                ) by {
                    if j < r0.len() {
                        assert(roots@[j] == r0[j]);
                    }
                }
            }
            i += 1;
        }
        let ghost r1 = roots@;
        roots.push(GcThing::Activation(self.global_activation));
        proof {
            lemma_push_contains(r1, roots@, GcThing::Activation(self.global_activation));
            assert forall|j: int| 0 <= j < roots@.len() implies self.is_root(
                #[trigger] roots@[j],
            ) by {
                if j < r1.len() {
                    assert(roots@[j] == r1[j]);
                }
            }
        }
        let n2 = self.roots.len();
        let mut i: usize = 0;
        while i < n2
            invariant
                i <= n2,
                self.wf(),
                n2 == self.roots@.len(),
                forall|j: int| 0 <= j < roots@.len() ==> self.is_root(#[trigger] roots@[j]),
                forall|k: int|
                    0 <= k < self.symbol_table@.len() ==> roots@.contains(
                        GcThing::String((#[trigger] self.symbol_table@[k]).1),
                    ),
                roots@.contains(GcThing::Activation(self.global_activation)),
                forall|k: int|
                    0 <= k < i ==> roots@.contains((#[trigger] self.roots@[k]).0),
            decreases n2 - i,
        {
            let ghost r0 = roots@;
            let (t, _) = self.roots[i];
            roots.push(t);
            proof {
                lemma_push_contains(r0, roots@, t);
                lemma_root_count_at(self.roots@, i as int);
                assert(self.rooted(t));
                assert forall|j: int| 0 <= j < roots@.len() implies self.is_root(
                    #[trigger] roots@[j],
                ) by {
                    if j < r0.len() {
                        assert(roots@[j] == r0[j]);
                    }
                }
            }
            i += 1;
        }
        let n3 = self.locations.len();
        let mut i: usize = 0;
        while i < n3
            invariant
                i <= n3,
                self.wf(),
                n3 == self.locations@.len(),
                forall|j: int| 0 <= j < roots@.len() ==> self.is_root(#[trigger] roots@[j]),
                forall|k: int|
                    0 <= k < self.symbol_table@.len() ==> roots@.contains(
                        GcThing::String((#[trigger] self.symbol_table@[k]).1),
                    ),
                roots@.contains(GcThing::Activation(self.global_activation)),
                forall|k: int|
                    0 <= k < self.roots@.len() ==> roots@.contains((#[trigger] self.roots@[k]).0),
                forall|k: int|
                    0 <= k < i ==> roots@.contains(
                        GcThing::Cons((#[trigger] self.locations@[k]).0),
                    ),
            decreases n3 - i,
        {
            let ghost r0 = roots@;
            let (c, _) = &self.locations[i];
            let c = *c;
            roots.push(GcThing::Cons(c));
            proof {
                lemma_push_contains(r0, roots@, GcThing::Cons(c));
                assert(self.location_rooted(GcThing::Cons(c)));
                assert forall|j: int| 0 <= j < roots@.len() implies self.is_root(
                    #[trigger] roots@[j],
                ) by {
                    if j < r0.len() {
                        assert(roots@[j] == r0[j]);
                    }
                }
            }
            i += 1;
        }
        proof {
            assert forall|t: GcThing| roots@.contains(t) implies self.is_root(t) by {}
            assert forall|t: GcThing| self.is_root(t) implies roots@.contains(t) by {
                if self.symbol_rooted(t) {
                    let k = choose|k: int|
                        0 <= k < self.symbol_table@.len() && t == GcThing::String(
                            (#[trigger] self.symbol_table@[k]).1,
                        );
                    assert(roots@.contains(GcThing::String(self.symbol_table@[k].1)));
                } else if t == GcThing::Activation(self.global_activation) {
                } else if self.rooted(t) {
                    if forall|k: int| 0 <= k < self.roots@.len() ==> (#[trigger] self.roots@[k]).0
                        != t {
                        lemma_root_count_absent(self.roots@, t);
                    }
                    let k = choose|k: int|
                        0 <= k < self.roots@.len() && (#[trigger] self.roots@[k]).0 == t;
                    assert(roots@.contains(self.roots@[k].0));
                } else {
                    let k = choose|k: int|
                        0 <= k < self.locations@.len() && t == GcThing::Cons(
                            (#[trigger] self.locations@[k]).0,
                        );
                    assert(roots@.contains(GcThing::Cons(self.locations@[k].0)));
                }
            }
        }
        roots
    }

    /// One reference step extends reachability.
    pub proof fn lemma_reach_step(self, t: GcThing, s: GcThing)
        requires
            self.reachable(t),
            self.succs(t).contains(s),
        ensures
            self.reachable(s),
    {
        let n = choose|n: nat| self.reach_n(n, t);
        assert(self.reach_n(n + 1, s));
    }

    /// Roots are reachable.
    pub proof fn lemma_root_reachable(self, t: GcThing)
        requires
            self.is_root(t),
        ensures
            self.reachable(t),
    {
        assert(self.reach_n(0, t));
    }

    /// In a well-formed heap every reachable thing is live: the roots are
    /// live and live objects only reference live objects.
    proof fn lemma_reach_n_live(self, n: nat)
        requires
            self.wf(),
        ensures
            forall|t: GcThing| self.reach_n(n, t) ==> self.live(t),
        decreases n,
    {
        if n == 0 {
            assert forall|t: GcThing| self.reach_n(0, t) implies self.live(t) by {
                if self.symbol_rooted(t) {
                    let k = choose|k: int|
                        0 <= k < self.symbol_table@.len() && t == GcThing::String(
                            (#[trigger] self.symbol_table@[k]).1,
                        );
                } else if self.rooted(t) {
                    if forall|k: int| 0 <= k < self.roots@.len() ==> (#[trigger] self.roots@[k]).0
                        != t {
                        lemma_root_count_absent(self.roots@, t);
                    }
                    let k = choose|k: int|
                        0 <= k < self.roots@.len() && (#[trigger] self.roots@[k]).0 == t;
                    assert(self.live(self.roots@[k].0));
                } else if self.location_rooted(t) {
                    let k = choose|k: int|
                        0 <= k < self.locations@.len() && t == GcThing::Cons(
                            (#[trigger] self.locations@[k]).0,
                        );
                }
            }
        } else {
            self.lemma_reach_n_live((n - 1) as nat);
            assert forall|t: GcThing| self.reach_n(n, t) implies self.live(t) by {
                if !self.reach_n((n - 1) as nat, t) {
                    let u = choose|u: GcThing|
                        self.reach_n((n - 1) as nat, u) && #[trigger] self.succs(u).contains(t);
                    assert(self.live(u));
                    let k = choose|k: int|
                        0 <= k < self.succs(u).len() && self.succs(u)[k] == t;
                    assert(self.live(self.succs(u)[k]));
                }
            }
        }
    }

    /// In a well-formed heap every reachable thing is live.
    pub proof fn lemma_reachable_live(self)
        requires
            self.wf(),
        ensures
            forall|t: GcThing| self.reachable(t) ==> self.live(t),
    {
        assert forall|t: GcThing| self.reachable(t) implies self.live(t) by {
            let n = choose|n: nat| self.reach_n(n, t);
            self.lemma_reach_n_live(n);
        }
    }
}

/// Everything reachable in `pre` is marked in `hm`, provided `hm` marks
/// every root of `pre` and `hm`'s marks are closed under `pre`'s
/// references.
proof fn lemma_reach_n_marked(pre: Heap, hm: Heap, n: nat)
    requires
        forall|t: GcThing| pre.is_root(t) ==> hm.marked(t),
        forall|t: GcThing, k: int|
            hm.marked(t) && 0 <= k < pre.succs(t).len() ==> hm.marked(#[trigger] pre.succs(t)[k]),
    ensures
        forall|t: GcThing| pre.reach_n(n, t) ==> hm.marked(t),
    decreases n,
{
    if n > 0 {
        lemma_reach_n_marked(pre, hm, (n - 1) as nat);
        assert forall|t: GcThing| pre.reach_n(n, t) implies hm.marked(t) by {
            if !pre.reach_n((n - 1) as nat, t) {
                let u = choose|u: GcThing|
                    pre.reach_n((n - 1) as nat, u) && #[trigger] pre.succs(u).contains(t);
                assert(hm.marked(u));
                let k = choose|k: int| 0 <= k < pre.succs(u).len() && pre.succs(u)[k] == t;
                assert(hm.marked(pre.succs(u)[k]));
            }
        }
    }
}

/// Two heaps with the same roots whose reference graphs agree on
/// everything `pre` can reach have the same reachable set.
proof fn lemma_reach_n_equiv(pre: Heap, post: Heap, n: nat)
    requires
        forall|t: GcThing| post.is_root(t) == pre.is_root(t),
        forall|t: GcThing| pre.reachable(t) ==> post.succs(t) == pre.succs(t),
    ensures
        forall|t: GcThing| post.reach_n(n, t) == pre.reach_n(n, t),
    decreases n,
{
    if n > 0 {
        lemma_reach_n_equiv(pre, post, (n - 1) as nat);
        assert forall|t: GcThing| post.reach_n(n, t) == pre.reach_n(n, t) by {
            if pre.reach_n(n, t) && !pre.reach_n((n - 1) as nat, t) {
                let u = choose|u: GcThing|
                    pre.reach_n((n - 1) as nat, u) && #[trigger] pre.succs(u).contains(t);
                assert(post.reach_n((n - 1) as nat, u));
                assert(pre.reachable(u));
                assert(post.succs(u).contains(t));
            }
            if post.reach_n(n, t) && !post.reach_n((n - 1) as nat, t) {
                let u = choose|u: GcThing|
                    post.reach_n((n - 1) as nat, u) && #[trigger] post.succs(u).contains(t);
                assert(pre.reach_n((n - 1) as nat, u));
                assert(pre.reachable(u));
                assert(pre.succs(u).contains(t));
            }
        }
    }
}

/// Two heaps with the same roots whose reference graphs agree on
/// everything `pre` can reach have the same reachable set.
proof fn lemma_reach_equiv(pre: Heap, post: Heap)
    requires
        forall|t: GcThing| post.is_root(t) == pre.is_root(t),
        forall|t: GcThing| pre.reachable(t) ==> post.succs(t) == pre.succs(t),
    ensures
        forall|t: GcThing| post.reachable(t) == pre.reachable(t),
{
    assert forall|t: GcThing| post.reachable(t) == pre.reachable(t) by {
        if pre.reachable(t) {
            let n = choose|n: nat| pre.reach_n(n, t);
            lemma_reach_n_equiv(pre, post, n);
            assert(post.reach_n(n, t));
        }
        if post.reachable(t) {
            let n = choose|n: nat| post.reach_n(n, t);
            lemma_reach_n_equiv(pre, post, n);
            assert(pre.reach_n(n, t));
        }
    }
}

/// What one garbage collection does: exactly the things that were live
/// and reachable stay live, their contents and the tables are untouched,
/// the pressure counter is reset, and the threshold is recomputed from
/// the arena counts at the start of the collection.
pub open spec fn gc_rel(pre: Heap, post: Heap) -> bool {
    &&& forall|t: GcThing| post.live(t) <==> (pre.live(t) && pre.reachable(t))
    &&& forall|t: GcThing| post.reachable(t) == pre.reachable(t)
    &&& forall|p: ConsPtr|
        pre.live(GcThing::Cons(p)) && pre.reachable(GcThing::Cons(p)) ==> post.cons_at(p)
            == pre.cons_at(p)
    &&& forall|p: StringPtr|
        pre.live(GcThing::String(p)) && pre.reachable(GcThing::String(p)) ==> post.string_at(p)
            == pre.string_at(p)
    &&& forall|p: ActivationPtr|
        pre.live(GcThing::Activation(p)) && pre.reachable(GcThing::Activation(p))
            ==> post.act_at(p) == pre.act_at(p)
    &&& forall|p: ProcedurePtr|
        pre.live(GcThing::Procedure(p)) && pre.reachable(GcThing::Procedure(p))
            ==> post.proc_at(p) == pre.proc_at(p)
    &&& post.environment == pre.environment
    &&& post.roots == pre.roots
    &&& post.symbol_table == pre.symbol_table
    &&& post.locations == pre.locations
    &&& post.global_activation == pre.global_activation
    &&& post.allocations == 0
    &&& post.allocations_threshold == pre.gc_threshold()
    &&& post.cons_cells.capacity == pre.cons_cells.capacity
    &&& post.strings.capacity == pre.strings.capacity
    &&& post.activations.capacity == pre.activations.capacity
    &&& post.procedures.capacity == pre.procedures.capacity
    &&& post.cons_cells.next_id == pre.cons_cells.next_id
    &&& post.strings.next_id == pre.strings.next_id
    &&& post.activations.next_id == pre.activations.next_id
    &&& post.procedures.next_id == pre.procedures.next_id
    &&& post.cons_cells.arenas@.len() <= pre.cons_cells.arenas@.len()
    &&& post.strings.arenas@.len() <= pre.strings.arenas@.len()
    &&& post.activations.arenas@.len() <= pre.activations.arenas@.len()
    &&& post.procedures.arenas@.len() <= pre.procedures.arenas@.len()
}

/// The state the mark phase maintains: the heap differs from the heap
/// `h0` at the start of the collection only in its mark bits, every mark
/// sits on something live and reachable, and the arena structure stays
/// well formed.
pub open spec fn mark_inv(h0: Heap, hm: Heap) -> bool {
    &&& h0.wf()
    &&& hm.cons_cells.wf()
    &&& hm.strings.wf()
    &&& hm.activations.wf()
    &&& hm.procedures.wf()
    &&& hm.environment == h0.environment
    &&& hm.roots == h0.roots
    &&& hm.symbol_table == h0.symbol_table
    &&& hm.locations == h0.locations
    &&& hm.global_activation == h0.global_activation
    &&& hm.allocations == h0.allocations
    &&& hm.allocations_threshold == h0.allocations_threshold
    &&& hm.cons_cells.capacity == h0.cons_cells.capacity
    &&& hm.strings.capacity == h0.strings.capacity
    &&& hm.activations.capacity == h0.activations.capacity
    &&& hm.procedures.capacity == h0.procedures.capacity
    &&& hm.cons_cells.next_id == h0.cons_cells.next_id
    &&& hm.strings.next_id == h0.strings.next_id
    &&& hm.activations.next_id == h0.activations.next_id
    &&& hm.procedures.next_id == h0.procedures.next_id
    &&& hm.cons_cells.arenas@.len() == h0.cons_cells.arenas@.len()
    &&& hm.strings.arenas@.len() == h0.strings.arenas@.len()
    &&& hm.activations.arenas@.len() == h0.activations.arenas@.len()
    &&& hm.procedures.arenas@.len() == h0.procedures.arenas@.len()
    &&& forall|u: GcThing| hm.live(u) == h0.live(u)
    &&& forall|u: GcThing| h0.live(u) ==> hm.succs(u) == h0.succs(u)
    &&& forall|p: ConsPtr| h0.live(GcThing::Cons(p)) ==> hm.cons_at(p) == h0.cons_at(p)
    &&& forall|p: StringPtr| h0.live(GcThing::String(p)) ==> hm.string_at(p) == h0.string_at(p)
    &&& forall|p: ActivationPtr|
        h0.live(GcThing::Activation(p)) ==> hm.act_at(p) == h0.act_at(p)
    &&& forall|p: ProcedurePtr|
        h0.live(GcThing::Procedure(p)) ==> hm.proc_at(p) == h0.proc_at(p)
    &&& forall|u: GcThing| hm.marked(u) ==> h0.live(u) && h0.reachable(u)
    &&& hm.cap_grand() == h0.cap_grand()
    &&& hm.marked_grand() <= hm.cap_grand()
}

impl Heap {
    /// The marked totals never exceed the reserved capacity.
    proof fn lemma_marked_grand_le(self)
        requires
            self.cons_cells.wf(),
            self.strings.wf(),
            self.activations.wf(),
            self.procedures.wf(),
        ensures
            self.marked_grand() <= self.cap_grand(),
    {
        lemma_marked_le_cap(self.cons_cells.arenas@);
        lemma_marked_le_cap(self.strings.arenas@);
        lemma_marked_le_cap(self.activations.arenas@);
        lemma_marked_le_cap(self.procedures.arenas@);
    }

    /// Perform a garbage collection on the heap.
    ///
    /// First the pressure counter is reset and the threshold recomputed
    /// from the current arena counts. Then the heap graph is traced from
    /// the roots with an explicit worklist, marking everything reachable.
    /// Finally each arena set is swept: unmarked slots return to their
    /// free lists and arenas with no surviving object are released.
    ///
    /// The contract is the collector's correctness statement: exactly the
    /// objects that were both live and reachable from the roots stay
    /// live, with their contents untouched, and everything else is
    /// reclaimed.
    #[verifier::rlimit(100)]
    pub fn collect_garbage(&mut self)
        requires
            old(self).wf(),
            old(self).gc_threshold() <= usize::MAX,
        ensures
            final(self).wf(),
            gc_rel(*old(self), *final(self)),
    {
        self.reset_gc_pressure();
        let ghost h0 = *self;
        proof {
            lemma_graph_eq(*old(self), h0);
            assert(h0.wf());
        }

        // First, trace the heap graph and mark everything that is
        // reachable, using an explicit worklist so that deep or cyclic
        // structures cannot overflow the host stack.
        let mut pending: Vec<GcThing> = self.get_roots();
        proof {
            self.lemma_marked_grand_le();
            assert forall|k: int|
                0 <= k < pending@.len() implies h0.live(#[trigger] pending@[k]) && h0.reachable(
                pending@[k],
            ) by {
                assert(pending@.contains(pending@[k]));
                assert(h0.is_root(pending@[k]));
                h0.lemma_root_reachable(pending@[k]);
                h0.lemma_reach_n_live(0);
            }
        }
        while pending.len() > 0
            invariant
                mark_inv(h0, *self),
                forall|k: int|
                    0 <= k < pending@.len() ==> h0.live(#[trigger] pending@[k]) && h0.reachable(
                        pending@[k],
                    ),
                forall|t: GcThing|
                    h0.is_root(t) ==> self.marked(t) || pending@.contains(t),
                forall|u: GcThing, j: int|
                    self.marked(u) && 0 <= j < h0.succs(u).len() ==> self.marked(
                        #[trigger] h0.succs(u)[j],
                    ) || pending@.contains(h0.succs(u)[j]),
            decreases self.cap_grand() - self.marked_grand(), pending@.len(),
        {
            let ghost pending0 = pending@;
            let t = pending.pop().unwrap();
            proof {
                assert(t == pending0.last());
                assert(pending0.contains(t)) by {
                    assert(pending0[pending0.len() - 1] == t);
                }
                assert(h0.live(t) && h0.reachable(t));
                lemma_drop_last_contains(pending0);
            }
            if !self.is_marked(t) {
                let ghost hm0 = *self;
                self.mark(t);
                let succs = self.trace_thing(t);
                proof {
                    assert(succs@ == h0.succs(t));
                    self.lemma_marked_grand_le();
                    assert forall|u: GcThing, j: int|
                        self.marked(u) && u != t && 0 <= j < h0.succs(u).len() implies self.marked(
                        #[trigger] h0.succs(u)[j],
                    ) || pending@.contains(h0.succs(u)[j]) by {
                        assert(hm0.marked(u));
                        if pending0.contains(h0.succs(u)[j]) && !hm0.marked(h0.succs(u)[j]) {
                            assert(pending@.contains(h0.succs(u)[j]) || h0.succs(u)[j] == t);
                        }
                    }
                    assert forall|u: GcThing|
                        h0.is_root(u) implies self.marked(u) || pending@.contains(u) by {
                        if pending0.contains(u) && !hm0.marked(u) {
                            assert(pending@.contains(u) || u == t);
                        }
                    }
                }
                let n = succs.len();
                let mut k: usize = 0;
                while k < n
                    invariant
                        mark_inv(h0, *self),
                        n == succs@.len(),
                        k <= n,
                        succs@ == h0.succs(t),
                        self.marked(t),
                        h0.reachable(t),
                        self.marked_grand() == hm0.marked_grand() + 1,
                        forall|u: GcThing| self.marked(u) == (hm0.marked(u) || u == t),
                        forall|k2: int|
                            0 <= k2 < pending@.len() ==> h0.live(#[trigger] pending@[k2])
                                && h0.reachable(pending@[k2]),
                        forall|u: GcThing|
                            h0.is_root(u) ==> self.marked(u) || pending@.contains(u),
                        forall|u: GcThing, j: int|
                            self.marked(u) && u != t && 0 <= j < h0.succs(u).len()
                                ==> self.marked(#[trigger] h0.succs(u)[j]) || pending@.contains(
                                h0.succs(u)[j],
                            ),
                        forall|j: int|
                            0 <= j < k ==> self.marked(#[trigger] h0.succs(t)[j])
                                || pending@.contains(h0.succs(t)[j]),
                    decreases n - k,
                {
                    let ghost p0 = pending@;
                    let s = succs[k];
                    pending.push(s);
                    proof {
                        lemma_push_contains(p0, pending@, s);
                        assert(h0.succs(t).contains(s)) by {
                            assert(h0.succs(t)[k as int] == s);
                        }
                        assert(h0.live(s)) by {
                            assert(h0.live(h0.succs(t)[k as int]));
                        }
                        h0.lemma_reach_step(t, s);
                        assert forall|k2: int|
                            0 <= k2 < pending@.len() implies h0.live(#[trigger] pending@[k2])
                            && h0.reachable(pending@[k2]) by {
                            if k2 < p0.len() {
                                assert(pending@[k2] == p0[k2]);
                            } else {
                                assert(pending@[k2] == s);
                            }
                        }
                    }
                    k += 1;
                }
                proof {
                    assert forall|u: GcThing, j: int|
                        self.marked(u) && 0 <= j < h0.succs(u).len() implies self.marked(
                        #[trigger] h0.succs(u)[j],
                    ) || pending@.contains(h0.succs(u)[j]) by {
                        if u == t {
                            assert(0 <= j < k);
                        }
                    }
                }
            } else {
                proof {
                    assert forall|u: GcThing|
                        h0.is_root(u) implies self.marked(u) || pending@.contains(u) by {
                        if pending0.contains(u) && !self.marked(u) {
                            assert(pending@.contains(u) || u == pending0.last());
                        }
                    }
                    assert forall|u: GcThing, j: int|
                        self.marked(u) && 0 <= j < h0.succs(u).len() implies self.marked(
                        #[trigger] h0.succs(u)[j],
                    ) || pending@.contains(h0.succs(u)[j]) by {
                        if pending0.contains(h0.succs(u)[j]) && !self.marked(h0.succs(u)[j]) {
                            assert(pending@.contains(h0.succs(u)[j]) || h0.succs(u)[j]
                                == pending0.last());
                        }
                    }
                }
            }
        }
        let ghost hm = *self;
        proof {
            // The worklist is empty: the marks cover the roots and are
            // closed under references, so they cover everything
            // reachable; and every mark sits on something reachable.
            assert forall|t: GcThing| h0.reachable(t) implies hm.marked(t) by {
                assert(forall|u: GcThing| h0.is_root(u) ==> hm.marked(u));
                assert(forall|u: GcThing, j: int|
                    hm.marked(u) && 0 <= j < h0.succs(u).len() ==> hm.marked(
                        #[trigger] h0.succs(u)[j],
                    ));
                let n = choose|n: nat| h0.reach_n(n, t);
                lemma_reach_n_marked(h0, hm, n);
            }
        }

        // Second, sweep each arena set: unmarked slots go back to the
        // free lists, and arenas that hold nothing live any more are
        // released.
        self.strings.sweep();
        self.activations.sweep();
        self.cons_cells.sweep();
        self.procedures.sweep();
        proof {
            let hf = *self;
            assert forall|t: GcThing| hf.live(t) <==> (h0.live(t) && h0.reachable(t)) by {
                match t {
                    GcThing::Cons(p) => {
                        assert(hf.live(t) == hm.cons_cells.marked_at(p.0));
                    },
                    GcThing::String(p) => {
                        assert(hf.live(t) == hm.strings.marked_at(p.0));
                    },
                    GcThing::Activation(p) => {
                        assert(hf.live(t) == hm.activations.marked_at(p.0));
                    },
                    GcThing::Procedure(p) => {
                        assert(hf.live(t) == hm.procedures.marked_at(p.0));
                    },
                }
                if h0.live(t) && h0.reachable(t) {
                    assert(hm.marked(t));
                }
            }
            assert forall|p: ConsPtr|
                h0.live(GcThing::Cons(p)) && h0.reachable(GcThing::Cons(p)) implies hf.cons_at(p)
                == h0.cons_at(p) by {
                assert(hm.marked(GcThing::Cons(p)));
            }
            assert forall|p: StringPtr|
                h0.live(GcThing::String(p)) && h0.reachable(GcThing::String(p))
                implies hf.string_at(p) == h0.string_at(p) by {
                assert(hm.marked(GcThing::String(p)));
            }
            assert forall|p: ActivationPtr|
                h0.live(GcThing::Activation(p)) && h0.reachable(GcThing::Activation(p))
                implies hf.act_at(p) == h0.act_at(p) by {
                assert(hm.marked(GcThing::Activation(p)));
            }
            assert forall|p: ProcedurePtr|
                h0.live(GcThing::Procedure(p)) && h0.reachable(GcThing::Procedure(p))
                implies hf.proc_at(p) == h0.proc_at(p) by {
                assert(hm.marked(GcThing::Procedure(p)));
            }
            // The surviving graph agrees with the old one on everything
            // reachable, so reachability itself is preserved.
            assert forall|t: GcThing| h0.reachable(t) implies hf.succs(t) == h0.succs(t) by {
                h0.lemma_reachable_live();
                match t {
                    GcThing::Cons(p) => {
                        assert(hf.cons_at(p) == h0.cons_at(p));
                    },
                    GcThing::String(_) => {},
                    GcThing::Activation(p) => {
                        assert(hf.act_at(p) == h0.act_at(p));
                    },
                    GcThing::Procedure(p) => {
                        assert(hf.proc_at(p) == h0.proc_at(p));
                    },
                }
            }
            assert(forall|t: GcThing| hf.is_root(t) == h0.is_root(t));
            lemma_reach_equiv(h0, hf);
            // The swept heap is well formed again: marks are clear, the
            // reachable survivors reference only reachable survivors, and
            // every root survived.
            assert(hf.closed()) by {
                assert forall|t: GcThing, j: int|
                    hf.live(t) && 0 <= j < hf.succs(t).len() implies hf.live(
                    #[trigger] hf.succs(t)[j],
                ) by {
                    let s = hf.succs(t)[j];
                    assert(hf.succs(t) == h0.succs(t));
                    assert(h0.live(h0.succs(t)[j]));
                    h0.lemma_reach_step(t, s);
                }
            }
            assert forall|k: int|
                0 <= k < hf.roots@.len() implies (#[trigger] hf.roots@[k]).1 >= 1 && hf.live(
                hf.roots@[k].0,
            ) by {
                assert(h0.roots@[k] == hf.roots@[k]);
                lemma_root_count_at(h0.roots@, k);
                assert(h0.is_root(hf.roots@[k].0));
                h0.lemma_root_reachable(hf.roots@[k].0);
                h0.lemma_reach_n_live(0);
            }
            assert forall|k: int|
                0 <= k < hf.symbol_table@.len() implies hf.strings.live_at(
                (#[trigger] hf.symbol_table@[k]).1.0,
            ) && hf.string_at(hf.symbol_table@[k].1)@ == hf.symbol_table@[k].0@ by {
                let t = GcThing::String(hf.symbol_table@[k].1);
                assert(h0.symbol_rooted(t)) by {
                    assert(h0.symbol_table@[k] == hf.symbol_table@[k]);
                }
                h0.lemma_root_reachable(t);
                assert(hf.live(t));
                assert(hf.string_at(hf.symbol_table@[k].1) == h0.string_at(
                    hf.symbol_table@[k].1,
                ));
            }
            assert forall|k: int|
                0 <= k < hf.locations@.len() implies hf.cons_cells.live_at(
                (#[trigger] hf.locations@[k]).0.0,
            ) by {
                let t = GcThing::Cons(hf.locations@[k].0);
                assert(h0.location_rooted(t)) by {
                    assert(h0.locations@[k] == hf.locations@[k]);
                }
                h0.lemma_root_reachable(t);
                assert(hf.live(t));
            }
            assert(hf.activations.live_at(hf.global_activation.0)) by {
                let t = GcThing::Activation(h0.global_activation);
                h0.lemma_root_reachable(t);
                assert(hf.live(t));
            }
            assert(hf.wf());
            // Relate the collection back to the heap as it was before the
            // pressure reset: the reset changed only the counters.
            assert(forall|t: GcThing| old(self).is_root(t) == h0.is_root(t));
            assert forall|t: GcThing| h0.reachable(t) implies old(self).succs(t) == h0.succs(
                t,
            ) by {}
            lemma_reach_equiv(h0, *old(self));
            assert(gc_rel(*old(self), hf));
        }
    }
}

/// Growing the root set while keeping the graph preserves reachability.
proof fn lemma_reach_n_mono(pre: Heap, post: Heap, n: nat)
    requires
        forall|t: GcThing| pre.is_root(t) ==> post.is_root(t),
        forall|t: GcThing| pre.reachable(t) ==> post.succs(t) == pre.succs(t),
    ensures
        forall|t: GcThing| pre.reach_n(n, t) ==> post.reach_n(n, t),
    decreases n,
{
    if n > 0 {
        lemma_reach_n_mono(pre, post, (n - 1) as nat);
        assert forall|t: GcThing| pre.reach_n(n, t) implies post.reach_n(n, t) by {
            if !pre.reach_n((n - 1) as nat, t) {
                let u = choose|u: GcThing|
                    pre.reach_n((n - 1) as nat, u) && #[trigger] pre.succs(u).contains(t);
                assert(post.reach_n((n - 1) as nat, u));
                assert(pre.reachable(u));
                assert(post.succs(u).contains(t));
            }
        }
    }
}

/// Growing the root set while keeping the graph preserves reachability.
proof fn lemma_reach_mono(pre: Heap, post: Heap)
    requires
        forall|t: GcThing| pre.is_root(t) ==> post.is_root(t),
        forall|t: GcThing| pre.reachable(t) ==> post.succs(t) == pre.succs(t),
    ensures
        forall|t: GcThing| pre.reachable(t) ==> post.reachable(t),
{
    assert forall|t: GcThing| pre.reachable(t) implies post.reachable(t) by {
        let n = choose|n: nat| pre.reach_n(n, t);
        lemma_reach_n_mono(pre, post, n);
        assert(post.reach_n(n, t));
    }
}

/// What one allocation does to the heap. `t` is the fresh object: it is
/// live, freshly rooted, and carries no references yet. If the pressure
/// check triggered a collection (`gc`), everything unreachable was
/// reclaimed first; otherwise nothing else changed but the pressure
/// counter.
pub open spec fn alloc_rel(pre: Heap, post: Heap, t: GcThing) -> bool {
    let gc = pre.allocations + 1 > pre.allocations_threshold;
    &&& post.live(t)
    &&& !(pre.live(t) && pre.reachable(t))
    &&& post.root_count(t) == 1
    &&& post.succs(t) == Seq::<GcThing>::empty()
    &&& forall|u: GcThing| u != t ==> post.root_count(u) == pre.root_count(u)
    &&& forall|u: GcThing|
        u != t ==> (post.live(u) <==> (pre.live(u) && (gc ==> pre.reachable(u))))
    &&& forall|u: GcThing| pre.reachable(u) ==> post.reachable(u)
    &&& forall|p: ConsPtr|
        pre.live(GcThing::Cons(p)) && (gc ==> pre.reachable(GcThing::Cons(p)))
            && GcThing::Cons(p) != t ==> post.cons_at(p) == pre.cons_at(p)
    &&& forall|p: StringPtr|
        pre.live(GcThing::String(p)) && (gc ==> pre.reachable(GcThing::String(p)))
            && GcThing::String(p) != t ==> post.string_at(p) == pre.string_at(p)
    &&& forall|p: ActivationPtr|
        pre.live(GcThing::Activation(p)) && (gc ==> pre.reachable(GcThing::Activation(p)))
            && GcThing::Activation(p) != t ==> post.act_at(p) == pre.act_at(p)
    &&& forall|p: ProcedurePtr|
        pre.live(GcThing::Procedure(p)) && (gc ==> pre.reachable(GcThing::Procedure(p)))
            && GcThing::Procedure(p) != t ==> post.proc_at(p) == pre.proc_at(p)
    &&& post.symbol_table == pre.symbol_table
    &&& post.locations == pre.locations
    &&& post.environment == pre.environment
    &&& post.global_activation == pre.global_activation
    &&& post.allocations == (if gc {
        0int
    } else {
        pre.allocations + 1
    })
    &&& post.allocations_threshold == (if gc {
        pre.gc_threshold()
    } else {
        pre.allocations_threshold as int
    })
    &&& post.cons_cells.capacity == pre.cons_cells.capacity
    &&& post.strings.capacity == pre.strings.capacity
    &&& post.activations.capacity == pre.activations.capacity
    &&& post.procedures.capacity == pre.procedures.capacity
    &&& post.cons_cells.arenas@.len() <= pre.cons_cells.arenas@.len() + 1
    &&& post.strings.arenas@.len() <= pre.strings.arenas@.len() + 1
    &&& post.activations.arenas@.len() <= pre.activations.arenas@.len() + 1
    &&& post.procedures.arenas@.len() <= pre.procedures.arenas@.len() + 1
    &&& post.cons_cells.next_id <= pre.cons_cells.next_id + 1
    &&& post.strings.next_id <= pre.strings.next_id + 1
    &&& post.activations.next_id <= pre.activations.next_id + 1
    &&& post.procedures.next_id <= pre.procedures.next_id + 1
}

/// What taking one fresh slot from an arena set does to the heap graph:
/// one new live object with no references, everything else untouched.
pub open spec fn alloc_step_rel(pre: Heap, post: Heap, t: GcThing) -> bool {
    &&& post.roots == pre.roots
    &&& post.symbol_table == pre.symbol_table
    &&& post.locations == pre.locations
    &&& post.environment == pre.environment
    &&& post.global_activation == pre.global_activation
    &&& post.allocations == pre.allocations
    &&& post.allocations_threshold == pre.allocations_threshold
    &&& !pre.live(t)
    &&& post.live(t)
    &&& post.succs(t) == Seq::<GcThing>::empty()
    &&& forall|u: GcThing| u != t ==> post.live(u) == pre.live(u)
    &&& forall|u: GcThing| pre.live(u) && u != t ==> post.succs(u) == pre.succs(u)
    &&& forall|p: ConsPtr|
        pre.live(GcThing::Cons(p)) && GcThing::Cons(p) != t ==> post.cons_at(p) == pre.cons_at(p)
    &&& forall|p: StringPtr|
        pre.live(GcThing::String(p)) && GcThing::String(p) != t ==> post.string_at(p)
            == pre.string_at(p)
    &&& forall|p: ActivationPtr|
        pre.live(GcThing::Activation(p)) && GcThing::Activation(p) != t ==> post.act_at(p)
            == pre.act_at(p)
    &&& forall|p: ProcedurePtr|
        pre.live(GcThing::Procedure(p)) && GcThing::Procedure(p) != t ==> post.proc_at(p)
            == pre.proc_at(p)
    &&& post.marks_clear()
    &&& post.cons_cells.wf()
    &&& post.strings.wf()
    &&& post.activations.wf()
    &&& post.procedures.wf()
    &&& post.cons_cells.capacity == pre.cons_cells.capacity
    &&& post.strings.capacity == pre.strings.capacity
    &&& post.activations.capacity == pre.activations.capacity
    &&& post.procedures.capacity == pre.procedures.capacity
    &&& post.cons_cells.arenas@.len() <= pre.cons_cells.arenas@.len() + 1
    &&& post.strings.arenas@.len() <= pre.strings.arenas@.len() + 1
    &&& post.activations.arenas@.len() <= pre.activations.arenas@.len() + 1
    &&& post.procedures.arenas@.len() <= pre.procedures.arenas@.len() + 1
    &&& post.cons_cells.next_id <= pre.cons_cells.next_id + 1
    &&& post.strings.next_id <= pre.strings.next_id + 1
    &&& post.activations.next_id <= pre.activations.next_id + 1
    &&& post.procedures.next_id <= pre.procedures.next_id + 1
}

/// After taking a fresh slot the heap is well formed again and
/// reachability of the old objects is untouched.
proof fn lemma_alloc_step(pre: Heap, post: Heap, t: GcThing)
    requires
        pre.wf(),
        alloc_step_rel(pre, post, t),
    ensures
        post.closed(),
        post.roots_wf(),
        post.symtab_wf(),
        post.locations_wf(),
        post.activations.live_at(post.global_activation.0),
        post.environment.wf(),
        post.wf(),
        forall|u: GcThing| post.reachable(u) == pre.reachable(u),
        forall|u: GcThing| post.is_root(u) == pre.is_root(u),
        post.root_count(t) == 0,
    {
    assert(post.closed()) by {
        assert forall|u: GcThing, k: int|
            post.live(u) && 0 <= k < post.succs(u).len() implies post.live(
            #[trigger] post.succs(u)[k],
        ) by {
            if u != t {
                assert(pre.live(u));
                assert(post.succs(u) == pre.succs(u));
                assert(pre.live(pre.succs(u)[k]));
            }
        }
    }
    assert forall|k: int|
        0 <= k < post.roots@.len() implies (#[trigger] post.roots@[k]).1 >= 1 && post.live(
        post.roots@[k].0,
    ) by {
        assert(pre.roots@[k] == post.roots@[k]);
        assert(pre.live(pre.roots@[k].0));
        assert(pre.roots@[k].0 != t);
    }
    assert forall|k: int|
        0 <= k < post.symbol_table@.len() implies post.strings.live_at(
        (#[trigger] post.symbol_table@[k]).1.0,
    ) && post.string_at(post.symbol_table@[k].1)@ == post.symbol_table@[k].0@ by {
        assert(pre.symbol_table@[k] == post.symbol_table@[k]);
        let u = GcThing::String(pre.symbol_table@[k].1);
        assert(pre.live(u));
        assert(post.live(u));
        assert(u != t);
        assert(post.string_at(pre.symbol_table@[k].1) == pre.string_at(pre.symbol_table@[k].1));
    }
    assert forall|k: int|
        0 <= k < post.locations@.len() implies post.cons_cells.live_at(
        (#[trigger] post.locations@[k]).0.0,
    ) by {
        assert(pre.locations@[k] == post.locations@[k]);
        let u = GcThing::Cons(pre.locations@[k].0);
        assert(pre.live(u));
        assert(post.live(u));
    }
    assert(post.activations.live_at(post.global_activation.0)) by {
        let u = GcThing::Activation(pre.global_activation);
        assert(pre.live(u));
        assert(post.live(u));
    }
    assert(forall|u: GcThing| post.is_root(u) == pre.is_root(u));
    assert forall|u: GcThing| pre.reachable(u) implies post.succs(u) == pre.succs(u) by {
        pre.lemma_reachable_live();
        assert(u != t);
    }
    lemma_reach_equiv(pre, post);
    assert(post.root_count(t) == 0) by {
        if post.root_count(t) > 0 {
            if forall|k: int| 0 <= k < pre.roots@.len() ==> (#[trigger] pre.roots@[k]).0 != t {
                lemma_root_count_absent(pre.roots@, t);
            }
            let k = choose|k: int|
                0 <= k < pre.roots@.len() && (#[trigger] pre.roots@[k]).0 == t;
            assert(pre.live(pre.roots@[k].0));
        }
    }
    assert(post.wf());
}

/// ## `Heap` pressure methods
impl Heap {
    /// Returns true when enough GC pressure has built up that it is time
    /// to collect garbage.
    fn is_too_much_pressure(&mut self) -> (r: bool)
        ensures
            *final(self) == *old(self),
            r == (old(self).allocations > old(self).allocations_threshold),
    {
        self.allocations > self.allocations_threshold
    }

    /// Apply pressure to the GC, and if enough pressure has built up,
    /// perform a garbage collection.
    pub fn increase_gc_pressure(&mut self)
        requires
            old(self).wf(),
            old(self).allocations < usize::MAX,
            old(self).gc_threshold() <= usize::MAX,
        ensures
            final(self).wf(),
            if old(self).allocations + 1 > old(self).allocations_threshold {
                gc_rel(*old(self), *final(self))
            } else {
                *final(self) == (Heap {
                    allocations: (old(self).allocations + 1) as usize,
                    ..*old(self)
                })
            },
    {
        self.allocations = self.allocations + 1;
        let ghost mid = *self;
        proof {
            lemma_graph_eq(*old(self), mid);
            assert(mid.wf());
        }
        if self.is_too_much_pressure() {
            self.collect_garbage();
            proof {
                assert(forall|u: GcThing| mid.is_root(u) == old(self).is_root(u));
                assert(forall|u: GcThing|
                    old(self).reachable(u) ==> mid.succs(u) == old(self).succs(u));
                lemma_reach_equiv(*old(self), mid);
                assert(gc_rel(*old(self), *final(self)));
            }
        } else {
            proof {
                lemma_graph_eq(mid, *self);
            }
        }
    }

    /// A method that is called on every allocation.
    fn on_allocation(&mut self)
        requires
            old(self).wf(),
            old(self).allocations < usize::MAX,
            old(self).gc_threshold() <= usize::MAX,
        ensures
            final(self).wf(),
            if old(self).allocations + 1 > old(self).allocations_threshold {
                gc_rel(*old(self), *final(self))
            } else {
                *final(self) == (Heap {
                    allocations: (old(self).allocations + 1) as usize,
                    ..*old(self)
                })
            },
    {
        self.increase_gc_pressure();
    }
}

/// ## `Heap` allocation methods
impl Heap {
    /// Allocate a new cons cell and return a rooted handle to it. The
    /// fresh pair has both fields set to the empty list.
    pub fn allocate_cons(&mut self) -> (r: RootedConsPtr)
        requires
            old(self).wf(),
            old(self).headroom(),
        ensures
            final(self).wf(),
            alloc_rel(*old(self), *final(self), GcThing::Cons(r.ptr)),
            final(self).cons_at(r.ptr).is_fresh(),
    {
        self.on_allocation();
        let ghost mid1 = *self;
        let p = self.cons_cells.allocate();
        let cp = ConsPtr(p);
        let ghost t = GcThing::Cons(cp);
        let ghost mid2 = *self;
        proof {
            assert(alloc_step_rel(mid1, mid2, t)) by {
                assert forall|u: GcThing| u != t implies mid2.live(u) == mid1.live(u) by {
                    match u {
                        GcThing::Cons(q) => {
                            assert(q.0 != p);
                        },
                        _ => {},
                    }
                }
            }
            lemma_alloc_step(mid1, mid2, t);
        }
        let r = Rooted::new(self, cp);
        proof {
            lemma_alloc_finish(*old(self), mid1, mid2, *self, t);
        }
        r
    }

    /// Allocate a new string and return a rooted handle to it. The fresh
    /// string is empty.
    pub fn allocate_string(&mut self) -> (r: RootedStringPtr)
        requires
            old(self).wf(),
            old(self).headroom(),
        ensures
            final(self).wf(),
            alloc_rel(*old(self), *final(self), GcThing::String(r.ptr)),
            final(self).string_at(r.ptr).is_fresh(),
    {
        self.on_allocation();
        let ghost mid1 = *self;
        let p = self.strings.allocate();
        let cp = StringPtr(p);
        let ghost t = GcThing::String(cp);
        let ghost mid2 = *self;
        proof {
            assert(alloc_step_rel(mid1, mid2, t)) by {
                assert forall|u: GcThing| u != t implies mid2.live(u) == mid1.live(u) by {
                    match u {
                        GcThing::String(q) => {
                            assert(q.0 != p);
                        },
                        _ => {},
                    }
                }
            }
            lemma_alloc_step(mid1, mid2, t);
        }
        let r = Rooted::new(self, cp);
        proof {
            lemma_alloc_finish(*old(self), mid1, mid2, *self, t);
        }
        r
    }

    /// Allocate a new `Activation` and return a rooted handle to it. The
    /// fresh activation has no parent and no value slots.
    pub fn allocate_activation(&mut self) -> (r: RootedActivationPtr)
        requires
            old(self).wf(),
            old(self).headroom(),
        ensures
            final(self).wf(),
            alloc_rel(*old(self), *final(self), GcThing::Activation(r.ptr)),
            final(self).act_at(r.ptr).is_fresh(),
    {
        self.on_allocation();
        let ghost mid1 = *self;
        let p = self.activations.allocate();
        let cp = ActivationPtr(p);
        let ghost t = GcThing::Activation(cp);
        let ghost mid2 = *self;
        proof {
            assert(alloc_step_rel(mid1, mid2, t)) by {
                assert forall|u: GcThing| u != t implies mid2.live(u) == mid1.live(u) by {
                    match u {
                        GcThing::Activation(q) => {
                            assert(q.0 != p);
                        },
                        _ => {},
                    }
                }
            }
            lemma_alloc_step(mid1, mid2, t);
        }
        let r = Rooted::new(self, cp);
        proof {
            lemma_alloc_finish(*old(self), mid1, mid2, *self, t);
        }
        r
    }

    /// Allocate a new `Procedure` and return a rooted handle to it. The
    /// fresh procedure has empty fields and no captured activation.
    pub fn allocate_procedure(&mut self) -> (r: RootedProcedurePtr)
        requires
            old(self).wf(),
            old(self).headroom(),
        ensures
            final(self).wf(),
            alloc_rel(*old(self), *final(self), GcThing::Procedure(r.ptr)),
            final(self).proc_at(r.ptr).is_fresh(),
    {
        self.on_allocation();
        let ghost mid1 = *self;
        let p = self.procedures.allocate();
        let cp = ProcedurePtr(p);
        let ghost t = GcThing::Procedure(cp);
        let ghost mid2 = *self;
        proof {
            assert(alloc_step_rel(mid1, mid2, t)) by {
                assert forall|u: GcThing| u != t implies mid2.live(u) == mid1.live(u) by {
                    match u {
                        GcThing::Procedure(q) => {
                            assert(q.0 != p);
                        },
                        _ => {},
                    }
                }
            }
            lemma_alloc_step(mid1, mid2, t);
        }
        let r = Rooted::new(self, cp);
        proof {
            lemma_alloc_finish(*old(self), mid1, mid2, *self, t);
        }
        r
    }
}

/// Stitch the three phases of an allocation together: the pressure step
/// from `pre` to `mid1` (possibly a whole collection), the fresh slot
/// from `mid1` to `mid2`, and the rooting of the fresh object from
/// `mid2` to `post`.
proof fn lemma_alloc_finish(pre: Heap, mid1: Heap, mid2: Heap, post: Heap, t: GcThing)
    requires
        pre.wf(),
        mid1.wf(),
        mid2.wf(),
        post.wf(),
        if pre.allocations + 1 > pre.allocations_threshold {
            gc_rel(pre, mid1)
        } else {
            mid1 == (Heap { allocations: (pre.allocations + 1) as usize, ..pre })
        },
        alloc_step_rel(mid1, mid2, t),
        forall|u: GcThing| mid2.reachable(u) == mid1.reachable(u),
        forall|u: GcThing| mid2.is_root(u) == mid1.is_root(u),
        mid2.root_count(t) == 0,
        heap_with_extra_root(mid2, post, Some(t)),
    ensures
        alloc_rel(pre, post, t),
{
    let gc = pre.allocations + 1 > pre.allocations_threshold;
    if !gc {
        lemma_graph_eq(pre, mid1);
        assert(forall|u: GcThing| mid1.is_root(u) == pre.is_root(u));
        assert(forall|u: GcThing| pre.reachable(u) ==> mid1.succs(u) == pre.succs(u));
        lemma_reach_equiv(pre, mid1);
    }
    lemma_graph_eq(mid2, post);
    assert(forall|u: GcThing| mid2.is_root(u) ==> post.is_root(u)) by {
        assert forall|u: GcThing| mid2.is_root(u) implies post.is_root(u) by {
            if mid2.rooted(u) {
                assert(post.root_count(u) >= mid2.root_count(u));
            }
        }
    }
    assert(forall|u: GcThing| mid2.reachable(u) ==> post.succs(u) == mid2.succs(u));
    lemma_reach_mono(mid2, post);
    assert(post.live(t));
    assert(!(pre.live(t) && pre.reachable(t))) by {
        if pre.live(t) && pre.reachable(t) {
            assert(mid1.live(t));
        }
    }
    assert(post.root_count(t) == 1);
    assert forall|u: GcThing|
        u != t implies (post.live(u) <==> (pre.live(u) && (gc ==> pre.reachable(u)))) by {
        assert(post.live(u) == mid2.live(u));
        assert(mid2.live(u) == mid1.live(u));
    }
    assert forall|u: GcThing| pre.reachable(u) implies post.reachable(u) by {
        assert(mid1.reachable(u));
        assert(mid2.reachable(u));
    }
    assert(post.succs(t) == Seq::<GcThing>::empty());
    let gcthr = pre.allocations + 1 > pre.allocations_threshold;
    assert forall|p: ConsPtr|
        pre.live(GcThing::Cons(p)) && (gcthr ==> pre.reachable(GcThing::Cons(p)))
            && GcThing::Cons(p) != t implies post.cons_at(p) == pre.cons_at(p) by {
        assert(mid1.live(GcThing::Cons(p)));
        assert(mid1.cons_at(p) == pre.cons_at(p));
        assert(mid2.cons_at(p) == mid1.cons_at(p));
        assert(post.cons_at(p) == mid2.cons_at(p));
    }
    assert forall|p: StringPtr|
        pre.live(GcThing::String(p)) && (gcthr ==> pre.reachable(GcThing::String(p)))
            && GcThing::String(p) != t implies post.string_at(p) == pre.string_at(p) by {
        assert(mid1.live(GcThing::String(p)));
        assert(mid1.string_at(p) == pre.string_at(p));
        assert(mid2.string_at(p) == mid1.string_at(p));
        assert(post.string_at(p) == mid2.string_at(p));
    }
    assert forall|p: ActivationPtr|
        pre.live(GcThing::Activation(p)) && (gcthr ==> pre.reachable(GcThing::Activation(p)))
            && GcThing::Activation(p) != t implies post.act_at(p) == pre.act_at(p) by {
        assert(mid1.live(GcThing::Activation(p)));
        assert(mid1.act_at(p) == pre.act_at(p));
        assert(mid2.act_at(p) == mid1.act_at(p));
        assert(post.act_at(p) == mid2.act_at(p));
    }
    assert forall|p: ProcedurePtr|
        pre.live(GcThing::Procedure(p)) && (gcthr ==> pre.reachable(GcThing::Procedure(p)))
            && GcThing::Procedure(p) != t implies post.proc_at(p) == pre.proc_at(p) by {
        assert(mid1.live(GcThing::Procedure(p)));
        assert(mid1.proc_at(p) == pre.proc_at(p));
        assert(mid2.proc_at(p) == mid1.proc_at(p));
        assert(post.proc_at(p) == mid2.proc_at(p));
    }
    assert(mid1.roots == pre.roots && mid1.symbol_table == pre.symbol_table && mid1.locations
        == pre.locations && mid1.environment == pre.environment && mid1.global_activation
        == pre.global_activation);
    assert forall|u: GcThing| u != t implies post.root_count(u) == pre.root_count(u) by {
        assert(post.root_count(u) == mid2.root_count(u));
        assert(mid2.roots@ == mid1.roots@);
        assert(mid1.roots@ == pre.roots@);
    }
    assert(post.symbol_table == pre.symbol_table);
    assert(post.locations == pre.locations);
    assert(post.environment == pre.environment);
    assert(post.global_activation == pre.global_activation);
    assert(post.allocations == mid2.allocations && mid2.allocations == mid1.allocations);
    assert(post.allocations_threshold == mid1.allocations_threshold);
    assert(mid1.allocations == (if gc {
        0int
    } else {
        pre.allocations + 1
    }));
    assert(mid1.allocations_threshold == (if gc {
        pre.gc_threshold()
    } else {
        pre.allocations_threshold as int
    }));
    assert(post.cons_cells.arenas@.len() <= pre.cons_cells.arenas@.len() + 1
        && post.strings.arenas@.len() <= pre.strings.arenas@.len() + 1
        && post.activations.arenas@.len() <= pre.activations.arenas@.len() + 1
        && post.procedures.arenas@.len() <= pre.procedures.arenas@.len() + 1
        && post.cons_cells.next_id <= pre.cons_cells.next_id + 1 && post.strings.next_id
        <= pre.strings.next_id + 1 && post.activations.next_id <= pre.activations.next_id + 1
        && post.procedures.next_id <= pre.procedures.next_id + 1) by {
        assert(post.cons_cells == mid2.cons_cells);
        assert(post.strings == mid2.strings);
        assert(post.activations == mid2.activations);
        assert(post.procedures == mid2.procedures);
    }
    assert(post.cons_cells.capacity == pre.cons_cells.capacity && post.strings.capacity
        == pre.strings.capacity && post.activations.capacity == pre.activations.capacity
        && post.procedures.capacity == pre.procedures.capacity) by {
        assert(mid2.cons_cells == post.cons_cells);
        assert(mid1.cons_cells.capacity == pre.cons_cells.capacity);
        assert(mid2.strings == post.strings);
        assert(mid1.strings.capacity == pre.strings.capacity);
        assert(mid2.activations == post.activations);
        assert(mid1.activations.capacity == pre.activations.capacity);
        assert(mid2.procedures == post.procedures);
        assert(mid1.procedures.capacity == pre.procedures.capacity);
    }
}

/// Whether the handle a value carries, if any, is live.
pub open spec fn value_live(h: Heap, v: Value) -> bool {
    match v.spec_gc_thing() {
        Some(t) => h.live(t),
        None => true,
    }
}

/// Whether everything a cons cell references is live.
pub open spec fn cons_ok(h: Heap, c: Cons) -> bool {
    value_live(h, c.spec_car()) && value_live(h, c.spec_cdr())
}

/// Whether everything an activation references is live.
pub open spec fn activation_ok(h: Heap, a: Activation) -> bool {
    &&& match a.parent {
        Some(q) => h.live(GcThing::Activation(q)),
        None => true,
    }
    &&& forall|k: int| 0 <= k < a.args@.len() ==> value_live(h, #[trigger] a.args@[k])
}

/// Whether everything a procedure references is live.
pub open spec fn procedure_ok(h: Heap, c: Procedure) -> bool {
    &&& value_live(h, c.params)
    &&& value_live(h, c.body)
    &&& match c.act {
        Some(q) => h.live(GcThing::Activation(q)),
        None => true,
    }
}

/// What one in-place write of the object `t` does: only that object's
/// contents change; liveness, the tables, and the counters stay as they
/// were.
pub open spec fn mutate_rel(pre: Heap, post: Heap, t: GcThing) -> bool {
    &&& post.roots == pre.roots
    &&& post.symbol_table == pre.symbol_table
    &&& post.locations == pre.locations
    &&& post.environment == pre.environment
    &&& post.global_activation == pre.global_activation
    &&& post.allocations == pre.allocations
    &&& post.allocations_threshold == pre.allocations_threshold
    &&& post.cons_cells.capacity == pre.cons_cells.capacity
    &&& post.strings.capacity == pre.strings.capacity
    &&& post.activations.capacity == pre.activations.capacity
    &&& post.procedures.capacity == pre.procedures.capacity
    &&& forall|u: GcThing| post.live(u) == pre.live(u)
    &&& forall|u: GcThing| pre.live(u) && u != t ==> post.succs(u) == pre.succs(u)
    &&& forall|p: ConsPtr|
        pre.live(GcThing::Cons(p)) && GcThing::Cons(p) != t ==> post.cons_at(p) == pre.cons_at(p)
    &&& forall|p: StringPtr|
        pre.live(GcThing::String(p)) && GcThing::String(p) != t ==> post.string_at(p)
            == pre.string_at(p)
    &&& forall|p: ActivationPtr|
        pre.live(GcThing::Activation(p)) && GcThing::Activation(p) != t ==> post.act_at(p)
            == pre.act_at(p)
    &&& forall|p: ProcedurePtr|
        pre.live(GcThing::Procedure(p)) && GcThing::Procedure(p) != t ==> post.proc_at(p)
            == pre.proc_at(p)
}

/// After overwriting one live object with contents whose references are
/// all live, the heap is well formed again.
proof fn lemma_mutate(pre: Heap, post: Heap, t: GcThing)
    requires
        pre.wf(),
        mutate_rel(pre, post, t),
        post.cons_cells.wf(),
        post.strings.wf(),
        post.activations.wf(),
        post.procedures.wf(),
        post.marks_clear(),
        forall|k: int|
            0 <= k < post.succs(t).len() ==> post.live(#[trigger] post.succs(t)[k]),
        forall|k: int|
            0 <= k < pre.symbol_table@.len() ==> GcThing::String(
                (#[trigger] pre.symbol_table@[k]).1,
            ) != t,
    ensures
        post.wf(),
{
    assert(post.closed()) by {
        assert forall|u: GcThing, k: int|
            post.live(u) && 0 <= k < post.succs(u).len() implies post.live(
            #[trigger] post.succs(u)[k],
        ) by {
            if u != t {
                assert(pre.live(u));
                assert(post.succs(u) == pre.succs(u));
                assert(pre.live(pre.succs(u)[k]));
            }
        }
    }
    assert forall|k: int|
        0 <= k < post.roots@.len() implies (#[trigger] post.roots@[k]).1 >= 1 && post.live(
        post.roots@[k].0,
    ) by {
        assert(pre.roots@[k] == post.roots@[k]);
        assert(pre.live(pre.roots@[k].0));
    }
    assert forall|k: int|
        0 <= k < post.symbol_table@.len() implies post.strings.live_at(
        (#[trigger] post.symbol_table@[k]).1.0,
    ) && post.string_at(post.symbol_table@[k].1)@ == post.symbol_table@[k].0@ by {
        assert(pre.symbol_table@[k] == post.symbol_table@[k]);
        let u = GcThing::String(pre.symbol_table@[k].1);
        assert(pre.live(u));
        assert(post.live(u));
        assert(post.string_at(pre.symbol_table@[k].1) == pre.string_at(pre.symbol_table@[k].1));
    }
    assert forall|k: int|
        0 <= k < post.locations@.len() implies post.cons_cells.live_at(
        (#[trigger] post.locations@[k]).0.0,
    ) by {
        assert(pre.locations@[k] == post.locations@[k]);
        let u = GcThing::Cons(pre.locations@[k].0);
        assert(pre.live(u));
        assert(post.live(u));
    }
    assert(post.activations.live_at(post.global_activation.0)) by {
        let u = GcThing::Activation(pre.global_activation);
        assert(pre.live(u));
        assert(post.live(u));
    }
    assert(post.wf());
}

/// Membership of the flattened reference list of a sequence of values:
/// exactly the handles the values carry.
pub proof fn lemma_values_refs_mem(s: Seq<Value>)
    ensures
        forall|t: GcThing|
            #[trigger] values_refs(s).contains(t) ==> exists|k: int|
                0 <= k < s.len() && (#[trigger] s[k]).spec_gc_thing() == Some(t),
        forall|k: int|
            0 <= k < s.len() ==> match (#[trigger] s[k]).spec_gc_thing() {
                Some(t) => values_refs(s).contains(t),
                None => true,
            },
    decreases s.len(),
{
    if s.len() == 0 {
    } else {
        lemma_values_refs_mem(s.drop_first());
        assert forall|t: GcThing|
            values_refs(s).contains(t) implies exists|k: int|
            0 <= k < s.len() && (#[trigger] s[k]).spec_gc_thing() == Some(t) by {
            let i = choose|i: int| 0 <= i < values_refs(s).len() && values_refs(s)[i] == t;
            let head = s.first().spec_refs();
            if i < head.len() {
                assert(s[0].spec_gc_thing() == Some(t));
            } else {
                assert(values_refs(s.drop_first())[i - head.len()] == t);
                assert(values_refs(s.drop_first()).contains(t));
                let k = choose|k: int|
                    0 <= k < s.drop_first().len() && (#[trigger] s.drop_first()[k]).spec_gc_thing()
                        == Some(t);
                assert(s[k + 1].spec_gc_thing() == Some(t));
            }
        }
        assert forall|k: int|
            0 <= k < s.len() implies match (#[trigger] s[k]).spec_gc_thing() {
            Some(t) => values_refs(s).contains(t),
            None => true,
        } by {
            let head = s.first().spec_refs();
            match s[k].spec_gc_thing() {
                Some(t) => {
                    if k == 0 {
                        assert(head[0] == t);
                        assert(values_refs(s)[0] == t);
                    } else {
                        assert(s.drop_first()[k - 1].spec_gc_thing() == Some(t));
                        assert(values_refs(s.drop_first()).contains(t));
                        let i = choose|i: int|
                            0 <= i < values_refs(s.drop_first()).len() && values_refs(
                                s.drop_first(),
                            )[i] == t;
                        assert(values_refs(s)[head.len() + i] == t);
                    }
                },
                None => {},
            }
        }
    }
}

/// ## `Heap` object access methods
impl Heap {
    /// Read the cons cell `p` points at.
    pub fn get_cons(&self, p: ConsPtr) -> (r: Cons)
        requires
            self.wf(),
            self.live(GcThing::Cons(p)),
        ensures
            r == self.cons_at(p),
    {
        *self.cons_cells.get(p.0)
    }

    /// Read the string `p` points at.
    pub fn get_string(&self, p: StringPtr) -> (r: String)
        requires
            self.wf(),
            self.live(GcThing::String(p)),
        ensures
            r == self.string_at(p),
    {
        self.strings.get(p.0).clone()
    }

    /// Read the procedure `p` points at.
    pub fn get_procedure(&self, p: ProcedurePtr) -> (r: Procedure)
        requires
            self.wf(),
            self.live(GcThing::Procedure(p)),
        ensures
            r == self.proc_at(p),
    {
        *self.procedures.get(p.0)
    }

    /// Read the activation `p` points at, as an owned value.
    pub fn read_activation(&self, p: ActivationPtr) -> (r: Activation)
        requires
            self.wf(),
            self.live(GcThing::Activation(p)),
        ensures
            r.parent == self.act_at(p).parent,
            r.args@ == self.act_at(p).args@,
    {
        let src = self.activations.get(p.0);
        let parent = src.parent;
        let n = src.args.len();
        let mut args: Vec<Value> = Vec::new();
        let mut k: usize = 0;
        while k < n
            invariant
                k <= n,
                n == src.args@.len(),
                args@ == src.args@.take(k as int),
            decreases n - k,
        {
            args.push(src.args[k]);
            proof {
                assert(args@ =~= src.args@.take(k as int + 1));
            }
            k += 1;
        }
        proof {
            assert(src.args@.take(n as int) =~= src.args@);
        }
        Activation { parent, args }
    }

    /// Overwrite the cons cell `p` points at. The new contents may only
    /// reference live objects, which keeps the heap closed.
    pub fn write_cons(&mut self, p: ConsPtr, c: Cons)
        requires
            old(self).wf(),
            old(self).live(GcThing::Cons(p)),
            cons_ok(*old(self), c),
        ensures
            final(self).wf(),
            mutate_rel(*old(self), *final(self), GcThing::Cons(p)),
            final(self).cons_at(p) == c,
    {
        self.cons_cells.set_slot(p.0, c);
        proof {
            assert(mutate_rel(*old(self), *self, GcThing::Cons(p))) by {
                assert forall|u: GcThing| self.live(u) == old(self).live(u) by {}
            }
            assert forall|k: int|
                0 <= k < self.succs(GcThing::Cons(p)).len() implies self.live(
                #[trigger] self.succs(GcThing::Cons(p))[k],
            ) by {
                let refs = c.spec_refs();
                assert(refs == c.spec_car().spec_refs() + c.spec_cdr().spec_refs());
                if k < c.spec_car().spec_refs().len() {
                    assert(refs[k] == c.spec_car().spec_refs()[k]);
                } else {
                    assert(refs[k] == c.spec_cdr().spec_refs()[k - c.spec_car().spec_refs().len()]);
                }
            }
            lemma_mutate(*old(self), *self, GcThing::Cons(p));
        }
    }

    /// Get the car of the pair `p` points at.
    pub fn car_of(&self, p: ConsPtr) -> (r: Value)
        requires
            self.wf(),
            self.live(GcThing::Cons(p)),
        ensures
            r == self.cons_at(p).spec_car(),
    {
        let c = self.get_cons(p);
        c.car()
    }

    /// Get the cdr of the pair `p` points at.
    pub fn cdr_of(&self, p: ConsPtr) -> (r: Value)
        requires
            self.wf(),
            self.live(GcThing::Cons(p)),
        ensures
            r == self.cons_at(p).spec_cdr(),
    {
        let c = self.get_cons(p);
        c.cdr()
    }

    /// Set the car of the pair `p` points at.
    pub fn set_car(&mut self, p: ConsPtr, car: Value)
        requires
            old(self).wf(),
            old(self).live(GcThing::Cons(p)),
            value_live(*old(self), car),
        ensures
            final(self).wf(),
            mutate_rel(*old(self), *final(self), GcThing::Cons(p)),
            final(self).cons_at(p) == (Cons { car, cdr: old(self).cons_at(p).spec_cdr() }),
    {
        let mut c = self.get_cons(p);
        c.set_car(car);
        proof {
            let u = GcThing::Cons(p);
            assert(cons_ok(*old(self), c)) by {
                match old(self).cons_at(p).spec_cdr().spec_gc_thing() {
                    Some(t) => {
                        let refs = old(self).succs(u);
                        assert(old(self).cons_at(p).spec_cdr().spec_refs() == seq![t]);
                        assert(refs[refs.len() - 1] == t);
                        assert(old(self).live(old(self).succs(u)[refs.len() - 1]));
                    },
                    None => {},
                }
            }
        }
        self.write_cons(p, c);
    }

    /// Set the cdr of the pair `p` points at.
    pub fn set_cdr(&mut self, p: ConsPtr, cdr: Value)
        requires
            old(self).wf(),
            old(self).live(GcThing::Cons(p)),
            value_live(*old(self), cdr),
        ensures
            final(self).wf(),
            mutate_rel(*old(self), *final(self), GcThing::Cons(p)),
            final(self).cons_at(p) == (Cons { car: old(self).cons_at(p).spec_car(), cdr }),
    {
        let mut c = self.get_cons(p);
        c.set_cdr(cdr);
        proof {
            let u = GcThing::Cons(p);
            assert(cons_ok(*old(self), c)) by {
                match old(self).cons_at(p).spec_car().spec_gc_thing() {
                    Some(t) => {
                        assert(old(self).cons_at(p).spec_car().spec_refs() == seq![t]);
                        assert(old(self).succs(u)[0] == t);
                        assert(old(self).live(old(self).succs(u)[0]));
                    },
                    None => {},
                }
            }
        }
        self.write_cons(p, c);
    }

    /// Overwrite the string `p` points at with the given contents.
    pub fn set_string(&mut self, p: StringPtr, s: String)
        requires
            old(self).wf(),
            old(self).live(GcThing::String(p)),
            forall|k: int|
                0 <= k < old(self).symbol_table@.len() ==> (
                #[trigger] old(self).symbol_table@[k]).1 != p,
        ensures
            final(self).wf(),
            mutate_rel(*old(self), *final(self), GcThing::String(p)),
            final(self).string_at(p) == s,
    {
        self.strings.set_slot(p.0, s);
        proof {
            assert(mutate_rel(*old(self), *self, GcThing::String(p)));
            assert(self.succs(GcThing::String(p)) == Seq::<GcThing>::empty());
            lemma_mutate(*old(self), *self, GcThing::String(p));
        }
    }

    /// Overwrite the activation `p` points at. The new contents may only
    /// reference live objects.
    pub fn write_activation(&mut self, p: ActivationPtr, a: Activation)
        requires
            old(self).wf(),
            old(self).live(GcThing::Activation(p)),
            activation_ok(*old(self), a),
        ensures
            final(self).wf(),
            mutate_rel(*old(self), *final(self), GcThing::Activation(p)),
            final(self).act_at(p).parent == a.parent,
            final(self).act_at(p).args@ == a.args@,
    {
        self.activations.set_slot(p.0, a);
        proof {
            assert(mutate_rel(*old(self), *self, GcThing::Activation(p)));
            assert forall|k: int|
                0 <= k < self.succs(GcThing::Activation(p)).len() implies self.live(
                #[trigger] self.succs(GcThing::Activation(p))[k],
            ) by {
                let refs = a.spec_refs();
                lemma_values_refs_mem(a.args@);
                if k < values_refs(a.args@).len() {
                    assert(refs[k] == values_refs(a.args@)[k]);
                    assert(values_refs(a.args@).contains(refs[k]));
                    let m = choose|m: int|
                        0 <= m < a.args@.len() && (#[trigger] a.args@[m]).spec_gc_thing() == Some(
                            refs[k],
                        );
                    assert(value_live(*old(self), a.args@[m]));
                } else {
                    match a.parent {
                        Some(q) => {
                            assert(refs[k] == GcThing::Activation(q));
                        },
                        None => {
                            assert(false);
                        },
                    }
                }
            }
            lemma_mutate(*old(self), *self, GcThing::Activation(p));
        }
    }

    /// Overwrite the procedure `p` points at. The new contents may only
    /// reference live objects.
    pub fn write_procedure(&mut self, p: ProcedurePtr, c: Procedure)
        requires
            old(self).wf(),
            old(self).live(GcThing::Procedure(p)),
            procedure_ok(*old(self), c),
        ensures
            final(self).wf(),
            mutate_rel(*old(self), *final(self), GcThing::Procedure(p)),
            final(self).proc_at(p) == c,
    {
        self.procedures.set_slot(p.0, c);
        proof {
            assert(mutate_rel(*old(self), *self, GcThing::Procedure(p)));
            assert forall|k: int|
                0 <= k < self.succs(GcThing::Procedure(p)).len() implies self.live(
                #[trigger] self.succs(GcThing::Procedure(p))[k],
            ) by {
                let pr = c.params.spec_refs();
                let br = c.body.spec_refs();
                let ar = (match c.act {
                    Some(q) => seq![GcThing::Activation(q)],
                    None => Seq::<GcThing>::empty(),
                });
                assert(c.spec_refs() == pr + br + ar);
                if k < pr.len() {
                    assert(c.spec_refs()[k] == pr[k]);
                } else if k < pr.len() + br.len() {
                    assert(c.spec_refs()[k] == br[k - pr.len()]);
                } else {
                    assert(c.spec_refs()[k] == ar[k - pr.len() - br.len()]);
                }
            }
            lemma_mutate(*old(self), *self, GcThing::Procedure(p));
        }
    }
}

/// The position of the first symbol-table entry whose name reads `n`, or
/// -1 if no entry does.
pub open spec fn symfind(s: Seq<(String, StringPtr)>, n: Seq<char>) -> int
    decreases s.len(),
{
    if s.len() == 0 {
        -1
    } else if s.first().0@ == n {
        0
    } else {
        let r = symfind(s.drop_first(), n);
        if r == -1 {
            -1
        } else {
            r + 1
        }
    }
}

/// What `symfind` means: the first entry with the name, or -1 when no
/// entry carries it.
pub proof fn lemma_symfind(s: Seq<(String, StringPtr)>, n: Seq<char>)
    ensures
        -1 <= symfind(s, n) < s.len(),
        symfind(s, n) >= 0 ==> s[symfind(s, n)].0@ == n,
        forall|j: int| 0 <= j < symfind(s, n) ==> (#[trigger] s[j]).0@ != n,
        symfind(s, n) == -1 ==> forall|j: int| 0 <= j < s.len() ==> (#[trigger] s[j]).0@ != n,
    decreases s.len(),
{
    if s.len() > 0 {
        lemma_symfind(s.drop_first(), n);
        assert(forall|j: int|
            0 <= j < s.drop_first().len() ==> (#[trigger] s.drop_first()[j]) == s[j + 1]);
        if s.first().0@ != n {
            let r = symfind(s.drop_first(), n);
            if r >= 0 {
                assert(s[r + 1] == s.drop_first()[r]);
                assert forall|j: int| 0 <= j < symfind(s, n) implies (#[trigger] s[j]).0@ != n by {
                    if j > 0 {
                        assert(s.drop_first()[j - 1].0@ != n);
                    }
                }
            } else {
                assert forall|j: int| 0 <= j < s.len() implies (#[trigger] s[j]).0@ != n by {
                    if j > 0 {
                        assert(s.drop_first()[j - 1].0@ != n);
                    }
                }
            }
        }
    }
}

/// The position of the registry entry for the pair `p`, or -1 if the
/// pair has no registered location.
pub open spec fn locfind(s: Seq<(ConsPtr, Location)>, p: ConsPtr) -> int
    decreases s.len(),
{
    if s.len() == 0 {
        -1
    } else if s.first().0 == p {
        0
    } else {
        let r = locfind(s.drop_first(), p);
        if r == -1 {
            -1
        } else {
            r + 1
        }
    }
}

/// What `locfind` means: the first entry for the pair, or -1 when no
/// entry carries it.
pub proof fn lemma_locfind(s: Seq<(ConsPtr, Location)>, p: ConsPtr)
    ensures
        -1 <= locfind(s, p) < s.len(),
        locfind(s, p) >= 0 ==> s[locfind(s, p)].0 == p,
        forall|j: int| 0 <= j < locfind(s, p) ==> (#[trigger] s[j]).0 != p,
        locfind(s, p) == -1 ==> forall|j: int| 0 <= j < s.len() ==> (#[trigger] s[j]).0 != p,
    decreases s.len(),
{
    if s.len() > 0 {
        lemma_locfind(s.drop_first(), p);
        assert(forall|j: int|
            0 <= j < s.drop_first().len() ==> (#[trigger] s.drop_first()[j]) == s[j + 1]);
        if s.first().0 != p {
            let r = locfind(s.drop_first(), p);
            if r >= 0 {
                assert(s[r + 1] == s.drop_first()[r]);
                assert forall|j: int| 0 <= j < locfind(s, p) implies (#[trigger] s[j]).0 != p by {
                    if j > 0 {
                        assert(s.drop_first()[j - 1].0 != p);
                    }
                }
            } else {
                assert forall|j: int| 0 <= j < s.len() implies (#[trigger] s[j]).0 != p by {
                    if j > 0 {
                        assert(s.drop_first()[j - 1].0 != p);
                    }
                }
            }
        }
    }
}

/// What interning a name guarantees: afterwards the table has exactly
/// one canonical entry for the name, the returned value is a symbol
/// wrapping that entry's string slot, the slot holds the name's text,
/// and existing entries are never disturbed.
pub open spec fn intern_post(pre: Heap, post: Heap, rv: Value, n: Seq<char>) -> bool {
    let i = symfind(post.symbol_table@, n);
    &&& i >= 0
    &&& rv == Value::Symbol(post.symbol_table@[i].1)
    &&& post.live(GcThing::String(post.symbol_table@[i].1))
    &&& post.rooted(GcThing::String(post.symbol_table@[i].1))
    &&& post.string_at(post.symbol_table@[i].1)@ == n
    &&& symfind(pre.symbol_table@, n) >= 0 ==> post.symbol_table@ == pre.symbol_table@
    &&& symfind(pre.symbol_table@, n) < 0 ==> post.symbol_table@.len() == pre.symbol_table@.len()
        + 1 && i == pre.symbol_table@.len()
    &&& forall|k: int|
        0 <= k < pre.symbol_table@.len() ==> #[trigger] post.symbol_table@[k]
            == pre.symbol_table@[k]
}

/// The machine limit on root registrations: no reference count is about
/// to overflow.
pub open spec fn root_headroom(h: Heap) -> bool {
    forall|t: GcThing| #[trigger] h.root_count(t) < usize::MAX - 1
}

/// ## `Heap` methods for symbols
impl Heap {
    /// Ensure that there is an interned symbol extant for the given
    /// name and return it. The canonical string slot of an interned
    /// symbol is an implicit GC root, so interning the same name later
    /// always yields the identical slot handle.
    pub fn get_or_create_symbol(&mut self, str: String) -> (r: RootedValue)
        requires
            old(self).wf(),
            old(self).headroom(),
            root_headroom(*old(self)),
        ensures
            final(self).wf(),
            intern_post(*old(self), *final(self), r.ptr, str@),
            forall|u: GcThing|
                old(self).live(u) && old(self).reachable(u) ==> final(self).live(u),
            final(self).locations == old(self).locations,
            final(self).environment == old(self).environment,
            final(self).global_activation == old(self).global_activation,
            // A hit is a pure lookup: nothing is allocated, no counter
            // moves, and the only change is the root registration of the
            // returned symbol's canonical string.
            symfind(old(self).symbol_table@, str@) >= 0 ==> heap_with_extra_root(
                *old(self),
                *final(self),
                Some(
                    GcThing::String(
                        old(self).symbol_table@[symfind(old(self).symbol_table@, str@)].1,
                    ),
                ),
            ),
    {
        proof {
            lemma_symfind(old(self).symbol_table@, str@);
        }
        let n = self.symbol_table.len();
        let mut i: usize = 0;
        while i < n
            invariant
                i <= n,
                self == old(self),
                n == self.symbol_table@.len(),
                old(self).wf(),
                root_headroom(*old(self)),
                forall|k: int| 0 <= k < i ==> (#[trigger] self.symbol_table@[k]).0@ != str@,
            decreases n - i,
        {
            if self.symbol_table[i].0.eq(&str) {
                let p = self.symbol_table[i].1;
                proof {
                    lemma_symfind(self.symbol_table@, str@);
                    if symfind(self.symbol_table@, str@) > i {
                        assert(self.symbol_table@[i as int].0@ != str@);
                    }
                    assert(symfind(self.symbol_table@, str@) == i);
                    assert(self.live(GcThing::String(p)));
                }
                let rv = Rooted::new(self, Value::Symbol(p));
                proof {
                    assert(self.rooted(GcThing::String(p)));
                    assert(self.symbol_rooted(GcThing::String(p)));
                    self.lemma_root_reachable(GcThing::String(p));
                    assert forall|u: GcThing|
                        old(self).live(u) && old(self).reachable(u) implies self.live(u) by {}
                    // A symbol's canonical string always holds the name it
                    // was interned under: the mutator never writes through
                    // the interner.
                    assert(self.string_at(p)@ == str@) by {
                        assert(old(self).string_at(p)@ == self.symbol_table@[i as int].0@);
                    }
                }
                return rv;
            }
            i += 1;
        }
        proof {
            lemma_symfind(self.symbol_table@, str@);
            if symfind(self.symbol_table@, str@) >= 0 {
                assert(self.symbol_table@[symfind(self.symbol_table@, str@)].0@ == str@);
            }
            assert(symfind(self.symbol_table@, str@) == -1);
        }
        let symbol = self.allocate_string();
        let ghost mid = *self;
        let ghost t = GcThing::String(symbol.ptr);
        proof {
            // The fresh slot cannot be a canonical symbol string: those
            // are roots, and the allocator never hands out a slot that
            // was live and reachable.
            assert forall|k: int| 0 <= k < self.symbol_table@.len() implies (
            #[trigger] self.symbol_table@[k]).1 != symbol.ptr by {
                let u = GcThing::String(old(self).symbol_table@[k].1);
                assert(old(self).live(u));
                assert(old(self).symbol_rooted(u));
                old(self).lemma_root_reachable(u);
                assert(self.symbol_table@[k] == old(self).symbol_table@[k]);
            }
        }
        self.set_string(symbol.get(), str.clone());
        let ghost mid2 = *self;
        let p = symbol.get();
        let ghost tab0 = self.symbol_table@;
        self.symbol_table.push((str, p));
        proof {
            assert(self.symbol_table@ == tab0.push((self.symbol_table@[tab0.len() as int].0, p)));
            // The fresh entry's name is new, so the table keys stay
            // distinct and the table still points at live strings.
            assert forall|k1: int, k2: int|
                0 <= k1 < k2 < self.symbol_table@.len() implies (
            #[trigger] self.symbol_table@[k1]).0@ != (#[trigger] self.symbol_table@[k2]).0@ by {
                if k2 < tab0.len() {
                    assert(self.symbol_table@[k1] == tab0[k1]);
                    assert(self.symbol_table@[k2] == tab0[k2]);
                } else {
                    assert(self.symbol_table@[k1] == tab0[k1]);
                    assert(mid2.symbol_table@[k1].0@ != str@);
                }
            }
            assert forall|k: int|
                0 <= k < self.symbol_table@.len() implies self.strings.live_at(
                (#[trigger] self.symbol_table@[k]).1.0,
            ) by {
                if k < tab0.len() {
                    assert(self.symbol_table@[k] == tab0[k]);
                    assert(mid2.strings.live_at(tab0[k].1.0));
                }
            }
            assert(self.wf()) by {
                assert(self.closed()) by {
                    assert forall|u: GcThing, k: int|
                        self.live(u) && 0 <= k < self.succs(u).len() implies self.live(
                        #[trigger] self.succs(u)[k],
                    ) by {
                        assert(mid2.live(u));
                        assert(mid2.succs(u) == self.succs(u));
                        assert(mid2.live(mid2.succs(u)[k]));
                    }
                }
            }
        }
        let ghost mid3 = *self;
        let rv = Rooted::new(self, Value::Symbol(p));
        proof {
            lemma_symfind(self.symbol_table@, str@);
            assert forall|j: int| 0 <= j < tab0.len() implies (
            #[trigger] self.symbol_table@[j]).0@ != str@ by {
                assert(self.symbol_table@[j] == tab0[j]);
            }
            if symfind(self.symbol_table@, str@) < tab0.len() {
                assert(self.symbol_table@[symfind(self.symbol_table@, str@)].0@ == str@);
            }
            assert(symfind(self.symbol_table@, str@) == tab0.len());
            assert(self.string_at(p)@ == str@) by {
                assert(mid2.string_at(p)@ == str@);
            }
            assert forall|u: GcThing|
                old(self).live(u) && old(self).reachable(u) implies self.live(u) by {
                assert(mid.live(u));
            }
            assert(intern_post(*old(self), *self, rv.ptr, str@));
        }
        rv
    }

    pub fn quote_symbol(&mut self) -> (r: RootedValue)
        requires
            old(self).wf(),
            old(self).headroom(),
            root_headroom(*old(self)),
        ensures
            final(self).wf(),
            intern_post(*old(self), *final(self), r.ptr, "quote"@),
    {
        self.get_or_create_symbol(String::from_str("quote"))
    }

    pub fn if_symbol(&mut self) -> (r: RootedValue)
        requires
            old(self).wf(),
            old(self).headroom(),
            root_headroom(*old(self)),
        ensures
            final(self).wf(),
            intern_post(*old(self), *final(self), r.ptr, "if"@),
    {
        self.get_or_create_symbol(String::from_str("if"))
    }

    pub fn begin_symbol(&mut self) -> (r: RootedValue)
        requires
            old(self).wf(),
            old(self).headroom(),
            root_headroom(*old(self)),
        ensures
            final(self).wf(),
            intern_post(*old(self), *final(self), r.ptr, "begin"@),
    {
        self.get_or_create_symbol(String::from_str("begin"))
    }

    pub fn define_symbol(&mut self) -> (r: RootedValue)
        requires
            old(self).wf(),
            old(self).headroom(),
            root_headroom(*old(self)),
        ensures
            final(self).wf(),
            intern_post(*old(self), *final(self), r.ptr, "define"@),
    {
        self.get_or_create_symbol(String::from_str("define"))
    }

    pub fn set_bang_symbol(&mut self) -> (r: RootedValue)
        requires
            old(self).wf(),
            old(self).headroom(),
            root_headroom(*old(self)),
        ensures
            final(self).wf(),
            intern_post(*old(self), *final(self), r.ptr, "set!"@),
    {
        self.get_or_create_symbol(String::from_str("set!"))
    }

    pub fn unspecified_symbol(&mut self) -> (r: RootedValue)
        requires
            old(self).wf(),
            old(self).headroom(),
            root_headroom(*old(self)),
        ensures
            final(self).wf(),
            intern_post(*old(self), *final(self), r.ptr, "unspecified"@),
    {
        self.get_or_create_symbol(String::from_str("unspecified"))
    }

    pub fn lambda_symbol(&mut self) -> (r: RootedValue)
        requires
            old(self).wf(),
            old(self).headroom(),
            root_headroom(*old(self)),
        ensures
            final(self).wf(),
            intern_post(*old(self), *final(self), r.ptr, "lambda"@),
    {
        self.get_or_create_symbol(String::from_str("lambda"))
    }

    /// The end-of-file object. Its name contains whitespace, which no
    /// reader can produce as a symbol, so a program can never capture it
    /// by reading.
    pub fn eof_symbol(&mut self) -> (r: RootedValue)
        requires
            old(self).wf(),
            old(self).headroom(),
            root_headroom(*old(self)),
        ensures
            final(self).wf(),
            intern_post(*old(self), *final(self), r.ptr, "< END OF FILE >"@),
    {
        self.get_or_create_symbol(String::from_str("< END OF FILE >"))
    }
}

/// ## `Heap` methods for source locations
impl Heap {
    /// Register the given pair as having originated from the given
    /// location. Registration pins the pair: a registered pair is an
    /// implicit GC root for the rest of the heap's lifetime, so reader
    /// output survives transient allocations until the mutator decides
    /// its fate. The handle's explicit registration is given back.
    pub fn enlocate(&mut self, loc: Location, cons: RootedConsPtr)
        requires
            old(self).wf(),
            old(self).live(GcThing::Cons(cons.ptr)),
        ensures
            final(self).wf(),
            final(self).locations@ == (if locfind(old(self).locations@, cons.ptr) >= 0 {
                old(self).locations@.update(
                    locfind(old(self).locations@, cons.ptr),
                    (cons.ptr, loc),
                )
            } else {
                old(self).locations@.push((cons.ptr, loc))
            }),
            final(self).symbol_table == old(self).symbol_table,
            final(self).environment == old(self).environment,
            final(self).global_activation == old(self).global_activation,
            forall|u: GcThing| final(self).live(u) == old(self).live(u),
            forall|u: GcThing|
                final(self).root_count(u) == old(self).root_count(u) - (if u == GcThing::Cons(
                    cons.ptr,
                ) && old(self).root_count(u) > 0 {
                    1nat
                } else {
                    0nat
                }),
    {
        proof {
            lemma_locfind(old(self).locations@, cons.ptr);
        }
        let n = self.locations.len();
        let mut i: usize = 0;
        while i < n
            invariant
                i <= n,
                self == old(self),
                n == self.locations@.len(),
                old(self).wf(),
                old(self).live(GcThing::Cons(cons.ptr)),
                forall|k: int| 0 <= k < i ==> (#[trigger] self.locations@[k]).0 != cons.ptr,
            decreases n - i,
        {
            let hit = self.locations[i].0 == cons.ptr;
            if hit {
                proof {
                    lemma_locfind(self.locations@, cons.ptr);
                    if locfind(self.locations@, cons.ptr) > i {
                        assert(self.locations@[i as int].0 != cons.ptr);
                    }
                    assert(locfind(self.locations@, cons.ptr) == i);
                }
                self.locations.set(i, (cons.ptr, loc));
                proof {
                    lemma_graph_eq(*old(self), *self);
                    assert forall|k1: int, k2: int|
                        0 <= k1 < k2 < self.locations@.len() implies (
                    #[trigger] self.locations@[k1]).0 != (#[trigger] self.locations@[k2]).0 by {
                        assert(self.locations@[k1].0 == old(self).locations@[k1].0);
                        assert(self.locations@[k2].0 == old(self).locations@[k2].0);
                    }
                    assert forall|k: int|
                        0 <= k < self.locations@.len() implies self.cons_cells.live_at(
                        (#[trigger] self.locations@[k]).0.0,
                    ) by {
                        if k != i {
                            assert(self.locations@[k] == old(self).locations@[k]);
                        }
                    }
                    assert(self.wf());
                }
                self.drop_root(&cons);
                return ;
            }
            i += 1;
        }
        proof {
            lemma_locfind(self.locations@, cons.ptr);
            if locfind(self.locations@, cons.ptr) >= 0 {
                assert(self.locations@[locfind(self.locations@, cons.ptr)].0 == cons.ptr);
            }
            assert(locfind(self.locations@, cons.ptr) == -1);
        }
        let ghost l0 = self.locations@;
        self.locations.push((cons.ptr, loc));
        proof {
            lemma_graph_eq(*old(self), *self);
            assert forall|k1: int, k2: int|
                0 <= k1 < k2 < self.locations@.len() implies (#[trigger] self.locations@[k1]).0
                != (#[trigger] self.locations@[k2]).0 by {
                assert(self.locations@[k1] == l0[k1]);
                if k2 < l0.len() {
                    assert(self.locations@[k2] == l0[k2]);
                } else {
                    assert(self.locations@[k2] == (cons.ptr, loc));
                    assert(l0[k1].0 != cons.ptr);
                }
            }
            assert forall|k: int|
                0 <= k < self.locations@.len() implies self.cons_cells.live_at(
                (#[trigger] self.locations@[k]).0.0,
            ) by {
                if k < l0.len() {
                    assert(self.locations@[k] == l0[k]);
                }
            }
            assert(self.wf());
        }
        self.drop_root(&cons);
    }

    /// Get the registered source location of the given pair. If the pair
    /// was not registered by the reader, the unknown sentinel is
    /// returned.
    pub fn locate(&self, cons: &RootedConsPtr) -> (r: Location)
        requires
            self.wf(),
        ensures
            ({
                let i = locfind(self.locations@, cons.ptr);
                if i >= 0 {
                    r == self.locations@[i].1
                } else {
                    r.file@ == Seq::<char>::empty() && r.line == 0 && r.column == 0
                }
            }),
    {
        proof {
            lemma_locfind(self.locations@, cons.ptr);
        }
        let n = self.locations.len();
        let mut i: usize = 0;
        while i < n
            invariant
                i <= n,
                n == self.locations@.len(),
                forall|k: int| 0 <= k < i ==> (#[trigger] self.locations@[k]).0 != cons.ptr,
            decreases n - i,
        {
            let hit = self.locations[i].0 == cons.ptr;
            if hit {
                proof {
                    lemma_locfind(self.locations@, cons.ptr);
                    if locfind(self.locations@, cons.ptr) > i {
                        assert(self.locations@[i as int].0 != cons.ptr);
                    }
                    assert(locfind(self.locations@, cons.ptr) == i);
                }
                return self.locations[i].1.duplicate();
            }
            i += 1;
        }
        proof {
            lemma_locfind(self.locations@, cons.ptr);
            if locfind(self.locations@, cons.ptr) >= 0 {
                assert(self.locations@[locfind(self.locations@, cons.ptr)].0 == cons.ptr);
            }
        }
        Location::unknown()
    }
}

/// ## `Heap` primitive registration
impl Heap {
    /// Seed one host-provided primitive: bind its name in the youngest
    /// scope (the global scope at heap construction) and append its value
    /// to the global activation's slots.
    pub fn define_primitive(&mut self, name: String, val: Value)
        requires
            old(self).wf(),
            value_live(*old(self), val),
            old(self).environment.frames().last().len() < u32::MAX,
            old(self).act_at(old(self).global_activation).args@.len() < u32::MAX,
        ensures
            final(self).wf(),
            ({
                let fs = old(self).environment.frames();
                let f = fs.last();
                let j = frame_find(f, name@);
                if j >= 0 {
                    final(self).environment.frames() == fs
                } else {
                    final(self).environment.frames() == fs.update(
                        fs.len() - 1,
                        f.push(name@),
                    )
                }
            }),
            final(self).act_at(final(self).global_activation).args@ == old(self).act_at(
                old(self).global_activation,
            ).args@.push(val),
            final(self).global_activation == old(self).global_activation,
            mutate_rel_except_env(*old(self), *final(self)),
    {
        let _ = self.environment.define(name);
        let ga = self.global_activation;
        proof {
            lemma_graph_eq(*old(self), *self);
            assert(self.wf());
            lemma_live_activation_ok(*self, ga);
        }
        let mut a = self.read_activation(ga);
        a.push_value(val);
        proof {
            assert(activation_ok(*self, a)) by {
                assert forall|m: int| 0 <= m < a.args@.len() implies value_live(
                    *self,
                    #[trigger] a.args@[m],
                ) by {
                    if m < a.args@.len() - 1 {
                        assert(a.args@[m] == self.act_at(ga).args@[m]);
                        assert(value_live(*self, self.act_at(ga).args@[m]));
                    } else {
                        assert(a.args@[m] == val);
                    }
                }
            }
        }
        self.write_activation(ga, a);
    }
}

/// Everything but the environment and the global activation's contents
/// is untouched.
pub open spec fn mutate_rel_except_env(pre: Heap, post: Heap) -> bool {
    &&& post.roots == pre.roots
    &&& post.symbol_table == pre.symbol_table
    &&& post.locations == pre.locations
    &&& post.global_activation == pre.global_activation
    &&& post.allocations == pre.allocations
    &&& post.allocations_threshold == pre.allocations_threshold
    &&& forall|u: GcThing| post.live(u) == pre.live(u)
}

/// ## The collector's laws
///
/// These are the library's statements of what a collection does, proved
/// once and for all from the contract of [`Heap::collect_garbage`].
impl Heap {
    /// After `collect_garbage`, every slot handle that was transitively
    /// reachable from a root still dereferences to the same object.
    pub proof fn lemma_gc_preserves_reachable(pre: Heap, post: Heap)
        requires
            gc_rel(pre, post),
        ensures
            forall|t: GcThing| pre.live(t) && pre.reachable(t) ==> post.live(t),
            forall|p: ConsPtr|
                pre.live(GcThing::Cons(p)) && pre.reachable(GcThing::Cons(p)) ==> post.cons_at(p)
                    == pre.cons_at(p),
            forall|p: StringPtr|
                pre.live(GcThing::String(p)) && pre.reachable(GcThing::String(p))
                    ==> post.string_at(p) == pre.string_at(p),
            forall|p: ActivationPtr|
                pre.live(GcThing::Activation(p)) && pre.reachable(GcThing::Activation(p))
                    ==> post.act_at(p) == pre.act_at(p),
            forall|p: ProcedurePtr|
                pre.live(GcThing::Procedure(p)) && pre.reachable(GcThing::Procedure(p))
                    ==> post.proc_at(p) == pre.proc_at(p),
    {
    }

    /// After `collect_garbage`, every slot handle that was not
    /// transitively reachable from any root is reclaimed: its slot is no
    /// longer allocated, and is back on its arena's free list.
    pub proof fn lemma_gc_reclaims_unreachable(pre: Heap, post: Heap)
        requires
            gc_rel(pre, post),
        ensures
            forall|t: GcThing| !pre.reachable(t) ==> !post.live(t),
    {
    }

    /// A pair registered via `enlocate` survives any collection: its
    /// registration makes it a root, so it stays live with its contents
    /// intact until the heap is torn down (no removal operation exists).
    pub proof fn lemma_located_pair_survives(pre: Heap, post: Heap, p: ConsPtr)
        requires
            pre.wf(),
            gc_rel(pre, post),
            locfind(pre.locations@, p) >= 0,
        ensures
            post.live(GcThing::Cons(p)),
            post.cons_at(p) == pre.cons_at(p),
            locfind(post.locations@, p) >= 0,
    {
        let t = GcThing::Cons(p);
        lemma_locfind(pre.locations@, p);
        assert(pre.location_rooted(t)) by {
            assert(pre.locations@[locfind(pre.locations@, p)].0 == p);
        }
        pre.lemma_root_reachable(t);
        pre.lemma_reachable_live();
        assert(post.locations@ == pre.locations@);
    }

    /// An interned symbol's canonical string survives any collection,
    /// whether or not the mutator still roots it: the interner retains
    /// it.
    pub proof fn lemma_interned_symbol_survives(pre: Heap, post: Heap, n: Seq<char>)
        requires
            pre.wf(),
            gc_rel(pre, post),
            symfind(pre.symbol_table@, n) >= 0,
        ensures
            post.live(GcThing::String(pre.symbol_table@[symfind(pre.symbol_table@, n)].1)),
            post.string_at(pre.symbol_table@[symfind(pre.symbol_table@, n)].1) == pre.string_at(
                pre.symbol_table@[symfind(pre.symbol_table@, n)].1,
            ),
            symfind(post.symbol_table@, n) == symfind(pre.symbol_table@, n),
    {
        let i = symfind(pre.symbol_table@, n);
        lemma_symfind(pre.symbol_table@, n);
        let t = GcThing::String(pre.symbol_table@[i].1);
        assert(pre.symbol_rooted(t));
        pre.lemma_root_reachable(t);
        pre.lemma_reachable_live();
        assert(post.symbol_table@ == pre.symbol_table@);
    }

    /// Interning the same name twice yields symbols whose slot handles
    /// are identical: the second lookup hits the entry the first one
    /// created or found.
    pub proof fn lemma_symbol_interning(
        h0: Heap,
        h1: Heap,
        r1: Value,
        h2: Heap,
        r2: Value,
        n: Seq<char>,
    )
        requires
            intern_post(h0, h1, r1, n),
            intern_post(h1, h2, r2, n),
        ensures
            r1 == r2,
    {
        assert(symfind(h1.symbol_table@, n) >= 0);
        assert(h2.symbol_table@ == h1.symbol_table@);
    }
}


/// The heap `h` is `base` with one fresh scope pushed, binding `ns` in
/// order: everything but the environment is the same.
pub open spec fn env_extended_from(base: Heap, h: Heap, ns: Seq<Seq<char>>) -> bool {
    &&& h.cons_cells == base.cons_cells
    &&& h.strings == base.strings
    &&& h.activations == base.activations
    &&& h.procedures == base.procedures
    &&& h.roots == base.roots
    &&& h.symbol_table == base.symbol_table
    &&& h.locations == base.locations
    &&& h.global_activation == base.global_activation
    &&& h.allocations == base.allocations
    &&& h.allocations_threshold == base.allocations_threshold
    &&& h.environment.frames() == base.environment.frames().push(extend_frame(ns))
}

/// The two heaps agree on everything but the environment.
pub open spec fn heap_eq_but_env(a: Heap, b: Heap) -> bool {
    &&& b.cons_cells == a.cons_cells
    &&& b.strings == a.strings
    &&& b.activations == a.activations
    &&& b.procedures == a.procedures
    &&& b.roots == a.roots
    &&& b.symbol_table == a.symbol_table
    &&& b.locations == a.locations
    &&& b.global_activation == a.global_activation
    &&& b.allocations == a.allocations
    &&& b.allocations_threshold == a.allocations_threshold
}

/// ## `Heap` environment methods
impl Heap {
    /// Extend the environment with a new lexical scope containing the
    /// given names, perform some work, and pop the scope again on the
    /// way out. The block receives the heap with the scope in place and
    /// gives it back; it must keep the heap well formed and leave the
    /// frame stack as deep as it found it, so the scope it ran in is
    /// exactly the one popped here.
    pub fn with_extended_env<T, F: FnOnce(Heap) -> (Heap, T)>(self, names: Vec<String>, block: F)
        -> (r: (Heap, T))
        requires
            self.wf(),
            self.environment.frames().len() < u32::MAX,
            names@.len() < u32::MAX,
            forall|h: Heap|
                h.wf() && env_extended_from(self, h, names.deep_view()) ==> call_requires(
                    block,
                    (h,),
                ),
            forall|h: Heap, out: (Heap, T)|
                #[trigger] call_ensures(block, (h,), out) ==> out.0.wf()
                    && out.0.environment.frames().len() == h.environment.frames().len(),
        ensures
            r.0.wf(),
            exists|hin: Heap, hout: Heap|
                {
                    &&& env_extended_from(self, hin, names.deep_view())
                    &&& #[trigger] call_ensures(block, (hin,), (hout, r.1))
                    &&& heap_eq_but_env(hout, r.0)
                    &&& r.0.environment.frames() == hout.environment.frames().drop_last()
                },
    {
        let ghost base = self;
        let mut h = self;
        h.environment.extend(names);
        proof {
            lemma_graph_eq(base, h);
            assert(h.wf());
            assert(env_extended_from(base, h, names.deep_view()));
            assert(call_requires(block, (h,)));
        }
        let ghost hin = h;
        let (h2, t) = block(h);
        let ghost hout = h2;
        let mut h2 = h2;
        proof {
            assert(h2.environment.frames().len() == hin.environment.frames().len());
        }
        h2.environment.pop();
        proof {
            lemma_graph_eq(hout, h2);
            assert(h2.wf());
            assert(env_extended_from(base, hin, names.deep_view()) && call_ensures(
                block,
                (hin,),
                (hout, t),
            ) && heap_eq_but_env(hout, h2) && h2.environment.frames()
                == hout.environment.frames().drop_last());
        }
        let r = (h2, t);
        proof {
            assert(call_ensures(block, (hin,), (hout, r.1)));
            assert(exists|hin2: Heap, hout2: Heap|
                {
                    &&& env_extended_from(base, hin2, names.deep_view())
                    &&& #[trigger] call_ensures(block, (hin2,), (hout2, r.1))
                    &&& heap_eq_but_env(hout2, r.0)
                    &&& r.0.environment.frames() == hout2.environment.frames().drop_last()
                });
        }
        r
    }
}


/// ## `Heap` inspection methods
impl Heap {
    /// The number of arenas currently reserved for cons cells.
    pub fn cons_arena_count(&self) -> (r: usize)
        ensures
            r == self.cons_cells.arenas@.len(),
    {
        self.cons_cells.arenas.len()
    }

    /// The number of allocations since the last collection.
    pub fn pressure(&self) -> (r: usize)
        ensures
            r == self.allocations,
    {
        self.allocations
    }

    /// The allocation count above which the next allocation collects.
    pub fn pressure_threshold(&self) -> (r: usize)
        ensures
            r == self.allocations_threshold,
    {
        self.allocations_threshold
    }

    /// Whether the pair `p` points at is currently allocated.
    pub fn live_cons(&self, p: ConsPtr) -> (r: bool)
        requires
            self.wf(),
        ensures
            r == self.live(GcThing::Cons(p)),
    {
        self.cons_cells.is_live(p.0)
    }

    /// Whether the activation `p` points at is currently allocated.
    pub fn live_activation(&self, p: ActivationPtr) -> (r: bool)
        requires
            self.wf(),
        ensures
            r == self.live(GcThing::Activation(p)),
    {
        self.activations.is_live(p.0)
    }
}

} // verus!
