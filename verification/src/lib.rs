//! A shared, mutable collection that owns its values, hands out
//! reference-counted handles to them, and removes a value the moment its last
//! handle is released.
//!
//! Two realizations of the same contract live here:
//! - [`WeakSet`]: a densely packed slot table; handles name a slot index, and
//!   freed slots are recycled by later insertions.
//! - [`rcset::RcSet`]: an identity table; handles name a unique identifier
//!   assigned at insertion time, and identifiers are never reused.
//!
//! Handles carry no pointer back into the collection: every operation on a
//! handle names the collection it came from, and releasing a handle is an
//! explicit call ([`WeakSet::drop_entry`], [`rcset::RcSet::drop_item`])
//! rather than a scope exit. In return, the discipline that a shared body
//! would have to check at run time is enforced statically and in contracts:
//! reading a stored value shares the collection, writing one demands it
//! exclusively, and inserting during an in-flight iteration is ruled out by
//! the iterator's precondition. A handle's slot or identifier stays live
//! while the handle does — [`WeakSetEntry::valid`] and
//! [`rcset::Item::valid`] are preserved by every operation but the one that
//! releases the handle itself — so well-formed use never observes a dangling
//! index.

use vstd::prelude::*;

pub mod rcset;

verus! {

/// One storage cell of a [`WeakSet`]: either empty, or holding a value
/// together with the number of live handles that point at it.
pub enum WeakSetSlot<T> {
    /// A freed (or never used) cell, eligible for reuse by a later insertion.
    Empty,
    /// A cell holding `value`, with `count` live handles referencing it.
    Used { value: T, count: usize },
}

/// Holds exactly when `i` is the index of the first empty slot of `slots`,
/// or `slots.len()` when every slot is occupied. This is the index an
/// insertion fills.
pub open spec fn is_first_empty<T>(slots: Seq<WeakSetSlot<T>>, i: int) -> bool {
    &&& 0 <= i <= slots.len()
    &&& forall|j: int| 0 <= j < i ==> slots[j] is Used
    &&& i < slots.len() ==> !(slots[i] is Used)
}

/// The slot table after an insertion of `value` at index `i`: a fresh slot is
/// appended when `i` is the current length, otherwise the empty slot at `i`
/// is reused. Either way the new slot starts with one handle.
pub open spec fn insert_at<T>(slots: Seq<WeakSetSlot<T>>, i: int, value: T) -> Seq<WeakSetSlot<T>>
    recommends
        0 <= i <= slots.len(),
{
    if i == slots.len() {
        slots.push(WeakSetSlot::Used { value, count: 1 })
    } else {
        slots.update(i, WeakSetSlot::Used { value, count: 1 })
    }
}

/// The slot table after one more handle to slot `i` is issued.
pub open spec fn retain_at<T>(slots: Seq<WeakSetSlot<T>>, i: int) -> Seq<WeakSetSlot<T>>
    recommends
        0 <= i < slots.len(),
        slots[i] is Used,
{
    slots.update(
        i,
        (WeakSetSlot::Used { value: slots[i]->value, count: (slots[i]->count + 1) as usize }),
    )
}

/// The slot table after one handle to slot `i` is released: the slot becomes
/// empty (destroying the value) exactly when the released handle was the
/// last one.
pub open spec fn release_at<T>(slots: Seq<WeakSetSlot<T>>, i: int) -> Seq<WeakSetSlot<T>>
    recommends
        0 <= i < slots.len(),
        slots[i] is Used,
{
    if slots[i]->count == 1 {
        slots.update(i, WeakSetSlot::Empty)
    } else {
        slots.update(
            i,
            (WeakSetSlot::Used { value: slots[i]->value, count: (slots[i]->count - 1) as usize }),
        )
    }
}

/// The number of occupied slots; by [`WeakSet::wf`] these are exactly the
/// slots whose live-handle count is positive.
pub open spec fn used_count<T>(slots: Seq<WeakSetSlot<T>>) -> nat
    decreases slots.len(),
{
    if slots.len() == 0 {
        0
    } else {
        used_count(slots.drop_last()) + if slots.last() is Used { 1nat } else { 0nat }
    }
}

/// A growable slot table with a "first possibly free" hint.
///
/// Invariant ([`WeakSet::wf`]): every slot below the hint is occupied, and
/// every occupied slot has a positive handle count.
pub struct WeakSet<T> {
    slots: Vec<WeakSetSlot<T>>,
    first_free: usize,
}

impl<T> View for WeakSet<T> {
    type V = Seq<WeakSetSlot<T>>;

    closed spec fn view(&self) -> Seq<WeakSetSlot<T>> {
        self.slots@
    }
}

impl<T> WeakSet<T> {
    /// The "first possibly free" scan hint.
    pub closed spec fn hint(&self) -> int {
        self.first_free as int
    }

    /// Structural invariant: the hint is in bounds, no empty slot lies below
    /// it, and an occupied slot always has at least one live handle.
    pub open spec fn wf(&self) -> bool {
        &&& 0 <= self.hint() <= self@.len()
        &&& forall|i: int| 0 <= i < self.hint() ==> self@[i] is Used
        &&& forall|i: int|
            0 <= i < self@.len() && self@[i] is Used ==> self@[i]->count >= 1
    }

    /// Creates an empty collection.
    pub fn new() -> (s: WeakSet<T>)
        ensures
            s.wf(),
            s@ == Seq::<WeakSetSlot<T>>::empty(),
    {
        WeakSet { slots: Vec::new(), first_free: 0 }
    }

    /// Read access to the value in slot `index`, or `None` on an empty slot.
    fn slot(&self, index: usize) -> (r: Option<&T>)
        requires
            index < self@.len(),
        ensures
            match r {
                Some(v) => self@[index as int] is Used && *v == self@[index as int]->value,
                None => !(self@[index as int] is Used),
            },
    {
        match &self.slots[index] {
            WeakSetSlot::Used { value, .. } => Some(value),
            WeakSetSlot::Empty => None,
        }
    }

    /// Write access to the value in slot `index`, or `None` on an empty
    /// slot. Only the value behind the returned borrow can change; the
    /// slot's handle count, every other slot, and the scan hint stay as
    /// they were.
    fn slot_mut(&mut self, index: usize) -> (r: Option<&mut T>)
        requires
            index < old(self)@.len(),
        ensures
            match r {
                Some(v) => old(self)@[index as int] is Used
                    && *v == old(self)@[index as int]->value
                    && final(self)@ == old(self)@.update(
                    index as int,
                    (WeakSetSlot::Used {
                        value: *final(v),
                        count: old(self)@[index as int]->count,
                    }),
                )
                    && final(self).hint() == old(self).hint(),
                None => !(old(self)@[index as int] is Used) && *final(self) == *old(self),
            },
    {
        if self.slot_is_used(index) {
            match &mut self.slots[index] {
                WeakSetSlot::Used { value, .. } => Some(value),
                WeakSetSlot::Empty => unreached(),
            }
        } else {
            None
        }
    }

    /// True exactly when slot `i` currently holds a value.
    fn slot_is_used(&self, i: usize) -> (r: bool)
        requires
            i < self@.len(),
        ensures
            r == (self@[i as int] is Used),
    {
        match &self.slots[i] {
            WeakSetSlot::Used { .. } => true,
            WeakSetSlot::Empty => false,
        }
    }

    /// Inserts a value and returns a handle to it, with a live-handle count
    /// of one. The value fills the first empty slot, or a freshly appended
    /// slot when every existing slot is occupied.
    ///
    /// Taking `&mut self` intentionally forbids interleaving an insertion
    /// with an in-flight iteration over the same set (see [`WeakSetIter`]).
    pub fn insert(&mut self, value: T) -> (entry: WeakSetEntry<T>)
        requires
            old(self).wf(),
            old(self)@.len() < usize::MAX,
        ensures
            final(self).wf(),
            is_first_empty(old(self)@, entry.index_spec()),
            final(self)@ == insert_at(old(self)@, entry.index_spec(), value),
            entry.value_spec() == value,
            entry.valid(*final(self)),
            final(self)@[entry.index_spec()]->count == 1,
            final(self).hint() == entry.index_spec() + 1,
    {
        let ghost v = value;
        let n = self.slots.len();
        let mut idx = self.first_free;
        while idx < n && self.slot_is_used(idx)
            invariant
                *self == *old(self),
                self.wf(),
                n == self@.len(),
                self.hint() <= idx <= n,
                forall|j: int| self.hint() <= j < idx ==> self@[j] is Used,
            decreases n - idx,
        {
            idx = idx + 1;
        }
        if idx == n {
            self.slots.push(WeakSetSlot::Used { value, count: 1 });
        } else {
            self.slots[idx] = WeakSetSlot::Used { value, count: 1 };
        }
        self.first_free = idx + 1;
        WeakSetEntry { index: idx, value: Ghost(v) }
    }

    /// Issues a fresh handle to slot `index` when it is occupied, bumping its
    /// live-handle count; returns `None` on an empty slot.
    fn make_entry(&mut self, index: usize) -> (r: Option<WeakSetEntry<T>>)
        requires
            old(self).wf(),
            index < old(self)@.len(),
            old(self)@[index as int] is Used ==> old(self)@[index as int]->count < usize::MAX,
        ensures
            final(self).wf(),
            old(self)@[index as int] is Used ==> (r matches Some(entry)
                && entry.index_spec() == index as int
                && entry.value_spec() == old(self)@[index as int]->value
                && entry.valid(*final(self))
                && final(self)@ == retain_at(old(self)@, index as int)
                && final(self).hint() == old(self).hint()),
            !(old(self)@[index as int] is Used) ==> r is None && *final(self) == *old(self),
    {
        if self.slot_is_used(index) {
            let slot = &mut self.slots[index];
            match slot {
                WeakSetSlot::Used { value: _, count } => {
                    *count = *count + 1;
                },
                WeakSetSlot::Empty => unreached(),
            }
            let ghost v = self@[index as int]->value;
            proof {
                assert(self@ =~= retain_at(old(self)@, index as int));
            }
            Some(WeakSetEntry { index, value: Ghost(v) })
        } else {
            None
        }
    }

    /// Clones a handle: issues one more handle to the same slot, bumping its
    /// live-handle count. Always succeeds for a valid handle, since a valid
    /// handle's slot is occupied.
    pub fn clone_entry(&mut self, entry: &WeakSetEntry<T>) -> (r: WeakSetEntry<T>)
        requires
            old(self).wf(),
            entry.valid(*old(self)),
            old(self)@[entry.index_spec()]->count < usize::MAX,
        ensures
            final(self).wf(),
            final(self)@ == retain_at(old(self)@, entry.index_spec()),
            final(self).hint() == old(self).hint(),
            r.index_spec() == entry.index_spec(),
            r.value_spec() == old(self)@[entry.index_spec()]->value,
            r.valid(*final(self)),
            entry.valid(*final(self)),
    {
        match self.make_entry(entry.index) {
            Some(e) => e,
            None => unreached(),
        }
    }

    /// Releases a handle: decrements its slot's live-handle count, and
    /// empties the slot — destroying the value and making the slot eligible
    /// for reuse — exactly when this was the last handle. The scan hint is
    /// rewound to a freed slot that precedes it.
    pub fn drop_entry(&mut self, entry: WeakSetEntry<T>)
        requires
            old(self).wf(),
            entry.valid(*old(self)),
        ensures
            final(self).wf(),
            final(self)@ == release_at(old(self)@, entry.index_spec()),
            old(self)@[entry.index_spec()]->count > 1 ==> final(self).hint() == old(self).hint(),
            old(self)@[entry.index_spec()]->count == 1 && entry.index_spec() < old(self).hint()
                ==> final(self).hint() == entry.index_spec(),
            old(self)@[entry.index_spec()]->count == 1 && entry.index_spec() >= old(self).hint()
                ==> final(self).hint() == old(self).hint(),
    {
        let index = entry.index;
        let slot = &mut self.slots[index];
        let now_zero = match slot {
            WeakSetSlot::Used { value: _, count } => {
                *count = *count - 1;
                *count == 0
            },
            WeakSetSlot::Empty => unreached(),
        };
        if now_zero {
            self.slots[index] = WeakSetSlot::Empty;
            if index < self.first_free {
                self.first_free = index;
            }
        }
        proof {
            assert(self@ =~= release_at(old(self)@, entry.index_spec()));
        }
    }
}

/// A reference-counted handle to one slot of a [`WeakSet`]: proof of that
/// slot's continued occupancy. While a slot's handle count is positive the
/// slot cannot be emptied or reused, so a handle's index never dangles;
/// writes through [`WeakSetEntry::borrow_mut`] are visible to every handle
/// of the slot.
pub struct WeakSetEntry<T> {
    index: usize,
    value: Ghost<T>,
}

impl<T> WeakSetEntry<T> {
    /// The index of the slot this handle references.
    pub closed spec fn index_spec(&self) -> int {
        self.index as int
    }

    /// The value this handle was issued for: the slot's value at issuance
    /// time. The slot's current value may differ once something was written
    /// through [`WeakSetEntry::borrow_mut`]; such writes are visible to
    /// every handle of the slot.
    pub closed spec fn value_spec(&self) -> T {
        self.value@
    }

    /// A handle is valid for a set while its slot is occupied. Every
    /// operation preserves validity except releasing the slot's last handle;
    /// in particular a write through [`WeakSetEntry::borrow_mut`] leaves
    /// every handle of the slot valid.
    pub open spec fn valid(&self, s: WeakSet<T>) -> bool {
        &&& 0 <= self.index_spec() < s@.len()
        &&& s@[self.index_spec()] is Used
    }

    /// The slot index this handle references.
    pub fn slot_index(&self) -> (i: usize)
        ensures
            i as int == self.index_spec(),
    {
        self.index
    }

    /// Borrows the value currently stored in the handle's slot. A valid
    /// handle's target is guaranteed live by the handle-count invariant, so
    /// this never fails.
    pub fn borrow<'a>(&self, set: &'a WeakSet<T>) -> (r: &'a T)
        requires
            self.valid(*set),
        ensures
            *r == set@[self.index_spec()]->value,
    {
        match set.slot(self.index) {
            Some(v) => v,
            None => unreached(),
        }
    }

    /// Mutably borrows the value currently stored in the handle's slot. On
    /// return the slot holds whatever the caller wrote through the borrow,
    /// visible from then on to every handle of the slot; the slot's
    /// live-handle count and every other slot are untouched.
    pub fn borrow_mut<'a>(&self, set: &'a mut WeakSet<T>) -> (r: &'a mut T)
        requires
            self.valid(*old(set)),
        ensures
            *r == old(set)@[self.index_spec()]->value,
            final(set)@ == old(set)@.update(
                self.index_spec(),
                (WeakSetSlot::Used {
                    value: *final(r),
                    count: old(set)@[self.index_spec()]->count,
                }),
            ),
            final(set).hint() == old(set).hint(),
            old(set).wf() ==> final(set).wf(),
    {
        match set.slot_mut(self.index) {
            Some(v) => v,
            None => unreached(),
        }
    }
}

/// An in-place iteration over a [`WeakSet`], bounded by the slot count
/// captured when it was created (the snapshot). Each step scans for the next
/// occupied slot below that bound and issues a fresh handle to it, so a
/// yielded value cannot be destroyed by the iteration itself. Slots freed
/// between steps are skipped; values inserted after the snapshot are never
/// yielded.
pub struct WeakSetIter<T> {
    cursor: usize,
    max: usize,
    snapshot: Ghost<Seq<WeakSetSlot<T>>>,
}

impl<T> WeakSetIter<T> {
    /// The next slot index the iteration will look at.
    pub closed spec fn cursor_spec(&self) -> int {
        self.cursor as int
    }

    /// The slot-count bound captured at creation time.
    pub closed spec fn max_spec(&self) -> int {
        self.max as int
    }

    /// The slot table as it was when the iteration started.
    pub closed spec fn snapshot_spec(&self) -> Seq<WeakSetSlot<T>> {
        self.snapshot@
    }

    /// Structural invariant of the iterator itself.
    pub open spec fn wf(&self) -> bool {
        0 <= self.cursor_spec() <= self.max_spec() == self.snapshot_spec().len()
    }

    /// The iteration discipline: between steps the set may grow, slots may
    /// be freed or gain handles, and stored values may be written through
    /// [`WeakSetEntry::borrow_mut`], but no slot the iteration has not yet
    /// visited may have been filled by an insertion — every occupied slot
    /// in the unvisited window was already occupied at snapshot time. This
    /// is why [`WeakSet::insert`] demands exclusive access to the set: a
    /// caller that refrains from inserting while an iteration is in flight
    /// maintains this discipline for free, and [`WeakSetIter::next`]
    /// demands it as a precondition.
    pub open spec fn in_sync(&self, s: WeakSet<T>) -> bool {
        &&& s.wf()
        &&& self.max_spec() <= s@.len()
        &&& forall|j: int|
            self.cursor_spec() <= j < self.max_spec() && s@[j] is Used ==> self.snapshot_spec()[j]
                is Used
    }

    /// Yields a fresh handle to the next occupied slot below the snapshot
    /// bound, or `None` when none is left. Empty slots — including slots
    /// freed since the previous step — are skipped; the yielded slot's
    /// live-handle count is bumped, so the handle keeps its value alive on
    /// its own.
    pub fn next(&mut self, set: &mut WeakSet<T>) -> (r: Option<WeakSetEntry<T>>)
        requires
            old(self).wf(),
            old(self).in_sync(*old(set)),
            forall|j: int|
                old(self).cursor_spec() <= j < old(self).max_spec() && old(set)@[j] is Used
                    ==> old(set)@[j]->count < usize::MAX,
        ensures
            final(self).wf(),
            final(self).max_spec() == old(self).max_spec(),
            final(self).snapshot_spec() == old(self).snapshot_spec(),
            final(self).in_sync(*final(set)),
            match r {
                Some(entry) => {
                    &&& old(self).cursor_spec() <= entry.index_spec() < old(self).max_spec()
                    &&& forall|j: int|
                        old(self).cursor_spec() <= j < entry.index_spec() ==> !(old(set)@[j]
                            is Used)
                    &&& old(set)@[entry.index_spec()] is Used
                    &&& entry.value_spec() == old(set)@[entry.index_spec()]->value
                    &&& old(self).snapshot_spec()[entry.index_spec()] is Used
                    &&& entry.valid(*final(set))
                    &&& final(set)@ == retain_at(old(set)@, entry.index_spec())
                    &&& final(set).hint() == old(set).hint()
                    &&& final(self).cursor_spec() == entry.index_spec() + 1
                },
                None => {
                    &&& *final(set) == *old(set)
                    &&& forall|j: int|
                        old(self).cursor_spec() <= j < old(self).max_spec() ==> !(old(set)@[j]
                            is Used)
                    &&& final(self).cursor_spec() == old(self).max_spec()
                },
            },
    {
        loop
            invariant
                self.wf(),
                self.in_sync(*set),
                *set == *old(set),
                self.max == old(self).max,
                self.snapshot == old(self).snapshot,
                old(self).cursor_spec() <= self.cursor_spec(),
                forall|j: int|
                    old(self).cursor_spec() <= j < self.cursor_spec() ==> !(set@[j] is Used),
                forall|j: int|
                    self.cursor_spec() <= j < self.max_spec() && set@[j] is Used ==> set@[j]->count
                        < usize::MAX,
            decreases self.max_spec() - self.cursor_spec(),
        {
            if self.cursor >= self.max {
                return None;
            }
            let idx = self.cursor;
            self.cursor = idx + 1;
            match set.make_entry(idx) {
                Some(entry) => {
                    return Some(entry);
                },
                None => {},
            }
        }
    }
}

impl<T> WeakSet<T> {
    /// Starts an iteration: captures the current slot count (and, as ghost
    /// state, the current slot table) as the snapshot. A fresh call yields a
    /// fresh, independent snapshot.
    pub fn iter(&self) -> (it: WeakSetIter<T>)
        requires
            self.wf(),
        ensures
            it.wf(),
            it.in_sync(*self),
            it.cursor_spec() == 0,
            it.max_spec() == self@.len(),
            it.snapshot_spec() == self@,
    {
        WeakSetIter { cursor: 0, max: self.slots.len(), snapshot: Ghost(self@) }
    }

    /// Runs a full iteration and collects every yielded handle.
    ///
    /// The count law: the number of handles yielded by an iteration equals
    /// the number of occupied slots — by [`WeakSet::wf`], exactly the slots
    /// whose live-handle count is positive. The yielded handles reference
    /// the occupied slots in index order, one handle per occupied slot, and
    /// each holds a reference of its own.
    pub fn iter_entries(&mut self) -> (entries: Vec<WeakSetEntry<T>>)
        requires
            old(self).wf(),
            forall|j: int|
                0 <= j < old(self)@.len() && old(self)@[j] is Used ==> old(self)@[j]->count
                    < usize::MAX,
        ensures
            final(self).wf(),
            final(self)@.len() == old(self)@.len(),
            entries@.len() == used_count(old(self)@),
            forall|j: int|
                0 <= j < old(self)@.len() ==> (final(self)@[j] is Used <==> old(self)@[j]
                    is Used),
            forall|j: int|
                0 <= j < old(self)@.len() && old(self)@[j] is Used ==> final(self)@[j]->value
                    == old(self)@[j]->value && final(self)@[j]->count == old(self)@[j]->count
                    + 1,
            forall|k: int| 0 <= k < entries@.len() ==> entries@[k].valid(*final(self)),
            forall|k: int|
                0 <= k < entries@.len() ==> old(self)@[entries@[k].index_spec()] is Used
                    && entries@[k].value_spec() == old(self)@[entries@[k].index_spec()]->value,
            forall|k1: int, k2: int|
                0 <= k1 < k2 < entries@.len() ==> entries@[k1].index_spec()
                    < entries@[k2].index_spec(),
            forall|j: int|
                0 <= j < old(self)@.len() && old(self)@[j] is Used ==> exists|k: int|
                    0 <= k < entries@.len() && entries@[k].index_spec() == j,
    {
        let mut it = self.iter();
        let mut entries: Vec<WeakSetEntry<T>> = Vec::new();
        loop
            invariant
                self.wf(),
                it.wf(),
                it.in_sync(*self),
                it.max_spec() == old(self)@.len(),
                self@.len() == old(self)@.len(),
                it.snapshot_spec() == old(self)@,
                forall|j: int|
                    0 <= j < old(self)@.len() ==> (self@[j] is Used <==> old(self)@[j] is Used),
                forall|j: int|
                    0 <= j < old(self)@.len() && old(self)@[j] is Used ==> self@[j]->value
                        == old(self)@[j]->value,
                forall|j: int|
                    it.cursor_spec() <= j < old(self)@.len() && old(self)@[j] is Used
                        ==> self@[j]->count == old(self)@[j]->count,
                forall|j: int|
                    0 <= j < it.cursor_spec() && self@[j] is Used ==> self@[j]->count == old(
                        self,
                    )@[j]->count + 1,
                forall|j: int|
                    0 <= j < old(self)@.len() && old(self)@[j] is Used ==> old(self)@[j]->count
                        < usize::MAX,
                entries@.len() == used_count(old(self)@.take(it.cursor_spec())),
                forall|k: int|
                    0 <= k < entries@.len() ==> entries@[k].valid(*self)
                        && entries@[k].index_spec() < it.cursor_spec(),
                forall|k: int|
                    0 <= k < entries@.len() ==> old(self)@[entries@[k].index_spec()] is Used
                        && entries@[k].value_spec() == old(
                        self,
                    )@[entries@[k].index_spec()]->value,
                forall|k1: int, k2: int|
                    0 <= k1 < k2 < entries@.len() ==> entries@[k1].index_spec()
                        < entries@[k2].index_spec(),
                forall|j: int|
                    0 <= j < it.cursor_spec() && old(self)@[j] is Used ==> exists|k: int|
                        0 <= k < entries@.len() && entries@[k].index_spec() == j,
            decreases it.max_spec() - it.cursor_spec(),
        {
            let ghost c = it.cursor_spec();
            match it.next(self) {
                Some(entry) => {
                    proof {
                        lemma_used_count_skip(old(self)@, c, entry.index_spec());
                        lemma_used_count_step(old(self)@, entry.index_spec());
                    }
                    let ghost pre = entries@;
                    entries.push(entry);
                    proof {
                        assert forall|j: int|
                            0 <= j < it.cursor_spec() && old(self)@[j] is Used implies exists|
                        k: int|
                            0 <= k < entries@.len() && entries@[k].index_spec() == j by {
                            if j == entry.index_spec() {
                                assert(entries@[pre.len() as int].index_spec() == j);
                            } else if j < c {
                                let k = choose|k: int|
                                    0 <= k < pre.len() && pre[k].index_spec() == j;
                                assert(entries@[k].index_spec() == j);
                            }
                        }
                    }
                },
                None => {
                    proof {
                        lemma_used_count_skip(old(self)@, c, it.max_spec());
                        assert(old(self)@.take(old(self)@.len() as int) =~= old(self)@);
                    }
                    return entries;
                },
            }
        }
    }

    /// The current slot count, occupied and empty slots together; the bound
    /// an iteration started now would capture.
    pub fn max_index(&self) -> (n: usize)
        ensures
            n == self@.len(),
    {
        self.slots.len()
    }

    /// Read-only inspection of one slot: the stored value and its
    /// live-handle count, or `None` for an empty slot. Like
    /// [`WeakSet::counts`], it reads the store directly and can never
    /// perturb a live-handle count.
    pub fn slot_state<'a>(&'a self, index: usize) -> (r: Option<(&'a T, usize)>)
        requires
            index < self@.len(),
        ensures
            match r {
                Some(p) => self@[index as int] is Used && *p.0 == self@[index as int]->value
                    && p.1 == self@[index as int]->count,
                None => !(self@[index as int] is Used),
            },
    {
        match &self.slots[index] {
            WeakSetSlot::Used { value, count } => Some((value, *count)),
            WeakSetSlot::Empty => None,
        }
    }

    /// The diagnostic dump: the index and live-handle count of every
    /// occupied slot, in index order.
    ///
    /// It reads the store directly, without issuing handles, and takes the
    /// set by shared reference: inspecting the collection can never perturb
    /// a live-handle count.
    pub fn counts(&self) -> (r: Vec<(usize, usize)>)
        ensures
            r@.len() == used_count(self@),
            forall|k: int|
                0 <= k < r@.len() ==> r@[k].0 < self@.len() && self@[r@[k].0 as int] is Used
                    && r@[k].1 == self@[r@[k].0 as int]->count,
            forall|k1: int, k2: int| 0 <= k1 < k2 < r@.len() ==> r@[k1].0 < r@[k2].0,
            forall|j: int|
                0 <= j < self@.len() && self@[j] is Used ==> exists|k: int|
                    0 <= k < r@.len() && r@[k].0 == j,
    {
        let mut r: Vec<(usize, usize)> = Vec::new();
        let mut i: usize = 0;
        while i < self.slots.len()
            invariant
                0 <= i <= self@.len(),
                r@.len() == used_count(self@.take(i as int)),
                forall|k: int|
                    0 <= k < r@.len() ==> r@[k].0 < i && self@[r@[k].0 as int] is Used && r@[k].1
                        == self@[r@[k].0 as int]->count,
                forall|k1: int, k2: int| 0 <= k1 < k2 < r@.len() ==> r@[k1].0 < r@[k2].0,
                forall|j: int|
                    0 <= j < i && self@[j] is Used ==> exists|k: int|
                        0 <= k < r@.len() && r@[k].0 == j,
            decreases self@.len() - i,
        {
            proof {
                lemma_used_count_step(self@, i as int);
            }
            let ghost pre = r@;
            match &self.slots[i] {
                WeakSetSlot::Used { value: _, count } => {
                    r.push((i, *count));
                },
                WeakSetSlot::Empty => {},
            }
            proof {
                assert forall|j: int| 0 <= j < i + 1 && self@[j] is Used implies exists|k: int|
                    0 <= k < r@.len() && r@[k].0 == j by {
                    if j == i as int {
                        assert(r@[pre.len() as int].0 == j);
                    } else {
                        let k = choose|k: int| 0 <= k < pre.len() && pre[k].0 == j;
                        assert(r@[k].0 == j);
                    }
                }
            }
            i = i + 1;
        }
        proof {
            assert(self@.take(self@.len() as int) =~= self@);
        }
        r
    }
}

/// Law: cloning a handle and then releasing exactly one of the two handles
/// leaves the slot table exactly as it was — the value stays reachable and
/// unchanged, with its original live-handle count.
pub proof fn lemma_clone_release_one<T>(s: Seq<WeakSetSlot<T>>, i: int)
    requires
        0 <= i < s.len(),
        s[i] is Used,
        1 <= s[i]->count < usize::MAX,
    ensures
        release_at(retain_at(s, i), i) == s,
{
    assert(release_at(retain_at(s, i), i) =~= s);
}

/// Law: when slot `i` is held by exactly one handle, cloning that handle and
/// then releasing both removes the value — the slot ends empty.
pub proof fn lemma_clone_release_both<T>(s: Seq<WeakSetSlot<T>>, i: int)
    requires
        0 <= i < s.len(),
        s[i] is Used,
        s[i]->count == 1,
    ensures
        release_at(release_at(retain_at(s, i), i), i) == s.update(i, WeakSetSlot::Empty),
{
    assert(release_at(release_at(retain_at(s, i), i), i) =~= s.update(i, WeakSetSlot::Empty));
}

/// The index an insertion fills is uniquely determined by the slot table.
pub proof fn lemma_first_empty_unique<T>(s: Seq<WeakSetSlot<T>>, i: int, j: int)
    requires
        is_first_empty(s, i),
        is_first_empty(s, j),
    ensures
        i == j,
{
}

/// Law (slot reuse): releasing the last handle of the value in slot `i`
/// frees the slot, and when every slot below `i` is occupied the next
/// insertion fills exactly slot `i` — which then holds the new value with a
/// single fresh handle, no trace of the old value remaining.
pub proof fn lemma_slot_reuse<T>(s: Seq<WeakSetSlot<T>>, i: int, b: T)
    requires
        0 <= i < s.len(),
        s[i] is Used,
        s[i]->count == 1,
        forall|j: int| 0 <= j < i ==> s[j] is Used,
    ensures
        is_first_empty(release_at(s, i), i),
        insert_at(release_at(s, i), i, b) == s.update(
            i,
            (WeakSetSlot::Used { value: b, count: 1 }),
        ),
{
    assert(insert_at(release_at(s, i), i, b) =~= s.update(
        i,
        (WeakSetSlot::Used { value: b, count: 1 }),
    ));
}

/// One iteration step changes the occupied-slot count of a prefix by one
/// slot's worth: extending the prefix past slot `j` adds one occupied slot
/// exactly when slot `j` is occupied.
proof fn lemma_used_count_step<T>(s: Seq<WeakSetSlot<T>>, j: int)
    requires
        0 <= j < s.len(),
    ensures
        used_count(s.take(j + 1)) == used_count(s.take(j)) + if s[j] is Used {
            1nat
        } else {
            0nat
        },
{
    assert(s.take(j + 1).drop_last() =~= s.take(j));
    assert(s.take(j + 1).last() == s[j]);
}

/// A run of empty slots contributes nothing to the occupied-slot count.
proof fn lemma_used_count_skip<T>(s: Seq<WeakSetSlot<T>>, c: int, d: int)
    requires
        0 <= c <= d <= s.len(),
        forall|j: int| c <= j < d ==> !(s[j] is Used),
    ensures
        used_count(s.take(d)) == used_count(s.take(c)),
    decreases d - c,
{
    if c < d {
        lemma_used_count_step(s, d - 1);
        lemma_used_count_skip(s, c, d - 1);
    }
}

} // verus!
