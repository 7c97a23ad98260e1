//! The identity-table realization of the shared collection: values are
//! tracked under a unique identifier assigned at insertion time, [`Item`]s
//! act as strong references, and an entry is removed the moment its last
//! strong reference is released. Identifiers are never reused, so an
//! iteration bounded by the identifiers current at its start can never
//! observe a later insertion.

use vstd::prelude::*;

verus! {

/// One tracked value of an [`RcSet`]: its identifier, the value itself, and
/// the number of live strong references ([`Item`]s) to it.
pub struct RcEntry<T> {
    /// The identifier assigned at insertion time; never reused.
    pub id: u64,
    /// The stored value.
    pub value: T,
    /// The number of live [`Item`]s referencing this entry.
    pub strong: usize,
}

/// True when some entry of `s` carries identifier `id`.
pub open spec fn has_id<T>(s: Seq<RcEntry<T>>, id: u64) -> bool {
    exists|k: int| 0 <= k < s.len() && s[k].id == id
}

/// The position of the entry carrying `id`; meaningful when `id` is present
/// (positions are unique because identifiers are).
pub open spec fn index_of_id<T>(s: Seq<RcEntry<T>>, id: u64) -> int
    recommends
        has_id(s, id),
{
    choose|k: int| 0 <= k < s.len() && s[k].id == id
}

/// The table after one more strong reference to entry `k` is issued.
pub open spec fn rc_retain_at<T>(s: Seq<RcEntry<T>>, k: int) -> Seq<RcEntry<T>>
    recommends
        0 <= k < s.len(),
{
    s.update(k, (RcEntry { id: s[k].id, value: s[k].value, strong: (s[k].strong + 1) as usize }))
}

/// The table after one strong reference to entry `k` is released: the entry
/// is removed outright — not merely invalidated — exactly when the released
/// reference was the last one.
pub open spec fn rc_release_at<T>(s: Seq<RcEntry<T>>, k: int) -> Seq<RcEntry<T>>
    recommends
        0 <= k < s.len(),
{
    if s[k].strong == 1 {
        s.remove(k)
    } else {
        s.update(
            k,
            (RcEntry { id: s[k].id, value: s[k].value, strong: (s[k].strong - 1) as usize }),
        )
    }
}

/// Law: cloning an [`Item`] and then releasing exactly one of the two
/// leaves the table exactly as it was — the value stays tracked and
/// unchanged, with its original strong-reference count.
pub proof fn lemma_item_clone_release_one<T>(s: Seq<RcEntry<T>>, k: int)
    requires
        0 <= k < s.len(),
        1 <= s[k].strong < usize::MAX,
    ensures
        rc_release_at(rc_retain_at(s, k), k) == s,
{
    assert(rc_release_at(rc_retain_at(s, k), k) =~= s);
}

/// Law: when entry `k` is held by exactly one strong reference, cloning
/// that reference and then releasing both removes the entry from the table.
pub proof fn lemma_item_clone_release_both<T>(s: Seq<RcEntry<T>>, k: int)
    requires
        0 <= k < s.len(),
        s[k].strong == 1,
    ensures
        rc_release_at(rc_release_at(rc_retain_at(s, k), k), k) == s.remove(k),
{
    assert(rc_release_at(rc_release_at(rc_retain_at(s, k), k), k) =~= s.remove(k));
}

/// Law (iteration snapshot): a value inserted after an iteration started is
/// never yielded by that iteration. An insertion draws an identifier at or
/// above the bound the iteration captured ([`RcSet::insert`] returns
/// `old(self).next_id()`), while every yielded reference carries an
/// identifier strictly below it ([`Iter::next`]).
pub proof fn lemma_snapshot_excludes_later_insert<T>(
    it: Iter,
    inserted: Item<T>,
    yielded: Item<T>,
)
    requires
        it.max_spec() <= inserted.id_spec(),
        yielded.id_spec() < it.max_spec(),
    ensures
        yielded.id_spec() != inserted.id_spec(),
{
}

/// In a table with strictly increasing identifiers, an identifier occurs at
/// one position only.
pub proof fn lemma_id_position_unique<T>(s: Seq<RcEntry<T>>, k1: int, k2: int)
    requires
        forall|i: int, j: int| 0 <= i < j < s.len() ==> s[i].id < s[j].id,
        0 <= k1 < s.len(),
        0 <= k2 < s.len(),
        s[k1].id == s[k2].id,
    ensures
        k1 == k2,
{
}

/// An in-place iteration over an [`RcSet`], bounded by the `next_id`
/// captured when it was created (the snapshot). Each step scans for the
/// tracked entry with the smallest identifier not yet visited and below
/// that bound, and issues a fresh strong reference to it, so a yielded
/// value cannot be destroyed by the iteration itself. Entries untracked
/// between steps are skipped silently; values inserted after the snapshot
/// carry identifiers at or above the bound and are never yielded.
pub struct Iter {
    cursor: u64,
    max: u64,
}

impl Iter {
    /// Identifiers below this have been visited or skipped.
    pub closed spec fn cursor_spec(&self) -> u64 {
        self.cursor
    }

    /// The identifier bound captured at creation time.
    pub closed spec fn max_spec(&self) -> u64 {
        self.max
    }

    /// Yields a fresh strong reference to the tracked entry with the
    /// smallest identifier in the unvisited window, or `None` when the
    /// window holds none. The yielded entry's strong count is bumped, so
    /// the reference keeps its value alive on its own.
    pub fn next<T>(&mut self, set: &mut RcSet<T>) -> (r: Option<Item<T>>)
        requires
            old(set).wf(),
            forall|k: int|
                0 <= k < old(set)@.len() && old(self).cursor_spec() <= old(set)@[k].id
                    < old(self).max_spec() ==> old(set)@[k].strong < usize::MAX,
        ensures
            final(set).wf(),
            final(set).next_id() == old(set).next_id(),
            final(self).max_spec() == old(self).max_spec(),
            match r {
                Some(item) => {
                    &&& old(self).cursor_spec() <= item.id_spec() < old(self).max_spec()
                    &&& has_id(old(set)@, item.id_spec())
                    &&& forall|k: int|
                        0 <= k < old(set)@.len() ==> !(old(self).cursor_spec()
                            <= #[trigger] old(set)@[k].id < item.id_spec())
                    &&& item.value_spec() == old(set)@[index_of_id(
                        old(set)@,
                        item.id_spec(),
                    )].value
                    &&& item.valid(*final(set))
                    &&& final(set)@ == rc_retain_at(
                        old(set)@,
                        index_of_id(old(set)@, item.id_spec()),
                    )
                    &&& final(self).cursor_spec() == item.id_spec() + 1
                },
                None => {
                    &&& *final(set) == *old(set)
                    &&& forall|k: int|
                        0 <= k < old(set)@.len() ==> !(old(self).cursor_spec()
                            <= #[trigger] old(set)@[k].id < old(self).max_spec())
                    &&& final(self).cursor_spec() == old(self).max_spec()
                },
            },
    {
        let mut k: usize = 0;
        loop
            invariant
                set.wf(),
                *set == *old(set),
                *self == *old(self),
                0 <= k <= set@.len(),
                forall|j: int| 0 <= j < k ==> set@[j].id < self.cursor_spec(),
                forall|j: int|
                    0 <= j < set@.len() && self.cursor_spec() <= set@[j].id < self.max_spec()
                        ==> set@[j].strong < usize::MAX,
            decreases set@.len() - k,
        {
            if k == set.entries.len() {
                self.cursor = self.max;
                return None;
            }
            let id = set.entries[k].id;
            if id >= self.cursor {
                if id < self.max {
                    proof {
                        assert(set@[k as int].id == id);
                        lemma_id_position_unique(set@, k as int, index_of_id(set@, id));
                    }
                    let strong = set.entries[k].strong;
                    set.entries[k].strong = strong + 1;
                    self.cursor = id + 1;
                    let ghost v = set@[k as int].value;
                    proof {
                        assert(set@ =~= rc_retain_at(old(set)@, k as int));
                        assert(set@[k as int].id == id && set@[k as int].value == v);
                    }
                    return Some(Item { id, value: Ghost(v) });
                } else {
                    proof {
                        assert forall|j: int|
                            0 <= j < set@.len() implies !(self.cursor_spec()
                            <= #[trigger] set@[j].id < self.max_spec()) by {
                            if j > k as int {
                                assert(set@[k as int].id < set@[j].id);
                            }
                        }
                    }
                    self.cursor = self.max;
                    return None;
                }
            }
            k = k + 1;
        }
    }
}

/// An identity table: entries in insertion order, identified by a strictly
/// increasing identifier drawn from `next_id`.
pub struct RcSet<T> {
    entries: Vec<RcEntry<T>>,
    next_id: u64,
}

/// A strong reference to one value of an [`RcSet`]: proof of the value's
/// continued membership. While an entry's strong count is positive the
/// entry stays in the table; releasing the last strong reference removes
/// it.
pub struct Item<T> {
    id: u64,
    value: Ghost<T>,
}

impl<T> Item<T> {
    /// The identifier of the entry this reference points at.
    pub closed spec fn id_spec(&self) -> u64 {
        self.id
    }

    /// The value this reference was issued for.
    pub closed spec fn value_spec(&self) -> T {
        self.value@
    }

    /// A reference is valid for a set while the identified entry is still
    /// tracked and holds the value the reference was issued for.
    pub open spec fn valid(&self, s: RcSet<T>) -> bool {
        exists|k: int|
            0 <= k < s@.len() && s@[k].id == self.id_spec() && s@[k].value == self.value_spec()
    }

    /// The identifier of the entry this reference points at.
    pub fn id(&self) -> (r: u64)
        ensures
            r == self.id_spec(),
    {
        self.id
    }

    /// Borrows the value this reference keeps alive. A valid reference's
    /// entry is guaranteed tracked, so this never fails.
    pub fn borrow<'a>(&self, set: &'a RcSet<T>) -> (r: &'a T)
        requires
            set.wf(),
            self.valid(*set),
        ensures
            *r == self.value_spec(),
    {
        match set.find(self.id) {
            Some(k) => {
                proof {
                    let ghost w = choose|j: int|
                        0 <= j < set@.len() && set@[j].id == self.id_spec() && set@[j].value
                            == self.value_spec();
                    lemma_id_position_unique(set@, k as int, w);
                }
                &set.entries[k].value
            },
            None => unreached(),
        }
    }
}

impl<T> View for RcSet<T> {
    type V = Seq<RcEntry<T>>;

    closed spec fn view(&self) -> Seq<RcEntry<T>> {
        self.entries@
    }
}

impl<T> RcSet<T> {
    /// The identifier the next insertion will receive.
    pub closed spec fn next_id(&self) -> u64 {
        self.next_id
    }

    /// Structural invariant: identifiers are strictly increasing (hence
    /// unique, and the table order is the insertion order), all identifiers
    /// lie below `next_id`, and every entry has at least one strong
    /// reference.
    pub open spec fn wf(&self) -> bool {
        &&& forall|i: int, j: int| 0 <= i < j < self@.len() ==> self@[i].id < self@[j].id
        &&& forall|i: int| 0 <= i < self@.len() ==> self@[i].id < self.next_id()
        &&& forall|i: int| 0 <= i < self@.len() ==> self@[i].strong >= 1
    }

    /// Creates an empty collection.
    pub fn new() -> (s: RcSet<T>)
        ensures
            s.wf(),
            s@ == Seq::<RcEntry<T>>::empty(),
            s.next_id() == 0,
    {
        RcSet { entries: Vec::new(), next_id: 0 }
    }

    /// The position of the entry carrying `id`, or `None` when `id` is not
    /// tracked.
    fn find(&self, id: u64) -> (r: Option<usize>)
        ensures
            match r {
                Some(k) => (k as int) < self@.len() && self@[k as int].id == id,
                None => !has_id(self@, id),
            },
    {
        let mut k: usize = 0;
        while k < self.entries.len()
            invariant
                0 <= k <= self@.len(),
                forall|j: int| 0 <= j < k ==> self@[j].id != id,
            decreases self@.len() - k,
        {
            if self.entries[k].id == id {
                return Some(k);
            }
            k = k + 1;
        }
        None
    }

    /// Inserts a value: tracks it under a fresh identifier and returns an
    /// [`Item`] holding its first — and so far only — strong reference.
    pub fn insert(&mut self, value: T) -> (item: Item<T>)
        requires
            old(self).wf(),
            old(self).next_id() < u64::MAX,
        ensures
            final(self).wf(),
            final(self)@ == old(self)@.push(
                (RcEntry { id: old(self).next_id(), value, strong: 1 }),
            ),
            final(self).next_id() == old(self).next_id() + 1,
            item.id_spec() == old(self).next_id(),
            item.value_spec() == value,
            item.valid(*final(self)),
    {
        let ghost v = value;
        let id = self.next_id;
        self.next_id = id + 1;
        self.entries.push(RcEntry { id, value, strong: 1 });
        proof {
            assert(self@[self@.len() - 1].id == id);
            assert forall|i: int, j: int| 0 <= i < j < self@.len() implies self@[i].id
                < self@[j].id by {
                if j == self@.len() - 1 {
                    assert(old(self)@[i].id < old(self).next_id());
                }
            }
        }
        Item { id, value: Ghost(v) }
    }

    /// Clones a strong reference: the identified entry's strong count is
    /// bumped and a second [`Item`] for the same entry is returned. The
    /// table's membership is untouched. Always succeeds for a valid
    /// reference.
    pub fn clone_item(&mut self, item: &Item<T>) -> (r: Item<T>)
        requires
            old(self).wf(),
            item.valid(*old(self)),
            forall|k: int|
                0 <= k < old(self)@.len() && old(self)@[k].id == item.id_spec()
                    ==> old(self)@[k].strong < usize::MAX,
        ensures
            final(self).wf(),
            has_id(old(self)@, item.id_spec()),
            final(self)@ == rc_retain_at(old(self)@, index_of_id(old(self)@, item.id_spec())),
            final(self).next_id() == old(self).next_id(),
            r.id_spec() == item.id_spec(),
            r.value_spec() == item.value_spec(),
            r.valid(*final(self)),
            item.valid(*final(self)),
    {
        match self.find(item.id) {
            Some(k) => {
                proof {
                    let ghost w = choose|j: int|
                        0 <= j < self@.len() && self@[j].id == item.id_spec() && self@[j].value
                            == item.value_spec();
                    lemma_id_position_unique(self@, k as int, w);
                    lemma_id_position_unique(
                        self@,
                        k as int,
                        index_of_id(self@, item.id_spec()),
                    );
                }
                let strong = self.entries[k].strong;
                self.entries[k].strong = strong + 1;
                proof {
                    assert(self@ =~= rc_retain_at(old(self)@, k as int));
                }
                Item { id: item.id, value: Ghost(item.value@) }
            },
            None => unreached(),
        }
    }

    /// Releases a strong reference. When it was the entry's last one, the
    /// entry is removed from the table before the reference disappears —
    /// untracking and destruction are one synchronous step — otherwise only
    /// the strong count drops.
    pub fn drop_item(&mut self, item: Item<T>)
        requires
            old(self).wf(),
            item.valid(*old(self)),
        ensures
            final(self).wf(),
            has_id(old(self)@, item.id_spec()),
            final(self)@ == rc_release_at(old(self)@, index_of_id(old(self)@, item.id_spec())),
            final(self).next_id() == old(self).next_id(),
    {
        match self.find(item.id) {
            Some(k) => {
                proof {
                    let ghost w = choose|j: int|
                        0 <= j < self@.len() && self@[j].id == item.id_spec() && self@[j].value
                            == item.value_spec();
                    lemma_id_position_unique(self@, k as int, w);
                    lemma_id_position_unique(
                        self@,
                        k as int,
                        index_of_id(self@, item.id_spec()),
                    );
                }
                let strong = self.entries[k].strong;
                if strong <= 1 {
                    self.entries.remove(k);
                    proof {
                        let s = old(self)@;
                        let t = s.remove(k as int);
                        assert forall|i: int, j: int| 0 <= i < j < t.len() implies t[i].id
                            < t[j].id by {
                            if i < k as int && j >= k as int {
                                assert(t[j] == s[j + 1]);
                            } else if i >= k as int {
                                assert(t[i] == s[i + 1]);
                                assert(t[j] == s[j + 1]);
                            }
                        }
                    }
                } else {
                    self.entries[k].strong = strong - 1;
                    proof {
                        assert(self@ =~= rc_release_at(old(self)@, k as int));
                    }
                }
            },
            None => unreached(),
        }
    }

    /// Starts an iteration: captures the current `next_id` as the snapshot
    /// bound. Identifiers are never reused, so a value inserted after this
    /// call carries an identifier at or above the bound and can never be
    /// yielded — even though insertions remain possible between steps. A
    /// fresh call yields a fresh, independent snapshot.
    pub fn iter(&self) -> (it: Iter)
        ensures
            it.cursor_spec() == 0,
            it.max_spec() == self.next_id(),
    {
        Iter { cursor: 0, max: self.next_id }
    }

    /// Runs a full iteration and collects every yielded strong reference.
    ///
    /// The count law: the number of references yielded by an iteration
    /// equals the number of tracked entries — by [`RcSet::wf`], exactly the
    /// values whose strong-reference count is positive. The references come
    /// in table (insertion) order, one per entry, and each holds a strong
    /// reference of its own.
    pub fn iter_items(&mut self) -> (items: Vec<Item<T>>)
        requires
            old(self).wf(),
            forall|k: int| 0 <= k < old(self)@.len() ==> old(self)@[k].strong < usize::MAX,
        ensures
            final(self).wf(),
            final(self).next_id() == old(self).next_id(),
            items@.len() == old(self)@.len(),
            forall|k: int|
                0 <= k < items@.len() ==> items@[k].id_spec() == old(self)@[k].id
                    && items@[k].value_spec() == old(self)@[k].value
                    && items@[k].valid(*final(self)),
            forall|k: int|
                0 <= k < old(self)@.len() ==> final(self)@[k].id == old(self)@[k].id
                    && final(self)@[k].value == old(self)@[k].value
                    && final(self)@[k].strong == old(self)@[k].strong + 1,
    {
        let mut it = self.iter();
        let mut items: Vec<Item<T>> = Vec::new();
        loop
            invariant
                self.wf(),
                self.next_id() == old(self).next_id(),
                it.max_spec() == old(self).next_id(),
                self@.len() == old(self)@.len(),
                items@.len() <= old(self)@.len(),
                forall|k: int|
                    0 <= k < old(self)@.len() ==> self@[k].id == old(self)@[k].id && self@[k].value
                        == old(self)@[k].value,
                forall|k: int|
                    0 <= k < items@.len() ==> self@[k].strong == old(self)@[k].strong + 1,
                forall|k: int|
                    items@.len() <= k < old(self)@.len() ==> self@[k].strong
                        == old(self)@[k].strong,
                forall|k: int| 0 <= k < old(self)@.len() ==> old(self)@[k].strong < usize::MAX,
                forall|k: int|
                    0 <= k < items@.len() ==> items@[k].id_spec() == old(self)@[k].id
                        && items@[k].value_spec() == old(self)@[k].value && items@[k].valid(*self),
                forall|k: int| 0 <= k < items@.len() ==> old(self)@[k].id < it.cursor_spec(),
                items@.len() < old(self)@.len() ==> it.cursor_spec()
                    <= old(self)@[items@.len() as int].id,
            decreases old(self)@.len() - items@.len(),
        {
            let ghost m = items@.len() as int;
            let ghost pre = items@;
            let ghost sb = self@;
            let ghost cb = it.cursor_spec();
            match it.next(self) {
                Some(item) => {
                    proof {
                        let f = index_of_id(sb, item.id_spec());
                        assert(0 <= f < sb.len() && sb[f].id == item.id_spec());
                        assert(m < sb.len());
                        if f < m {
                            assert(sb[f].id < cb);
                            assert(false);
                        } else if f > m {
                            assert(sb[m].id < sb[f].id);
                            assert(cb <= sb[m].id);
                            assert(!(cb <= sb[m].id < item.id_spec()));
                            assert(false);
                        }
                        assert(f == m);
                        assert(self@ == rc_retain_at(sb, m));
                    }
                    items.push(item);
                    proof {
                        assert forall|k: int| 0 <= k < items@.len() implies items@[k].valid(
                            *self,
                        ) by {
                            if k < m {
                                assert(self@[k].id == items@[k].id_spec());
                                assert(self@[k].value == items@[k].value_spec());
                            }
                        }
                    }
                },
                None => {
                    proof {
                        if m < sb.len() {
                            assert(cb <= sb[m].id);
                            assert(sb[m].id < old(self).next_id());
                            assert(false);
                        }
                    }
                    return items;
                },
            }
        }
    }

    /// The diagnostic dump: the identifier and strong-reference count of
    /// every tracked entry, in insertion order.
    ///
    /// It reads the table directly, without issuing references, and takes
    /// the set by shared reference: inspecting the collection can never
    /// perturb a strong-reference count.
    pub fn counts(&self) -> (r: Vec<(u64, usize)>)
        ensures
            r@.len() == self@.len(),
            forall|k: int|
                0 <= k < r@.len() ==> r@[k].0 == self@[k].id && r@[k].1 == self@[k].strong,
    {
        let mut r: Vec<(u64, usize)> = Vec::new();
        let mut k: usize = 0;
        while k < self.entries.len()
            invariant
                0 <= k <= self@.len(),
                r@.len() == k,
                forall|j: int|
                    0 <= j < k ==> r@[j].0 == self@[j].id && r@[j].1 == self@[j].strong,
            decreases self@.len() - k,
        {
            r.push((self.entries[k].id, self.entries[k].strong));
            k = k + 1;
        }
        r
    }
}

} // verus!
