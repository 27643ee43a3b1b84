//! The ordinal manager.
//!
//! An [`OrdinalStore`] keeps a collection of identified records, each placed
//! in a partition (an optional integer key, where `None` is itself a valid
//! partition) at a zero-based ordinal.  The store maintains the *density
//! invariant*: within every partition the ordinals are exactly
//! `{0, 1, ..., count - 1}`, with no duplicates and no gaps.
//!
//! The invariant is stated by [`wf_slots`] as three clauses — distinct ids,
//! distinct ordinals within a partition, and every ordinal below its
//! partition's count — which together are equivalent to density (see
//! [`crate::laws`]).

use vstd::prelude::*;

use crate::errors::AppError;

verus! {

/// One record of an [`OrdinalStore`]: an identity, a position, and the
/// domain payload the position is attached to.
pub struct Slot<P> {
    pub id: i32,
    pub partition: Option<i32>,
    pub ordinal: usize,
    pub payload: P,
}

/// Counts the slots of `s` whose partition equals `p`, where `None` matches
/// only `None` (never a wildcard).
pub open spec fn count_in<P>(s: Seq<Slot<P>>, p: Option<i32>) -> nat
    decreases s.len(),
{
    if s.len() == 0 {
        0
    } else {
        count_in(s.drop_last(), p) + if s.last().partition == p {
            1nat
        } else {
            0nat
        }
    }
}

/// No two slots share an id.
pub open spec fn distinct_ids<P>(s: Seq<Slot<P>>) -> bool {
    forall|i: int, j: int| 0 <= i < j < s.len() ==> s[i].id != s[j].id
}

/// No two slots of the same partition share an ordinal.
pub open spec fn distinct_positions<P>(s: Seq<Slot<P>>) -> bool {
    forall|i: int, j: int|
        0 <= i < j < s.len() && s[i].partition == s[j].partition ==> s[i].ordinal != s[j].ordinal
}

/// Every slot's ordinal lies below the count of its partition.
pub open spec fn ordinals_bounded<P>(s: Seq<Slot<P>>) -> bool {
    forall|i: int| 0 <= i < s.len() ==> #[trigger] s[i].ordinal < count_in(s, s[i].partition)
}

/// The density invariant of a slot sequence.
pub open spec fn wf_slots<P>(s: Seq<Slot<P>>) -> bool {
    &&& distinct_ids(s)
    &&& distinct_positions(s)
    &&& ordinals_bounded(s)
}

/// Whether some slot of `s` carries the id `id`.
pub open spec fn contains_id<P>(s: Seq<Slot<P>>, id: i32) -> bool {
    exists|i: int| 0 <= i < s.len() && s[i].id == id
}

/// The index of the slot carrying `id` (meaningful when ids are distinct
/// and `contains_id(s, id)` holds).
pub open spec fn idx_of<P>(s: Seq<Slot<P>>, id: i32) -> int {
    choose|i: int| 0 <= i < s.len() && s[i].id == id
}

/// The slot carrying `id`.
pub open spec fn slot_of<P>(s: Seq<Slot<P>>, id: i32) -> Slot<P> {
    s[idx_of(s, id)]
}

/// Under distinct ids, the index of an id is unique, so any index holding
/// `id` is `idx_of`.
pub proof fn lemma_idx_of_is<P>(s: Seq<Slot<P>>, id: i32, i: int)
    requires
        distinct_ids(s),
        0 <= i < s.len(),
        s[i].id == id,
    ensures
        contains_id(s, id),
        idx_of(s, id) == i,
        slot_of(s, id) == s[i],
{
    assert(contains_id(s, id));
    let j = idx_of(s, id);
    assert(0 <= j < s.len() && s[j].id == id);
    if i != j {
        if i < j {
            assert(s[i].id != s[j].id);
        } else {
            assert(s[j].id != s[i].id);
        }
    }
}

/// Under distinct ids, the record at any index is the one its id selects.
pub proof fn lemma_slot_at_index<P>(s: Seq<Slot<P>>, i: int)
    requires
        distinct_ids(s),
        0 <= i < s.len(),
    ensures
        contains_id(s, s[i].id),
        idx_of(s, s[i].id) == i,
        slot_of(s, s[i].id) == s[i],
{
    lemma_idx_of_is(s, s[i].id, i);
}

/// In a store whose records all live in the fallback partition, the
/// fallback count is the whole length.
pub proof fn lemma_count_single_partition<P>(s: Seq<Slot<P>>)
    requires
        forall|i: int| 0 <= i < s.len() ==> (#[trigger] s[i]).partition is None,
    ensures
        count_in(s, None) == s.len(),
    decreases s.len(),
{
    if s.len() > 0 {
        lemma_count_single_partition(s.drop_last());
    }
}

/// The count of any partition never exceeds the length.
pub proof fn lemma_count_le_len<P>(s: Seq<Slot<P>>, p: Option<i32>)
    ensures
        count_in(s, p) <= s.len(),
    decreases s.len(),
{
    if s.len() > 0 {
        lemma_count_le_len(s.drop_last(), p);
    }
}

/// Appending one slot raises the count of its own partition by one and
/// leaves every other count unchanged.
pub proof fn lemma_count_push<P>(s: Seq<Slot<P>>, x: Slot<P>, p: Option<i32>)
    ensures
        count_in(s.push(x), p) == count_in(s, p) + if x.partition == p {
            1nat
        } else {
            0nat
        },
{
    assert(s.push(x).drop_last() =~= s);
    assert(s.push(x).last() == x);
}

/// Two slot sequences whose partitions agree pointwise have the same counts.
pub proof fn lemma_count_same_partitions<P, Q>(s1: Seq<Slot<P>>, s2: Seq<Slot<Q>>, p: Option<i32>)
    requires
        s1.len() == s2.len(),
        forall|i: int| 0 <= i < s1.len() ==> s1[i].partition == #[trigger] s2[i].partition,
    ensures
        count_in(s1, p) == count_in(s2, p),
    decreases s1.len(),
{
    if s1.len() > 0 {
        lemma_count_same_partitions(s1.drop_last(), s2.drop_last(), p);
    }
}

/// Removing the slot at index `i` lowers the count of its partition by one
/// and leaves every other count unchanged.
pub proof fn lemma_count_remove<P>(s: Seq<Slot<P>>, i: int, p: Option<i32>)
    requires
        0 <= i < s.len(),
    ensures
        count_in(s.remove(i), p) + if s[i].partition == p {
            1nat
        } else {
            0nat
        } == count_in(s, p),
    decreases s.len(),
{
    if i == s.len() - 1 {
        assert(s.remove(i) =~= s.drop_last());
    } else {
        assert(s.remove(i).drop_last() =~= s.drop_last().remove(i));
        assert(s.remove(i).last() == s.last());
        lemma_count_remove(s.drop_last(), i, p);
    }
}

/// Replacing the slot at index `i` adjusts the counts of the old and the
/// new partition and leaves every other count unchanged.
pub proof fn lemma_count_update<P>(s: Seq<Slot<P>>, i: int, x: Slot<P>, p: Option<i32>)
    requires
        0 <= i < s.len(),
    ensures
        count_in(s.update(i, x), p) + if s[i].partition == p {
            1nat
        } else {
            0nat
        } == count_in(s, p) + if x.partition == p {
            1nat
        } else {
            0nat
        },
    decreases s.len(),
{
    if i == s.len() - 1 {
        assert(s.update(i, x).drop_last() =~= s.drop_last());
        assert(s.update(i, x).last() == x);
    } else {
        assert(s.update(i, x).drop_last() =~= s.drop_last().update(i, x));
        assert(s.update(i, x).last() == s.last());
        lemma_count_update(s.drop_last(), i, x, p);
    }
}

/// The effect on one slot of opening a hole at `start` in partition `p`:
/// every slot of `p` at or above `start` moves up by one.
pub open spec fn shifted_up<P>(e: Slot<P>, p: Option<i32>, start: usize) -> Slot<P> {
    if e.partition == p && e.ordinal >= start {
        Slot { ordinal: (e.ordinal + 1) as usize, ..e }
    } else {
        e
    }
}

/// The effect on one slot of closing a hole at `start` in partition `p`:
/// every slot of `p` strictly above `start` moves down by one.
pub open spec fn shifted_down<P>(e: Slot<P>, p: Option<i32>, start: usize) -> Slot<P> {
    if e.partition == p && e.ordinal > start {
        Slot { ordinal: (e.ordinal - 1) as usize, ..e }
    } else {
        e
    }
}

/// Bulk renumbering: increments the ordinal of every slot of partition `p`
/// whose ordinal is at least `start`.
fn shift_up<P>(slots: &mut Vec<Slot<P>>, p: Option<i32>, start: usize)
    requires
        forall|i: int|
            0 <= i < old(slots)@.len() ==> (#[trigger] old(slots)@[i]).ordinal < usize::MAX,
    ensures
        final(slots)@.len() == old(slots)@.len(),
        forall|i: int|
            0 <= i < old(slots)@.len() ==> final(slots)@[i] == shifted_up(
                old(slots)@[i],
                p,
                start,
            ),
{
    let ghost orig = slots@;
    let mut i: usize = 0;
    while i < slots.len()
        invariant
            i <= orig.len(),
            slots@.len() == orig.len(),
            forall|j: int| 0 <= j < i ==> slots@[j] == shifted_up(orig[j], p, start),
            forall|j: int| i <= j < orig.len() ==> slots@[j] == orig[j],
            forall|j: int| 0 <= j < orig.len() ==> (#[trigger] orig[j]).ordinal < usize::MAX,
        decreases orig.len() - i,
    {
        let sl = &mut slots[i];
        if partition_eq(sl.partition, p) && sl.ordinal >= start {
            sl.ordinal = sl.ordinal + 1;
        }
        i = i + 1;
    }
}

/// Bulk renumbering: decrements the ordinal of every slot of partition `p`
/// whose ordinal is strictly greater than `start`.
fn shift_down<P>(slots: &mut Vec<Slot<P>>, p: Option<i32>, start: usize)
    ensures
        final(slots)@.len() == old(slots)@.len(),
        forall|i: int|
            0 <= i < old(slots)@.len() ==> final(slots)@[i] == shifted_down(
                old(slots)@[i],
                p,
                start,
            ),
{
    let ghost orig = slots@;
    let mut i: usize = 0;
    while i < slots.len()
        invariant
            i <= orig.len(),
            slots@.len() == orig.len(),
            forall|j: int| 0 <= j < i ==> slots@[j] == shifted_down(orig[j], p, start),
            forall|j: int| i <= j < orig.len() ==> slots@[j] == orig[j],
        decreases orig.len() - i,
    {
        let sl = &mut slots[i];
        if partition_eq(sl.partition, p) && sl.ordinal > start {
            sl.ordinal = sl.ordinal - 1;
        }
        i = i + 1;
    }
}

/// The effect on one slot of dissolving partition `Some(from)`: its records
/// move to the fallback partition `None`, re-based to append after the
/// `base` records already there.  Everything else is untouched.
pub open spec fn rebased<P>(e: Slot<P>, from: i32, base: usize) -> Slot<P> {
    if e.partition == Some(from) {
        Slot { partition: None, ordinal: (e.ordinal + base) as usize, ..e }
    } else {
        e
    }
}

/// The counts of two different partitions together never exceed the length.
pub proof fn lemma_count_two_le_len<P>(s: Seq<Slot<P>>, p: Option<i32>, q: Option<i32>)
    requires
        p != q,
    ensures
        count_in(s, p) + count_in(s, q) <= s.len(),
    decreases s.len(),
{
    if s.len() > 0 {
        lemma_count_two_le_len(s.drop_last(), p, q);
    }
}

/// How re-basing a partition changes the counts: the fallback partition
/// absorbs the dissolved one, everything else keeps its count.
pub proof fn lemma_count_rebase<P>(
    s0: Seq<Slot<P>>,
    s1: Seq<Slot<P>>,
    from: i32,
    base: usize,
    q: Option<i32>,
)
    requires
        s0.len() == s1.len(),
        forall|i: int| 0 <= i < s0.len() ==> s1[i] == rebased(#[trigger] s0[i], from, base),
    ensures
        count_in(s1, q) == if q == None::<i32> {
            count_in(s0, None) + count_in(s0, Some(from))
        } else if q == Some(from) {
            0nat
        } else {
            count_in(s0, q)
        },
    decreases s0.len(),
{
    if s0.len() > 0 {
        assert(s1.drop_last().len() == s0.drop_last().len());
        assert(forall|i: int|
            0 <= i < s0.drop_last().len() ==> s1.drop_last()[i] == rebased(
                #[trigger] s0.drop_last()[i],
                from,
                base,
            ));
        lemma_count_rebase(s0.drop_last(), s1.drop_last(), from, base, q);
        assert(s1.last() == rebased(s0.last(), from, base));
    }
}

/// The combined effect on one slot of a move: first the hole left at
/// `old_k` in `old_p` is closed, then a hole is opened at `new_k` in
/// `new_p`.  The moved record itself is written explicitly afterwards and
/// is not described by this function.
pub open spec fn relocated<P>(
    e: Slot<P>,
    old_p: Option<i32>,
    old_k: usize,
    new_p: Option<i32>,
    new_k: usize,
) -> Slot<P> {
    shifted_up(shifted_down(e, old_p, old_k), new_p, new_k)
}

/// Whether `new_k` is a position the record `id` can move to: within the
/// record's own partition the valid positions are `0 .. count - 1`, in any
/// other partition `0 .. count` (where `count` appends at the end).
pub open spec fn valid_target<P>(
    s: Seq<Slot<P>>,
    id: i32,
    new_p: Option<i32>,
    new_k: usize,
) -> bool {
    if slot_of(s, id).partition == new_p {
        new_k < count_in(s, new_p)
    } else {
        new_k <= count_in(s, new_p)
    }
}

/// The ordinal manager: a collection of slots under the density invariant,
/// together with the id counter the persistence layer would otherwise own.
pub struct OrdinalStore<P> {
    slots: Vec<Slot<P>>,
    next_id: i32,
}

/// What a successful `insert` leaves behind: every existing slot of the
/// partition at or above `ordinal` moved up by one, the new record appended
/// to the slot sequence under the next free id, the partition's count grown
/// by one, and the store well-formed again.
pub open spec fn insert_post<P>(
    pre: OrdinalStore<P>,
    post: OrdinalStore<P>,
    partition: Option<i32>,
    ordinal: usize,
    payload: P,
) -> bool {
    &&& post.wf()
    &&& post.next_id() == pre.next_id() + 1
    &&& post.slots().len() == pre.slots().len() + 1
    &&& forall|i: int|
        0 <= i < pre.slots().len() ==> post.slots()[i] == shifted_up(
            pre.slots()[i],
            partition,
            ordinal,
        )
    &&& post.slots().last() == (Slot { id: pre.next_id() as i32, partition, ordinal, payload })
    &&& slot_of(post.slots(), pre.next_id() as i32) == (Slot {
        id: pre.next_id() as i32,
        partition,
        ordinal,
        payload,
    })
    &&& forall|x: i32|
        contains_id(post.slots(), x) <==> (contains_id(pre.slots(), x) || x == pre.next_id() as i32)
    &&& forall|x: i32|
        contains_id(pre.slots(), x) ==> slot_of(post.slots(), x) == shifted_up(
            slot_of(pre.slots(), x),
            partition,
            ordinal,
        )
    &&& forall|q: Option<i32>|
        count_in(post.slots(), q) == count_in(pre.slots(), q) + if q == partition {
            1nat
        } else {
            0nat
        }
}

/// What a successful `delete` of `id` leaves behind: the record gone, every
/// other record kept — those of the same partition above the vacated
/// ordinal moved down by one — and the store well-formed again.
pub open spec fn delete_post<P>(pre: OrdinalStore<P>, post: OrdinalStore<P>, id: i32) -> bool {
    let victim = slot_of(pre.slots(), id);
    &&& post.wf()
    &&& post.slots().len() + 1 == pre.slots().len()
    &&& post.next_id() == pre.next_id()
    &&& !contains_id(post.slots(), id)
    &&& forall|x: i32| x != id ==> (contains_id(post.slots(), x) <==> contains_id(pre.slots(), x))
    &&& forall|x: i32|
        x != id && contains_id(pre.slots(), x) ==> slot_of(post.slots(), x) == shifted_down(
            slot_of(pre.slots(), x),
            victim.partition,
            victim.ordinal,
        )
    &&& forall|q: Option<i32>|
        count_in(post.slots(), q) + (if q == victim.partition {
            1nat
        } else {
            0nat
        }) == count_in(pre.slots(), q)
}

/// What a successful `relocate` of `id` to `(new_p, new_k)` leaves behind:
/// the record rewritten to its new position with its payload kept, every
/// other record renumbered by the close-then-open composition
/// [`relocated`], and the store well-formed again.
pub open spec fn relocate_post<P>(
    pre: OrdinalStore<P>,
    post: OrdinalStore<P>,
    id: i32,
    new_p: Option<i32>,
    new_k: usize,
) -> bool {
    let victim = slot_of(pre.slots(), id);
    &&& post.wf()
    &&& post.slots().len() == pre.slots().len()
    &&& post.next_id() == pre.next_id()
    &&& forall|x: i32| contains_id(post.slots(), x) <==> contains_id(pre.slots(), x)
    &&& slot_of(post.slots(), id) == (Slot {
        id,
        partition: new_p,
        ordinal: new_k,
        payload: victim.payload,
    })
    &&& forall|x: i32|
        x != id && contains_id(pre.slots(), x) ==> slot_of(post.slots(), x) == relocated(
            slot_of(pre.slots(), x),
            victim.partition,
            victim.ordinal,
            new_p,
            new_k,
        )
    &&& forall|q: Option<i32>|
        count_in(post.slots(), q) + (if q == victim.partition {
            1nat
        } else {
            0nat
        }) == count_in(pre.slots(), q) + (if q == new_p {
            1nat
        } else {
            0nat
        })
}

/// What `rebase_into_fallback` leaves behind: partition `Some(from)` empty,
/// its records appended to the fallback partition in their old order, every
/// other record untouched, and the store well-formed again.
pub open spec fn rebase_post<P>(pre: OrdinalStore<P>, post: OrdinalStore<P>, from: i32) -> bool {
    &&& post.wf()
    &&& post.slots().len() == pre.slots().len()
    &&& post.next_id() == pre.next_id()
    &&& forall|x: i32| contains_id(post.slots(), x) <==> contains_id(pre.slots(), x)
    &&& forall|x: i32|
        contains_id(pre.slots(), x) ==> slot_of(post.slots(), x) == rebased(
            slot_of(pre.slots(), x),
            from,
            count_in(pre.slots(), None) as usize,
        )
    &&& forall|q: Option<i32>|
        count_in(post.slots(), q) == if q == None::<i32> {
            count_in(pre.slots(), None) + count_in(pre.slots(), Some(from))
        } else if q == Some(from) {
            0nat
        } else {
            count_in(pre.slots(), q)
        }
}

/// What a successful `set_payload` of `id` leaves behind: the one record's
/// payload replaced, everything else — positions included — untouched.
pub open spec fn set_payload_post<P>(
    pre: OrdinalStore<P>,
    post: OrdinalStore<P>,
    id: i32,
    payload: P,
) -> bool {
    &&& post.wf()
    &&& post.next_id() == pre.next_id()
    &&& post.slots() == pre.slots().update(
        idx_of(pre.slots(), id),
        (Slot { payload, ..slot_of(pre.slots(), id) }),
    )
}

impl<P> OrdinalStore<P> {
    /// The slot sequence the contracts speak about.
    pub closed spec fn slots(&self) -> Seq<Slot<P>> {
        self.slots@
    }

    /// The id the next inserted record will receive.
    pub closed spec fn next_id(&self) -> int {
        self.next_id as int
    }

    /// Well-formedness: the density invariant holds, ids are positive and
    /// below the id counter, and the record count fits the machine.
    pub open spec fn wf(&self) -> bool {
        &&& wf_slots(self.slots())
        &&& self.slots().len() <= usize::MAX
        &&& 1 <= self.next_id() <= i32::MAX
        &&& forall|i: int|
            0 <= i < self.slots().len() ==> 1 <= (#[trigger] self.slots()[i]).id < self.next_id()
    }

    /// An empty store.
    pub fn new() -> (r: OrdinalStore<P>)
        ensures
            r.wf(),
            r.slots().len() == 0,
            r.next_id() == 1,
    {
        OrdinalStore { slots: Vec::new(), next_id: 1 }
    }

    /// Whether the store can still assign a fresh id — the precondition of
    /// `insert`, testable by unverified callers.
    pub fn has_free_id(&self) -> (r: bool)
        ensures
            r == (self.next_id() < i32::MAX),
    {
        self.next_id < i32::MAX
    }

    /// How many records the store holds in total.
    pub fn len(&self) -> (n: usize)
        ensures
            n == self.slots().len(),
    {
        self.slots.len()
    }

    /// How many records the given partition holds, matching `None` against
    /// `None` only.
    pub fn count_in_partition(&self, p: Option<i32>) -> (n: usize)
        ensures
            n == count_in(self.slots(), p),
    {
        proof {
            lemma_count_le_len(self.slots(), p);
        }
        let mut n: usize = 0;
        let mut i: usize = 0;
        while i < self.slots.len()
            invariant
                i <= self.slots@.len(),
                n == count_in(self.slots@.take(i as int), p),
                n <= i,
            decreases self.slots@.len() - i,
        {
            proof {
                assert(self.slots@.take(i + 1int).drop_last() =~= self.slots@.take(i as int));
                assert(self.slots@.take(i + 1int).last() == self.slots@[i as int]);
            }
            if partition_eq(self.slots[i].partition, p) {
                n = n + 1;
            }
            i = i + 1;
        }
        proof {
            assert(self.slots@.take(self.slots@.len() as int) =~= self.slots@);
        }
        n
    }

    /// The index of the record with the given id, if any.
    fn find_index(&self, id: i32) -> (r: Option<usize>)
        ensures
            match r {
                Some(i) => 0 <= i < self.slots().len() && self.slots()[i as int].id == id,
                None => !contains_id(self.slots(), id),
            },
    {
        let mut i: usize = 0;
        while i < self.slots.len()
            invariant
                i <= self.slots@.len(),
                forall|j: int| 0 <= j < i ==> self.slots@[j].id != id,
            decreases self.slots@.len() - i,
        {
            if self.slots[i].id == id {
                return Some(i);
            }
            i = i + 1;
        }
        None
    }

    /// The ordinal of the record with the given id; `RowNotFound` if the id
    /// is unknown.
    pub fn get_ordinal(&self, id: i32) -> (r: Result<usize, AppError>)
        requires
            self.wf(),
        ensures
            contains_id(self.slots(), id) ==> r == Ok::<usize, AppError>(
                slot_of(self.slots(), id).ordinal,
            ),
            !contains_id(self.slots(), id) ==> r == Err::<usize, AppError>(AppError::RowNotFound),
    {
        match self.find_index(id) {
            Some(i) => {
                proof {
                    lemma_idx_of_is(self.slots(), id, i as int);
                }
                Ok(self.slots[i].ordinal)
            },
            None => Err(AppError::RowNotFound),
        }
    }

    /// The partition key of the record with the given id; `RowNotFound` if
    /// the id is unknown.
    pub fn get_partition(&self, id: i32) -> (r: Result<Option<i32>, AppError>)
        requires
            self.wf(),
        ensures
            contains_id(self.slots(), id) ==> r == Ok::<Option<i32>, AppError>(
                slot_of(self.slots(), id).partition,
            ),
            !contains_id(self.slots(), id) ==> r == Err::<Option<i32>, AppError>(
                AppError::RowNotFound,
            ),
    {
        match self.find_index(id) {
            Some(i) => {
                proof {
                    lemma_idx_of_is(self.slots(), id, i as int);
                }
                Ok(self.slots[i].partition)
            },
            None => Err(AppError::RowNotFound),
        }
    }
    /// Creates a record at the given position of the given partition.
    ///
    /// The slot is vacated first: every record of the partition at or above
    /// `ordinal` moves up by one, exactly as a bulk range update would do it.
    /// An `ordinal` beyond the partition's count is rejected with
    /// `InvalidOrdinal` and the store is left unchanged; `ordinal` equal to
    /// the count appends.  On success the new record receives the next free
    /// id, which is returned.
    pub fn insert(&mut self, partition: Option<i32>, ordinal: usize, payload: P) -> (r: Result<
        i32,
        AppError,
    >)
        requires
            old(self).wf(),
            old(self).next_id() < i32::MAX,
        ensures
            final(self).wf(),
            ordinal > count_in(old(self).slots(), partition) ==> r == Err::<i32, AppError>(
                AppError::InvalidOrdinal,
            ) && *final(self) == *old(self),
            ordinal <= count_in(old(self).slots(), partition) ==> r == Ok::<i32, AppError>(
                old(self).next_id() as i32,
            ) && insert_post(*old(self), *final(self), partition, ordinal, payload),
    {
        let count = self.count_in_partition(partition);
        if ordinal > count {
            return Err(AppError::InvalidOrdinal);
        }
        let ghost s0 = self.slots@;
        let n_total = self.slots.len();
        proof {
            lemma_count_le_len(s0, partition);
            assert forall|i: int| 0 <= i < s0.len() implies (#[trigger] s0[i]).ordinal
                < usize::MAX by {
                lemma_count_le_len(s0, s0[i].partition);
                assert(s0[i].ordinal < count_in(s0, s0[i].partition));
                assert(count_in(s0, s0[i].partition) <= n_total);
            }
        }
        shift_up(&mut self.slots, partition, ordinal);
        let ghost s1 = self.slots@;
        let id = self.next_id;
        self.slots.push(Slot { id, partition, ordinal, payload });
        self.next_id = self.next_id + 1;
        let ghost s2 = self.slots@;
        let n_after = self.slots.len();
        proof {
            assert(s2.len() == n_after);
            let x = Slot { id, partition, ordinal, payload };
            assert forall|q: Option<i32>| true implies count_in(s1, q) == count_in(s0, q) by {
                lemma_count_same_partitions(s1, s0, q);
            }
            assert forall|q: Option<i32>| true implies count_in(s2, q) == count_in(s0, q) + if (
            q == partition) {
                1nat
            } else {
                0nat
            } by {
                lemma_count_push(s1, x, q);
            }
            assert(self.wf()) by {
                assert forall|i: int, j: int| 0 <= i < j < s2.len() implies s2[i].id
                    != s2[j].id by {
                    if j < s2.len() - 1 {
                        assert(s2[i] == shifted_up(s0[i], partition, ordinal));
                        assert(s2[j] == shifted_up(s0[j], partition, ordinal));
                    } else {
                        assert(s2[i] == shifted_up(s0[i], partition, ordinal));
                    }
                }
                assert forall|i: int, j: int|
                    0 <= i < j < s2.len() && s2[i].partition == s2[j].partition implies s2[i].ordinal
                    != s2[j].ordinal by {
                    if j < s2.len() - 1 {
                        assert(s2[i] == shifted_up(s0[i], partition, ordinal));
                        assert(s2[j] == shifted_up(s0[j], partition, ordinal));
                        assert(s0[i].ordinal < count_in(s0, s0[i].partition));
                        assert(s0[j].ordinal < count_in(s0, s0[j].partition));
                    } else {
                        assert(s2[i] == shifted_up(s0[i], partition, ordinal));
                        assert(s0[i].ordinal < count_in(s0, s0[i].partition));
                    }
                }
                assert forall|i: int| 0 <= i < s2.len() implies (#[trigger] s2[i]).ordinal
                    < count_in(s2, s2[i].partition) by {
                    if i < s2.len() - 1 {
                        assert(s2[i] == shifted_up(s0[i], partition, ordinal));
                        assert(s0[i].ordinal < count_in(s0, s0[i].partition));
                    }
                }
            }
            // The id-indexed view of the result.
            assert(s2[s2.len() - 1].id == id);
            lemma_idx_of_is(s2, id, s2.len() - 1);
            assert forall|x: i32| contains_id(s0, x) implies contains_id(s2, x) && slot_of(s2, x)
                == shifted_up(slot_of(s0, x), partition, ordinal) by {
                let i = idx_of(s0, x);
                assert(0 <= i < s0.len() && s0[i].id == x);
                assert(s2[i] == shifted_up(s0[i], partition, ordinal));
                lemma_idx_of_is(s2, x, i);
            }
            assert forall|x: i32| contains_id(s2, x) implies contains_id(s0, x) || x == id by {
                let i = idx_of(s2, x);
                if i < s2.len() - 1 {
                    assert(s2[i] == shifted_up(s0[i], partition, ordinal));
                    assert(s0[i].id == x);
                }
            }
        }
        Ok(id)
    }

    /// Removes the record with the given id and closes the gap it leaves:
    /// every record of its partition with a greater ordinal moves down by
    /// one.  An unknown id is rejected with `RowNotFound` and the store is
    /// left unchanged.
    pub fn delete(&mut self, id: i32) -> (r: Result<(), AppError>)
        requires
            old(self).wf(),
        ensures
            final(self).wf(),
            !contains_id(old(self).slots(), id) ==> r == Err::<(), AppError>(AppError::RowNotFound)
                && *final(self) == *old(self),
            contains_id(old(self).slots(), id) ==> r == Ok::<(), AppError>(()) && delete_post(
                *old(self),
                *final(self),
                id,
            ),
    {
        let idx = match self.find_index(id) {
            None => {
                return Err(AppError::RowNotFound);
            },
            Some(i) => i,
        };
        proof {
            lemma_idx_of_is(self.slots@, id, idx as int);
        }
        let p = self.slots[idx].partition;
        let k = self.slots[idx].ordinal;
        let ghost s0 = self.slots@;
        self.slots.remove(idx);
        let ghost s1 = self.slots@;
        shift_down(&mut self.slots, p, k);
        let ghost s2 = self.slots@;
        proof {
            s0.remove_ensures(idx as int);
            let back = |j: int| if j < idx { j } else { j + 1 };
            assert forall|j: int| 0 <= j < s2.len() implies s2[j] == shifted_down(
                s0[back(j)],
                p,
                k,
            ) by {
                assert(s2[j] == shifted_down(s1[j], p, k));
            }
            assert forall|q: Option<i32>| true implies count_in(s2, q) + if (s0[idx as int].partition
                == q) {
                1nat
            } else {
                0nat
            } == count_in(s0, q) by {
                lemma_count_same_partitions(s2, s1, q);
                assert(s1 =~= s0.remove(idx as int));
                lemma_count_remove(s0, idx as int, q);
            }
            // Well-formedness of the shrunk store.
            assert forall|i: int, j: int| 0 <= i < j < s2.len() implies s2[i].id != s2[j].id by {
                assert(s2[i] == shifted_down(s0[back(i)], p, k));
                assert(s2[j] == shifted_down(s0[back(j)], p, k));
            }
            assert forall|i: int, j: int|
                0 <= i < j < s2.len() && s2[i].partition == s2[j].partition implies s2[i].ordinal
                != s2[j].ordinal by {
                assert(s2[i] == shifted_down(s0[back(i)], p, k));
                assert(s2[j] == shifted_down(s0[back(j)], p, k));
                assert(s0[back(i)].ordinal < count_in(s0, s0[back(i)].partition));
                assert(s0[back(j)].ordinal < count_in(s0, s0[back(j)].partition));
                if s0[back(i)].partition == p && s0[back(j)].partition == p {
                    // neither remaining slot sits at the vacated ordinal
                    assert(s0[back(i)].ordinal != k);
                    assert(s0[back(j)].ordinal != k);
                }
            }
            assert forall|i: int| 0 <= i < s2.len() implies (#[trigger] s2[i]).ordinal < count_in(
                s2,
                s2[i].partition,
            ) by {
                assert(s2[i] == shifted_down(s0[back(i)], p, k));
                assert(s0[back(i)].ordinal < count_in(s0, s0[back(i)].partition));
                assert(s0[idx as int].ordinal == k);
                assert(s0[idx as int].ordinal < count_in(s0, p));
                if s0[back(i)].partition == p {
                    assert(s0[back(i)].ordinal != k);
                }
            }
            // The deleted id is gone; every other id keeps its slot, shifted.
            assert forall|x: i32| x != id && contains_id(s0, x) implies contains_id(s2, x)
                && slot_of(s2, x) == shifted_down(slot_of(s0, x), p, k) by {
                let i0 = idx_of(s0, x);
                assert(0 <= i0 < s0.len() && s0[i0].id == x);
                assert(i0 != idx);
                let i2 = if i0 < idx { i0 } else { i0 - 1 };
                assert(back(i2) == i0);
                assert(s2[i2] == shifted_down(s0[i0], p, k));
                assert(distinct_ids(s2));
                lemma_idx_of_is(s2, x, i2);
            }
            assert forall|x: i32| x != id && contains_id(s2, x) implies contains_id(s0, x) by {
                let i2 = idx_of(s2, x);
                assert(s2[i2] == shifted_down(s0[back(i2)], p, k));
                assert(s0[back(i2)].id == x);
            }
            assert(!contains_id(s2, id)) by {
                if contains_id(s2, id) {
                    let i2 = idx_of(s2, id);
                    assert(s2[i2] == shifted_down(s0[back(i2)], p, k));
                    assert(s0[back(i2)].id == id);
                    lemma_idx_of_is(s0, id, back(i2));
                }
            }
        }
        Ok(())
    }

    /// Moves the record with the given id to `new_ordinal` in
    /// `new_partition` (which may be its current partition).
    ///
    /// The gap at the old position is closed first, then the new slot is
    /// vacated, then the record itself is rewritten — both renumberings are
    /// computed from the position read before any mutation.  An unknown id
    /// is rejected with `RowNotFound`, a target outside the valid range with
    /// `InvalidOrdinal`; either way the store is left unchanged.
    #[verifier::rlimit(100)]
    pub fn relocate(&mut self, id: i32, new_partition: Option<i32>, new_ordinal: usize) -> (r:
        Result<(), AppError>)
        requires
            old(self).wf(),
        ensures
            final(self).wf(),
            !contains_id(old(self).slots(), id) ==> r == Err::<(), AppError>(AppError::RowNotFound)
                && *final(self) == *old(self),
            contains_id(old(self).slots(), id) && !valid_target(
                old(self).slots(),
                id,
                new_partition,
                new_ordinal,
            ) ==> r == Err::<(), AppError>(AppError::InvalidOrdinal) && *final(self) == *old(self),
            contains_id(old(self).slots(), id) && valid_target(
                old(self).slots(),
                id,
                new_partition,
                new_ordinal,
            ) ==> r == Ok::<(), AppError>(()) && relocate_post(
                *old(self),
                *final(self),
                id,
                new_partition,
                new_ordinal,
            ),
    {
        let idx = match self.find_index(id) {
            None => {
                return Err(AppError::RowNotFound);
            },
            Some(i) => i,
        };
        proof {
            lemma_idx_of_is(self.slots@, id, idx as int);
        }
        let old_p = self.slots[idx].partition;
        let old_k = self.slots[idx].ordinal;
        let count = self.count_in_partition(new_partition);
        if partition_eq(old_p, new_partition) {
            if new_ordinal >= count {
                return Err(AppError::InvalidOrdinal);
            }
        } else {
            if new_ordinal > count {
                return Err(AppError::InvalidOrdinal);
            }
        }
        let ghost s0 = self.slots@;
        let n_total = self.slots.len();
        proof {
            assert forall|i: int| 0 <= i < s0.len() implies (#[trigger] s0[i]).ordinal
                < usize::MAX by {
                lemma_count_le_len(s0, s0[i].partition);
                assert(s0[i].ordinal < count_in(s0, s0[i].partition));
                assert(count_in(s0, s0[i].partition) <= n_total);
            }
        }
        shift_down(&mut self.slots, old_p, old_k);
        let ghost s1 = self.slots@;
        shift_up(&mut self.slots, new_partition, new_ordinal);
        let ghost s2 = self.slots@;
        let sl = &mut self.slots[idx];
        sl.partition = new_partition;
        sl.ordinal = new_ordinal;
        proof {
            let ii = idx as int;
            let s3 = self.slots@;
            let n_old = count_in(s0, old_p);
            let n_new = count_in(s0, new_partition);
            assert(old_k < n_old);
            assert forall|i: int| 0 <= i < s0.len() implies s2[i] == relocated(
                s0[i],
                old_p,
                old_k,
                new_partition,
                new_ordinal,
            ) by {
                assert(s1[i] == shifted_down(s0[i], old_p, old_k));
                assert(s2[i] == shifted_up(s1[i], new_partition, new_ordinal));
            }
            assert(s3.len() == s0.len());
            assert(forall|j: int| 0 <= j < s3.len() && j != ii ==> s3[j] == s2[j]);
            assert(s3[ii].id == s0[ii].id && s3[ii].payload == s0[ii].payload
                && s3[ii].partition == new_partition && s3[ii].ordinal == new_ordinal);
            // Counts: only the moved record changes partition.
            assert forall|q: Option<i32>| true implies count_in(s3, q) + (if old_p == q {
                1nat
            } else {
                0nat
            }) == count_in(s0, q) + (if new_partition == q {
                1nat
            } else {
                0nat
            }) by {
                lemma_count_same_partitions(s2, s0, q);
                assert(s3 =~= s2.update(ii, s3[ii]));
                lemma_count_update(s2, ii, s3[ii], q);
            }
            // Every slot other than the moved one is untouched by the
            // explicit rewrite, and the victim never sat at another slot's
            // position.
            assert forall|i: int| 0 <= i < s0.len() && i != ii implies s3[i] == relocated(
                s0[i],
                old_p,
                old_k,
                new_partition,
                new_ordinal,
            ) && (#[trigger] s0[i]).ordinal < count_in(s0, s0[i].partition) && (s0[i].partition
                == old_p ==> s0[i].ordinal != old_k) by {
                assert(s0[i].ordinal < count_in(s0, s0[i].partition));
                if s0[i].partition == old_p {
                    if i < ii {
                        assert(s0[i].ordinal != s0[ii].ordinal);
                    } else {
                        assert(s0[ii].ordinal != s0[i].ordinal);
                    }
                }
            }
            // Well-formedness of the rearranged store.
            assert forall|i: int, j: int| 0 <= i < j < s3.len() implies s3[i].id != s3[j].id by {
                assert(s3[i].id == s0[i].id);
                assert(s3[j].id == s0[j].id);
            }
            assert forall|i: int, j: int|
                0 <= i < j < s3.len() && s3[i].partition == s3[j].partition implies s3[i].ordinal
                != s3[j].ordinal by {
                if i != ii && j != ii {
                    assert(s3[i] == relocated(s0[i], old_p, old_k, new_partition, new_ordinal));
                    assert(s3[j] == relocated(s0[j], old_p, old_k, new_partition, new_ordinal));
                } else if i == ii {
                    assert(s3[j] == relocated(s0[j], old_p, old_k, new_partition, new_ordinal));
                } else {
                    assert(s3[i] == relocated(s0[i], old_p, old_k, new_partition, new_ordinal));
                }
            }
            assert forall|i: int| 0 <= i < s3.len() implies (#[trigger] s3[i]).ordinal < count_in(
                s3,
                s3[i].partition,
            ) by {
                if i != ii {
                    assert(s3[i] == relocated(s0[i], old_p, old_k, new_partition, new_ordinal));
                }
                assert(count_in(s3, old_p) + (if old_p == old_p { 1nat } else { 0nat })
                    == count_in(s0, old_p) + (if new_partition == old_p { 1nat } else { 0nat }));
                assert(count_in(s3, new_partition) + (if old_p == new_partition { 1nat } else { 0nat })
                    == count_in(s0, new_partition) + 1);
                if s3[i].partition != old_p && s3[i].partition != new_partition {
                    assert(count_in(s3, s3[i].partition) == count_in(s0, s3[i].partition));
                }
            }
            // The id-indexed view of the result.
            assert forall|x: i32| contains_id(s3, x) <==> contains_id(s0, x) by {
                if contains_id(s3, x) {
                    let i = idx_of(s3, x);
                    assert(s0[i].id == x);
                }
                if contains_id(s0, x) {
                    let i = idx_of(s0, x);
                    assert(s3[i].id == x);
                }
            }
            assert(slot_of(s3, id) == s3[ii]) by {
                lemma_idx_of_is(s3, id, ii);
            }
            assert forall|x: i32| x != id && contains_id(s0, x) implies slot_of(s3, x) == relocated(
                slot_of(s0, x),
                old_p,
                old_k,
                new_partition,
                new_ordinal,
            ) by {
                let i = idx_of(s0, x);
                assert(0 <= i < s0.len() && s0[i].id == x);
                assert(i != ii);
                assert(s3[i] == relocated(s0[i], old_p, old_k, new_partition, new_ordinal));
                lemma_idx_of_is(s3, x, i);
            }
        }
        Ok(())
    }

    /// A read-only view of the record at a raw index, for walking the store.
    pub fn get_slot(&self, i: usize) -> (r: &Slot<P>)
        requires
            i < self.slots().len(),
        ensures
            *r == self.slots()[i as int],
    {
        &self.slots[i]
    }

    /// A read-only view of the record with the given id, if any.
    pub fn find(&self, id: i32) -> (r: Option<&Slot<P>>)
        requires
            self.wf(),
        ensures
            contains_id(self.slots(), id) ==> (r matches Some(sl) && *sl == slot_of(
                self.slots(),
                id,
            )),
            !contains_id(self.slots(), id) ==> r is None,
    {
        match self.find_index(id) {
            Some(i) => {
                proof {
                    lemma_idx_of_is(self.slots(), id, i as int);
                }
                Some(&self.slots[i])
            },
            None => None,
        }
    }

    /// A read-only view of the payload of the record with the given id.
    pub fn get_payload(&self, id: i32) -> (r: Result<&P, AppError>)
        requires
            self.wf(),
        ensures
            contains_id(self.slots(), id) ==> (r matches Ok(p) && *p == slot_of(
                self.slots(),
                id,
            ).payload),
            !contains_id(self.slots(), id) ==> (r matches Err(e) && e == AppError::RowNotFound),
    {
        match self.find_index(id) {
            Some(i) => {
                proof {
                    lemma_idx_of_is(self.slots(), id, i as int);
                }
                Ok(&self.slots[i].payload)
            },
            None => Err(AppError::RowNotFound),
        }
    }

    /// Replaces the payload of the record with the given id; its position
    /// and every other record are untouched.
    pub fn set_payload(&mut self, id: i32, payload: P) -> (r: Result<(), AppError>)
        requires
            old(self).wf(),
        ensures
            final(self).wf(),
            !contains_id(old(self).slots(), id) ==> r == Err::<(), AppError>(AppError::RowNotFound)
                && *final(self) == *old(self),
            contains_id(old(self).slots(), id) ==> r == Ok::<(), AppError>(()) && set_payload_post(
                *old(self),
                *final(self),
                id,
                payload,
            ),
    {
        let idx = match self.find_index(id) {
            None => {
                return Err(AppError::RowNotFound);
            },
            Some(i) => i,
        };
        proof {
            lemma_idx_of_is(self.slots@, id, idx as int);
        }
        let ghost s0 = self.slots@;
        let sl = &mut self.slots[idx];
        sl.payload = payload;
        proof {
            let s1 = self.slots@;
            assert(s1 =~= s0.update(idx as int, s1[idx as int]));
            assert forall|q: Option<i32>| true implies count_in(s1, q) == count_in(s0, q) by {
                lemma_count_same_partitions(s1, s0, q);
            }
        }
        Ok(())
    }

    /// Dissolves partition `Some(from)`: its records move to the fallback
    /// partition `None`, appended after the records already there with
    /// their relative order kept.  Used when the group a partition belongs
    /// to (a column, a category) is itself deleted.
    pub fn rebase_into_fallback(&mut self, from: i32)
        requires
            old(self).wf(),
        ensures
            rebase_post(*old(self), *final(self), from),
    {
        let base = self.count_in_partition(None);
        let ghost s0 = self.slots@;
        proof {
            lemma_count_two_le_len(s0, None, Some(from));
        }
        let ghost orig = self.slots@;
        let ghost next0 = self.next_id;
        let mut i: usize = 0;
        while i < self.slots.len()
            invariant
                i <= orig.len(),
                self.slots@.len() == orig.len(),
                self.next_id == next0,
                base == count_in(orig, None),
                base + count_in(orig, Some(from)) <= orig.len(),
                ordinals_bounded(orig),
                forall|j: int| 0 <= j < i ==> self.slots@[j] == rebased(orig[j], from, base),
                forall|j: int| i <= j < orig.len() ==> self.slots@[j] == orig[j],
            decreases orig.len() - i,
        {
            proof {
                if orig[i as int].partition == Some(from) {
                    assert(orig[i as int].ordinal < count_in(orig, Some(from)));
                }
            }
            let sl = &mut self.slots[i];
            if partition_eq(sl.partition, Some(from)) {
                sl.partition = None;
                sl.ordinal = sl.ordinal + base;
            }
            i = i + 1;
        }
        let ghost s1 = self.slots@;
        proof {
            assert forall|q: Option<i32>| true implies count_in(s1, q) == (if q == None::<i32> {
                count_in(s0, None) + count_in(s0, Some(from))
            } else if q == Some(from) {
                0nat
            } else {
                count_in(s0, q)
            }) by {
                lemma_count_rebase(s0, s1, from, base, q);
            }
            assert forall|i2: int, j2: int|
                0 <= i2 < j2 < s1.len() && s1[i2].partition == s1[j2].partition implies s1[i2].ordinal
                != s1[j2].ordinal by {
                assert(s1[i2] == rebased(s0[i2], from, base));
                assert(s1[j2] == rebased(s0[j2], from, base));
                assert(s0[i2].ordinal < count_in(s0, s0[i2].partition));
                assert(s0[j2].ordinal < count_in(s0, s0[j2].partition));
            }
            assert forall|i2: int| 0 <= i2 < s1.len() implies (#[trigger] s1[i2]).ordinal
                < count_in(s1, s1[i2].partition) by {
                assert(s1[i2] == rebased(s0[i2], from, base));
                assert(s0[i2].ordinal < count_in(s0, s0[i2].partition));
            }
            assert forall|x: i32| contains_id(s1, x) <==> contains_id(s0, x) by {
                if contains_id(s1, x) {
                    let i2 = idx_of(s1, x);
                    assert(s1[i2] == rebased(s0[i2], from, base));
                    assert(s0[i2].id == x);
                }
                if contains_id(s0, x) {
                    let i2 = idx_of(s0, x);
                    assert(s1[i2] == rebased(s0[i2], from, base));
                    assert(s1[i2].id == x);
                }
            }
            assert(distinct_ids(s1)) by {
                assert forall|i2: int, j2: int| 0 <= i2 < j2 < s1.len() implies s1[i2].id
                    != s1[j2].id by {
                    assert(s1[i2] == rebased(s0[i2], from, base));
                    assert(s1[j2] == rebased(s0[j2], from, base));
                }
            }
            assert forall|x: i32| contains_id(s0, x) implies slot_of(s1, x) == rebased(
                slot_of(s0, x),
                from,
                base,
            ) by {
                let i2 = idx_of(s0, x);
                assert(s1[i2] == rebased(s0[i2], from, base));
                assert(s1[i2].id == x);
                lemma_idx_of_is(s1, x, i2);
            }
        }
    }

}

/// Partition-key equality: `None` equals `None` and nothing else.
pub fn partition_eq(a: Option<i32>, b: Option<i32>) -> (r: bool)
    ensures
        r == (a == b),
{
    match (a, b) {
        (None, None) => true,
        (Some(x), Some(y)) => x == y,
        _ => false,
    }
}

} // verus!
