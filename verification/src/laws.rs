//! The ordering laws.
//!
//! [`lemma_ordinals_dense`] is the central statement: under the
//! well-formedness invariant [`wf_slots`], the ordinals occupied in any
//! partition are exactly `{0, 1, ..., count - 1}`.  Since every operation of
//! [`crate::store::OrdinalStore`] ensures the invariant of its result, the
//! statement holds after any sequence of inserts, deletes and moves.  The
//! remaining lemmas spell out what the operations' contracts say about one
//! partition: appending shifts nothing, deleting closes exactly one gap, a
//! move inside a partition shifts exactly the records between the two
//! positions, and a move across partitions renumbers the two partitions
//! independently.

use vstd::prelude::*;

use vstd::set_lib::lemma_int_range;
use vstd::set_lib::lemma_subset_equality;
use vstd::set_lib::set_int_range;

use crate::store::contains_id;
use crate::store::count_in;
use crate::store::delete_post;
use crate::store::distinct_positions;
use crate::store::insert_post;
use crate::store::relocate_post;
use crate::store::relocated;
use crate::store::shifted_down;
use crate::store::shifted_up;
use crate::store::slot_of;
use crate::store::wf_slots;
use crate::store::OrdinalStore;
use crate::store::Slot;

verus! {

/// Whether some record of partition `p` occupies ordinal `k`.
pub open spec fn ordinal_taken<P>(s: Seq<Slot<P>>, p: Option<i32>, k: int) -> bool {
    exists|i: int| 0 <= i < s.len() && s[i].partition == p && s[i].ordinal == k
}

/// The set of ordinals occupied in partition `p`.
pub open spec fn ordinals_of<P>(s: Seq<Slot<P>>, p: Option<i32>) -> Set<int> {
    Set::new(|k: int| ordinal_taken(s, p, k))
}

/// When no two records of a partition share an ordinal, the number of
/// occupied ordinals equals the number of records.
pub proof fn lemma_ordinals_of_card<P>(s: Seq<Slot<P>>, p: Option<i32>)
    requires
        distinct_positions(s),
    ensures
        ordinals_of(s, p).finite(),
        ordinals_of(s, p).len() == count_in(s, p),
    decreases s.len(),
{
    if s.len() == 0 {
        assert(ordinals_of(s, p) =~= Set::empty());
    } else {
        let s0 = s.drop_last();
        let e = s.last();
        assert(distinct_positions(s0)) by {
            assert forall|i: int, j: int|
                0 <= i < j < s0.len() && s0[i].partition == s0[j].partition implies s0[i].ordinal
                != s0[j].ordinal by {
                assert(s[i] == s0[i] && s[j] == s0[j]);
            }
        }
        lemma_ordinals_of_card(s0, p);
        if e.partition == p {
            assert(ordinals_of(s, p) =~= ordinals_of(s0, p).insert(e.ordinal as int)) by {
                assert forall|k: int| ordinal_taken(s, p, k) implies ordinal_taken(s0, p, k) || k
                    == e.ordinal by {
                    let i = choose|i: int|
                        0 <= i < s.len() && s[i].partition == p && s[i].ordinal == k;
                    if i < s.len() - 1 {
                        assert(s0[i] == s[i]);
                    }
                }
                assert forall|k: int| ordinal_taken(s0, p, k) implies ordinal_taken(s, p, k) by {
                    let i = choose|i: int|
                        0 <= i < s0.len() && s0[i].partition == p && s0[i].ordinal == k;
                    assert(s[i] == s0[i]);
                }
                assert(s[s.len() - 1] == e);
                assert(ordinal_taken(s, p, e.ordinal as int));
            }
            assert(!ordinals_of(s0, p).contains(e.ordinal as int)) by {
                if ordinal_taken(s0, p, e.ordinal as int) {
                    let i = choose|i: int|
                        0 <= i < s0.len() && s0[i].partition == p && s0[i].ordinal == e.ordinal;
                    assert(s[i] == s0[i]);
                    assert(s[i].ordinal != s[s.len() - 1].ordinal);
                }
            }
        } else {
            assert(ordinals_of(s, p) =~= ordinals_of(s0, p)) by {
                assert forall|k: int| ordinal_taken(s, p, k) implies ordinal_taken(s0, p, k) by {
                    let i = choose|i: int|
                        0 <= i < s.len() && s[i].partition == p && s[i].ordinal == k;
                    assert(s[s.len() - 1] == e);
                    assert(i < s.len() - 1);
                    assert(s0[i] == s[i]);
                }
                assert forall|k: int| ordinal_taken(s0, p, k) implies ordinal_taken(s, p, k) by {
                    let i = choose|i: int|
                        0 <= i < s0.len() && s0[i].partition == p && s0[i].ordinal == k;
                    assert(s[i] == s0[i]);
                }
            }
        }
    }
}

/// The density invariant in full: after every successful
/// operation the ordinals occupied in any partition `p` are exactly
/// `{0, 1, ..., count_in(s, p) - 1}` — no duplicates, no gaps.  Every
/// mutating operation of the store ensures `wf` of its result, so this
/// holds after any sequence of inserts, deletes and moves.
pub proof fn lemma_ordinals_dense<P>(s: Seq<Slot<P>>, p: Option<i32>)
    requires
        wf_slots(s),
    ensures
        ordinals_of(s, p) =~= set_int_range(0, count_in(s, p) as int),
        forall|k: int| ordinal_taken(s, p, k) <==> 0 <= k < count_in(s, p),
{
    let n = count_in(s, p) as int;
    lemma_ordinals_of_card(s, p);
    lemma_int_range(0, n);
    assert(ordinals_of(s, p).subset_of(set_int_range(0, n))) by {
        assert forall|k: int| ordinal_taken(s, p, k) implies 0 <= k < n by {
            let i = choose|i: int| 0 <= i < s.len() && s[i].partition == p && s[i].ordinal == k;
            assert(s[i].ordinal < count_in(s, s[i].partition));
        }
    }
    lemma_subset_equality(ordinals_of(s, p), set_int_range(0, n));
    assert forall|k: int| 0 <= k < n implies ordinal_taken(s, p, k) by {
        assert(set_int_range(0, n).contains(k));
        assert(ordinals_of(s, p).contains(k));
    }
}

/// Appending never shifts a row: an insert at `count_in(P)` — the position
/// the create operations use to append — leaves every existing record
/// exactly as it was, and the new record takes the previous count as its
/// ordinal.
pub proof fn lemma_append_moves_nothing<P>(
    pre: OrdinalStore<P>,
    post: OrdinalStore<P>,
    partition: Option<i32>,
    payload: P,
)
    requires
        pre.wf(),
        insert_post(pre, post, partition, count_in(pre.slots(), partition) as usize, payload),
    ensures
        slot_of(post.slots(), pre.next_id() as i32).ordinal == count_in(pre.slots(), partition),
        forall|x: i32|
            contains_id(pre.slots(), x) ==> slot_of(post.slots(), x) == slot_of(pre.slots(), x),
{
    crate::store::lemma_count_le_len(pre.slots(), partition);
    assert forall|x: i32| contains_id(pre.slots(), x) implies slot_of(post.slots(), x) == slot_of(
        pre.slots(),
        x,
    ) by {
        let before = slot_of(pre.slots(), x);
        let i = crate::store::idx_of(pre.slots(), x);
        assert(pre.slots()[i] == before);
        assert(before.ordinal < count_in(pre.slots(), before.partition));
        crate::store::lemma_count_le_len(pre.slots(), before.partition);
        assert(shifted_up(before, partition, count_in(pre.slots(), partition) as usize) == before);
    }
}

/// Delete closes the gap and nothing more.  Deleting the record at ordinal
/// `k` of a partition of size `n` leaves that partition with `n - 1`
/// records occupying exactly the ordinals `{0, ..., n - 2}`; every
/// surviving record of the partition above `k` has its ordinal lowered by
/// exactly one, every record at or below `k` and every record of another
/// partition is untouched, and identities and payloads are kept.
pub proof fn lemma_delete_closes_gap<P>(pre: OrdinalStore<P>, post: OrdinalStore<P>, id: i32)
    requires
        pre.wf(),
        contains_id(pre.slots(), id),
        delete_post(pre, post, id),
    ensures
        ({
            let p = slot_of(pre.slots(), id).partition;
            let k = slot_of(pre.slots(), id).ordinal;
            &&& count_in(post.slots(), p) + 1 == count_in(pre.slots(), p)
            &&& forall|x: i32|
                #![trigger slot_of(post.slots(), x)]
                x != id && contains_id(pre.slots(), x) ==> {
                    let before = slot_of(pre.slots(), x);
                    let after = slot_of(post.slots(), x);
                    &&& after.id == before.id
                    &&& after.payload == before.payload
                    &&& after.partition == before.partition
                    &&& before.partition == p && before.ordinal > k ==> after.ordinal
                        == before.ordinal - 1
                    &&& before.partition == p && before.ordinal <= k ==> after == before
                    &&& before.partition != p ==> after == before
                }
            &&& forall|j: int| ordinal_taken(post.slots(), p, j) <==> 0 <= j < count_in(pre.slots(), p) - 1
        }),
{
    let p = slot_of(pre.slots(), id).partition;
    lemma_ordinals_dense(post.slots(), p);
}

/// A move within one partition is a single-slot shift.  Moving a record
/// from ordinal `a` to ordinal `b` of the same partition sets the moved
/// record's ordinal to `b` (keeping its payload); with `a < b` it
/// decrements exactly the records originally in `(a, b]`, with `a > b` it
/// increments exactly the records originally in `[b, a)`, with `a == b` it
/// changes nothing; records outside the window and records of other
/// partitions are untouched, and the partition's count is unchanged.
pub proof fn lemma_move_within_single_slot_shift<P>(
    pre: OrdinalStore<P>,
    post: OrdinalStore<P>,
    id: i32,
    b: usize,
)
    requires
        pre.wf(),
        contains_id(pre.slots(), id),
        relocate_post(pre, post, id, slot_of(pre.slots(), id).partition, b),
    ensures
        ({
            let p = slot_of(pre.slots(), id).partition;
            let a = slot_of(pre.slots(), id).ordinal;
            &&& count_in(post.slots(), p) == count_in(pre.slots(), p)
            &&& slot_of(post.slots(), id) == (Slot {
                id,
                partition: p,
                ordinal: b,
                payload: slot_of(pre.slots(), id).payload,
            })
            &&& forall|x: i32|
                #![trigger slot_of(post.slots(), x)]
                x != id && contains_id(pre.slots(), x) ==> {
                    let before = slot_of(pre.slots(), x);
                    let after = slot_of(post.slots(), x);
                    &&& after.id == before.id
                    &&& after.payload == before.payload
                    &&& after.partition == before.partition
                    &&& before.partition != p ==> after == before
                    &&& before.partition == p && a < b ==> {
                        if a < before.ordinal <= b {
                            after.ordinal == before.ordinal - 1
                        } else {
                            after == before
                        }
                    }
                    &&& before.partition == p && a > b ==> {
                        if b <= before.ordinal < a {
                            after.ordinal == before.ordinal + 1
                        } else {
                            after == before
                        }
                    }
                    &&& before.partition == p && a == b ==> after == before
                }
        }),
{
    let p = slot_of(pre.slots(), id).partition;
    let a = slot_of(pre.slots(), id).ordinal;
    assert forall|x: i32|
        #![trigger slot_of(post.slots(), x)]
        x != id && contains_id(pre.slots(), x) implies {
        let before = slot_of(pre.slots(), x);
        let after = slot_of(post.slots(), x);
        &&& after.id == before.id
        &&& after.payload == before.payload
        &&& after.partition == before.partition
        &&& before.partition != p ==> after == before
        &&& before.partition == p && a < b ==> {
            if a < before.ordinal <= b {
                after.ordinal == before.ordinal - 1
            } else {
                after == before
            }
        }
        &&& before.partition == p && a > b ==> {
            if b <= before.ordinal < a {
                after.ordinal == before.ordinal + 1
            } else {
                after == before
            }
        }
        &&& before.partition == p && a == b ==> after == before
    } by {
        let before = slot_of(pre.slots(), x);
        let i = crate::store::idx_of(pre.slots(), x);
        assert(pre.slots()[i] == before);
        assert(before.ordinal < count_in(pre.slots(), before.partition));
        crate::store::lemma_count_le_len(pre.slots(), before.partition);
        if before.partition == p {
            let j = crate::store::idx_of(pre.slots(), id);
            if i < j {
                assert(pre.slots()[i].ordinal != pre.slots()[j].ordinal);
            } else {
                assert(pre.slots()[j].ordinal != pre.slots()[i].ordinal);
            }
        }
        lemma_move_within_window(before, p, a, b);
    }
}

/// A move across two partitions renumbers them independently: the source
/// partition closes the gap the record left, the target partition opens a
/// slot for it, records of other partitions are untouched, and afterwards
/// the ordinals of source and target are again exactly `{0, ..., count-1}`
/// for their new counts.
pub proof fn lemma_move_across_preserves_both<P>(
    pre: OrdinalStore<P>,
    post: OrdinalStore<P>,
    id: i32,
    new_p: Option<i32>,
    b: usize,
)
    requires
        pre.wf(),
        contains_id(pre.slots(), id),
        slot_of(pre.slots(), id).partition != new_p,
        relocate_post(pre, post, id, new_p, b),
    ensures
        ({
            let p_old = slot_of(pre.slots(), id).partition;
            let a = slot_of(pre.slots(), id).ordinal;
            &&& count_in(post.slots(), p_old) + 1 == count_in(pre.slots(), p_old)
            &&& count_in(post.slots(), new_p) == count_in(pre.slots(), new_p) + 1
            &&& forall|x: i32|
                #![trigger slot_of(post.slots(), x)]
                x != id && contains_id(pre.slots(), x) ==> {
                    let before = slot_of(pre.slots(), x);
                    let after = slot_of(post.slots(), x);
                    &&& before.partition == p_old ==> after == shifted_down(before, p_old, a)
                    &&& before.partition == new_p ==> after == shifted_up(before, new_p, b)
                    &&& before.partition != p_old && before.partition != new_p ==> after == before
                }
            &&& forall|j: int|
                ordinal_taken(post.slots(), p_old, j) <==> 0 <= j < count_in(post.slots(), p_old)
            &&& forall|j: int|
                ordinal_taken(post.slots(), new_p, j) <==> 0 <= j < count_in(post.slots(), new_p)
        }),
{
    let p_old = slot_of(pre.slots(), id).partition;
    let a = slot_of(pre.slots(), id).ordinal;
    assert forall|x: i32|
        #![trigger slot_of(post.slots(), x)]
        x != id && contains_id(pre.slots(), x) implies {
        let before = slot_of(pre.slots(), x);
        let after = slot_of(post.slots(), x);
        &&& before.partition == p_old ==> after == shifted_down(before, p_old, a)
        &&& before.partition == new_p ==> after == shifted_up(before, new_p, b)
        &&& before.partition != p_old && before.partition != new_p ==> after == before
    } by {
        let before = slot_of(pre.slots(), x);
        let i = crate::store::idx_of(pre.slots(), x);
        assert(pre.slots()[i] == before);
        assert(before.ordinal < count_in(pre.slots(), before.partition));
        crate::store::lemma_count_le_len(pre.slots(), before.partition);
        lemma_move_across_independent(before, p_old, a, new_p, b);
    }
    lemma_ordinals_dense(post.slots(), p_old);
    lemma_ordinals_dense(post.slots(), new_p);
}

/// The single-slot effect on one record of a move within one partition.
/// For a record of the partition other than the moved one (`e.ordinal != a`),
/// moving some record from ordinal `a` to ordinal `b`:
/// - with `a < b` decrements exactly the records in `(a, b]` and leaves the
///   rest unchanged;
/// - with `a > b` increments exactly the records in `[b, a)` and leaves the
///   rest unchanged;
/// - with `a == b` changes nothing.
/// Records of other partitions are untouched.
pub proof fn lemma_move_within_window<P>(e: Slot<P>, p: Option<i32>, a: usize, b: usize)
    requires
        e.ordinal < usize::MAX,
        e.partition == p ==> e.ordinal != a,
    ensures
        e.partition != p ==> relocated(e, p, a, p, b) == e,
        e.partition == p ==> relocated(e, p, a, p, b).partition == p && relocated(
            e,
            p,
            a,
            p,
            b,
        ).id == e.id && relocated(e, p, a, p, b).payload == e.payload,
        e.partition == p && a < b ==> {
            if a < e.ordinal <= b {
                relocated(e, p, a, p, b).ordinal == e.ordinal - 1
            } else {
                relocated(e, p, a, p, b) == e
            }
        },
        e.partition == p && a > b ==> {
            if b <= e.ordinal < a {
                relocated(e, p, a, p, b).ordinal == e.ordinal + 1
            } else {
                relocated(e, p, a, p, b) == e
            }
        },
        e.partition == p && a == b ==> relocated(e, p, a, p, b) == e,
{
}

/// A move across two different partitions acts on them independently: a
/// record of the source partition sees only the gap at `a` being closed, a
/// record of the target partition sees only the slot at `b` being opened,
/// and a record of any other partition is untouched.  Both partitions are
/// dense again afterwards — apply [`lemma_ordinals_dense`] to the resulting
/// store, whose well-formedness `relocate` ensures.
pub proof fn lemma_move_across_independent<P>(
    e: Slot<P>,
    p_old: Option<i32>,
    a: usize,
    p_new: Option<i32>,
    b: usize,
)
    requires
        p_old != p_new,
        e.ordinal < usize::MAX,
    ensures
        e.partition == p_old ==> relocated(e, p_old, a, p_new, b) == shifted_down(e, p_old, a),
        e.partition == p_new ==> relocated(e, p_old, a, p_new, b) == shifted_up(e, p_new, b),
        e.partition != p_old && e.partition != p_new ==> relocated(e, p_old, a, p_new, b) == e,
{
}

} // verus!
