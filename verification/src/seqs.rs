//! Sums, counts and multiset facts about sequences of rooms and quotas.

use vstd::prelude::*;
use vstd::multiset::Multiset;
use vstd::seq_lib::group_to_multiset_ensures;

use crate::room::{Room, RoomType, spec_work_units};

verus! {

/// Sum of a quota sequence.
pub open spec fn quota_sum(q: Seq<u8>) -> int
    decreases q.len(),
{
    if q.len() == 0 {
        0
    } else {
        quota_sum(q.drop_last()) + q.last()
    }
}

/// Number of entries of a quota sequence that are not zero.
pub open spec fn nonzero_count(q: Seq<u8>) -> int
    decreases q.len(),
{
    if q.len() == 0 {
        0
    } else {
        nonzero_count(q.drop_last()) + if q.last() != 0 { 1int } else { 0int }
    }
}

pub proof fn lemma_nonzero_count_nonneg(q: Seq<u8>)
    ensures
        nonzero_count(q) >= 0,
    decreases q.len(),
{
    if q.len() > 0 {
        lemma_nonzero_count_nonneg(q.drop_last());
    }
}

/// A nonzero entry makes the nonzero count positive.
pub proof fn lemma_nonzero_count_pos(q: Seq<u8>, i: int)
    requires
        0 <= i < q.len(),
        q[i] != 0,
    ensures
        nonzero_count(q) >= 1,
    decreases q.len(),
{
    lemma_nonzero_count_nonneg(q.drop_last());
    if i < q.len() - 1 {
        lemma_nonzero_count_pos(q.drop_last(), i);
    }
}

/// Two nonzero entries make the nonzero count at least two.
pub proof fn lemma_nonzero_count_two(q: Seq<u8>, i: int, j: int)
    requires
        0 <= i < j < q.len(),
        q[i] != 0,
        q[j] != 0,
    ensures
        nonzero_count(q) >= 2,
    decreases q.len(),
{
    if j == q.len() - 1 {
        lemma_nonzero_count_pos(q.drop_last(), i);
    } else {
        lemma_nonzero_count_two(q.drop_last(), i, j);
    }
}

/// Number of rooms of a given category in a sequence.
pub open spec fn room_count_of(s: Seq<Room>, t: RoomType) -> int
    decreases s.len(),
{
    if s.len() == 0 {
        0
    } else {
        room_count_of(s.drop_last(), t) + if s.last().room_type == t { 1int } else { 0int }
    }
}

/// Total work units of a sequence of rooms.
pub open spec fn seq_work_units(s: Seq<Room>) -> int
    decreases s.len(),
{
    if s.len() == 0 {
        0
    } else {
        seq_work_units(s.drop_last()) + spec_work_units(s.last().room_type)
    }
}

/// The sequence left by `Vec::swap_remove` at index `i`.
pub open spec fn swap_removed(s: Seq<Room>, i: int) -> Seq<Room> {
    s.update(i, s.last()).drop_last()
}

pub proof fn lemma_quota_sum_nonneg(q: Seq<u8>)
    ensures
        quota_sum(q) >= 0,
    decreases q.len(),
{
    if q.len() > 0 {
        lemma_quota_sum_nonneg(q.drop_last());
    }
}

pub proof fn lemma_quota_sum_split(q: Seq<u8>, i: int)
    requires
        0 <= i <= q.len(),
    ensures
        quota_sum(q) == quota_sum(q.take(i)) + quota_sum(q.skip(i)),
    decreases q.len() - i,
{
    if i == q.len() {
        assert(q.take(i) =~= q);
        assert(quota_sum(q.skip(i)) == 0);
    } else {
        lemma_quota_sum_split(q, i + 1);
        assert(q.take(i + 1).drop_last() =~= q.take(i));
        assert(q.take(i + 1).last() == q[i]);
        assert(q.skip(i).drop_first() =~= q.skip(i + 1));
        lemma_quota_sum_first(q.skip(i));
    }
}

/// Unfolding a quota sum at the front instead of the back.
pub proof fn lemma_quota_sum_first(q: Seq<u8>)
    requires
        q.len() > 0,
    ensures
        quota_sum(q) == q[0] + quota_sum(q.drop_first()),
    decreases q.len(),
{
    if q.len() == 1 {
        assert(q.drop_first() =~= Seq::<u8>::empty());
        assert(q.drop_last() =~= Seq::<u8>::empty());
        assert(quota_sum(q) == quota_sum(q.drop_last()) + q.last());
        assert(quota_sum(q.drop_first()) == 0);
        assert(q.last() == q[0]);
    } else {
        lemma_quota_sum_first(q.drop_last());
        assert(q.drop_last().drop_first() =~= q.drop_first().drop_last());
        assert(q.drop_last()[0] == q[0]);
        assert(q.drop_first().last() == q.last());
        assert(quota_sum(q.drop_first()) == quota_sum(q.drop_first().drop_last())
            + q.drop_first().last());
        assert(quota_sum(q) == quota_sum(q.drop_last()) + q.last());
    }
}

/// Each entry of a quota sequence is at most the whole sum.
pub proof fn lemma_quota_sum_ge_elem(q: Seq<u8>, i: int)
    requires
        0 <= i < q.len(),
    ensures
        quota_sum(q) >= q[i],
    decreases q.len(),
{
    if i == q.len() - 1 {
        lemma_quota_sum_nonneg(q.drop_last());
    } else {
        lemma_quota_sum_ge_elem(q.drop_last(), i);
    }
}

pub proof fn lemma_quota_sum_update(q: Seq<u8>, i: int, v: u8)
    requires
        0 <= i < q.len(),
    ensures
        quota_sum(q.update(i, v)) == quota_sum(q) - q[i] + v,
    decreases q.len(),
{
    if i == q.len() - 1 {
        assert(q.update(i, v).drop_last() =~= q.drop_last());
    } else {
        assert(q.update(i, v).drop_last() =~= q.drop_last().update(i, v));
        lemma_quota_sum_update(q.drop_last(), i, v);
    }
}

pub proof fn lemma_room_count_nonneg(s: Seq<Room>, t: RoomType)
    ensures
        room_count_of(s, t) >= 0,
    decreases s.len(),
{
    if s.len() > 0 {
        lemma_room_count_nonneg(s.drop_last(), t);
    }
}

/// A positive category count yields a witness index.
pub proof fn lemma_room_count_pos_exists(s: Seq<Room>, t: RoomType)
    requires
        room_count_of(s, t) > 0,
    ensures
        exists|i: int| 0 <= i < s.len() && s[i].room_type == t,
    decreases s.len(),
{
    if s.last().room_type == t {
        assert(s[s.len() - 1].room_type == t);
    } else {
        lemma_room_count_pos_exists(s.drop_last(), t);
        let i = choose|i: int| 0 <= i < s.drop_last().len() && s.drop_last()[i].room_type == t;
        assert(s[i].room_type == t);
    }
}

/// If no room of a category stands in a sequence, its count is zero.
pub proof fn lemma_room_count_zero(s: Seq<Room>, t: RoomType)
    requires
        forall|i: int| 0 <= i < s.len() ==> s[i].room_type != t,
    ensures
        room_count_of(s, t) == 0,
    decreases s.len(),
{
    if s.len() > 0 {
        lemma_room_count_zero(s.drop_last(), t);
    }
}

pub proof fn lemma_room_count_update(s: Seq<Room>, i: int, r: Room, t: RoomType)
    requires
        0 <= i < s.len(),
    ensures
        room_count_of(s.update(i, r), t) == room_count_of(s, t)
            - (if s[i].room_type == t { 1int } else { 0int })
            + (if r.room_type == t { 1int } else { 0int }),
    decreases s.len(),
{
    if i == s.len() - 1 {
        assert(s.update(i, r).drop_last() =~= s.drop_last());
    } else {
        assert(s.update(i, r).drop_last() =~= s.drop_last().update(i, r));
        lemma_room_count_update(s.drop_last(), i, r, t);
    }
}

/// How `swap_remove` changes a category count.
pub proof fn lemma_swap_remove_count(s: Seq<Room>, i: int, t: RoomType)
    requires
        0 <= i < s.len(),
    ensures
        room_count_of(swap_removed(s, i), t) == room_count_of(s, t)
            - (if s[i].room_type == t { 1int } else { 0int }),
{
    let u = s.update(i, s.last());
    lemma_room_count_update(s, i, s.last(), t);
    assert(u.last() == s.last());
    assert(room_count_of(u, t) == room_count_of(u.drop_last(), t)
        + if u.last().room_type == t { 1int } else { 0int });
}

/// A room standing at some index makes its category's count positive.
pub proof fn lemma_room_count_pos_of_mem(s: Seq<Room>, i: int)
    requires
        0 <= i < s.len(),
    ensures
        room_count_of(s, s[i].room_type) > 0,
    decreases s.len(),
{
    lemma_room_count_nonneg(s.drop_last(), s[i].room_type);
    if i < s.len() - 1 {
        lemma_room_count_pos_of_mem(s.drop_last(), i);
    }
}

/// When a category is exhausted, no room of that category is in the
/// sequence's multiset.
pub proof fn lemma_room_count_zero_ms(s: Seq<Room>, rm: Room)
    requires
        room_count_of(s, rm.room_type) == 0,
    ensures
        s.to_multiset().count(rm) == 0,
{
    broadcast use group_to_multiset_ensures;

    if s.to_multiset().count(rm) > 0 {
        assert(s.contains(rm));
        let i = choose|i: int| 0 <= i < s.len() && s[i] == rm;
        lemma_room_count_pos_of_mem(s, i);
        assert(false);
    }
}

pub proof fn lemma_seq_work_nonneg(s: Seq<Room>)
    ensures
        seq_work_units(s) >= 0,
    decreases s.len(),
{
    if s.len() > 0 {
        lemma_seq_work_nonneg(s.drop_last());
    }
}

/// Unfolding a work sum at the front instead of the back.
pub proof fn lemma_seq_work_first(s: Seq<Room>)
    requires
        s.len() > 0,
    ensures
        seq_work_units(s) == spec_work_units(s[0].room_type) + seq_work_units(s.drop_first()),
    decreases s.len(),
{
    if s.len() == 1 {
        assert(s.drop_first() =~= Seq::<Room>::empty());
        assert(s.drop_last() =~= Seq::<Room>::empty());
        assert(seq_work_units(s) == seq_work_units(s.drop_last()) + spec_work_units(
            s.last().room_type,
        ));
        assert(s.last() == s[0]);
    } else {
        lemma_seq_work_first(s.drop_last());
        assert(s.drop_last().drop_first() =~= s.drop_first().drop_last());
        assert(s.drop_last()[0] == s[0]);
        assert(s.drop_first().last() == s.last());
        assert(seq_work_units(s.drop_first()) == seq_work_units(s.drop_first().drop_last())
            + spec_work_units(s.drop_first().last().room_type));
        assert(seq_work_units(s) == seq_work_units(s.drop_last()) + spec_work_units(
            s.last().room_type,
        ));
    }
}

pub proof fn lemma_seq_work_split(s: Seq<Room>, i: int)
    requires
        0 <= i <= s.len(),
    ensures
        seq_work_units(s) == seq_work_units(s.take(i)) + seq_work_units(s.skip(i)),
    decreases s.len() - i,
{
    if i == s.len() {
        assert(s.take(i) =~= s);
        assert(seq_work_units(s.skip(i)) == 0);
    } else {
        lemma_seq_work_split(s, i + 1);
        assert(s.take(i + 1).drop_last() =~= s.take(i));
        assert(s.take(i + 1).last() == s[i]);
        assert(s.skip(i).drop_first() =~= s.skip(i + 1));
        assert(s.skip(i)[0] == s[i]);
        lemma_seq_work_first(s.skip(i));
    }
}

/// The total work of a room sequence, written over its category counts.
pub proof fn lemma_seq_work_by_counts(s: Seq<Room>)
    ensures
        seq_work_units(s) == room_count_of(s, RoomType::Single)
            + 2 * room_count_of(s, RoomType::Double)
            + 3 * room_count_of(s, RoomType::Triple)
            + 4 * room_count_of(s, RoomType::Quad),
        s.len() == room_count_of(s, RoomType::Single) + room_count_of(s, RoomType::Double)
            + room_count_of(s, RoomType::Triple) + room_count_of(s, RoomType::Quad),
    decreases s.len(),
{
    if s.len() > 0 {
        lemma_seq_work_by_counts(s.drop_last());
    }
}

/// The multiset of the empty room sequence is empty.
pub proof fn lemma_empty_ms()
    ensures
        Seq::<Room>::empty().to_multiset() == Multiset::<Room>::empty(),
{
    broadcast use group_to_multiset_ensures;

    assert forall|x: Room| Seq::<Room>::empty().to_multiset().count(x) == 0 by {
        assert(!Seq::<Room>::empty().contains(x));
    }
    assert(Seq::<Room>::empty().to_multiset() =~= Multiset::<Room>::empty());
}

/// How `swap_remove` changes the multiset of a sequence.
pub proof fn lemma_swap_remove_multiset(s: Seq<Room>, i: int)
    requires
        0 <= i < s.len(),
    ensures
        swap_removed(s, i).to_multiset() == s.to_multiset().remove(s[i]),
        s.to_multiset().count(s[i]) > 0,
{
    broadcast use group_to_multiset_ensures;

    let u = s.update(i, s.last());
    assert(u.to_multiset() =~= s.to_multiset().remove(s[i]).insert(s.last()));
    assert(u.drop_last().push(u.last()) =~= u);
    assert(u.drop_last().push(u.last()).to_multiset() =~= u.drop_last().to_multiset().insert(
        u.last(),
    ));
    assert(u.last() == s.last());
    let a = u.drop_last().to_multiset();
    let b = s.to_multiset().remove(s[i]);
    assert(a.insert(s.last()) =~= b.insert(s.last()));
    assert forall|x: Room| a.count(x) == b.count(x) by {
        assert(a.insert(s.last()).count(x) == b.insert(s.last()).count(x));
    }
    assert(a =~= b);
    assert(s.contains(s[i]));
}

/// A sequence's multiset splits over concatenation.
pub proof fn lemma_to_multiset_add(a: Seq<Room>, b: Seq<Room>)
    ensures
        (a + b).to_multiset() == a.to_multiset().add(b.to_multiset()),
    decreases b.len(),
{
    broadcast use group_to_multiset_ensures;

    if b.len() == 0 {
        assert(a + b =~= a);
        assert(b.to_multiset() =~= Multiset::<Room>::empty());
        assert(a.to_multiset().add(b.to_multiset()) =~= a.to_multiset());
    } else {
        lemma_to_multiset_add(a, b.drop_last());
        assert(a + b =~= (a + b.drop_last()).push(b.last()));
        assert(b.drop_last().push(b.last()) =~= b);
        assert(a.to_multiset().add(b.drop_last().to_multiset()).insert(b.last())
            =~= a.to_multiset().add(b.drop_last().to_multiset().insert(b.last())));
    }
}

} // verus!
