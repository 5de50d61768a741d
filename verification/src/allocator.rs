//! Room allocation: partitioning the room pool into per-housekeeper lists.
//!
//! The allocator consumes a shared pool of rooms and the planned quotas.
//! Single rooms go to the last housekeeper first; a pool of fewer than six
//! remaining rooms is dealt round-robin; otherwise a loop applies greedy
//! rules (last-workload, exact-fit, parity-fix, pairing, even-split) until
//! the bed pool reaches zero or no rule makes progress.

use vstd::prelude::*;
use vstd::multiset::Multiset;
use vstd::seq_lib::group_to_multiset_ensures;

use vstd::arithmetic::div_mod::lemma_fundamental_div_mod;
use vstd::arithmetic::mul::lemma_mul_inequality;

use crate::errors::AllocationError;
use crate::housekeeper::Housekeeper;
use crate::planner::{inc_share, lemma_cycle_step};
use crate::room::{Room, RoomType, spec_work_units};
use crate::seqs::{
    lemma_empty_ms, lemma_nonzero_count_pos, lemma_nonzero_count_two, lemma_quota_sum_first,
    lemma_quota_sum_ge_elem, lemma_quota_sum_nonneg, lemma_quota_sum_split,
    lemma_quota_sum_update, lemma_room_count_nonneg, lemma_room_count_pos_exists,
    lemma_room_count_zero, lemma_room_count_zero_ms, lemma_seq_work_by_counts,
    lemma_swap_remove_count, lemma_swap_remove_multiset, lemma_to_multiset_add, nonzero_count,
    quota_sum, room_count_of, seq_work_units, swap_removed,
};

verus! {

/// Multiset of all rooms across an arrangement's lists.
pub open spec fn arrangement_ms(a: Seq<Vec<Room>>) -> Multiset<Room>
    decreases a.len(),
{
    if a.len() == 0 {
        Multiset::empty()
    } else {
        arrangement_ms(a.drop_last()).add(a.last()@.to_multiset())
    }
}

/// Every room of the run, wherever it currently stands: still in the pool
/// or already assigned to a list.
pub open spec fn placed(rooms: Seq<Room>, room_arrangement: Seq<Vec<Room>>) -> Multiset<Room> {
    rooms.to_multiset().add(arrangement_ms(room_arrangement))
}

/// The bookkeeping invariant of the allocation loop: the quantity counters
/// match the pool, no Single room remains, and the bed pool equals both the
/// remaining quota sum and the remaining pool workload.
pub open spec fn alloc_wf(
    rooms: Seq<Room>,
    room_arrangement: Seq<Vec<Room>>,
    work_unit_quota: Seq<u8>,
    room_quantity: Seq<usize>,
    bed_pool: int,
    n: int,
) -> bool {
    &&& room_arrangement.len() == n
    &&& work_unit_quota.len() == n
    &&& room_quantity.len() == 3
    &&& room_quantity[0] == room_count_of(rooms, RoomType::Double)
    &&& room_quantity[1] == room_count_of(rooms, RoomType::Triple)
    &&& room_quantity[2] == room_count_of(rooms, RoomType::Quad)
    &&& room_count_of(rooms, RoomType::Single) == 0
    &&& bed_pool == quota_sum(work_unit_quota)
    &&& bed_pool == seq_work_units(rooms)
}

/// Each list of `post` extends the corresponding list of `pre`.
pub open spec fn lists_extend(pre: Seq<Vec<Room>>, post: Seq<Vec<Room>>) -> bool {
    &&& post.len() == pre.len()
    &&& forall|h: int| 0 <= h < pre.len() ==> (#[trigger] pre[h])@.is_prefix_of(post[h]@)
}

/// The category tracked by quantity slot `j`: Double, Triple, Quad.
pub open spec fn slot_type(j: int) -> RoomType {
    if j == 0 {
        RoomType::Double
    } else if j == 1 {
        RoomType::Triple
    } else {
        RoomType::Quad
    }
}

/// The work-unit cost of quantity slot `j`.
pub open spec fn slot_cost(j: int) -> int {
    spec_work_units(slot_type(j))
}

/// One room of quantity slot `j` moved from the pool to the list of
/// housekeeper `i`; every other list untouched.
pub open spec fn assigned_one(
    pre_rooms: Seq<Room>,
    post_rooms: Seq<Room>,
    pre_arr: Seq<Vec<Room>>,
    post_arr: Seq<Vec<Room>>,
    i: int,
    j: int,
    n: int,
) -> bool {
    exists|rm: Room|
        {
            &&& rm.room_type == slot_type(j)
            &&& post_arr[i]@ == pre_arr[i]@.push(rm)
            &&& (forall|h: int| 0 <= h < n && h != i ==> #[trigger] post_arr[h] == pre_arr[h])
            &&& #[trigger] pre_rooms.to_multiset().count(rm) > 0
            &&& post_rooms.to_multiset() == pre_rooms.to_multiset().remove(rm)
        }
}

/// When the pool held a room of the wanted category on the preferred floor,
/// the room that housekeeper `i` received stands on that floor.
pub open spec fn pref_respected(
    pre_rooms: Seq<Room>,
    pre_arr: Seq<Vec<Room>>,
    post_arr: Seq<Vec<Room>>,
    i: int,
    j: int,
    c: char,
) -> bool {
    (exists|k: int|
        0 <= k < pre_rooms.len() && is_pref_room(#[trigger] pre_rooms[k], slot_type(j), c))
        ==> (post_arr[i]@.len() == pre_arr[i]@.len() + 1 && is_pref_room(
        post_arr[i]@.last(),
        slot_type(j),
        c,
    ))
}

/// The leading decimal digit of a non-negative integer.
pub open spec fn leading_digit(n: int) -> int
    decreases n,
{
    if n < 10 {
        n
    } else {
        leading_digit(n / 10)
    }
}

/// Whether a room stands on the floor a housekeeper prefers: the room
/// identifier's leading digit, read as a character, equals the preference.
pub open spec fn floor_matches(rm: Room, c: char) -> bool {
    c as u32 == 48 + leading_digit(rm.id as int)
}

/// A room of the wanted category on the preferred floor.
pub open spec fn is_pref_room(rm: Room, t: RoomType, c: char) -> bool {
    rm.room_type == t && floor_matches(rm, c)
}

/// Multiset of a one-room sequence.
pub proof fn lemma_singleton_ms(rm: Room)
    ensures
        seq![rm].to_multiset() == Multiset::empty().insert(rm),
{
    broadcast use group_to_multiset_ensures;

    assert(Seq::<Room>::empty().push(rm) =~= seq![rm]);
    assert(Seq::<Room>::empty().push(rm).to_multiset() =~= Seq::<Room>::empty()
        .to_multiset()
        .insert(rm));
    assert(Seq::<Room>::empty().to_multiset().insert(rm) =~= Multiset::empty().insert(rm));
}

/// Replacing list `h` by that list with `extra` appended adds exactly
/// `extra`'s rooms to the arrangement multiset.
pub proof fn lemma_arrangement_ms_update_concat(
    a: Seq<Vec<Room>>,
    h: int,
    l: Vec<Room>,
    extra: Seq<Room>,
)
    requires
        0 <= h < a.len(),
        l@ == a[h]@ + extra,
    ensures
        arrangement_ms(a.update(h, l)) == arrangement_ms(a).add(extra.to_multiset()),
    decreases a.len(),
{
    lemma_to_multiset_add(a[h]@, extra);
    if h == a.len() - 1 {
        assert(a.update(h, l).drop_last() =~= a.drop_last());
        assert(a.update(h, l).last() == l);
        assert(arrangement_ms(a.update(h, l)) == arrangement_ms(a.drop_last()).add(
            l@.to_multiset(),
        ));
        assert(arrangement_ms(a.drop_last()).add(a[h]@.to_multiset().add(extra.to_multiset()))
            =~= arrangement_ms(a.drop_last()).add(a[h]@.to_multiset()).add(extra.to_multiset()));
    } else {
        assert(a.update(h, l).drop_last() =~= a.drop_last().update(h, l));
        assert(a.update(h, l).last() == a.last());
        assert(a.drop_last()[h] == a[h]);
        lemma_arrangement_ms_update_concat(a.drop_last(), h, l, extra);
        assert(arrangement_ms(a.drop_last()).add(extra.to_multiset()).add(a.last()@.to_multiset())
            =~= arrangement_ms(a.drop_last()).add(a.last()@.to_multiset()).add(
            extra.to_multiset(),
        ));
    }
}

/// A prefix never holds more copies of a room than the whole.
pub proof fn lemma_prefix_ms_le(s1: Seq<Room>, s2: Seq<Room>)
    requires
        s1.is_prefix_of(s2),
    ensures
        forall|rm: Room| s2.to_multiset().count(rm) >= s1.to_multiset().count(rm),
{
    assert(s2 =~= s1 + s2.skip(s1.len() as int));
    lemma_to_multiset_add(s1, s2.skip(s1.len() as int));
}

/// Appends one room to the list of housekeeper `h`.
fn push_room(room_arrangement: &mut Vec<Vec<Room>>, h: usize, rm: Room)
    requires
        h < old(room_arrangement)@.len(),
    ensures
        final(room_arrangement)@.len() == old(room_arrangement)@.len(),
        final(room_arrangement)@[h as int]@ == old(room_arrangement)@[h as int]@.push(rm),
        forall|j: int|
            0 <= j < old(room_arrangement)@.len() && j != h ==> final(room_arrangement)@[j]
                == old(room_arrangement)@[j],
        final(room_arrangement)@ == old(room_arrangement)@.update(
            h as int,
            final(room_arrangement)@[h as int],
        ),
{
    let ghost pre = room_arrangement@;
    room_arrangement[h].push(rm);
    proof {
        assert(room_arrangement@ =~= pre.update(h as int, room_arrangement@[h as int]));
    }
}

/// The exec counterpart of `leading_digit`.
fn room_floor_digit(id: u16) -> (r: u16)
    ensures
        r == leading_digit(id as int),
        r <= 9,
{
    let mut m: u16 = id;
    while m >= 10
        invariant
            leading_digit(m as int) == leading_digit(id as int),
        decreases m,
    {
        m = m / 10;
    }
    m
}

/// Picks a room of the wanted category out of the pool, preferring the
/// housekeeper's floor: the first such room on that floor if one exists,
/// else the first room of the category, removed by `swap_remove`.
pub fn get_room_of_type(
    rooms: &mut Vec<Room>,
    room_type: RoomType,
    housekeeper_index: usize,
    housekeepers: &Vec<Housekeeper>,
) -> (r: Option<Room>)
    requires
        housekeeper_index < housekeepers@.len(),
    ensures
        ({
            let pre = old(rooms)@;
            let c = housekeepers@[housekeeper_index as int].preferred_floor;
            match r {
                Some(rm) => exists|i: int|
                    0 <= i < pre.len() && rm == pre[i] && pre[i].room_type == room_type
                        && final(rooms)@ == #[trigger] swap_removed(pre, i) && (if exists|k: int|
                        0 <= k < pre.len() && is_pref_room(#[trigger] pre[k], room_type, c) {
                        is_pref_room(pre[i], room_type, c) && forall|k: int|
                            0 <= k < i ==> !is_pref_room(#[trigger] pre[k], room_type, c)
                    } else {
                        forall|k: int| 0 <= k < i ==> (#[trigger] pre[k]).room_type != room_type
                    }),
                None => final(rooms)@ == pre && forall|i: int|
                    0 <= i < pre.len() ==> (#[trigger] pre[i]).room_type != room_type,
            }
        }),
{
    let ghost pre = rooms@;
    let preferred_floor = housekeepers[housekeeper_index].preferred_floor;
    let ghost c = preferred_floor;
    let mut i: usize = 0;
    while i < rooms.len()
        invariant
            rooms@ == pre,
            pre == old(rooms)@,
            0 <= i <= pre.len(),
            housekeeper_index < housekeepers@.len(),
            c == preferred_floor,
            c == housekeepers@[housekeeper_index as int].preferred_floor,
            forall|k: int| 0 <= k < i ==> !is_pref_room(#[trigger] pre[k], room_type, c),
        decreases pre.len() - i,
    {
        let rm_type_ok = rooms[i].room_type == room_type;
        let digit = room_floor_digit(rooms[i].id);
        let floor_ok = (preferred_floor as u32) == 48 + digit as u32;
        if rm_type_ok && floor_ok {
            let picked = rooms.swap_remove(i);
            proof {
                assert(pre[i as int].room_type == room_type);
                assert(digit == leading_digit(pre[i as int].id as int));
                assert(preferred_floor as u32 == 48 + digit);
                assert(c == preferred_floor);
                assert(c as u32 == 48 + leading_digit(pre[i as int].id as int));
                assert(floor_matches(pre[i as int], c));
                assert(is_pref_room(pre[i as int], room_type, c));
                assert(rooms@ == swap_removed(pre, i as int));
                assert(exists|ii: int|
                    0 <= ii < pre.len() && picked == pre[ii] && pre[ii].room_type == room_type
                        && rooms@ == #[trigger] swap_removed(pre, ii) && (if exists|k: int|
                        0 <= k < pre.len() && is_pref_room(#[trigger] pre[k], room_type, c) {
                        is_pref_room(pre[ii], room_type, c) && forall|k: int|
                            0 <= k < ii ==> !is_pref_room(#[trigger] pre[k], room_type, c)
                    } else {
                        forall|k: int| 0 <= k < ii ==> (#[trigger] pre[k]).room_type != room_type
                    }));
            }
            return Some(picked);
        }
        proof {
            assert(!is_pref_room(pre[i as int], room_type, c));
        }
        i = i + 1;
    }
    let mut j: usize = 0;
    while j < rooms.len()
        invariant
            rooms@ == pre,
            pre == old(rooms)@,
            0 <= j <= pre.len(),
            housekeeper_index < housekeepers@.len(),
            c == preferred_floor,
            c == housekeepers@[housekeeper_index as int].preferred_floor,
            forall|k: int| 0 <= k < j ==> (#[trigger] pre[k]).room_type != room_type,
            forall|k: int| 0 <= k < pre.len() ==> !is_pref_room(#[trigger] pre[k], room_type, c),
        decreases pre.len() - j,
    {
        if rooms[j].room_type == room_type {
            let picked = rooms.swap_remove(j);
            proof {
                assert(rooms@ == swap_removed(pre, j as int));
                assert(!(exists|k: int|
                    0 <= k < pre.len() && is_pref_room(#[trigger] pre[k], room_type, c)));
                assert(exists|ii: int|
                    0 <= ii < pre.len() && picked == pre[ii] && pre[ii].room_type == room_type
                        && rooms@ == #[trigger] swap_removed(pre, ii) && (if exists|k: int|
                        0 <= k < pre.len() && is_pref_room(#[trigger] pre[k], room_type, c) {
                        is_pref_room(pre[ii], room_type, c) && forall|k: int|
                            0 <= k < ii ==> !is_pref_room(#[trigger] pre[k], room_type, c)
                    } else {
                        forall|k: int| 0 <= k < ii ==> (#[trigger] pre[k]).room_type != room_type
                    }));
            }
            return Some(picked);
        }
        j = j + 1;
    }
    None
}

/// Removes the first Single room of the pool, if one remains.
pub fn get_single_room(rooms: &mut Vec<Room>) -> (r: Option<Room>)
    ensures
        ({
            let pre = old(rooms)@;
            match r {
                Some(rm) => exists|i: int|
                    0 <= i < pre.len() && rm == pre[i] && pre[i].room_type == RoomType::Single
                        && final(rooms)@ == #[trigger] swap_removed(pre, i) && forall|k: int|
                        0 <= k < i ==> (#[trigger] pre[k]).room_type != RoomType::Single,
                None => final(rooms)@ == pre && forall|i: int|
                    0 <= i < pre.len() ==> (#[trigger] pre[i]).room_type != RoomType::Single,
            }
        }),
{
    let ghost pre = rooms@;
    let mut i: usize = 0;
    while i < rooms.len()
        invariant
            rooms@ == pre,
            pre == old(rooms)@,
            0 <= i <= pre.len(),
            forall|k: int| 0 <= k < i ==> (#[trigger] pre[k]).room_type != RoomType::Single,
        decreases pre.len() - i,
    {
        if rooms[i].room_type == RoomType::Single {
            let picked = rooms.swap_remove(i);
            proof {
                assert(rooms@ == swap_removed(pre, i as int));
                assert(exists|ii: int|
                    0 <= ii < pre.len() && picked == pre[ii] && pre[ii].room_type
                        == RoomType::Single && rooms@ == #[trigger] swap_removed(pre, ii)
                        && forall|k: int|
                        0 <= k < ii ==> (#[trigger] pre[k]).room_type != RoomType::Single);
            }
            return Some(picked);
        }
        i = i + 1;
    }
    None
}

/// One empty result list per housekeeper.
pub fn get_room_arrangement(housekeeper_count: usize) -> (r: Vec<Vec<Room>>)
    ensures
        r@.len() == housekeeper_count,
        forall|h: int| 0 <= h < housekeeper_count ==> (#[trigger] r@[h])@.len() == 0,
        arrangement_ms(r@) == Multiset::<Room>::empty(),
{
    let mut room_arrangement: Vec<Vec<Room>> = Vec::new();
    let mut i: usize = 0;
    while i < housekeeper_count
        invariant
            0 <= i <= housekeeper_count,
            room_arrangement@.len() == i,
            forall|h: int| 0 <= h < i ==> (#[trigger] room_arrangement@[h])@.len() == 0,
            arrangement_ms(room_arrangement@) == Multiset::<Room>::empty(),
        decreases housekeeper_count - i,
    {
        let ghost before = room_arrangement@;
        room_arrangement.push(Vec::new());
        proof {
            broadcast use group_to_multiset_ensures;

            assert(room_arrangement@.drop_last() =~= before);
            assert(room_arrangement@.last()@ =~= Seq::<Room>::empty());
            assert forall|x: Room| room_arrangement@.last()@.to_multiset().count(x) == 0 by {
                assert(!room_arrangement@.last()@.contains(x));
            }
            assert(room_arrangement@.last()@.to_multiset() =~= Multiset::<Room>::empty());
            assert(arrangement_ms(room_arrangement@) =~= Multiset::<Room>::empty());
        }
        i = i + 1;
    }
    room_arrangement
}

/// Counts the remaining Double, Triple and Quad rooms of the pool.
pub fn get_room_count_by_type(rooms: &Vec<Room>) -> (r: Vec<usize>)
    ensures
        r@.len() == 3,
        r@[0] == room_count_of(rooms@, RoomType::Double),
        r@[1] == room_count_of(rooms@, RoomType::Triple),
        r@[2] == room_count_of(rooms@, RoomType::Quad),
{
    let doubles = count_rooms_of_type(rooms, RoomType::Double);
    let triples = count_rooms_of_type(rooms, RoomType::Triple);
    let quads = count_rooms_of_type(rooms, RoomType::Quad);
    let mut r: Vec<usize> = Vec::new();
    r.push(doubles);
    r.push(triples);
    r.push(quads);
    r
}

/// Counts the rooms of one category.
fn count_rooms_of_type(rooms: &Vec<Room>, room_type: RoomType) -> (r: usize)
    ensures
        r == room_count_of(rooms@, room_type),
{
    let ghost all = rooms@;
    let mut acc: usize = 0;
    let mut i: usize = 0;
    while i < rooms.len()
        invariant
            rooms@ == all,
            0 <= i <= all.len(),
            acc == room_count_of(all.take(i as int), room_type),
            acc <= i,
        decreases all.len() - i,
    {
        proof {
            assert(all.take(i as int + 1).drop_last() =~= all.take(i as int));
            assert(all.take(i as int + 1).last() == all[i as int]);
        }
        if rooms[i].room_type == room_type {
            acc = acc + 1;
        }
        i = i + 1;
    }
    proof {
        assert(all.take(all.len() as int) =~= all);
    }
    acc
}

/// Assigns one room of quantity slot `room_index` to `housekeeper_index`:
/// the room leaves the pool for that housekeeper's list, and the quota, the
/// quantity counter and the bed pool fall by the category's cost.  A quota
/// below the cost is refused as `QuotaUnderflow` with nothing changed.
pub fn assign_room(
    work_unit_quota: &mut Vec<u8>,
    room_quantity: &mut Vec<usize>,
    bed_pool: &mut u8,
    rooms: &mut Vec<Room>,
    room_arrangement: &mut Vec<Vec<Room>>,
    room_index: usize,
    housekeeper_index: usize,
    housekeepers: &Vec<Housekeeper>,
) -> (r: Result<(), AllocationError>)
    requires
        alloc_wf(
            old(rooms)@,
            old(room_arrangement)@,
            old(work_unit_quota)@,
            old(room_quantity)@,
            *old(bed_pool) as int,
            housekeepers@.len() as int,
        ),
        housekeeper_index < housekeepers@.len(),
        room_index < 3,
        old(room_quantity)@[room_index as int] >= 1,
    ensures
        ({
            let n = housekeepers@.len() as int;
            let cost = slot_cost(room_index as int);
            let hk = housekeeper_index as int;
            &&& ((r matches Err(e)) <==> old(work_unit_quota)@[hk] < cost)
            &&& (r matches Err(e) ==> e == AllocationError::QuotaUnderflow
                && final(rooms)@ == old(rooms)@
                && final(room_arrangement)@ == old(room_arrangement)@
                && final(work_unit_quota)@ == old(work_unit_quota)@
                && final(room_quantity)@ == old(room_quantity)@
                && *final(bed_pool) == *old(bed_pool))
            &&& (r matches Ok(u) ==> {
                &&& alloc_wf(
                    final(rooms)@,
                    final(room_arrangement)@,
                    final(work_unit_quota)@,
                    final(room_quantity)@,
                    *final(bed_pool) as int,
                    n,
                )
                &&& placed(final(rooms)@, final(room_arrangement)@) == placed(
                    old(rooms)@,
                    old(room_arrangement)@,
                )
                &&& lists_extend(old(room_arrangement)@, final(room_arrangement)@)
                &&& *final(bed_pool) == *old(bed_pool) - cost
                &&& final(work_unit_quota)@ == old(work_unit_quota)@.update(
                    hk,
                    (old(work_unit_quota)@[hk] - cost) as u8,
                )
                &&& final(room_quantity)@ == old(room_quantity)@.update(
                    room_index as int,
                    (old(room_quantity)@[room_index as int] - 1) as usize,
                )
                &&& assigned_one(
                    old(rooms)@,
                    final(rooms)@,
                    old(room_arrangement)@,
                    final(room_arrangement)@,
                    hk,
                    room_index as int,
                    n,
                )
                &&& pref_respected(
                    old(rooms)@,
                    old(room_arrangement)@,
                    final(room_arrangement)@,
                    hk,
                    room_index as int,
                    housekeepers@[hk].preferred_floor,
                )
            })
        }),
{
    let ghost n = housekeepers@.len() as int;
    let ghost pre_rooms = rooms@;
    let ghost pre_arr = room_arrangement@;
    let ghost pre_quota = work_unit_quota@;
    let ghost pre_qty = room_quantity@;
    let room_type = match RoomType::get_value(room_index + 1) {
        Some(t) => t,
        None => { return Err(AllocationError::RoomNotFound) },
    };
    proof {
        assert(room_type == slot_type(room_index as int));
    }
    let cost = room_type.get_work_units();
    if work_unit_quota[housekeeper_index] < cost {
        return Err(AllocationError::QuotaUnderflow);
    }
    proof {
        lemma_room_count_pos_exists(pre_rooms, room_type);
    }
    let picked = match get_room_of_type(rooms, room_type, housekeeper_index, housekeepers) {
        Some(rm) => rm,
        None => {
            proof {
                let w = choose|i: int| 0 <= i < pre_rooms.len() && pre_rooms[i].room_type
                    == room_type;
                assert(pre_rooms[w].room_type == room_type);
                assert(false);
            }
            return Err(AllocationError::RoomNotFound)
        },
    };
    proof {
        let i = choose|i: int|
            0 <= i < pre_rooms.len() && picked == pre_rooms[i] && pre_rooms[i].room_type
                == room_type && rooms@ == #[trigger] swap_removed(pre_rooms, i);
        lemma_swap_remove_multiset(pre_rooms, i);
        lemma_swap_remove_count(pre_rooms, i, RoomType::Single);
        lemma_swap_remove_count(pre_rooms, i, RoomType::Double);
        lemma_swap_remove_count(pre_rooms, i, RoomType::Triple);
        lemma_swap_remove_count(pre_rooms, i, RoomType::Quad);
        lemma_seq_work_by_counts(pre_rooms);
        lemma_seq_work_by_counts(rooms@);
        lemma_quota_sum_ge_elem(pre_quota, housekeeper_index as int);
    }
    push_room(room_arrangement, housekeeper_index, picked);
    let q = work_unit_quota[housekeeper_index];
    work_unit_quota.set(housekeeper_index, q - cost);
    let cnt = room_quantity[room_index];
    room_quantity.set(room_index, cnt - 1);
    *bed_pool = *bed_pool - cost;
    proof {
        lemma_quota_sum_update(
            pre_quota,
            housekeeper_index as int,
            (pre_quota[housekeeper_index as int] - cost) as u8,
        );
        lemma_singleton_ms(picked);
        assert(room_arrangement@[housekeeper_index as int]@ =~= pre_arr[housekeeper_index as int]@
            + seq![picked]);
        lemma_arrangement_ms_update_concat(
            pre_arr,
            housekeeper_index as int,
            room_arrangement@[housekeeper_index as int],
            seq![picked],
        );
        assert(arrangement_ms(room_arrangement@) =~= arrangement_ms(pre_arr).insert(picked));
        assert(placed(rooms@, room_arrangement@) =~= placed(pre_rooms, pre_arr));
        assert(pre_arr[housekeeper_index as int]@.is_prefix_of(room_arrangement@[
            housekeeper_index as int]@));
        assert(lists_extend(pre_arr, room_arrangement@));
        assert(picked.room_type == slot_type(room_index as int) && room_arrangement@[
            housekeeper_index as int]@ == pre_arr[housekeeper_index as int]@.push(picked)
            && (forall|h: int|
            0 <= h < n && h != housekeeper_index ==> #[trigger] room_arrangement@[h]
                == pre_arr[h]) && pre_rooms.to_multiset().count(picked) > 0
            && rooms@.to_multiset() == pre_rooms.to_multiset().remove(picked));
        assert(assigned_one(
            pre_rooms,
            rooms@,
            pre_arr,
            room_arrangement@,
            housekeeper_index as int,
            room_index as int,
            n,
        ));
        assert(pref_respected(
            pre_rooms,
            pre_arr,
            room_arrangement@,
            housekeeper_index as int,
            room_index as int,
            housekeepers@[housekeeper_index as int].preferred_floor,
        ));
    }
    Ok(())
}

/// Moves every Single room of the pool to the last housekeeper's list, one
/// work unit each off that housekeeper's quota and the bed pool.  More
/// Single rooms than the last quota holds is refused as `QuotaUnderflow`.
pub fn assign_single_room(
    rooms: &mut Vec<Room>,
    bed_pool: &mut u8,
    housekeepers: &Vec<Housekeeper>,
    room_arrangement: &mut Vec<Vec<Room>>,
    work_unit_quota: &mut Vec<u8>,
) -> (r: Result<u8, AllocationError>)
    requires
        housekeepers@.len() >= 1,
        old(room_arrangement)@.len() == housekeepers@.len(),
        old(work_unit_quota)@.len() == housekeepers@.len(),
        *old(bed_pool) == quota_sum(old(work_unit_quota)@),
        *old(bed_pool) == seq_work_units(old(rooms)@),
    ensures
        ({
            let n = housekeepers@.len() as int;
            let last = n - 1;
            let singles = room_count_of(old(rooms)@, RoomType::Single);
            &&& ((r matches Err(e)) <==> singles > old(work_unit_quota)@[last])
            &&& (r matches Err(e) ==> e == AllocationError::QuotaUnderflow)
            &&& (singles == 0 ==> (r matches Ok(v)) && final(rooms)@ == old(rooms)@
                && final(room_arrangement)@ == old(room_arrangement)@
                && final(work_unit_quota)@ == old(work_unit_quota)@
                && *final(bed_pool) == *old(bed_pool))
            &&& (r matches Ok(v) ==> {
                &&& v == *final(bed_pool)
                &&& *final(bed_pool) == *old(bed_pool) - singles
                &&& room_count_of(final(rooms)@, RoomType::Single) == 0
                &&& room_count_of(final(rooms)@, RoomType::Double) == room_count_of(
                    old(rooms)@,
                    RoomType::Double,
                )
                &&& room_count_of(final(rooms)@, RoomType::Triple) == room_count_of(
                    old(rooms)@,
                    RoomType::Triple,
                )
                &&& room_count_of(final(rooms)@, RoomType::Quad) == room_count_of(
                    old(rooms)@,
                    RoomType::Quad,
                )
                &&& *final(bed_pool) == quota_sum(final(work_unit_quota)@)
                &&& *final(bed_pool) == seq_work_units(final(rooms)@)
                &&& final(work_unit_quota)@ == old(work_unit_quota)@.update(
                    last,
                    (old(work_unit_quota)@[last] - singles) as u8,
                )
                &&& placed(final(rooms)@, final(room_arrangement)@) == placed(
                    old(rooms)@,
                    old(room_arrangement)@,
                )
                &&& lists_extend(old(room_arrangement)@, final(room_arrangement)@)
                &&& (forall|j: int|
                    0 <= j < n && j != last
                        ==> #[trigger] final(room_arrangement)@[j] == old(room_arrangement)@[j])
                &&& (forall|rm: Room|
                    rm.room_type == RoomType::Single ==> #[trigger] final(room_arrangement)@[
                        last]@.to_multiset().count(rm) == old(room_arrangement)@[
                        last]@.to_multiset().count(rm) + old(rooms)@.to_multiset().count(rm))
            })
        }),
{
    let n = housekeepers.len();
    let last = n - 1;
    let ghost pre_rooms = old(rooms)@;
    let ghost pre_arr = old(room_arrangement)@;
    let ghost pre_quota = old(work_unit_quota)@;
    let ghost pre_bed = *old(bed_pool);
    let ghost singles0 = room_count_of(pre_rooms, RoomType::Single);
    let ghost mut k: int = 0;
    proof {
        lemma_room_count_nonneg(pre_rooms, RoomType::Single);
        assert(pre_quota.update(last as int, (pre_quota[last as int] - 0) as u8) =~= pre_quota);
    }
    loop
        invariant
            n == housekeepers@.len(),
            n >= 1,
            last == n - 1,
            pre_rooms == old(rooms)@,
            pre_arr == old(room_arrangement)@,
            pre_quota == old(work_unit_quota)@,
            pre_bed == *old(bed_pool),
            pre_quota.len() == n,
            pre_arr.len() == n,
            singles0 == room_count_of(pre_rooms, RoomType::Single),
            room_arrangement@.len() == n,
            work_unit_quota@.len() == n,
            0 <= k <= singles0,
            k == 0 ==> rooms@ == pre_rooms && room_arrangement@ == pre_arr && work_unit_quota@
                == pre_quota && *bed_pool == pre_bed,
            room_count_of(rooms@, RoomType::Single) == singles0 - k,
            room_count_of(rooms@, RoomType::Double) == room_count_of(
                pre_rooms,
                RoomType::Double,
            ),
            room_count_of(rooms@, RoomType::Triple) == room_count_of(
                pre_rooms,
                RoomType::Triple,
            ),
            room_count_of(rooms@, RoomType::Quad) == room_count_of(pre_rooms, RoomType::Quad),
            pre_quota[last as int] >= k,
            work_unit_quota@ == pre_quota.update(
                last as int,
                (pre_quota[last as int] - k) as u8,
            ),
            *bed_pool == pre_bed - k,
            *bed_pool == quota_sum(work_unit_quota@),
            *bed_pool == seq_work_units(rooms@),
            placed(rooms@, room_arrangement@) == placed(pre_rooms, pre_arr),
            forall|j: int|
                0 <= j < n && j != last ==> #[trigger] room_arrangement@[j] == pre_arr[j],
            pre_arr[last as int]@.is_prefix_of(room_arrangement@[last as int]@),
            forall|rm: Room|
                rm.room_type == RoomType::Single ==> #[trigger] room_arrangement@[
                    last as int]@.to_multiset().count(rm) == pre_arr[
                    last as int]@.to_multiset().count(rm) + pre_rooms.to_multiset().count(rm)
                    - rooms@.to_multiset().count(rm),
        ensures
            room_count_of(rooms@, RoomType::Single) == 0,
            k == singles0,
        decreases singles0 - k,
    {
        let ghost cur_rooms = rooms@;
        let ghost cur_arr = room_arrangement@;
        let ghost cur_quota = work_unit_quota@;
        match get_single_room(rooms) {
            Some(single_room) => {
                proof {
                    let i = choose|i: int|
                        0 <= i < cur_rooms.len() && single_room == cur_rooms[i]
                            && cur_rooms[i].room_type == RoomType::Single && rooms@
                            == #[trigger] swap_removed(cur_rooms, i);
                    lemma_swap_remove_multiset(cur_rooms, i);
                    lemma_swap_remove_count(cur_rooms, i, RoomType::Single);
                    lemma_swap_remove_count(cur_rooms, i, RoomType::Double);
                    lemma_swap_remove_count(cur_rooms, i, RoomType::Triple);
                    lemma_swap_remove_count(cur_rooms, i, RoomType::Quad);
                    lemma_seq_work_by_counts(cur_rooms);
                    lemma_seq_work_by_counts(rooms@);
                    lemma_quota_sum_ge_elem(cur_quota, last as int);
                    lemma_room_count_nonneg(rooms@, RoomType::Single);
                }
                if work_unit_quota[last] == 0 {
                    proof {
                        assert(pre_quota[last as int] == k);
                        assert(singles0 - k >= 1);
                    }
                    return Err(AllocationError::QuotaUnderflow);
                }
                push_room(room_arrangement, last, single_room);
                let q = work_unit_quota[last];
                work_unit_quota.set(last, q - 1);
                *bed_pool = *bed_pool - 1;
                proof {
                    broadcast use group_to_multiset_ensures;

                    assert(cur_quota[last as int] >= 1);
                    assert(pre_quota[last as int] - k >= 1);
                    k = k + 1;
                    lemma_quota_sum_update(
                        cur_quota,
                        last as int,
                        (cur_quota[last as int] - 1) as u8,
                    );
                    assert(work_unit_quota@ =~= pre_quota.update(
                        last as int,
                        (pre_quota[last as int] - k) as u8,
                    ));
                    lemma_singleton_ms(single_room);
                    assert(room_arrangement@[last as int]@ =~= cur_arr[last as int]@
                        + seq![single_room]);
                    lemma_arrangement_ms_update_concat(
                        cur_arr,
                        last as int,
                        room_arrangement@[last as int],
                        seq![single_room],
                    );
                    assert(arrangement_ms(room_arrangement@) =~= arrangement_ms(
                        cur_arr,
                    ).insert(single_room));
                    assert(placed(rooms@, room_arrangement@) =~= placed(cur_rooms, cur_arr));
                }
            },
            None => {
                proof {
                    lemma_room_count_zero(rooms@, RoomType::Single);
                }
                break;
            },
        }
    }
    proof {
        assert forall|rm: Room| rm.room_type == RoomType::Single implies #[trigger]
            room_arrangement@[last as int]@.to_multiset().count(rm) == pre_arr[
            last as int]@.to_multiset().count(rm) + pre_rooms.to_multiset().count(rm) by {
            lemma_room_count_zero_ms(rooms@, rm);
        }
    }
    Ok(*bed_pool)
}

/// Quota `i` can be satisfied exactly by one room of quantity slot `j`.
pub open spec fn exact_fit(q: Seq<u8>, qty: Seq<usize>, i: int, j: int) -> bool {
    &&& q[i] != 0
    &&& qty[j] > 0
    &&& q[i] == slot_cost(j)
}

/// The exact-fit rule: scans housekeepers in crew order and categories in
/// slot order, and gives the first housekeeper whose remaining quota equals
/// one remaining room's cost exactly that room, zeroing the quota.
pub fn can_any_quota_be_satisfied(
    work_unit_quota: &mut Vec<u8>,
    room_quantity: &mut Vec<usize>,
    bed_pool: &mut u8,
    rooms: &mut Vec<Room>,
    room_arrangement: &mut Vec<Vec<Room>>,
    housekeepers: &Vec<Housekeeper>,
) -> (r: Option<u8>)
    requires
        alloc_wf(
            old(rooms)@,
            old(room_arrangement)@,
            old(work_unit_quota)@,
            old(room_quantity)@,
            *old(bed_pool) as int,
            housekeepers@.len() as int,
        ),
    ensures
        ({
            let n = housekeepers@.len() as int;
            &&& ((r matches Some(v)) <==> exists|i: int, j: int|
                0 <= i < n && 0 <= j < 3 && #[trigger] exact_fit(
                    old(work_unit_quota)@,
                    old(room_quantity)@,
                    i,
                    j,
                ))
            &&& ((r matches Some(v)) <==> find_fit(
                old(work_unit_quota)@,
                old(room_quantity)@[0] as int,
                old(room_quantity)@[1] as int,
                old(room_quantity)@[2] as int,
                0,
            ) < n)
            &&& (r matches Some(v) ==> ({
                let fi = find_fit(
                    old(work_unit_quota)@,
                    old(room_quantity)@[0] as int,
                    old(room_quantity)@[1] as int,
                    old(room_quantity)@[2] as int,
                    0,
                );
                let fj = fit_slot(
                    old(work_unit_quota)@,
                    old(room_quantity)@[0] as int,
                    old(room_quantity)@[1] as int,
                    old(room_quantity)@[2] as int,
                    fi,
                );
                &&& 0 <= fi < n
                &&& 0 <= fj < 3
                &&& *final(bed_pool) == *old(bed_pool) - slot_cost(fj)
                &&& final(work_unit_quota)@ == old(work_unit_quota)@.update(fi, 0u8)
                &&& final(room_quantity)@ == old(room_quantity)@.update(
                    fj,
                    (old(room_quantity)@[fj] - 1) as usize,
                )
            }))
            &&& (r matches None ==> final(rooms)@ == old(rooms)@ && final(room_arrangement)@
                == old(room_arrangement)@ && final(work_unit_quota)@ == old(work_unit_quota)@
                && final(room_quantity)@ == old(room_quantity)@
                && *final(bed_pool) == *old(bed_pool))
            &&& (r matches Some(v) ==> {
                &&& alloc_wf(
                    final(rooms)@,
                    final(room_arrangement)@,
                    final(work_unit_quota)@,
                    final(room_quantity)@,
                    *final(bed_pool) as int,
                    n,
                )
                &&& placed(final(rooms)@, final(room_arrangement)@) == placed(
                    old(rooms)@,
                    old(room_arrangement)@,
                )
                &&& lists_extend(old(room_arrangement)@, final(room_arrangement)@)
                &&& v == *final(bed_pool)
                &&& *final(bed_pool) < *old(bed_pool)
                &&& exists|i: int, j: int|
                    {
                        &&& 0 <= i < n
                        &&& 0 <= j < 3
                        &&& #[trigger] exact_fit(old(work_unit_quota)@, old(room_quantity)@, i, j)
                        &&& (forall|i2: int, j2: int|
                            0 <= i2 < i && 0 <= j2 < 3 ==> !#[trigger] exact_fit(
                                old(work_unit_quota)@,
                                old(room_quantity)@,
                                i2,
                                j2,
                            ))
                        &&& (forall|j2: int|
                            0 <= j2 < j ==> !exact_fit(
                                old(work_unit_quota)@,
                                old(room_quantity)@,
                                i,
                                j2,
                            ))
                        &&& *final(bed_pool) == *old(bed_pool) - slot_cost(j)
                        &&& final(work_unit_quota)@ == old(work_unit_quota)@.update(i, 0u8)
                        &&& final(room_quantity)@ == old(room_quantity)@.update(
                            j,
                            (old(room_quantity)@[j] - 1) as usize,
                        )
                        &&& assigned_one(
                            old(rooms)@,
                            final(rooms)@,
                            old(room_arrangement)@,
                            final(room_arrangement)@,
                            i,
                            j,
                            n,
                        )
                        &&& pref_respected(
                            old(rooms)@,
                            old(room_arrangement)@,
                            final(room_arrangement)@,
                            i,
                            j,
                            housekeepers@[i].preferred_floor,
                        )
                    }
            })
        }),
{
    let n = housekeepers.len();
    let ghost pre_quota = old(work_unit_quota)@;
    let ghost pre_qty = old(room_quantity)@;
    let mut i: usize = 0;
    while i < n
        invariant
            n == housekeepers@.len(),
            pre_quota == old(work_unit_quota)@,
            pre_qty == old(room_quantity)@,
            rooms@ == old(rooms)@,
            room_arrangement@ == old(room_arrangement)@,
            work_unit_quota@ == pre_quota,
            room_quantity@ == pre_qty,
            *bed_pool == *old(bed_pool),
            alloc_wf(rooms@, room_arrangement@, work_unit_quota@, room_quantity@, *bed_pool as int, n as int),
            0 <= i <= n,
            forall|i2: int, j2: int|
                0 <= i2 < i && 0 <= j2 < 3 ==> !#[trigger] exact_fit(pre_quota, pre_qty, i2, j2),
        decreases n - i,
    {
        if work_unit_quota[i] != 0 {
            let q = work_unit_quota[i];
            let mut hit: usize = 3;
            if room_quantity[0] > 0 && q == 2 {
                hit = 0;
            } else if room_quantity[1] > 0 && q == 3 {
                hit = 1;
            } else if room_quantity[2] > 0 && q == 4 {
                hit = 2;
            }
            if hit < 3 {
                proof {
                    assert(exact_fit(pre_quota, pre_qty, i as int, hit as int));
                    assert(forall|j2: int|
                        0 <= j2 < hit ==> !exact_fit(pre_quota, pre_qty, i as int, j2));
                    let fd = pre_qty[0] as int;
                    let ft = pre_qty[1] as int;
                    let fu = pre_qty[2] as int;
                    assert(has_fit(pre_quota, fd, ft, fu, i as int));
                    assert(fit_slot(pre_quota, fd, ft, fu, i as int) == hit);
                    assert forall|k: int| 0 <= k < i implies !has_fit(pre_quota, fd, ft, fu, k) by {
                        if has_fit(pre_quota, fd, ft, fu, k) {
                            let jk = fit_slot(pre_quota, fd, ft, fu, k);
                            assert(exact_fit(pre_quota, pre_qty, k, jk));
                        }
                    }
                    lemma_find_fit_at(pre_quota, fd, ft, fu, 0, i as int);
                }
                match assign_room(
                    work_unit_quota,
                    room_quantity,
                    bed_pool,
                    rooms,
                    room_arrangement,
                    hit,
                    i,
                    housekeepers,
                ) {
                    Ok(u) => {
                        proof {
                            assert(pre_quota[i as int] - slot_cost(hit as int) == 0);
                            assert(work_unit_quota@ =~= pre_quota.update(i as int, 0u8));
                        }
                        return Some(*bed_pool);
                    },
                    Err(e) => {
                        proof {
                            assert(false);
                        }
                        return None;
                    },
                }
            }
            proof {
                assert(forall|j2: int|
                    0 <= j2 < 3 ==> !exact_fit(pre_quota, pre_qty, i as int, j2));
            }
        } else {
            proof {
                assert(forall|j2: int|
                    0 <= j2 < 3 ==> !exact_fit(pre_quota, pre_qty, i as int, j2));
            }
        }
        i = i + 1;
    }
    proof {
        let fd = pre_qty[0] as int;
        let ft = pre_qty[1] as int;
        let fu = pre_qty[2] as int;
        assert forall|k: int| 0 <= k < n implies !has_fit(pre_quota, fd, ft, fu, k) by {
            if has_fit(pre_quota, fd, ft, fu, k) {
                let jk = fit_slot(pre_quota, fd, ft, fu, k);
                assert(exact_fit(pre_quota, pre_qty, k, jk));
            }
        }
        lemma_find_fit_none(pre_quota, fd, ft, fu, 0);
    }
    None
}

/// The parity-fix rule: while a Triple room remains, the first housekeeper
/// with an odd remaining quota receives one Triple, making the residual
/// even.  An odd quota below the Triple cost is refused as `QuotaUnderflow`.
pub fn can_make_work_quota_even(
    work_unit_quota: &mut Vec<u8>,
    room_quantity: &mut Vec<usize>,
    bed_pool: &mut u8,
    rooms: &mut Vec<Room>,
    room_arrangement: &mut Vec<Vec<Room>>,
    housekeepers: &Vec<Housekeeper>,
) -> (r: Result<Option<u8>, AllocationError>)
    requires
        alloc_wf(
            old(rooms)@,
            old(room_arrangement)@,
            old(work_unit_quota)@,
            old(room_quantity)@,
            *old(bed_pool) as int,
            housekeepers@.len() as int,
        ),
    ensures
        ({
            let n = housekeepers@.len() as int;
            &&& ((r matches Ok(None)) <==> (old(room_quantity)@[1] == 0
                || forall|i: int|
                    0 <= i < n ==> (#[trigger] old(work_unit_quota)@[i]) % 2 == 0))
            &&& (r matches Ok(None) ==> final(rooms)@ == old(rooms)@
                && final(room_arrangement)@ == old(room_arrangement)@
                && final(work_unit_quota)@ == old(work_unit_quota)@
                && final(room_quantity)@ == old(room_quantity)@
                && *final(bed_pool) == *old(bed_pool))
            &&& (r matches Err(e) ==> e == AllocationError::QuotaUnderflow)
            &&& ((r matches Err(e)) <==> (old(room_quantity)@[1] > 0 && exists|i: int|
                0 <= i < n && (#[trigger] old(work_unit_quota)@[i]) % 2 != 0
                    && old(work_unit_quota)@[i] < 3 && forall|k: int|
                    0 <= k < i ==> (#[trigger] old(work_unit_quota)@[k]) % 2 == 0))
            &&& ((r matches Ok(None)) <==> (old(room_quantity)@[1] == 0 || find_odd(
                old(work_unit_quota)@,
                0,
            ) == n))
            &&& ((r matches Err(e)) <==> (old(room_quantity)@[1] > 0 && find_odd(
                old(work_unit_quota)@,
                0,
            ) < n && old(work_unit_quota)@[find_odd(old(work_unit_quota)@, 0)] < 3))
            &&& (r matches Ok(Some(v)) ==> ({
                let fi = find_odd(old(work_unit_quota)@, 0);
                &&& 0 <= fi < n
                &&& old(work_unit_quota)@[fi] >= 3
                &&& final(work_unit_quota)@ == old(work_unit_quota)@.update(
                    fi,
                    (old(work_unit_quota)@[fi] - 3) as u8,
                )
                &&& final(room_quantity)@ == old(room_quantity)@.update(
                    1,
                    (old(room_quantity)@[1] - 1) as usize,
                )
                &&& *final(bed_pool) == *old(bed_pool) - 3
            }))
            &&& (r matches Ok(Some(v)) ==> {
                &&& alloc_wf(
                    final(rooms)@,
                    final(room_arrangement)@,
                    final(work_unit_quota)@,
                    final(room_quantity)@,
                    *final(bed_pool) as int,
                    n,
                )
                &&& placed(final(rooms)@, final(room_arrangement)@) == placed(
                    old(rooms)@,
                    old(room_arrangement)@,
                )
                &&& lists_extend(old(room_arrangement)@, final(room_arrangement)@)
                &&& v == *final(bed_pool)
                &&& *final(bed_pool) == *old(bed_pool) - 3
                &&& old(room_quantity)@[1] > 0
                &&& final(room_quantity)@ == old(room_quantity)@.update(
                    1,
                    (old(room_quantity)@[1] - 1) as usize,
                )
                &&& exists|i: int|
                    {
                        &&& 0 <= i < n
                        &&& (#[trigger] old(work_unit_quota)@[i]) % 2 != 0
                        &&& old(work_unit_quota)@[i] >= 3
                        &&& (forall|k: int|
                            0 <= k < i ==> (#[trigger] old(work_unit_quota)@[k]) % 2 == 0)
                        &&& final(work_unit_quota)@ == old(work_unit_quota)@.update(
                            i,
                            (old(work_unit_quota)@[i] - 3) as u8,
                        )
                        &&& assigned_one(
                            old(rooms)@,
                            final(rooms)@,
                            old(room_arrangement)@,
                            final(room_arrangement)@,
                            i,
                            1,
                            n,
                        )
                        &&& pref_respected(
                            old(rooms)@,
                            old(room_arrangement)@,
                            final(room_arrangement)@,
                            i,
                            1,
                            housekeepers@[i].preferred_floor,
                        )
                    }
            })
        }),
{
    let n = housekeepers.len();
    let ghost pre_quota = old(work_unit_quota)@;
    if room_quantity[1] == 0 {
        return Ok(None);
    }
    let mut i: usize = 0;
    while i < n
        invariant
            n == housekeepers@.len(),
            pre_quota == old(work_unit_quota)@,
            rooms@ == old(rooms)@,
            room_arrangement@ == old(room_arrangement)@,
            work_unit_quota@ == pre_quota,
            room_quantity@ == old(room_quantity)@,
            *bed_pool == *old(bed_pool),
            old(room_quantity)@[1] > 0,
            alloc_wf(rooms@, room_arrangement@, work_unit_quota@, room_quantity@, *bed_pool as int, n as int),
            0 <= i <= n,
            forall|k: int| 0 <= k < i ==> (#[trigger] pre_quota[k]) % 2 == 0,
        decreases n - i,
    {
        if work_unit_quota[i] % 2 != 0 {
            proof {
                lemma_find_odd_at(pre_quota, 0, i as int);
            }
            match assign_room(
                work_unit_quota,
                room_quantity,
                bed_pool,
                rooms,
                room_arrangement,
                1,
                i,
                housekeepers,
            ) {
                Ok(u) => {
                    proof {
                        assert(pre_quota[i as int] % 2 != 0);
                        assert(old(work_unit_quota)@[i as int] % 2 != 0);
                        assert(!(forall|k: int|
                            0 <= k < n ==> (#[trigger] old(work_unit_quota)@[k]) % 2 == 0));
                    }
                    return Ok(Some(*bed_pool));
                },
                Err(e) => {
                    proof {
                        assert(pre_quota[i as int] < 3);
                        assert(old(work_unit_quota)@[i as int] % 2 != 0);
                        assert(!(forall|k: int|
                            0 <= k < n ==> (#[trigger] old(work_unit_quota)@[k]) % 2 == 0));
                    }
                    return Err(e);
                },
            }
        }
        i = i + 1;
    }
    proof {
        lemma_find_odd_none(pre_quota, 0);
    }
    Ok(None)
}

/// The last-workload shortcut: when exactly one housekeeper has remaining
/// quota, the whole pool goes to them, in pool order, and the bed pool ends.
pub fn is_last_workload(
    work_unit_quota: &Vec<u8>,
    room_arrangement: &mut Vec<Vec<Room>>,
    bed_pool: &mut u8,
    rooms: &mut Vec<Room>,
) -> (r: Option<u8>)
    requires
        old(room_arrangement)@.len() == work_unit_quota@.len(),
    ensures
        ({
            let n = work_unit_quota@.len() as int;
            &&& ((r matches Some(v)) <==> nonzero_count(work_unit_quota@) == 1)
            &&& (r matches None ==> final(rooms)@ == old(rooms)@ && final(room_arrangement)@
                == old(room_arrangement)@ && *final(bed_pool) == *old(bed_pool))
            &&& (r matches Some(v) ==> {
                &&& v == 0
                &&& *final(bed_pool) == 0
                &&& final(rooms)@.len() == 0
                &&& placed(final(rooms)@, final(room_arrangement)@) == placed(
                    old(rooms)@,
                    old(room_arrangement)@,
                )
                &&& lists_extend(old(room_arrangement)@, final(room_arrangement)@)
                &&& exists|idx: int|
                    {
                        &&& 0 <= idx < n
                        &&& #[trigger] work_unit_quota@[idx] != 0
                        &&& (forall|k: int|
                            0 <= k < n && k != idx ==> work_unit_quota@[k] == 0)
                        &&& final(room_arrangement)@[idx]@ == old(room_arrangement)@[idx]@ + old(
                            rooms,
                        )@
                        &&& (forall|j: int|
                            0 <= j < n && j != idx ==> #[trigger] final(room_arrangement)@[j]
                                == old(room_arrangement)@[j])
                    }
            })
        }),
{
    let n = work_unit_quota.len();
    let ghost pre_rooms = old(rooms)@;
    let ghost pre_arr = old(room_arrangement)@;
    let mut count: usize = 0;
    let mut pos: usize = 0;
    let mut i: usize = 0;
    while i < n
        invariant
            n == work_unit_quota@.len(),
            0 <= i <= n,
            count == nonzero_count(work_unit_quota@.take(i as int)),
            count <= i,
            count >= 1 ==> 0 <= pos < i && work_unit_quota@[pos as int] != 0 && forall|k: int|
                0 <= k < pos ==> work_unit_quota@[k] == 0,
        decreases n - i,
    {
        proof {
            assert(work_unit_quota@.take(i as int + 1).drop_last() =~= work_unit_quota@.take(
                i as int,
            ));
            assert(work_unit_quota@.take(i as int + 1).last() == work_unit_quota@[i as int]);
            assert(nonzero_count(work_unit_quota@.take(i as int + 1)) == nonzero_count(
                work_unit_quota@.take(i as int),
            ) + if work_unit_quota@[i as int] != 0 {
                1int
            } else {
                0int
            });
            if count == 0 {
                assert forall|k: int| 0 <= k < i implies work_unit_quota@[k] == 0 by {
                    if work_unit_quota@[k] != 0 {
                        assert(work_unit_quota@.take(i as int)[k] != 0);
                        lemma_nonzero_count_pos(work_unit_quota@.take(i as int), k);
                    }
                }
            }
        }
        if work_unit_quota[i] != 0 {
            if count == 0 {
                pos = i;
            }
            count = count + 1;
        }
        i = i + 1;
    }
    proof {
        assert(work_unit_quota@.take(n as int) =~= work_unit_quota@);
    }
    if count == 1 {
        proof {
            assert forall|k: int|
                0 <= k < n && k != pos implies work_unit_quota@[k] == 0 by {
                if work_unit_quota@[k] != 0 {
                    if k < pos {
                        lemma_nonzero_count_two(work_unit_quota@, k, pos as int);
                    } else {
                        lemma_nonzero_count_two(work_unit_quota@, pos as int, k);
                    }
                }
            }
        }
        let mut list = room_arrangement.remove(pos);
        let ghost list0 = list@;
        list.append(rooms);
        room_arrangement.insert(pos, list);
        *bed_pool = 0;
        proof {
            broadcast use group_to_multiset_ensures;

            assert(room_arrangement@ =~= pre_arr.update(pos as int, room_arrangement@[
                pos as int]));
            assert(room_arrangement@[pos as int]@ == pre_arr[pos as int]@ + pre_rooms);
            lemma_arrangement_ms_update_concat(
                pre_arr,
                pos as int,
                room_arrangement@[pos as int],
                pre_rooms,
            );
            assert(rooms@.to_multiset().len() == 0);
            assert(rooms@.to_multiset() =~= Multiset::<Room>::empty());
            assert(placed(rooms@, room_arrangement@) =~= placed(pre_rooms, pre_arr));
            assert(lists_extend(pre_arr, room_arrangement@));
        }
        Some(0)
    } else {
        proof {
            if count == 0 {
                if nonzero_count(work_unit_quota@) == 1 {
                    assert(false);
                }
            }
        }
        None
    }
}

/// The pairing rule: a housekeeper whose quota is exactly six, with at least
/// three Triple rooms remaining, receives two Triples at once, clearing the
/// quota and avoiding an unfittable lone Triple later.
pub fn should_assign_two_rooms(
    work_unit_quota: &mut Vec<u8>,
    room_quantity: &mut Vec<usize>,
    bed_pool: &mut u8,
    rooms: &mut Vec<Room>,
    room_arrangement: &mut Vec<Vec<Room>>,
    housekeepers: &Vec<Housekeeper>,
) -> (r: Option<u8>)
    requires
        alloc_wf(
            old(rooms)@,
            old(room_arrangement)@,
            old(work_unit_quota)@,
            old(room_quantity)@,
            *old(bed_pool) as int,
            housekeepers@.len() as int,
        ),
    ensures
        ({
            let n = housekeepers@.len() as int;
            &&& ((r matches Some(v)) <==> ((exists|i: int|
                0 <= i < n && #[trigger] old(work_unit_quota)@[i] == 6) && old(
                room_quantity,
            )@[1] > 2))
            &&& ((r matches Some(v)) <==> (find_six(old(work_unit_quota)@, 0) < n && old(
                room_quantity,
            )@[1] > 2))
            &&& (r matches Some(v) ==> ({
                let fi = find_six(old(work_unit_quota)@, 0);
                &&& 0 <= fi < n
                &&& final(work_unit_quota)@ == old(work_unit_quota)@.update(fi, 0u8)
            }))
            &&& (r matches None ==> final(rooms)@ == old(rooms)@ && final(room_arrangement)@
                == old(room_arrangement)@ && final(work_unit_quota)@ == old(work_unit_quota)@
                && final(room_quantity)@ == old(room_quantity)@
                && *final(bed_pool) == *old(bed_pool))
            &&& (r matches Some(v) ==> {
                &&& alloc_wf(
                    final(rooms)@,
                    final(room_arrangement)@,
                    final(work_unit_quota)@,
                    final(room_quantity)@,
                    *final(bed_pool) as int,
                    n,
                )
                &&& placed(final(rooms)@, final(room_arrangement)@) == placed(
                    old(rooms)@,
                    old(room_arrangement)@,
                )
                &&& lists_extend(old(room_arrangement)@, final(room_arrangement)@)
                &&& v == *final(bed_pool)
                &&& *final(bed_pool) == *old(bed_pool) - 6
                &&& final(room_quantity)@ == old(room_quantity)@.update(
                    1,
                    (old(room_quantity)@[1] - 2) as usize,
                )
                &&& exists|idx: int|
                    {
                        &&& 0 <= idx < n
                        &&& #[trigger] old(work_unit_quota)@[idx] == 6
                        &&& (forall|k: int|
                            0 <= k < idx ==> old(work_unit_quota)@[k] != 6)
                        &&& final(work_unit_quota)@ == old(work_unit_quota)@.update(idx, 0u8)
                        &&& (forall|j: int|
                            0 <= j < n && j != idx ==> #[trigger] final(room_arrangement)@[j]
                                == old(room_arrangement)@[j])
                        &&& exists|r1: Room, r2: Room|
                            #![trigger old(room_arrangement)@[idx]@.push(r1).push(r2)]
                            {
                                let c = housekeepers@[idx].preferred_floor;
                                &&& r1.room_type == RoomType::Triple
                                &&& r2.room_type == RoomType::Triple
                                &&& final(room_arrangement)@[idx]@ == old(
                                    room_arrangement,
                                )@[idx]@.push(r1).push(r2)
                                &&& final(rooms)@.to_multiset() == old(
                                    rooms,
                                )@.to_multiset().remove(r1).remove(r2)
                                &&& ((exists|k: int|
                                    0 <= k < old(rooms)@.len() && is_pref_room(
                                        #[trigger] old(rooms)@[k],
                                        RoomType::Triple,
                                        c,
                                    )) ==> is_pref_room(r1, RoomType::Triple, c))
                                &&& ((exists|k1: int, k2: int|
                                    0 <= k1 < k2 < old(rooms)@.len() && is_pref_room(
                                        #[trigger] old(rooms)@[k1],
                                        RoomType::Triple,
                                        c,
                                    ) && is_pref_room(
                                        #[trigger] old(rooms)@[k2],
                                        RoomType::Triple,
                                        c,
                                    )) ==> is_pref_room(r2, RoomType::Triple, c))
                            }
                    }
            })
        }),
{
    let n = housekeepers.len();
    let ghost pre_rooms = old(rooms)@;
    let ghost pre_arr = old(room_arrangement)@;
    let ghost pre_quota = old(work_unit_quota)@;
    let mut i: usize = 0;
    while i < n && work_unit_quota[i] != 6
        invariant
            n == work_unit_quota@.len(),
            work_unit_quota@ == pre_quota,
            0 <= i <= n,
            forall|k: int| 0 <= k < i ==> (#[trigger] pre_quota[k]) != 6,
        decreases n - i,
    {
        i = i + 1;
    }
    let idx: usize = i;
    proof {
        assert(idx == n ==> forall|k: int| 0 <= k < n ==> (#[trigger] pre_quota[k]) != 6);
        assert(idx < n ==> pre_quota[idx as int] == 6);
    }
    if idx < n && room_quantity[1] > 2 {
        let ghost c = housekeepers@[idx as int].preferred_floor;
        proof {
            lemma_room_count_pos_exists(pre_rooms, RoomType::Triple);
            lemma_find_six_at(pre_quota, 0, idx as int);
        }
        let first = match get_room_of_type(rooms, RoomType::Triple, idx, housekeepers) {
            Some(rm) => rm,
            None => {
                proof {
                    let w = choose|w: int|
                        0 <= w < pre_rooms.len() && pre_rooms[w].room_type == RoomType::Triple;
                    assert(false);
                }
                return None;
            },
        };
        let ghost mid_rooms = rooms@;
        let ghost i1 = choose|i1: int|
            0 <= i1 < pre_rooms.len() && first == pre_rooms[i1] && pre_rooms[i1].room_type
                == RoomType::Triple && rooms@ == #[trigger] swap_removed(pre_rooms, i1) && (
            if exists|k: int|
                0 <= k < pre_rooms.len() && is_pref_room(
                    #[trigger] pre_rooms[k],
                    RoomType::Triple,
                    c,
                ) {
                is_pref_room(pre_rooms[i1], RoomType::Triple, c) && forall|k: int|
                    0 <= k < i1 ==> !is_pref_room(#[trigger] pre_rooms[k], RoomType::Triple, c)
            } else {
                forall|k: int|
                    0 <= k < i1 ==> (#[trigger] pre_rooms[k]).room_type != RoomType::Triple
            });
        proof {
            lemma_swap_remove_multiset(pre_rooms, i1);
            lemma_swap_remove_count(pre_rooms, i1, RoomType::Single);
            lemma_swap_remove_count(pre_rooms, i1, RoomType::Double);
            lemma_swap_remove_count(pre_rooms, i1, RoomType::Triple);
            lemma_swap_remove_count(pre_rooms, i1, RoomType::Quad);
            lemma_seq_work_by_counts(pre_rooms);
            lemma_seq_work_by_counts(rooms@);
            lemma_room_count_pos_exists(mid_rooms, RoomType::Triple);
            if exists|k: int|
                0 <= k < pre_rooms.len() && is_pref_room(
                    #[trigger] pre_rooms[k],
                    RoomType::Triple,
                    c,
                ) {
                assert(is_pref_room(first, RoomType::Triple, c));
            }
        }
        let second = match get_room_of_type(rooms, RoomType::Triple, idx, housekeepers) {
            Some(rm) => rm,
            None => {
                proof {
                    let w = choose|w: int|
                        0 <= w < mid_rooms.len() && mid_rooms[w].room_type == RoomType::Triple;
                    assert(false);
                }
                return None;
            },
        };
        proof {
            let i2 = choose|i2: int|
                0 <= i2 < mid_rooms.len() && second == mid_rooms[i2] && mid_rooms[i2].room_type
                    == RoomType::Triple && rooms@ == #[trigger] swap_removed(mid_rooms, i2) && (
                if exists|k: int|
                    0 <= k < mid_rooms.len() && is_pref_room(
                        #[trigger] mid_rooms[k],
                        RoomType::Triple,
                        c,
                    ) {
                    is_pref_room(mid_rooms[i2], RoomType::Triple, c) && forall|k: int|
                        0 <= k < i2 ==> !is_pref_room(
                            #[trigger] mid_rooms[k],
                            RoomType::Triple,
                            c,
                        )
                } else {
                    forall|k: int|
                        0 <= k < i2 ==> (#[trigger] mid_rooms[k]).room_type != RoomType::Triple
                });
            lemma_swap_remove_multiset(mid_rooms, i2);
            lemma_swap_remove_count(mid_rooms, i2, RoomType::Single);
            lemma_swap_remove_count(mid_rooms, i2, RoomType::Double);
            lemma_swap_remove_count(mid_rooms, i2, RoomType::Triple);
            lemma_swap_remove_count(mid_rooms, i2, RoomType::Quad);
            lemma_seq_work_by_counts(mid_rooms);
            lemma_seq_work_by_counts(rooms@);
            lemma_quota_sum_ge_elem(pre_quota, idx as int);
            if exists|k1: int, k2: int|
                0 <= k1 < k2 < pre_rooms.len() && is_pref_room(
                    #[trigger] pre_rooms[k1],
                    RoomType::Triple,
                    c,
                ) && is_pref_room(#[trigger] pre_rooms[k2], RoomType::Triple, c) {
                lemma_two_pref_survive(pre_rooms, i1, RoomType::Triple, c);
                assert(is_pref_room(second, RoomType::Triple, c));
            }
        }
        push_room(room_arrangement, idx, first);
        let ghost arr_mid = room_arrangement@;
        push_room(room_arrangement, idx, second);
        let q = work_unit_quota[idx];
        work_unit_quota.set(idx, q - 6);
        let cnt = room_quantity[1];
        room_quantity.set(1, cnt - 2);
        *bed_pool = *bed_pool - 6;
        proof {
            broadcast use group_to_multiset_ensures;

            lemma_quota_sum_update(pre_quota, idx as int, 0u8);
            assert(work_unit_quota@ =~= pre_quota.update(idx as int, 0u8));
            assert(room_arrangement@[idx as int]@ =~= pre_arr[idx as int]@ + seq![first, second]);
            assert(room_arrangement@ =~= pre_arr.update(idx as int, room_arrangement@[
                idx as int]));
            lemma_arrangement_ms_update_concat(
                pre_arr,
                idx as int,
                room_arrangement@[idx as int],
                seq![first, second],
            );
            assert(seq![first, second] =~= Seq::<Room>::empty().push(first).push(second));
            lemma_empty_ms();
            assert(Seq::<Room>::empty().push(first).to_multiset() =~= Multiset::<Room>::empty()
                .insert(first));
            assert(seq![first, second].to_multiset() =~= Multiset::<Room>::empty().insert(
                first,
            ).insert(second));
            assert(arrangement_ms(room_arrangement@) =~= arrangement_ms(pre_arr).insert(
                first,
            ).insert(second));
            assert(placed(rooms@, room_arrangement@) =~= placed(pre_rooms, pre_arr));
            assert(lists_extend(pre_arr, room_arrangement@));
        }
        return Some(*bed_pool);
    }
    proof {
        if idx == n {
            lemma_find_six_none(pre_quota, 0);
        }
    }
    None
}

/// One even-split pass over the quota sequence, walking positions from `i`
/// with `d` Double rooms left: each position with remaining quota receives
/// one Double while Doubles remain.  The result carries the quotas and the
/// Double count after the pass, and whether it completed: a quota of one
/// unit facing a remaining Double cannot take it and stops the pass.
pub open spec fn evenly_pass(q: Seq<u8>, d: int, i: int) -> (Seq<u8>, int, bool)
    decreases q.len() - i,
{
    if i < 0 || i >= q.len() {
        (q, d, true)
    } else if q[i] == 0 || d <= 0 {
        evenly_pass(q, d, i + 1)
    } else if q[i] < 2 {
        (q, d, false)
    } else {
        evenly_pass(q.update(i, (q[i] - 2) as u8), d - 1, i + 1)
    }
}

/// Position `h` after an even-split pass: a housekeeper whose quota moved
/// received exactly one Double room on their own list; anyone else's list
/// is untouched.
pub open spec fn evenly_placed(
    pre_arr: Seq<Vec<Room>>,
    post_arr: Seq<Vec<Room>>,
    pre_q: Seq<u8>,
    post_q: Seq<u8>,
    h: int,
) -> bool {
    if post_q[h] != pre_q[h] {
        exists|rm: Room|
            rm.room_type == RoomType::Double && post_arr[h]@ == pre_arr[h]@.push(rm)
    } else {
        post_arr[h]@ == pre_arr[h]@
    }
}

/// The even-split pass never hands out more Doubles than remain and keeps
/// the quota sequence's length.
pub proof fn lemma_evenly_pass_bounds(q: Seq<u8>, d: int, i: int)
    ensures
        d >= 0 ==> 0 <= evenly_pass(q, d, i).1 <= d,
        evenly_pass(q, d, i).0.len() == q.len(),
    decreases q.len() - i,
{
    if i < 0 || i >= q.len() {
    } else if q[i] == 0 || d <= 0 {
        lemma_evenly_pass_bounds(q, d, i + 1);
    } else if q[i] < 2 {
    } else {
        lemma_evenly_pass_bounds(q.update(i, (q[i] - 2) as u8), d - 1, i + 1);
    }
}

/// The even-split fallback: every housekeeper with remaining quota receives
/// one Double room, in crew order, while Doubles remain.  A one-unit quota
/// facing a remaining Double is refused as `QuotaUnderflow`.
pub fn assign_evenly(
    work_unit_quota: &mut Vec<u8>,
    room_quantity: &mut Vec<usize>,
    bed_pool: &mut u8,
    rooms: &mut Vec<Room>,
    room_arrangement: &mut Vec<Vec<Room>>,
    housekeepers: &Vec<Housekeeper>,
) -> (r: Result<u8, AllocationError>)
    requires
        alloc_wf(
            old(rooms)@,
            old(room_arrangement)@,
            old(work_unit_quota)@,
            old(room_quantity)@,
            *old(bed_pool) as int,
            housekeepers@.len() as int,
        ),
    ensures
        ({
            let n = housekeepers@.len() as int;
            let pass = evenly_pass(old(work_unit_quota)@, old(room_quantity)@[0] as int, 0);
            &&& ((r matches Err(e)) <==> !pass.2)
            &&& (r matches Err(e) ==> e == AllocationError::QuotaUnderflow)
            &&& (r matches Ok(v) ==> {
                &&& alloc_wf(
                    final(rooms)@,
                    final(room_arrangement)@,
                    final(work_unit_quota)@,
                    final(room_quantity)@,
                    *final(bed_pool) as int,
                    n,
                )
                &&& placed(final(rooms)@, final(room_arrangement)@) == placed(
                    old(rooms)@,
                    old(room_arrangement)@,
                )
                &&& lists_extend(old(room_arrangement)@, final(room_arrangement)@)
                &&& v == *final(bed_pool)
                &&& final(work_unit_quota)@ == pass.0
                &&& final(room_quantity)@ == old(room_quantity)@.update(0, pass.1 as usize)
                &&& *final(bed_pool) == *old(bed_pool) - 2 * (old(room_quantity)@[0] - pass.1)
                &&& (forall|h: int|
                    0 <= h < n ==> #[trigger] evenly_placed(
                        old(room_arrangement)@,
                        final(room_arrangement)@,
                        old(work_unit_quota)@,
                        pass.0,
                        h,
                    ))
            })
        }),
{
    let n = work_unit_quota.len();
    let ghost pre_quota = old(work_unit_quota)@;
    let ghost pre_qty = old(room_quantity)@;
    let ghost pre_bed = *old(bed_pool);
    let ghost pre_d = pre_qty[0] as int;
    let mut i: usize = 0;
    while i < n
        invariant
            n == work_unit_quota@.len(),
            n == housekeepers@.len(),
            0 <= i <= n,
            pre_quota == old(work_unit_quota)@,
            pre_qty == old(room_quantity)@,
            pre_bed == *old(bed_pool),
            pre_d == pre_qty[0],
            pre_quota.len() == n,
            old(room_arrangement)@.len() == n,
            alloc_wf(
                rooms@,
                room_arrangement@,
                work_unit_quota@,
                room_quantity@,
                *bed_pool as int,
                n as int,
            ),
            placed(rooms@, room_arrangement@) == placed(old(rooms)@, old(room_arrangement)@),
            lists_extend(old(room_arrangement)@, room_arrangement@),
            room_quantity@[1] == pre_qty[1],
            room_quantity@[2] == pre_qty[2],
            0 <= room_quantity@[0] <= pre_d,
            *bed_pool == pre_bed - 2 * (pre_d - room_quantity@[0]),
            evenly_pass(pre_quota, pre_d, 0) == evenly_pass(
                work_unit_quota@,
                room_quantity@[0] as int,
                i as int,
            ),
            forall|h: int| i <= h < n ==> work_unit_quota@[h] == pre_quota[h],
            forall|h: int|
                0 <= h < n ==> #[trigger] evenly_placed(
                    old(room_arrangement)@,
                    room_arrangement@,
                    pre_quota,
                    work_unit_quota@,
                    h,
                ),
        decreases n - i,
    {
        let ghost cur_quota = work_unit_quota@;
        let ghost cur_qty = room_quantity@;
        let ghost cur_arr = room_arrangement@;
        let ghost cur_d = cur_qty[0] as int;
        if work_unit_quota[i] != 0 {
            if room_quantity[0] > 0 {
                match assign_room(
                    work_unit_quota,
                    room_quantity,
                    bed_pool,
                    rooms,
                    room_arrangement,
                    0,
                    i,
                    housekeepers,
                ) {
                    Ok(u) => {
                        proof {
                            assert(cur_quota[i as int] >= 2);
                            assert(evenly_pass(cur_quota, cur_d, i as int) == evenly_pass(
                                cur_quota.update(
                                    i as int,
                                    (cur_quota[i as int] - 2) as u8,
                                ),
                                cur_d - 1,
                                i as int + 1,
                            ));
                            assert(work_unit_quota@ == cur_quota.update(
                                i as int,
                                (cur_quota[i as int] - 2) as u8,
                            ));
                            assert(room_quantity@[0] as int == cur_d - 1);
                            assert(lists_extend(old(room_arrangement)@, room_arrangement@));
                            let served = choose|rm: Room|
                                rm.room_type == slot_type(0) && room_arrangement@[i as int]@
                                    == cur_arr[i as int]@.push(rm);
                            assert(cur_quota[i as int] == pre_quota[i as int]);
                            assert(evenly_placed(
                                old(room_arrangement)@,
                                cur_arr,
                                pre_quota,
                                cur_quota,
                                i as int,
                            ));
                            assert(cur_arr[i as int]@ == old(room_arrangement)@[i as int]@);
                            assert(work_unit_quota@[i as int] != pre_quota[i as int]);
                            assert(room_arrangement@[i as int]@ == old(room_arrangement)@[
                                i as int]@.push(served));
                            assert forall|h: int|
                                0 <= h < n implies #[trigger] evenly_placed(
                                old(room_arrangement)@,
                                room_arrangement@,
                                pre_quota,
                                work_unit_quota@,
                                h,
                            ) by {
                                assert(evenly_placed(
                                    old(room_arrangement)@,
                                    cur_arr,
                                    pre_quota,
                                    cur_quota,
                                    h,
                                ));
                                if h == i as int {
                                    assert(served.room_type == RoomType::Double);
                                    assert(room_arrangement@[h]@ == old(room_arrangement)@[
                                        h]@.push(served));
                                } else {
                                    assert(room_arrangement@[h] == cur_arr[h]);
                                    assert(work_unit_quota@[h] == cur_quota[h]);
                                    if cur_quota[h] != pre_quota[h] {
                                        let rm0 = choose|rm: Room|
                                            rm.room_type == RoomType::Double && cur_arr[h]@
                                                == old(room_arrangement)@[h]@.push(rm);
                                        assert(room_arrangement@[h]@ == old(
                                            room_arrangement,
                                        )@[h]@.push(rm0));
                                    } else {
                                        assert(cur_arr[h]@ == old(room_arrangement)@[h]@);
                                    }
                                }
                            }
                        }
                    },
                    Err(e) => {
                        proof {
                            assert(cur_quota[i as int] == 1);
                            assert(evenly_pass(cur_quota, cur_d, i as int) == (
                                cur_quota,
                                cur_d,
                                false,
                            ));
                            assert(!evenly_pass(pre_quota, pre_d, 0).2);
                        }
                        return Err(e);
                    },
                }
            } else {
                proof {
                    assert(evenly_pass(cur_quota, cur_d, i as int) == evenly_pass(
                        cur_quota,
                        cur_d,
                        i as int + 1,
                    ));
                }
            }
        } else {
            proof {
                assert(evenly_pass(cur_quota, cur_d, i as int) == evenly_pass(
                    cur_quota,
                    cur_d,
                    i as int + 1,
                ));
            }
        }
        i = i + 1;
    }
    proof {
        assert(evenly_pass(work_unit_quota@, room_quantity@[0] as int, n as int) == (
            work_unit_quota@,
            room_quantity@[0] as int,
            true,
        ));
        assert(room_quantity@ =~= pre_qty.update(0, room_quantity@[0]));
        let pass = evenly_pass(pre_quota, pre_d, 0);
        assert(pass.0 == work_unit_quota@);
        assert forall|h: int|
            0 <= h < n implies #[trigger] evenly_placed(
            old(room_arrangement)@,
            room_arrangement@,
            pre_quota,
            pass.0,
            h,
        ) by {
            assert(evenly_placed(
                old(room_arrangement)@,
                room_arrangement@,
                pre_quota,
                work_unit_quota@,
                h,
            ));
        }
    }
    Ok(*bed_pool)
}

/// The order in which repeated `swap_remove(0)` empties a pool: the first
/// room, then the rest in reverse.
pub open spec fn drain_order(s: Seq<Room>) -> Seq<Room> {
    if s.len() == 0 {
        s
    } else {
        seq![s[0]] + s.drop_first().reverse()
    }
}

/// The rooms that position `h` of `n` receives when `taken` is dealt
/// round-robin from the front: the entries at `h`, `h + n`, `h + 2n`, ...
pub open spec fn round_robin_share(taken: Seq<Room>, h: int, n: int) -> Seq<Room> {
    Seq::new(inc_share(taken.len() as int, n, h) as nat, |m: int| taken[h + m * n])
}

/// One `swap_remove(0)` takes the drain order's head and leaves its tail.
pub proof fn lemma_drain_step(s: Seq<Room>)
    requires
        s.len() >= 1,
    ensures
        drain_order(s).len() == s.len(),
        drain_order(s)[0] == s[0],
        drain_order(swap_removed(s, 0)) == drain_order(s).drop_first(),
{
    let n = s.len() as int;
    let t = swap_removed(s, 0);
    assert(t.len() == n - 1);
    if n == 1 {
        assert(drain_order(t) =~= drain_order(s).drop_first());
    } else {
        assert(t[0] == s[n - 1]);
        assert(forall|m: int| 1 <= m <= n - 2 ==> t[m] == s[m]);
        assert forall|m: int| 0 <= m < n - 1 implies drain_order(t)[m] == drain_order(
            s,
        ).drop_first()[m] by {
            if m == 0 {
                assert(drain_order(t)[0] == t[0]);
                assert(drain_order(s).drop_first()[0] == drain_order(s)[1]);
                assert(drain_order(s)[1] == s.drop_first().reverse()[0]);
                assert(s.drop_first().reverse()[0] == s.drop_first()[n - 2]);
            } else {
                assert(drain_order(t)[m] == t.drop_first().reverse()[m - 1]);
                assert(t.drop_first().reverse()[m - 1] == t.drop_first()[(n - 2) - 1 - (m - 1)]);
                assert(t.drop_first()[(n - 2) - 1 - (m - 1)] == t[n - 1 - m]);
                assert(drain_order(s).drop_first()[m] == drain_order(s)[m + 1]);
                assert(drain_order(s)[m + 1] == s.drop_first().reverse()[m]);
                assert(s.drop_first().reverse()[m] == s.drop_first()[(n - 1) - 1 - m]);
                assert(s.drop_first()[(n - 1) - 1 - m] == s[n - 1 - m]);
            }
        }
        assert(drain_order(t) =~= drain_order(s).drop_first());
    }
}

/// Dealing one more room extends the share of the position whose turn it is
/// and leaves every other share unchanged.
pub proof fn lemma_share_step(taken: Seq<Room>, k: int, n: int)
    requires
        0 <= k < taken.len(),
        n >= 1,
    ensures
        round_robin_share(taken.take(k + 1), k % n, n) == round_robin_share(
            taken.take(k),
            k % n,
            n,
        ).push(taken[k]),
        forall|h: int|
            0 <= h < n && h != k % n ==> #[trigger] round_robin_share(taken.take(k + 1), h, n)
                == round_robin_share(taken.take(k), h, n),
{
    lemma_cycle_step(k, n);
    lemma_fundamental_div_mod(k, n);
    let q = k / n;
    let r = k % n;
    assert forall|h: int, m: int| #![trigger taken.take(k)[h + m * n]]
        0 <= h < n && 0 <= m && h + m * n < k implies taken.take(k + 1)[h + m * n]
        == taken.take(k)[h + m * n] by {
        lemma_mul_inequality(0, m, n);
    }
    assert forall|h: int, m: int| #![trigger inc_share(k, n, h), m * n]
        0 <= h < n && 0 <= m < inc_share(k, n, h) implies h + m * n < k by {
        if h < r {
            lemma_mul_inequality(m, q, n);
            assert(m * n <= q * n);
            assert(q * n == n * q) by (nonlinear_arith);
        } else {
            lemma_mul_inequality(m, q - 1, n);
            assert(m * n <= (q - 1) * n);
            assert((q - 1) * n == n * q - n) by (nonlinear_arith);
        }
    }
    let h0 = r;
    assert(inc_share(k + 1, n, h0) == inc_share(k, n, h0) + 1);
    assert(inc_share(k, n, h0) == q);
    assert(h0 + q * n == k) by {
        assert(q * n == n * q) by (nonlinear_arith);
    }
    assert(round_robin_share(taken.take(k + 1), h0, n) =~= round_robin_share(
        taken.take(k),
        h0,
        n,
    ).push(taken[k]));
    assert forall|h: int|
        0 <= h < n && h != h0 implies #[trigger] round_robin_share(taken.take(k + 1), h, n)
        == round_robin_share(taken.take(k), h, n) by {
        assert(inc_share(k + 1, n, h) == inc_share(k, n, h));
        assert(round_robin_share(taken.take(k + 1), h, n) =~= round_robin_share(
            taken.take(k),
            h,
            n,
        ));
    }
}

/// When two positions of the pool hold preferred-floor rooms of a
/// category, one such room survives a single `swap_remove`.
proof fn lemma_two_pref_survive(pre: Seq<Room>, i1: int, t: RoomType, c: char)
    requires
        0 <= i1 < pre.len(),
        exists|k1: int, k2: int|
            0 <= k1 < k2 < pre.len() && is_pref_room(#[trigger] pre[k1], t, c) && is_pref_room(
                #[trigger] pre[k2],
                t,
                c,
            ),
    ensures
        exists|m: int|
            0 <= m < swap_removed(pre, i1).len() && is_pref_room(
                #[trigger] swap_removed(pre, i1)[m],
                t,
                c,
            ),
{
    broadcast use group_to_multiset_ensures;

    let (k1, k2) = choose|k1: int, k2: int|
        0 <= k1 < k2 < pre.len() && is_pref_room(#[trigger] pre[k1], t, c) && is_pref_room(
            #[trigger] pre[k2],
            t,
            c,
        );
    let mid = swap_removed(pre, i1);
    lemma_swap_remove_multiset(pre, i1);
    let v1 = pre[k1];
    let v2 = pre[k2];
    let witness: Room = if v1 == v2 {
        pre.remove_ensures(k2);
        assert(pre.remove(k2)[k1] == v1);
        assert(pre.remove(k2).contains(v1));
        assert(pre.remove(k2).to_multiset().count(v1) > 0);
        assert(pre.to_multiset().count(v1) >= 2);
        assert(mid.to_multiset().count(v1) > 0);
        v1
    } else if pre[i1] == v1 {
        assert(pre.contains(v2));
        assert(mid.to_multiset().count(v2) == pre.to_multiset().count(v2));
        v2
    } else {
        assert(pre.contains(v1));
        assert(mid.to_multiset().count(v1) == pre.to_multiset().count(v1));
        v1
    };
    assert(mid.to_multiset().count(witness) > 0);
    assert(mid.contains(witness));
    let m = choose|m: int| 0 <= m < mid.len() && mid[m] == witness;
    assert(is_pref_room(mid[m], t, c));
}

/// The small-inventory shortcut: with fewer than six non-Single rooms left,
/// the pool is dealt round-robin across the crew, in crew order and in the
/// order repeated `swap_remove(0)` yields the pool, ignoring the quotas; the
/// bed pool is closed.  A larger pool is left untouched.
pub fn assign_equally_if_less_than_six(
    room_quantity: &Vec<usize>,
    bed_pool: &mut u8,
    housekeeper_count: usize,
    rooms: &mut Vec<Room>,
    room_arrangement: &mut Vec<Vec<Room>>,
) -> (r: u8)
    requires
        housekeeper_count >= 1,
        old(room_arrangement)@.len() == housekeeper_count,
        room_quantity@.len() == 3,
        room_quantity@[0] == room_count_of(old(rooms)@, RoomType::Double),
        room_quantity@[1] == room_count_of(old(rooms)@, RoomType::Triple),
        room_quantity@[2] == room_count_of(old(rooms)@, RoomType::Quad),
        room_count_of(old(rooms)@, RoomType::Single) == 0,
    ensures
        ({
            let cnt = housekeeper_count as int;
            let total_rooms = room_quantity@[0] + room_quantity@[1] + room_quantity@[2];
            &&& (total_rooms >= 6 ==> r == *old(bed_pool) && *final(bed_pool) == *old(bed_pool)
                && final(rooms)@ == old(rooms)@ && final(room_arrangement)@ == old(
                room_arrangement,
            )@)
            &&& (total_rooms < 6 ==> {
                &&& r == 0
                &&& *final(bed_pool) == 0
                &&& final(rooms)@.len() == 0
                &&& placed(final(rooms)@, final(room_arrangement)@) == placed(
                    old(rooms)@,
                    old(room_arrangement)@,
                )
                &&& lists_extend(old(room_arrangement)@, final(room_arrangement)@)
                &&& (forall|h: int|
                    0 <= h < cnt ==> #[trigger] final(room_arrangement)@[h]@ == old(
                        room_arrangement,
                    )@[h]@ + round_robin_share(drain_order(old(rooms)@), h, cnt))
            })
        }),
{
    let ghost pre_rooms = old(rooms)@;
    let ghost pre_arr = old(room_arrangement)@;
    let ghost taken = drain_order(pre_rooms);
    let ghost cnt = housekeeper_count as int;
    proof {
        lemma_seq_work_by_counts(pre_rooms);
        lemma_room_count_nonneg(pre_rooms, RoomType::Double);
        lemma_room_count_nonneg(pre_rooms, RoomType::Triple);
        lemma_room_count_nonneg(pre_rooms, RoomType::Quad);
    }
    let pool_len = rooms.len();
    proof {
        assert(pool_len == pre_rooms.len());
    }
    let total_rooms = room_quantity[0] + room_quantity[1] + room_quantity[2];
    proof {
        assert(total_rooms == pre_rooms.len());
    }
    if total_rooms < 6 {
        let ghost mut k: int = 0;
        let mut i: usize = 0;
        proof {
            assert forall|h: int| 0 <= h < cnt implies #[trigger] room_arrangement@[h]@
                == pre_arr[h]@ + round_robin_share(taken.take(0), h, cnt) by {
                assert(taken.take(0) =~= Seq::<Room>::empty());
                assert(0int / cnt == 0 && 0int % cnt == 0) by (nonlinear_arith)
                    requires cnt >= 1;
                assert(inc_share(0, cnt, h) == 0);
                assert(round_robin_share(taken.take(0), h, cnt) =~= Seq::<Room>::empty());
                assert(pre_arr[h]@ + Seq::<Room>::empty() =~= pre_arr[h]@);
            }
        }
        while rooms.len() > 0
            invariant
                housekeeper_count >= 1,
                cnt == housekeeper_count,
                pre_rooms == old(rooms)@,
                pre_arr == old(room_arrangement)@,
                pre_arr.len() == cnt,
                taken == drain_order(pre_rooms),
                taken.len() == pre_rooms.len(),
                0 <= k <= taken.len(),
                rooms@.len() == pre_rooms.len() - k,
                drain_order(rooms@) == taken.skip(k),
                i == k % cnt,
                0 <= i < cnt,
                room_arrangement@.len() == cnt,
                placed(rooms@, room_arrangement@) == placed(pre_rooms, pre_arr),
                forall|h: int|
                    0 <= h < cnt ==> #[trigger] room_arrangement@[h]@ == pre_arr[h]@
                        + round_robin_share(taken.take(k), h, cnt),
            decreases rooms@.len(),
        {
            let ghost cur_rooms = rooms@;
            let ghost cur_arr = room_arrangement@;
            proof {
                lemma_drain_step(cur_rooms);
                lemma_swap_remove_multiset(cur_rooms, 0);
                assert(drain_order(cur_rooms)[0] == taken.skip(k)[0]);
                assert(taken.skip(k)[0] == taken[k]);
            }
            let rm = rooms.swap_remove(0);
            push_room(room_arrangement, i, rm);
            proof {
                broadcast use group_to_multiset_ensures;

                assert(rm == cur_rooms[0]);
                assert(rm == taken[k]);
                assert(drain_order(rooms@) =~= taken.skip(k + 1)) by {
                    assert(drain_order(rooms@) == drain_order(cur_rooms).drop_first());
                    assert(drain_order(cur_rooms).drop_first() =~= taken.skip(k).drop_first());
                    assert(taken.skip(k).drop_first() =~= taken.skip(k + 1));
                }
                lemma_share_step(taken, k, cnt);
                lemma_cycle_step(k, cnt);
                assert(room_arrangement@[i as int]@ == cur_arr[i as int]@.push(rm));
                assert forall|h: int| 0 <= h < cnt implies #[trigger] room_arrangement@[h]@
                    == pre_arr[h]@ + round_robin_share(taken.take(k + 1), h, cnt) by {
                    if h == i as int {
                        assert(round_robin_share(taken.take(k + 1), h, cnt)
                            == round_robin_share(taken.take(k), h, cnt).push(taken[k]));
                        assert(pre_arr[h]@ + round_robin_share(taken.take(k), h, cnt).push(
                            taken[k],
                        ) =~= (pre_arr[h]@ + round_robin_share(taken.take(k), h, cnt)).push(
                            taken[k],
                        ));
                    } else {
                        assert(room_arrangement@[h] == cur_arr[h]);
                    }
                }
                lemma_singleton_ms(rm);
                assert(room_arrangement@ =~= cur_arr.update(i as int, room_arrangement@[
                    i as int]));
                assert(room_arrangement@[i as int]@ =~= cur_arr[i as int]@ + seq![rm]);
                lemma_arrangement_ms_update_concat(
                    cur_arr,
                    i as int,
                    room_arrangement@[i as int],
                    seq![rm],
                );
                assert(arrangement_ms(room_arrangement@) =~= arrangement_ms(cur_arr).insert(rm));
                assert(placed(rooms@, room_arrangement@) =~= placed(cur_rooms, cur_arr));
                k = k + 1;
            }
            i = i + 1;
            if i == housekeeper_count {
                i = 0;
            }
        }
        *bed_pool = 0;
        proof {
            assert(k == taken.len());
            assert(taken.take(k) =~= taken);
            assert(lists_extend(pre_arr, room_arrangement@)) by {
                assert forall|h: int| 0 <= h < cnt implies (#[trigger] pre_arr[h])@.is_prefix_of(
                    room_arrangement@[h]@,
                ) by {
                    assert(room_arrangement@[h]@ == pre_arr[h]@ + round_robin_share(
                        taken,
                        h,
                        cnt,
                    ));
                }
            }
        }
        0
    } else {
        *bed_pool
    }
}

/// Partitions the room pool into one ordered list per housekeeper, in crew
/// order.
///
/// Single rooms go to the last housekeeper first; a pool of fewer than six
/// remaining rooms is dealt round-robin; the greedy loop then applies the
/// rules in their fixed order (last-workload, exact-fit, parity-fix,
/// pairing, even-split) until the bed pool reaches zero.  On success the
/// lists partition the input pool exactly, and every Single room stands in
/// the last housekeeper's list.  A full rule pass without progress while
/// work remains is refused as `StalledAllocation`; a subtraction that would
/// go negative as `QuotaUnderflow`.  Which of the three ways a run ends is
/// a function of the quotas and the category counts alone, spelled out by
/// `spec_alloc_outcome`: the contract ties each result to its outcome
/// exactly, so success is owed wherever the rules cover the residual.
pub fn arrange_rooms(
    rooms: Vec<Room>,
    housekeepers: &Vec<Housekeeper>,
    work_unit_quota: Vec<u8>,
) -> (r: Result<Vec<Vec<Room>>, AllocationError>)
    requires
        housekeepers@.len() >= 1,
        work_unit_quota@.len() == housekeepers@.len(),
        quota_sum(work_unit_quota@) == seq_work_units(rooms@),
        seq_work_units(rooms@) <= u8::MAX,
    ensures
        r matches Ok(arr) ==> arr@.len() == housekeepers@.len(),
        r matches Ok(arr) ==> arrangement_ms(arr@) == rooms@.to_multiset(),
        r matches Ok(arr) ==> forall|rm: Room|
            rm.room_type == RoomType::Single ==> #[trigger] arr@[housekeepers@.len()
                - 1]@.to_multiset().count(rm) >= rooms@.to_multiset().count(rm),
        r matches Err(e) ==> e == AllocationError::QuotaUnderflow || e
            == AllocationError::StalledAllocation,
        (r matches Ok(arr)) <==> spec_alloc_outcome(
            rooms@,
            work_unit_quota@,
            housekeepers@.len() as int,
        ) == AllocOutcome::Done,
        (r matches Err(AllocationError::QuotaUnderflow)) <==> spec_alloc_outcome(
            rooms@,
            work_unit_quota@,
            housekeepers@.len() as int,
        ) == AllocOutcome::Underflow,
        (r matches Err(AllocationError::StalledAllocation)) <==> spec_alloc_outcome(
            rooms@,
            work_unit_quota@,
            housekeepers@.len() as int,
        ) == AllocOutcome::Stalled,
{
    let ghost rooms0 = rooms@;
    let ghost quota0 = work_unit_quota@;
    let mut rooms = rooms;
    let mut work_unit_quota = work_unit_quota;
    let housekeeper_count = housekeepers.len();
    let ghost n = housekeeper_count as int;
    let mut room_arrangement = get_room_arrangement(housekeeper_count);
    let mut room_quantity = get_room_count_by_type(&rooms);
    let mut bed_pool: u8 = 0;
    let mut si: usize = 0;
    while si < work_unit_quota.len()
        invariant
            work_unit_quota@ == quota0,
            0 <= si <= quota0.len(),
            quota_sum(quota0) <= u8::MAX,
            bed_pool == quota_sum(quota0.take(si as int)),
        decreases quota0.len() - si,
    {
        proof {
            lemma_quota_sum_split(quota0, si as int);
            lemma_quota_sum_split(quota0, si as int + 1);
            lemma_quota_sum_first(quota0.skip(si as int));
            assert(quota0.skip(si as int).drop_first() =~= quota0.skip(si as int + 1));
            assert(quota0.skip(si as int)[0] == quota0[si as int]);
            lemma_quota_sum_nonneg(quota0.skip(si as int + 1));
        }
        let q = work_unit_quota[si];
        bed_pool = bed_pool + q;
        si = si + 1;
    }
    let ghost target = spec_alloc_outcome(rooms0, quota0, n);
    let ghost singles0 = room_count_of(rooms0, RoomType::Single);
    proof {
        assert(quota0.take(quota0.len() as int) =~= quota0);
        lemma_empty_ms();
        assert(placed(rooms@, room_arrangement@) =~= rooms0.to_multiset());
    }
    bed_pool =
    match assign_single_room(
        &mut rooms,
        &mut bed_pool,
        housekeepers,
        &mut room_arrangement,
        &mut work_unit_quota,
    ) {
        Ok(v) => v,
        Err(e) => {
            proof {
                assert(singles0 > quota0[n - 1]);
                assert(target == AllocOutcome::Underflow);
            }
            return Err(e);
        },
    };
    proof {
        assert forall|rm: Room| rm.room_type == RoomType::Single implies #[trigger]
            room_arrangement@[n - 1]@.to_multiset().count(rm) >= rooms0.to_multiset().count(
            rm,
        ) by {
            lemma_empty_ms();
        }
        assert(alloc_wf(
            rooms@,
            room_arrangement@,
            work_unit_quota@,
            room_quantity@,
            bed_pool as int,
            n,
        ));
    }
    let ghost arr_after_singles = room_arrangement@;
    bed_pool = assign_equally_if_less_than_six(
        &room_quantity,
        &mut bed_pool,
        housekeeper_count,
        &mut rooms,
        &mut room_arrangement,
    );
    proof {
        assert(!(singles0 > quota0[n - 1]));
        if room_quantity@[0] + room_quantity@[1] + room_quantity@[2] < 6 {
            assert forall|rm: Room| rm.room_type == RoomType::Single implies #[trigger]
                room_arrangement@[n - 1]@.to_multiset().count(rm) >= rooms0.to_multiset().count(
                rm,
            ) by {
                lemma_prefix_ms_le(arr_after_singles[n - 1]@, room_arrangement@[n - 1]@);
            }
            assert(target == AllocOutcome::Done);
        } else {
            assert(bed_pool as int > 0 ==> alloc_outcome(
                work_unit_quota@,
                room_quantity@[0] as int,
                room_quantity@[1] as int,
                room_quantity@[2] as int,
                bed_pool as int,
            ) == target);
            if bed_pool == 0 {
                assert(alloc_outcome(
                    work_unit_quota@,
                    room_quantity@[0] as int,
                    room_quantity@[1] as int,
                    room_quantity@[2] as int,
                    0,
                ) == AllocOutcome::Done);
                assert(target == AllocOutcome::Done);
            }
        }
    }
    let mut failure: Option<AllocationError> = None;
    while bed_pool > 0
        invariant_except_break
            n == housekeepers@.len(),
            n >= 1,
            room_arrangement@.len() == n,
            failure matches None,
            alloc_wf(
                rooms@,
                room_arrangement@,
                work_unit_quota@,
                room_quantity@,
                bed_pool as int,
                n,
            ) || (bed_pool == 0 && rooms@.len() == 0),
            placed(rooms@, room_arrangement@) == rooms0.to_multiset(),
            forall|rm: Room|
                rm.room_type == RoomType::Single ==> #[trigger] room_arrangement@[n
                    - 1]@.to_multiset().count(rm) >= rooms0.to_multiset().count(rm),
            bed_pool > 0 ==> alloc_outcome(
                work_unit_quota@,
                room_quantity@[0] as int,
                room_quantity@[1] as int,
                room_quantity@[2] as int,
                bed_pool as int,
            ) == target,
            bed_pool == 0 ==> target == AllocOutcome::Done,
        ensures
            failure matches None ==> bed_pool == 0 && (alloc_wf(
                rooms@,
                room_arrangement@,
                work_unit_quota@,
                room_quantity@,
                bed_pool as int,
                n,
            ) || rooms@.len() == 0) && target == AllocOutcome::Done
                && room_arrangement@.len() == n && placed(
                rooms@,
                room_arrangement@,
            ) == rooms0.to_multiset() && (forall|rm: Room|
                rm.room_type == RoomType::Single ==> #[trigger] room_arrangement@[n
                    - 1]@.to_multiset().count(rm) >= rooms0.to_multiset().count(rm)),
            failure matches Some(e) ==> (e == AllocationError::QuotaUnderflow && target
                == AllocOutcome::Underflow) || (e == AllocationError::StalledAllocation
                && target == AllocOutcome::Stalled),
        decreases bed_pool,
    {
        let before = bed_pool;
        let ghost arr_start = room_arrangement@;
        let ghost cur_q = work_unit_quota@;
        let ghost cur_d = room_quantity@[0] as int;
        let ghost cur_t = room_quantity@[1] as int;
        let ghost cur_u = room_quantity@[2] as int;
        let ghost cur_bed = bed_pool as int;
        if let Some(v) = is_last_workload(
            &work_unit_quota,
            &mut room_arrangement,
            &mut bed_pool,
            &mut rooms,
        ) {
            bed_pool = v;
            proof {
                assert(nonzero_count(cur_q) == 1);
                assert(alloc_outcome(cur_q, cur_d, cur_t, cur_u, cur_bed)
                    == AllocOutcome::Done);
                assert(target == AllocOutcome::Done);
            }
        } else if let Some(v) = can_any_quota_be_satisfied(
            &mut work_unit_quota,
            &mut room_quantity,
            &mut bed_pool,
            &mut rooms,
            &mut room_arrangement,
            housekeepers,
        ) {
            bed_pool = v;
            proof {
                assert(nonzero_count(cur_q) != 1);
                let fi = find_fit(cur_q, cur_d, cur_t, cur_u, 0);
                let fj = fit_slot(cur_q, cur_d, cur_t, cur_u, fi);
                assert(fi < n);
                assert(alloc_outcome(cur_q, cur_d, cur_t, cur_u, cur_bed) == alloc_outcome(
                    work_unit_quota@,
                    room_quantity@[0] as int,
                    room_quantity@[1] as int,
                    room_quantity@[2] as int,
                    bed_pool as int,
                ));
            }
        } else {
            match can_make_work_quota_even(
                &mut work_unit_quota,
                &mut room_quantity,
                &mut bed_pool,
                &mut rooms,
                &mut room_arrangement,
                housekeepers,
            ) {
                Err(e) => {
                    proof {
                        assert(nonzero_count(cur_q) != 1);
                        assert(!(find_fit(cur_q, cur_d, cur_t, cur_u, 0) < n));
                        assert(cur_t > 0 && find_odd(cur_q, 0) < n && cur_q[find_odd(
                            cur_q,
                            0,
                        )] < 3);
                        assert(alloc_outcome(cur_q, cur_d, cur_t, cur_u, cur_bed)
                            == AllocOutcome::Underflow);
                        assert(target == AllocOutcome::Underflow);
                    }
                    failure = Some(e);
                    break ;
                },
                Ok(Some(v)) => {
                    bed_pool = v;
                    proof {
                        assert(nonzero_count(cur_q) != 1);
                        assert(!(find_fit(cur_q, cur_d, cur_t, cur_u, 0) < n));
                        let fi = find_odd(cur_q, 0);
                        assert(cur_t > 0 && fi < n && cur_q[fi] >= 3);
                        assert(alloc_outcome(cur_q, cur_d, cur_t, cur_u, cur_bed)
                            == alloc_outcome(
                            work_unit_quota@,
                            room_quantity@[0] as int,
                            room_quantity@[1] as int,
                            room_quantity@[2] as int,
                            bed_pool as int,
                        ));
                    }
                },
                Ok(None) => {
                    if let Some(v) = should_assign_two_rooms(
                        &mut work_unit_quota,
                        &mut room_quantity,
                        &mut bed_pool,
                        &mut rooms,
                        &mut room_arrangement,
                        housekeepers,
                    ) {
                        bed_pool = v;
                        proof {
                            assert(nonzero_count(cur_q) != 1);
                            assert(!(find_fit(cur_q, cur_d, cur_t, cur_u, 0) < n));
                            assert(cur_t == 0 || find_odd(cur_q, 0) == n);
                            assert(find_six(cur_q, 0) < n && cur_t > 2);
                            assert(alloc_outcome(cur_q, cur_d, cur_t, cur_u, cur_bed)
                                == alloc_outcome(
                                work_unit_quota@,
                                room_quantity@[0] as int,
                                room_quantity@[1] as int,
                                room_quantity@[2] as int,
                                bed_pool as int,
                            ));
                        }
                    } else {
                        match assign_evenly(
                            &mut work_unit_quota,
                            &mut room_quantity,
                            &mut bed_pool,
                            &mut rooms,
                            &mut room_arrangement,
                            housekeepers,
                        ) {
                            Err(e) => {
                                proof {
                                    assert(nonzero_count(cur_q) != 1);
                                    assert(!(find_fit(cur_q, cur_d, cur_t, cur_u, 0) < n));
                                    assert(cur_t == 0 || find_odd(cur_q, 0) == n);
                                    assert(!(find_six(cur_q, 0) < n && cur_t > 2));
                                    assert(!evenly_pass(cur_q, cur_d, 0).2);
                                    assert(alloc_outcome(cur_q, cur_d, cur_t, cur_u, cur_bed)
                                        == AllocOutcome::Underflow);
                                    assert(target == AllocOutcome::Underflow);
                                }
                                failure = Some(e);
                                break ;
                            },
                            Ok(v) => {
                                bed_pool = v;
                                proof {
                                    assert(nonzero_count(cur_q) != 1);
                                    assert(!(find_fit(cur_q, cur_d, cur_t, cur_u, 0) < n));
                                    assert(cur_t == 0 || find_odd(cur_q, 0) == n);
                                    assert(!(find_six(cur_q, 0) < n && cur_t > 2));
                                    let pass = evenly_pass(cur_q, cur_d, 0);
                                    assert(pass.2);
                                    lemma_evenly_pass_bounds(cur_q, cur_d, 0);
                                    assert(room_quantity@[0] as int == pass.1);
                                    if pass.1 < cur_d {
                                        assert(alloc_outcome(
                                            cur_q,
                                            cur_d,
                                            cur_t,
                                            cur_u,
                                            cur_bed,
                                        ) == alloc_outcome(
                                            work_unit_quota@,
                                            room_quantity@[0] as int,
                                            room_quantity@[1] as int,
                                            room_quantity@[2] as int,
                                            bed_pool as int,
                                        ));
                                    } else {
                                        assert(alloc_outcome(
                                            cur_q,
                                            cur_d,
                                            cur_t,
                                            cur_u,
                                            cur_bed,
                                        ) == AllocOutcome::Stalled);
                                        assert(target == AllocOutcome::Stalled);
                                    }
                                }
                            },
                        }
                    }
                },
            }
        }
        proof {
            assert forall|rm: Room| rm.room_type == RoomType::Single implies #[trigger]
                room_arrangement@[n - 1]@.to_multiset().count(rm) >= rooms0.to_multiset().count(
                rm,
            ) by {
                lemma_prefix_ms_le(arr_start[n - 1]@, room_arrangement@[n - 1]@);
            }
            if bed_pool == 0 {
                assert(alloc_outcome(
                    work_unit_quota@,
                    room_quantity@[0] as int,
                    room_quantity@[1] as int,
                    room_quantity@[2] as int,
                    0,
                ) == AllocOutcome::Done);
            }
        }
        if bed_pool >= before {
            failure = Some(AllocationError::StalledAllocation);
            break ;
        }
    }
    if let Some(e) = failure {
        return Err(e);
    }
    proof {
        assert(target == AllocOutcome::Done);
        if rooms@.len() != 0 {
            assert(alloc_wf(
                rooms@,
                room_arrangement@,
                work_unit_quota@,
                room_quantity@,
                bed_pool as int,
                n,
            ));
            lemma_seq_work_by_counts(rooms@);
            lemma_room_count_nonneg(rooms@, RoomType::Single);
            lemma_room_count_nonneg(rooms@, RoomType::Double);
            lemma_room_count_nonneg(rooms@, RoomType::Triple);
            lemma_room_count_nonneg(rooms@, RoomType::Quad);
            assert(false);
        }
        lemma_empty_ms();
        assert(rooms@ =~= Seq::<Room>::empty());
        assert(arrangement_ms(room_arrangement@) =~= rooms0.to_multiset());
    }
    Ok(room_arrangement)
}

/// The outcome the greedy loop is bound to reach from a bookkeeping state:
/// every room placed, a full pass without progress, or a quota that cannot
/// pay for the room the rules hand it.
pub enum AllocOutcome {
    Done,
    Stalled,
    Underflow,
}

/// The quantity slot the exact-fit rule matches for position `i`, scanning
/// the slots in order over the remaining Double/Triple/Quad counts; 3 when
/// none fits.
pub open spec fn fit_slot(q: Seq<u8>, d: int, t: int, u: int, i: int) -> int {
    if d > 0 && q[i] == 2 {
        0int
    } else if t > 0 && q[i] == 3 {
        1int
    } else if u > 0 && q[i] == 4 {
        2int
    } else {
        3int
    }
}

pub open spec fn has_fit(q: Seq<u8>, d: int, t: int, u: int, i: int) -> bool {
    fit_slot(q, d, t, u, i) < 3
}

/// First position at or after `s` with an exact fit; the length when none.
pub open spec fn find_fit(q: Seq<u8>, d: int, t: int, u: int, s: int) -> int
    decreases q.len() - s,
{
    if s < 0 || s >= q.len() {
        q.len() as int
    } else if has_fit(q, d, t, u, s) {
        s
    } else {
        find_fit(q, d, t, u, s + 1)
    }
}

/// First position at or after `s` with an odd quota; the length when none.
pub open spec fn find_odd(q: Seq<u8>, s: int) -> int
    decreases q.len() - s,
{
    if s < 0 || s >= q.len() {
        q.len() as int
    } else if q[s] % 2 != 0 {
        s
    } else {
        find_odd(q, s + 1)
    }
}

/// First position at or after `s` whose quota is exactly six; the length
/// when none.
pub open spec fn find_six(q: Seq<u8>, s: int) -> int
    decreases q.len() - s,
{
    if s < 0 || s >= q.len() {
        q.len() as int
    } else if q[s] == 6 {
        s
    } else {
        find_six(q, s + 1)
    }
}

proof fn lemma_find_fit_at(q: Seq<u8>, d: int, t: int, u: int, s: int, i: int)
    requires
        0 <= s <= i < q.len(),
        has_fit(q, d, t, u, i),
        forall|k: int| s <= k < i ==> !has_fit(q, d, t, u, k),
    ensures
        find_fit(q, d, t, u, s) == i,
    decreases i - s,
{
    if s < i {
        lemma_find_fit_at(q, d, t, u, s + 1, i);
    }
}

proof fn lemma_find_fit_none(q: Seq<u8>, d: int, t: int, u: int, s: int)
    requires
        s >= 0,
        forall|k: int| s <= k < q.len() ==> !has_fit(q, d, t, u, k),
    ensures
        find_fit(q, d, t, u, s) == q.len(),
    decreases q.len() - s,
{
    if s < q.len() {
        lemma_find_fit_none(q, d, t, u, s + 1);
    }
}

proof fn lemma_find_odd_at(q: Seq<u8>, s: int, i: int)
    requires
        0 <= s <= i < q.len(),
        q[i] % 2 != 0,
        forall|k: int| s <= k < i ==> (#[trigger] q[k]) % 2 == 0,
    ensures
        find_odd(q, s) == i,
    decreases i - s,
{
    if s < i {
        lemma_find_odd_at(q, s + 1, i);
    }
}

proof fn lemma_find_odd_none(q: Seq<u8>, s: int)
    requires
        s >= 0,
        forall|k: int| s <= k < q.len() ==> (#[trigger] q[k]) % 2 == 0,
    ensures
        find_odd(q, s) == q.len(),
    decreases q.len() - s,
{
    if s < q.len() {
        lemma_find_odd_none(q, s + 1);
    }
}

proof fn lemma_find_six_at(q: Seq<u8>, s: int, i: int)
    requires
        0 <= s <= i < q.len(),
        q[i] == 6,
        forall|k: int| s <= k < i ==> (#[trigger] q[k]) != 6,
    ensures
        find_six(q, s) == i,
    decreases i - s,
{
    if s < i {
        lemma_find_six_at(q, s + 1, i);
    }
}

proof fn lemma_find_six_none(q: Seq<u8>, s: int)
    requires
        s >= 0,
        forall|k: int| s <= k < q.len() ==> (#[trigger] q[k]) != 6,
    ensures
        find_six(q, s) == q.len(),
    decreases q.len() - s,
{
    if s < q.len() {
        lemma_find_six_none(q, s + 1);
    }
}

/// The outcome of the greedy loop from quotas `q`, remaining counts `d`,
/// `t`, `u` (Double, Triple, Quad) and bed pool `bed`, mirroring the rule
/// order exactly: last-workload, exact-fit, parity-fix, pairing,
/// even-split, and a stall when no rule makes progress.
pub open spec fn alloc_outcome(q: Seq<u8>, d: int, t: int, u: int, bed: int) -> AllocOutcome
    decreases (if bed >= 0 { bed } else { 0int }),
{
    if bed <= 0 {
        AllocOutcome::Done
    } else if nonzero_count(q) == 1 {
        AllocOutcome::Done
    } else if find_fit(q, d, t, u, 0) < q.len() {
        let i = find_fit(q, d, t, u, 0);
        let j = fit_slot(q, d, t, u, i);
        if j == 0 {
            alloc_outcome(q.update(i, 0u8), d - 1, t, u, bed - 2)
        } else if j == 1 {
            alloc_outcome(q.update(i, 0u8), d, t - 1, u, bed - 3)
        } else {
            alloc_outcome(q.update(i, 0u8), d, t, u - 1, bed - 4)
        }
    } else if t > 0 && find_odd(q, 0) < q.len() {
        let i = find_odd(q, 0);
        if q[i] < 3 {
            AllocOutcome::Underflow
        } else {
            alloc_outcome(q.update(i, (q[i] - 3) as u8), d, t - 1, u, bed - 3)
        }
    } else if find_six(q, 0) < q.len() && t > 2 {
        alloc_outcome(q.update(find_six(q, 0), 0u8), d, t - 2, u, bed - 6)
    } else {
        let pass = evenly_pass(q, d, 0);
        if !pass.2 {
            AllocOutcome::Underflow
        } else if pass.1 < d {
            alloc_outcome(pass.0, pass.1, t, u, bed - 2 * (d - pass.1))
        } else {
            AllocOutcome::Stalled
        }
    }
}

/// The outcome of a whole allocation run on pool `rooms` and quotas
/// `quota` for a crew of size `n`: the Single phase, then the
/// small-inventory shortcut, then the greedy loop.
pub open spec fn spec_alloc_outcome(rooms: Seq<Room>, quota: Seq<u8>, n: int) -> AllocOutcome {
    let singles = room_count_of(rooms, RoomType::Single);
    let d = room_count_of(rooms, RoomType::Double);
    let t = room_count_of(rooms, RoomType::Triple);
    let u = room_count_of(rooms, RoomType::Quad);
    if singles > quota[n - 1] {
        AllocOutcome::Underflow
    } else if d + t + u < 6 {
        AllocOutcome::Done
    } else {
        alloc_outcome(
            quota.update(n - 1, (quota[n - 1] - singles) as u8),
            d,
            t,
            u,
            quota_sum(quota) - singles,
        )
    }
}

#[verifier::spinoff_prover]
proof fn lemma_reference_steps_a()
    ensures
        alloc_outcome(seq![7u8, 7u8, 10u8, 10u8, 9u8], 13, 3, 2, 43) == alloc_outcome(seq![0u8, 4u8, 10u8, 10u8, 9u8], 13, 1, 1, 33),
{
    let q1 = seq![7u8, 7u8, 10u8, 10u8, 9u8];
    let s1 = seq![4u8, 7u8, 10u8, 10u8, 9u8];
    let s2 = seq![0u8, 7u8, 10u8, 10u8, 9u8];
    let s3 = seq![0u8, 4u8, 10u8, 10u8, 9u8];
    assert(alloc_outcome(q1, 13, 3, 2, 43) == alloc_outcome(s1, 13, 2, 2, 40)) by {
        reveal_with_fuel(nonzero_count, 7);
        assert(forall|k: int| 0 <= k < 5 ==> !has_fit(q1, 13, 3, 2, k));
        lemma_find_fit_none(q1, 13, 3, 2, 0);
        lemma_find_odd_at(q1, 0, 0);
        assert(q1.update(0, (q1[0] - 3) as u8) =~= s1);
    }
    assert(alloc_outcome(s1, 13, 2, 2, 40) == alloc_outcome(s2, 13, 2, 1, 36)) by {
        reveal_with_fuel(nonzero_count, 7);
        assert(has_fit(s1, 13, 2, 2, 0));
        lemma_find_fit_at(s1, 13, 2, 2, 0, 0);
        assert(fit_slot(s1, 13, 2, 2, 0) == 2);
        assert(s1.update(0, 0u8) =~= s2);
    }
    assert(alloc_outcome(s2, 13, 2, 1, 36) == alloc_outcome(s3, 13, 1, 1, 33)) by {
        reveal_with_fuel(nonzero_count, 7);
        assert(forall|k: int| 0 <= k < 5 ==> !has_fit(s2, 13, 2, 1, k));
        lemma_find_fit_none(s2, 13, 2, 1, 0);
        assert(forall|k: int| 0 <= k < 1 ==> (#[trigger] s2[k]) % 2 == 0);
        lemma_find_odd_at(s2, 0, 1);
        assert(s2.update(1, (s2[1] - 3) as u8) =~= s3);
    }
}

#[verifier::spinoff_prover]
proof fn lemma_reference_steps_b()
    ensures
        alloc_outcome(seq![0u8, 4u8, 10u8, 10u8, 9u8], 13, 1, 1, 33) == alloc_outcome(seq![0u8, 0u8, 8u8, 8u8, 4u8], 10, 0, 0, 20),
{
    let s3 = seq![0u8, 4u8, 10u8, 10u8, 9u8];
    let s4 = seq![0u8, 0u8, 10u8, 10u8, 9u8];
    let s5 = seq![0u8, 0u8, 10u8, 10u8, 6u8];
    let s6 = seq![0u8, 0u8, 8u8, 8u8, 4u8];
    assert(alloc_outcome(s3, 13, 1, 1, 33) == alloc_outcome(s4, 13, 1, 0, 29)) by {
        reveal_with_fuel(nonzero_count, 7);
        assert(forall|k: int| 0 <= k < 1 ==> !has_fit(s3, 13, 1, 1, k));
        assert(has_fit(s3, 13, 1, 1, 1));
        lemma_find_fit_at(s3, 13, 1, 1, 0, 1);
        assert(fit_slot(s3, 13, 1, 1, 1) == 2);
        assert(s3.update(1, 0u8) =~= s4);
    }
    assert(alloc_outcome(s4, 13, 1, 0, 29) == alloc_outcome(s5, 13, 0, 0, 26)) by {
        reveal_with_fuel(nonzero_count, 7);
        assert(forall|k: int| 0 <= k < 5 ==> !has_fit(s4, 13, 1, 0, k));
        lemma_find_fit_none(s4, 13, 1, 0, 0);
        assert(forall|k: int| 0 <= k < 4 ==> (#[trigger] s4[k]) % 2 == 0);
        lemma_find_odd_at(s4, 0, 4);
        assert(s4.update(4, (s4[4] - 3) as u8) =~= s5);
    }
    assert(alloc_outcome(s5, 13, 0, 0, 26) == alloc_outcome(s6, 10, 0, 0, 20)) by {
        reveal_with_fuel(nonzero_count, 7);
        assert(forall|k: int| 0 <= k < 5 ==> !has_fit(s5, 13, 0, 0, k));
        lemma_find_fit_none(s5, 13, 0, 0, 0);
        reveal_with_fuel(evenly_pass, 8);
        assert(evenly_pass(s5, 13, 0).0 =~= s6);
        assert(evenly_pass(s5, 13, 0).1 == 10);
        assert(evenly_pass(s5, 13, 0).2);
    }
}

#[verifier::spinoff_prover]
proof fn lemma_reference_steps_c()
    ensures
        alloc_outcome(seq![0u8, 0u8, 8u8, 8u8, 4u8], 10, 0, 0, 20) == alloc_outcome(seq![0u8, 0u8, 4u8, 4u8, 0u8], 4, 0, 0, 8),
{
    let s6 = seq![0u8, 0u8, 8u8, 8u8, 4u8];
    let s7 = seq![0u8, 0u8, 6u8, 6u8, 2u8];
    let s8 = seq![0u8, 0u8, 6u8, 6u8, 0u8];
    let s9 = seq![0u8, 0u8, 4u8, 4u8, 0u8];
    assert(alloc_outcome(s6, 10, 0, 0, 20) == alloc_outcome(s7, 7, 0, 0, 14)) by {
        reveal_with_fuel(nonzero_count, 7);
        assert(forall|k: int| 0 <= k < 5 ==> !has_fit(s6, 10, 0, 0, k));
        lemma_find_fit_none(s6, 10, 0, 0, 0);
        reveal_with_fuel(evenly_pass, 8);
        assert(evenly_pass(s6, 10, 0).0 =~= s7);
        assert(evenly_pass(s6, 10, 0).1 == 7);
        assert(evenly_pass(s6, 10, 0).2);
    }
    assert(alloc_outcome(s7, 7, 0, 0, 14) == alloc_outcome(s8, 6, 0, 0, 12)) by {
        reveal_with_fuel(nonzero_count, 7);
        assert(forall|k: int| 0 <= k < 4 ==> !has_fit(s7, 7, 0, 0, k));
        assert(has_fit(s7, 7, 0, 0, 4));
        lemma_find_fit_at(s7, 7, 0, 0, 0, 4);
        assert(fit_slot(s7, 7, 0, 0, 4) == 0);
        assert(s7.update(4, 0u8) =~= s8);
    }
    assert(alloc_outcome(s8, 6, 0, 0, 12) == alloc_outcome(s9, 4, 0, 0, 8)) by {
        reveal_with_fuel(nonzero_count, 7);
        assert(forall|k: int| 0 <= k < 5 ==> !has_fit(s8, 6, 0, 0, k));
        lemma_find_fit_none(s8, 6, 0, 0, 0);
        reveal_with_fuel(evenly_pass, 8);
        assert(evenly_pass(s8, 6, 0).0 =~= s9);
        assert(evenly_pass(s8, 6, 0).1 == 4);
        assert(evenly_pass(s8, 6, 0).2);
    }
}

#[verifier::spinoff_prover]
proof fn lemma_reference_steps_d()
    ensures
        alloc_outcome(seq![0u8, 0u8, 4u8, 4u8, 0u8], 4, 0, 0, 8) == AllocOutcome::Done,
{
    let s9 = seq![0u8, 0u8, 4u8, 4u8, 0u8];
    let s10 = seq![0u8, 0u8, 2u8, 2u8, 0u8];
    let s11 = seq![0u8, 0u8, 0u8, 2u8, 0u8];
    assert(alloc_outcome(s9, 4, 0, 0, 8) == alloc_outcome(s10, 2, 0, 0, 4)) by {
        reveal_with_fuel(nonzero_count, 7);
        assert(forall|k: int| 0 <= k < 5 ==> !has_fit(s9, 4, 0, 0, k));
        lemma_find_fit_none(s9, 4, 0, 0, 0);
        reveal_with_fuel(evenly_pass, 8);
        assert(evenly_pass(s9, 4, 0).0 =~= s10);
        assert(evenly_pass(s9, 4, 0).1 == 2);
        assert(evenly_pass(s9, 4, 0).2);
    }
    assert(alloc_outcome(s10, 2, 0, 0, 4) == alloc_outcome(s11, 1, 0, 0, 2)) by {
        reveal_with_fuel(nonzero_count, 7);
        assert(forall|k: int| 0 <= k < 2 ==> !has_fit(s10, 2, 0, 0, k));
        assert(has_fit(s10, 2, 0, 0, 2));
        lemma_find_fit_at(s10, 2, 0, 0, 0, 2);
        assert(fit_slot(s10, 2, 0, 0, 2) == 0);
        assert(s10.update(2, 0u8) =~= s11);
    }
    assert(alloc_outcome(s11, 1, 0, 0, 2) == AllocOutcome::Done) by {
        reveal_with_fuel(nonzero_count, 7);
        assert(nonzero_count(s11) == 1);
    }
}

/// The reference configuration ends in success: on any inventory of one
/// Single, thirteen Double, three Triple and two Quad rooms (workload 44),
/// with the planner's quotas for two part-time and three full-time
/// housekeepers, the allocation run is bound to place every room.
#[verifier::spinoff_prover]
pub proof fn lemma_reference_outcome(rooms: Seq<Room>, quota: Seq<u8>)
    requires
        room_count_of(rooms, RoomType::Single) == 1,
        room_count_of(rooms, RoomType::Double) == 13,
        room_count_of(rooms, RoomType::Triple) == 3,
        room_count_of(rooms, RoomType::Quad) == 2,
        quota == seq![7u8, 7u8, 10u8, 10u8, 10u8],
    ensures
        spec_alloc_outcome(rooms, quota, 5) == AllocOutcome::Done,
{
    let q1 = seq![7u8, 7u8, 10u8, 10u8, 9u8];
    lemma_reference_steps_a();
    lemma_reference_steps_b();
    lemma_reference_steps_c();
    lemma_reference_steps_d();
    assert(alloc_outcome(q1, 13, 3, 2, 43) == AllocOutcome::Done);
    assert(spec_alloc_outcome(rooms, quota, 5) == alloc_outcome(q1, 13, 3, 2, 43)) by {
        reveal_with_fuel(quota_sum, 7);
        assert(quota_sum(quota) == 44);
        assert(quota.update(4, (quota[4] - 1) as u8) =~= q1);
    }
}


} // verus!
