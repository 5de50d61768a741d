//! Quota planning: one integer work-unit quota per housekeeper.
//!
//! The crew's shift composition weighs a full-time housekeeper at 1.6 times
//! a part-time share.  All intermediate values are rationals with a
//! denominator of 5, so every rounding below is round-half-up on exact
//! fractions, which coincides with round-half-away-from-zero on the
//! non-negative values involved.

use vstd::prelude::*;
use vstd::arithmetic::div_mod::{
    lemma_fundamental_div_mod, lemma_fundamental_div_mod_converse, lemma_mod_bound,
    lemma_multiply_divide_lt,
};
use vstd::arithmetic::mul::lemma_mul_inequality;

use crate::errors::AllocationError;
use crate::housekeeper::{Housekeeper, Shift};
use crate::room::{Room, spec_work_units};
use crate::seqs::{
    lemma_quota_sum_ge_elem, lemma_quota_sum_nonneg, lemma_quota_sum_update,
    lemma_seq_work_first, lemma_seq_work_nonneg, lemma_seq_work_split, quota_sum,
    seq_work_units,
};

verus! {

/// `a / b` rounded half up, for `b > 0`.
pub open spec fn round_half_up(a: int, b: int) -> int {
    (2 * a + b) / (2 * b)
}

/// The quota divider: `part_time + 1.6 * full_time`, rounded half up.
pub open spec fn spec_divider(part_time: int, full_time: int) -> int {
    (10 * part_time + 16 * full_time + 5) / 10
}

/// The base (part-time) share: total work over the divider, rounded half up.
pub open spec fn spec_base_share(total: int, part_time: int, full_time: int) -> int {
    round_half_up(total, spec_divider(part_time, full_time))
}

/// A full-time share: 1.6 times the base share, rounded half up.
pub open spec fn spec_full_time_share(base: int) -> int {
    (16 * base + 5) / 10
}

/// The quota of position `i` before reconciliation: part-time positions
/// (below `part_time`) get the base share, full-time positions the full-time
/// share.
pub open spec fn spec_raw_quota(total: int, part_time: int, full_time: int, i: int) -> int {
    if i < part_time {
        spec_base_share(total, part_time, full_time)
    } else {
        spec_full_time_share(spec_base_share(total, part_time, full_time))
    }
}

/// Sum of the raw quotas over the whole crew.
pub open spec fn spec_raw_sum(total: int, part_time: int, full_time: int) -> int {
    part_time * spec_base_share(total, part_time, full_time) + full_time * spec_full_time_share(
        spec_base_share(total, part_time, full_time),
    )
}

/// How many of `d` single-unit increments position `i` receives when they
/// are dealt cyclically from the front of a sequence of length `n`.
pub open spec fn inc_share(d: int, n: int, i: int) -> int {
    d / n + if i < d % n {
        1int
    } else {
        0int
    }
}

/// How many of `d` single-unit decrements position `i` receives when they
/// are dealt cyclically from the back of a sequence of length `n`.
pub open spec fn dec_share(d: int, n: int, i: int) -> int {
    d / n + if i >= n - d % n {
        1int
    } else {
        0int
    }
}

/// Number of full-time housekeepers in a crew.
pub open spec fn count_full_time(hs: Seq<Housekeeper>) -> int
    decreases hs.len(),
{
    if hs.len() == 0 {
        0
    } else {
        count_full_time(hs.drop_last()) + if hs.last().shift == Shift::FullTime {
            1int
        } else {
            0int
        }
    }
}

/// The raw quotas cannot be reconciled downward: the deficit of position `i`
/// alone exceeds its raw quota.
pub open spec fn spec_reduce_underflows(total: int, part_time: int, full_time: int) -> bool {
    let n = part_time + full_time;
    let s = spec_raw_sum(total, part_time, full_time);
    s > total && exists|i: int|
        0 <= i < n && spec_raw_quota(total, part_time, full_time, i) < dec_share(s - total, n, i)
}

/// The value at position `i` after reconciling a quota sequence `q` with a
/// target sum `total`.
pub open spec fn spec_adjusted_quota(q: Seq<u8>, total: int, i: int) -> int {
    let s = quota_sum(q);
    let n = q.len() as int;
    if s == total {
        q[i] as int
    } else if s < total {
        q[i] + inc_share(total - s, n, i)
    } else {
        q[i] - dec_share(s - total, n, i)
    }
}

/// The final quota of position `i`: the raw quota, shifted by the
/// reconciliation passes (increments dealt from the front, decrements from
/// the back).
pub open spec fn spec_planned_quota(total: int, part_time: int, full_time: int, i: int) -> int {
    let n = part_time + full_time;
    let raw = spec_raw_quota(total, part_time, full_time, i);
    let s = spec_raw_sum(total, part_time, full_time);
    if s == total {
        raw
    } else if s < total {
        raw + inc_share(total - s, n, i)
    } else {
        raw - dec_share(s - total, n, i)
    }
}

/// How quotient and remainder move when the dividend grows by one.
pub proof fn lemma_cycle_step(k: int, n: int)
    requires
        n >= 1,
        k >= 0,
    ensures
        0 <= k % n < n,
        k % n == n - 1 ==> (k + 1) / n == k / n + 1 && (k + 1) % n == 0,
        k % n < n - 1 ==> (k + 1) / n == k / n && (k + 1) % n == k % n + 1,
{
    lemma_fundamental_div_mod(k, n);
    lemma_mod_bound(k, n);
    if k % n == n - 1 {
        assert((k / n + 1) * n == (k / n) * n + n) by (nonlinear_arith);
        assert((k / n) * n == n * (k / n)) by (nonlinear_arith);
        lemma_fundamental_div_mod_converse(k + 1, n, k / n + 1, 0);
    } else {
        assert((k / n) * n == n * (k / n)) by (nonlinear_arith);
        lemma_fundamental_div_mod_converse(k + 1, n, k / n, k % n + 1);
    }
}

/// A position that is about to receive one of `d` cyclic decrements has a
/// total share larger than the full passes completed so far.
proof fn lemma_dec_share_needed(k: int, d: int, n: int)
    requires
        n >= 1,
        0 <= k < d,
    ensures
        dec_share(d, n, n - 1 - k % n) >= k / n + 1,
{
    lemma_fundamental_div_mod(k, n);
    lemma_fundamental_div_mod(d, n);
    lemma_mod_bound(k, n);
    lemma_mod_bound(d, n);
    let kq = k / n;
    let kr = k % n;
    let dq = d / n;
    let dr = d % n;
    if kq > dq {
        lemma_mul_inequality(1, kq - dq, n);
        assert((kq - dq) * n == n * kq - n * dq) by (nonlinear_arith);
        assert(1 * n == n) by (nonlinear_arith);
        assert(k - d == n * kq + kr - (n * dq + dr));
        assert(k - d >= n + kr - dr);
        assert(false);
    } else if kq == dq {
        assert(n * kq == n * dq);
        assert(kr < dr);
        assert(n - 1 - kr >= n - dr);
    }
}

/// Total work units of the room inventory.
pub fn get_total_work_units(rooms: &Vec<Room>) -> (r: u8)
    requires
        seq_work_units(rooms@) <= u8::MAX,
    ensures
        r == seq_work_units(rooms@),
{
    let ghost all = rooms@;
    let mut acc: u8 = 0;
    let mut i: usize = 0;
    while i < rooms.len()
        invariant
            0 <= i <= rooms@.len(),
            rooms@ == all,
            seq_work_units(all) <= u8::MAX,
            acc == seq_work_units(all.take(i as int)),
        decreases rooms@.len() - i,
    {
        proof {
            lemma_seq_work_split(all, i as int);
            lemma_seq_work_split(all, i as int + 1);
            lemma_seq_work_first(all.skip(i as int));
            assert(all.skip(i as int).drop_first() =~= all.skip(i as int + 1));
            assert(all.skip(i as int)[0] == all[i as int]);
            lemma_seq_work_nonneg(all.skip(i as int + 1));
        }
        let w = rooms[i].room_type.get_work_units();
        acc = acc + w;
        i = i + 1;
    }
    proof {
        assert(all.take(rooms@.len() as int) =~= all);
    }
    acc
}

/// Counts the full-time housekeepers; the part-time count is the remainder
/// of the crew.
pub fn get_shift_distribution(housekeepers: &Vec<Housekeeper>) -> (r: (usize, usize))
    ensures
        r.0 == count_full_time(housekeepers@),
        r.1 == housekeepers@.len() - count_full_time(housekeepers@),
{
    let ghost all = housekeepers@;
    let mut full_time: usize = 0;
    let mut i: usize = 0;
    while i < housekeepers.len()
        invariant
            0 <= i <= all.len(),
            housekeepers@ == all,
            full_time == count_full_time(all.take(i as int)),
            full_time <= i,
        decreases all.len() - i,
    {
        proof {
            assert(all.take(i as int + 1).drop_last() =~= all.take(i as int));
            assert(all.take(i as int + 1).last() == all[i as int]);
        }
        if housekeepers[i].shift == Shift::FullTime {
            full_time = full_time + 1;
        }
        i = i + 1;
    }
    proof {
        assert(all.take(all.len() as int) =~= all);
    }
    let part_time = housekeepers.len() - full_time;
    (full_time, part_time)
}

/// Deals single-unit increments cyclically from the front of the quota
/// sequence until its sum reaches the target.
pub fn increase_work_units(
    work_unit_distribution: &mut Vec<u8>,
    total_work_units: u8,
    current_work_units: usize,
)
    requires
        old(work_unit_distribution)@.len() >= 1,
        current_work_units == quota_sum(old(work_unit_distribution)@),
        current_work_units < total_work_units,
    ensures
        final(work_unit_distribution)@.len() == old(work_unit_distribution)@.len(),
        quota_sum(final(work_unit_distribution)@) == total_work_units,
        forall|i: int|
            0 <= i < old(work_unit_distribution)@.len() ==> final(work_unit_distribution)@[i]
                == old(work_unit_distribution)@[i] + inc_share(
                total_work_units - current_work_units,
                old(work_unit_distribution)@.len() as int,
                i,
            ),
{
    let ghost orig = old(work_unit_distribution)@;
    let n = work_unit_distribution.len();
    let total: usize = total_work_units as usize;
    let mut current: usize = current_work_units;
    let mut k: usize = 0;
    while current < total
        invariant
            n == work_unit_distribution@.len(),
            n >= 1,
            n == orig.len(),
            orig == old(work_unit_distribution)@,
            current == current_work_units + k,
            current_work_units <= current <= total,
            total == total_work_units,
            total_work_units <= u8::MAX,
            current == quota_sum(work_unit_distribution@),
            forall|i: int|
                0 <= i < n ==> work_unit_distribution@[i] == orig[i] + inc_share(
                    k as int,
                    n as int,
                    i,
                ),
        decreases total - current,
    {
        let idx: usize = k % n;
        proof {
            lemma_cycle_step(k as int, n as int);
            lemma_quota_sum_ge_elem(work_unit_distribution@, idx as int);
            lemma_quota_sum_update(
                work_unit_distribution@,
                idx as int,
                (work_unit_distribution@[idx as int] + 1) as u8,
            );
        }
        let v = work_unit_distribution[idx];
        work_unit_distribution.set(idx, v + 1);
        current = current + 1;
        k = k + 1;
        proof {
            assert forall|i: int|
                0 <= i < n implies work_unit_distribution@[i] == orig[i] + inc_share(
                    k as int,
                    n as int,
                    i,
                ) by {
                lemma_cycle_step(k as int - 1, n as int);
            }
        }
    }
}

/// Deals single-unit decrements cyclically from the back of the quota
/// sequence until its sum reaches the target; a decrement of an exhausted
/// entry is refused as `QuotaUnderflow`.
pub fn reduce_work_units(
    work_unit_distribution: &mut Vec<u8>,
    total_work_units: u8,
    current_work_units: usize,
) -> (r: Result<(), AllocationError>)
    requires
        old(work_unit_distribution)@.len() >= 1,
        current_work_units == quota_sum(old(work_unit_distribution)@),
        current_work_units > total_work_units,
    ensures
        final(work_unit_distribution)@.len() == old(work_unit_distribution)@.len(),
        r matches Ok(u) ==> quota_sum(final(work_unit_distribution)@) == total_work_units
            && forall|i: int|
            0 <= i < old(work_unit_distribution)@.len() ==> final(work_unit_distribution)@[i]
                == old(work_unit_distribution)@[i] - dec_share(
                current_work_units - total_work_units,
                old(work_unit_distribution)@.len() as int,
                i,
            ),
        r matches Err(e) ==> e == AllocationError::QuotaUnderflow && exists|i: int|
            0 <= i < old(work_unit_distribution)@.len() && old(work_unit_distribution)@[i]
                < dec_share(
                current_work_units - total_work_units,
                old(work_unit_distribution)@.len() as int,
                i,
            ),
        r matches Ok(u) ==> forall|i: int|
            0 <= i < old(work_unit_distribution)@.len() ==> old(work_unit_distribution)@[i]
                >= dec_share(
                current_work_units - total_work_units,
                old(work_unit_distribution)@.len() as int,
                i,
            ),
{
    let ghost orig = old(work_unit_distribution)@;
    let ghost d = current_work_units - total_work_units;
    let n = work_unit_distribution.len();
    let total: usize = total_work_units as usize;
    let mut current: usize = current_work_units;
    let mut k: usize = 0;
    while current > total
        invariant
            n == work_unit_distribution@.len(),
            n >= 1,
            n == orig.len(),
            orig == old(work_unit_distribution)@,
            current == current_work_units - k,
            total <= current <= current_work_units,
            total == total_work_units,
            d == current_work_units - total_work_units,
            current == quota_sum(work_unit_distribution@),
            forall|i: int|
                0 <= i < n ==> work_unit_distribution@[i] == orig[i] - dec_share(
                    k as int,
                    n as int,
                    i,
                ),
        decreases current - total,
    {
        let idx: usize = n - 1 - (k % n);
        proof {
            lemma_cycle_step(k as int, n as int);
        }
        let v = work_unit_distribution[idx];
        if v == 0 {
            proof {
                lemma_dec_share_needed(k as int, d, n as int);
                assert(dec_share(k as int, n as int, idx as int) == k as int / n as int);
                assert(orig[idx as int] < dec_share(d, n as int, idx as int));
            }
            return Err(AllocationError::QuotaUnderflow);
        }
        proof {
            lemma_quota_sum_update(
                work_unit_distribution@,
                idx as int,
                (work_unit_distribution@[idx as int] - 1) as u8,
            );
        }
        work_unit_distribution.set(idx, v - 1);
        current = current - 1;
        k = k + 1;
        proof {
            assert forall|i: int|
                0 <= i < n implies work_unit_distribution@[i] == orig[i] - dec_share(
                    k as int,
                    n as int,
                    i,
                ) by {
                lemma_cycle_step(k as int - 1, n as int);
            }
        }
    }
    proof {
        assert forall|i: int| 0 <= i < n implies orig[i] >= dec_share(d, n as int, i) by {
            assert(work_unit_distribution@[i] >= 0);
        }
    }
    Ok(())
}

/// Reconciles a quota sequence with the total workload: increments are dealt
/// from the front when the sum falls short, decrements from the back when it
/// overshoots.
pub fn adjust_work_unit_distribution(work_unit_distribution: Vec<u8>, total_work_units: u8) -> (r:
    Result<Vec<u8>, AllocationError>)
    requires
        work_unit_distribution@.len() >= 1,
        work_unit_distribution@.len() * 255 <= usize::MAX,
    ensures
        r matches Ok(q) ==> q@.len() == work_unit_distribution@.len() && quota_sum(q@)
            == total_work_units && forall|i: int|
            0 <= i < work_unit_distribution@.len() ==> q@[i] == #[trigger] spec_adjusted_quota(
                work_unit_distribution@,
                total_work_units as int,
                i,
            ),
        r matches Err(e) ==> e == AllocationError::QuotaUnderflow,
        (r matches Err(e)) <==> (quota_sum(work_unit_distribution@) > total_work_units && exists|
            i: int,
        |
            0 <= i < work_unit_distribution@.len() && work_unit_distribution@[i] < dec_share(
                quota_sum(work_unit_distribution@) - total_work_units,
                work_unit_distribution@.len() as int,
                i,
            )),
{
    let ghost orig = work_unit_distribution@;
    let mut work_unit_distribution = work_unit_distribution;
    let n = work_unit_distribution.len();
    let mut current: usize = 0;
    let mut i: usize = 0;
    while i < n
        invariant
            0 <= i <= n,
            n == work_unit_distribution@.len(),
            work_unit_distribution@ == orig,
            n * 255 <= usize::MAX,
            current == quota_sum(orig.take(i as int)),
            current <= i * 255,
        decreases n - i,
    {
        proof {
            assert(orig.take(i as int + 1).drop_last() =~= orig.take(i as int));
            assert(orig.take(i as int + 1).last() == orig[i as int]);
            lemma_mul_inequality(i as int + 1, n as int, 255);
        }
        let v = work_unit_distribution[i];
        current = current + v as usize;
        i = i + 1;
    }
    proof {
        assert(orig.take(n as int) =~= orig);
        lemma_quota_sum_nonneg(orig);
    }
    if current == total_work_units as usize {
        Ok(work_unit_distribution)
    } else if current > total_work_units as usize {
        match reduce_work_units(&mut work_unit_distribution, total_work_units, current) {
            Ok(u) => Ok(work_unit_distribution),
            Err(e) => Err(e),
        }
    } else {
        increase_work_units(&mut work_unit_distribution, total_work_units, current);
        Ok(work_unit_distribution)
    }
}

/// Computes the per-housekeeper work-unit quotas for a room inventory.
///
/// Part-time housekeepers stand at the front of the crew list; each
/// full-time position receives 1.6 times the base share, and the
/// reconciliation passes of `adjust_work_unit_distribution` make the quotas
/// sum exactly to the total workload.
pub fn distribute_work_unit_quota(rooms: &Vec<Room>, housekeepers: &Vec<Housekeeper>) -> (r:
    Result<Vec<u8>, AllocationError>)
    requires
        seq_work_units(rooms@) <= u8::MAX,
        16 * housekeepers@.len() + 5 <= usize::MAX,
        housekeepers@.len() * 255 <= usize::MAX,
    ensures
        ({
            let total = seq_work_units(rooms@);
            let n = housekeepers@.len() as int;
            let ft = count_full_time(housekeepers@);
            let pt = n - ft;
            &&& ((r matches Err(AllocationError::InvalidCrewComposition)) <==> n == 0)
            &&& ((r matches Err(AllocationError::QuotaUnderflow)) <==> (n > 0
                && spec_reduce_underflows(total, pt, ft)))
            &&& ((r matches Ok(q)) <==> (n > 0 && !spec_reduce_underflows(total, pt, ft)))
            &&& (r matches Ok(q) ==> q@.len() == n && quota_sum(q@) == total && forall|i: int|
                0 <= i < n ==> q@[i] == spec_planned_quota(total, pt, ft, i))
        }),
{
    let total_work_units = get_total_work_units(rooms);
    let (full_time, part_time) = get_shift_distribution(housekeepers);
    if housekeepers.len() == 0 {
        return Err(AllocationError::InvalidCrewComposition);
    }
    let n = housekeepers.len();
    let ghost total = seq_work_units(rooms@);
    let ghost ft = count_full_time(housekeepers@);
    let ghost pt = n - ft;
    proof {
        lemma_count_full_time_bounds(housekeepers@);
        lemma_seq_work_nonneg(rooms@);
    }
    let work_unit_divider: usize = (10 * part_time + 16 * full_time + 5) / 10;
    assert(work_unit_divider == spec_divider(pt, ft));
    assert(work_unit_divider >= 1);
    let equal_parts_wide: usize = (2 * (total_work_units as usize) + work_unit_divider) / (2
        * work_unit_divider);
    proof {
        lemma_multiply_divide_lt(
            2 * total + work_unit_divider,
            2 * work_unit_divider as int,
            256,
        );
    }
    let equal_parts: u8 = equal_parts_wide as u8;
    assert(equal_parts == spec_base_share(total, pt, ft));
    let full_parts_wide: usize = (16 * equal_parts_wide + 5) / 10;
    assert(full_parts_wide == spec_full_time_share(spec_base_share(total, pt, ft)));
    let mut work_unit_distribution: Vec<u8> = Vec::new();
    let mut i: usize = 0;
    while i < n
        invariant
            0 <= i <= n,
            n >= 1,
            part_time == pt,
            0 <= pt <= n,
            pt + ft == n,
            ft >= 0,
            work_unit_distribution@.len() == i,
            equal_parts == spec_base_share(total, pt, ft),
            full_parts_wide == spec_full_time_share(spec_base_share(total, pt, ft)),
            0 <= total <= u8::MAX,
            spec_divider(pt, ft) >= 1,
            pt < n ==> spec_divider(pt, ft) >= 2,
            forall|j: int|
                0 <= j < i ==> work_unit_distribution@[j] == spec_raw_quota(total, pt, ft, j),
            quota_sum(work_unit_distribution@) == if i <= pt {
                i * spec_base_share(total, pt, ft)
            } else {
                pt * spec_base_share(total, pt, ft) + (i - pt) * spec_full_time_share(
                    spec_base_share(total, pt, ft),
                )
            },
        decreases n - i,
    {
        let ghost before = work_unit_distribution@;
        let ghost base = spec_base_share(total, pt, ft);
        let ghost full = spec_full_time_share(base);
        if i < part_time {
            work_unit_distribution.push(equal_parts);
        } else {
            proof {
                lemma_full_share_fits(total, pt, ft);
                lemma_multiply_divide_lt(16 * base + 5, 10, 256);
            }
            let full_parts: u8 = full_parts_wide as u8;
            work_unit_distribution.push(full_parts);
        }
        proof {
            assert(work_unit_distribution@.drop_last() =~= before);
            assert((i + 1) * base == i * base + base) by (nonlinear_arith);
            if i >= pt {
                assert((i + 1 - pt) * full == (i - pt) * full + full) by (nonlinear_arith);
            }
        }
        i = i + 1;
    }
    proof {
        let base = spec_base_share(total, pt, ft);
        let full = spec_full_time_share(base);
        if pt == n {
            assert(ft == 0);
            assert(ft * full == 0) by (nonlinear_arith)
                requires ft == 0;
            assert(n as int * base == pt * base);
        } else {
            assert(ft == n - pt);
            assert((n - pt) * full == ft * full);
            assert(pt < n);
        }
        assert(quota_sum(work_unit_distribution@) == spec_raw_sum(total, pt, ft));
        lemma_quota_sum_nonneg(work_unit_distribution@);
        lemma_mul_inequality(n as int, n as int, 255);
    }
    let ghost dist0 = work_unit_distribution@;
    let result = adjust_work_unit_distribution(work_unit_distribution, total_work_units);
    proof {
        let s = spec_raw_sum(total, pt, ft);
        assert(quota_sum(dist0) == s);
        if exists|i: int|
            0 <= i < n && dist0[i] < dec_share(s - total, n as int, i) {
            let w = choose|i: int| 0 <= i < n && dist0[i] < dec_share(s - total, n as int, i);
            assert(spec_raw_quota(total, pt, ft, w) < dec_share(s - total, n as int, w));
        }
        if exists|i: int|
            0 <= i < n && spec_raw_quota(total, pt, ft, i) < dec_share(s - total, n as int, i) {
            let w = choose|i: int|
                0 <= i < n && spec_raw_quota(total, pt, ft, i) < dec_share(s - total, n as int, i);
            assert(dist0[w] < dec_share(s - total, n as int, w));
        }
        match &result {
            Ok(q) => {
                assert forall|i: int| 0 <= i < n implies q@[i] == spec_planned_quota(
                    total,
                    pt,
                    ft,
                    i,
                ) by {
                    assert(q@[i] == spec_adjusted_quota(dist0, total_work_units as int, i));
                    assert(dist0[i] == spec_raw_quota(total, pt, ft, i));
                }
            },
            Err(_) => {},
        }
    }
    result
}

/// The full-time count of a crew is at most the crew's size.
pub proof fn lemma_count_full_time_bounds(hs: Seq<Housekeeper>)
    ensures
        0 <= count_full_time(hs) <= hs.len(),
    decreases hs.len(),
{
    if hs.len() > 0 {
        lemma_count_full_time_bounds(hs.drop_last());
    }
}

/// With at least one full-time position the divider is at least two, so the
/// base share is at most 128 and a full-time share fits in a byte.
proof fn lemma_full_share_fits(total: int, pt: int, ft: int)
    requires
        0 <= total <= 255,
        pt >= 0,
        ft >= 1,
    ensures
        spec_base_share(total, pt, ft) <= 128,
        spec_full_time_share(spec_base_share(total, pt, ft)) <= 205,
{
    let d = spec_divider(pt, ft);
    assert(d >= 2);
    lemma_multiply_divide_lt(2 * total + d, 2 * d, 129);
    let base = spec_base_share(total, pt, ft);
    assert(base >= 0);
    lemma_multiply_divide_lt(16 * base + 5, 10, 206);
}

/// The planner's quotas for the reference configuration: total workload 44
/// over two part-time and three full-time housekeepers gives a base share
/// of 6, full-time shares of 10, and a two-unit deficit dealt to the front.
pub proof fn lemma_reference_quota()
    ensures
        forall|i: int| 0 <= i < 5 ==> #[trigger] spec_planned_quota(44, 2, 3, i) == seq![
            7u8,
            7u8,
            10u8,
            10u8,
            10u8,
        ][i],
{
    assert(spec_divider(2, 3) == 7);
    assert(round_half_up(44, 7) == (88 + 7) / 14);
    assert((88 + 7) / 14 == 6);
    assert(spec_base_share(44, 2, 3) == 6);
    assert(spec_full_time_share(6) == (96 + 5) / 10);
    assert((96 + 5) / 10 == 10);
    assert(spec_raw_sum(44, 2, 3) == 2 * 6 + 3 * 10);
    assert(2int / 5 == 0 && 2int % 5 == 2) by (nonlinear_arith);
    assert forall|i: int| 0 <= i < 5 implies #[trigger] spec_planned_quota(44, 2, 3, i) == seq![
        7u8,
        7u8,
        10u8,
        10u8,
        10u8,
    ][i] by {
        assert(inc_share(2, 5, i) == if i < 2 {
            1int
        } else {
            0int
        });
    }
}

} // verus!
