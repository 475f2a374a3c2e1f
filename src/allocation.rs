//! Distribution of an income over fixed and expandable line items.
//!
//! Fixed items are funded in order, each as far as the pool allows. What
//! remains is spread over the expandable items by water-filling: every item
//! that is not yet full is raised by the same amount until the pool is spent
//! or every item reached its cap. All amounts are in cents.

use vstd::prelude::*;

verus! {

/// The smaller of two integers.
pub open spec fn min_int(a: int, b: int) -> int {
    if a <= b {
        a
    } else {
        b
    }
}

/// Sum of a sequence of amounts.
pub open spec fn total(s: Seq<u64>) -> int
    decreases s.len(),
{
    if s.len() == 0 {
        0
    } else {
        total(s.drop_last()) + s.last()
    }
}

/// What the fixed item at index `i` receives: whatever the income still
/// holds after the items before it, up to its own value.
pub open spec fn fixed_share(values: Seq<u64>, income: int, i: int) -> int {
    let before = income - total(values.subrange(0, i));
    if before <= 0 {
        0
    } else {
        min_int(before, values[i] as int)
    }
}

/// What is left of the income once every fixed item has been funded.
pub open spec fn pool_after_fixed(values: Seq<u64>, income: int) -> int {
    if income > total(values) {
        income - total(values)
    } else {
        0
    }
}

/// Amount needed to raise every item to `level`, each stopping at its cap.
pub open spec fn filled(caps: Seq<u64>, level: int) -> int
    decreases caps.len(),
{
    if caps.len() == 0 {
        0
    } else {
        filled(caps.drop_last(), level) + min_int(caps.last() as int, level)
    }
}

/// Number of caps strictly above `level`.
pub open spec fn count_above(caps: Seq<u64>, level: int) -> nat
    decreases caps.len(),
{
    if caps.len() == 0 {
        0
    } else {
        count_above(caps.drop_last(), level) + if caps.last() > level {
            1nat
        } else {
            0nat
        }
    }
}

/// `level` is the water level reached by `pool`: raising every item to it
/// costs no more than the pool, raising them one cent further costs more.
pub open spec fn is_fill_level(caps: Seq<u64>, pool: int, level: int) -> bool {
    0 <= level && filled(caps, level) <= pool && pool < filled(caps, level + 1)
}

/// What the expandable item at index `i` receives at water level `level`:
/// the level (or its cap, if lower), and one more cent for each of the first
/// items above the level while the cents that the level leaves over last.
pub open spec fn fill_share(caps: Seq<u64>, pool: int, level: int, i: int) -> int {
    min_int(caps[i] as int, level) + if caps[i] > level && count_above(caps.subrange(0, i), level)
        < pool - filled(caps, level) {
        1int
    } else {
        0int
    }
}

proof fn lemma_total_push(s: Seq<u64>, i: int)
    requires
        0 <= i < s.len(),
    ensures
        total(s.subrange(0, i + 1)) == total(s.subrange(0, i)) + s[i],
{
    assert(s.subrange(0, i + 1).drop_last() =~= s.subrange(0, i));
}

proof fn lemma_filled_push(s: Seq<u64>, i: int, level: int)
    requires
        0 <= i < s.len(),
    ensures
        filled(s.subrange(0, i + 1), level) == filled(s.subrange(0, i), level) + min_int(
            s[i] as int,
            level,
        ),
        count_above(s.subrange(0, i + 1), level) == count_above(s.subrange(0, i), level) + if s[i]
            > level {
            1nat
        } else {
            0nat
        },
{
    assert(s.subrange(0, i + 1).drop_last() =~= s.subrange(0, i));
}

/// Raising the level by `d` through a band that holds no cap raises the
/// filled amount by `d` for every cap above the old level.
proof fn lemma_filled_raise(caps: Seq<u64>, level: int, d: int)
    requires
        0 <= d,
        forall|i: int| 0 <= i < caps.len() ==> caps[i] <= level || caps[i] >= level + d,
    ensures
        filled(caps, level + d) == filled(caps, level) + d * count_above(caps, level),
    decreases caps.len(),
{
    if caps.len() > 0 {
        let init = caps.drop_last();
        assert forall|i: int| 0 <= i < init.len() implies init[i] <= level || init[i] >= level
            + d by {
            assert(init[i] == caps[i]);
        }
        lemma_filled_raise(init, level, d);
        assert(caps.last() == caps[caps.len() - 1]);
        assert(min_int(caps.last() as int, level + d) == min_int(caps.last() as int, level) + (
        if caps.last() > level {
            d
        } else {
            0int
        }));
        assert(d * count_above(caps, level) == d * count_above(init, level) + d * (
        if caps.last() > level {
            1int
        } else {
            0int
        })) by (nonlinear_arith)
            requires
                count_above(caps, level) == count_above(init, level) + (if caps.last() > level {
                    1int
                } else {
                    0int
                }),
        ;
    } else {
        assert(d * count_above(caps, level) == 0) by (nonlinear_arith)
            requires
                count_above(caps, level) == 0,
        ;
    }
}

/// Counts of caps above two levels with no cap between them agree.
proof fn lemma_count_same(caps: Seq<u64>, lo: int, hi: int)
    requires
        lo <= hi,
        forall|i: int| 0 <= i < caps.len() ==> caps[i] <= lo || caps[i] > hi,
    ensures
        count_above(caps, hi) == count_above(caps, lo),
    decreases caps.len(),
{
    if caps.len() > 0 {
        let init = caps.drop_last();
        assert forall|i: int| 0 <= i < init.len() implies init[i] <= lo || init[i] > hi by {
            assert(init[i] == caps[i]);
        }
        lemma_count_same(init, lo, hi);
        assert(caps.last() == caps[caps.len() - 1]);
    }
}

/// A higher level has no more caps above it, and strictly fewer when some
/// cap lies between the two levels.
proof fn lemma_count_drop(caps: Seq<u64>, lo: int, hi: int, j: int)
    requires
        lo <= hi,
        0 <= j < caps.len(),
        lo < caps[j] <= hi,
    ensures
        count_above(caps, hi) < count_above(caps, lo),
    decreases caps.len(),
{
    let init = caps.drop_last();
    lemma_count_mono(init, lo, hi);
    if j < caps.len() - 1 {
        assert(init[j] == caps[j]);
        lemma_count_drop(init, lo, hi, j);
    }
}

proof fn lemma_count_mono(caps: Seq<u64>, lo: int, hi: int)
    requires
        lo <= hi,
    ensures
        count_above(caps, hi) <= count_above(caps, lo),
    decreases caps.len(),
{
    if caps.len() > 0 {
        lemma_count_mono(caps.drop_last(), lo, hi);
    }
}

/// Below the highest cap the filled amount falls short of the total; at or
/// above it, it equals the total.
proof fn lemma_filled_total(caps: Seq<u64>, level: int)
    requires
        0 <= level,
    ensures
        filled(caps, level) <= total(caps),
        count_above(caps, level) == 0 ==> filled(caps, level) == total(caps),
        count_above(caps, level) > 0 ==> filled(caps, level) < total(caps),
        count_above(caps, level) == 0 ==> forall|i: int|
            0 <= i < caps.len() ==> caps[i] <= level,
    decreases caps.len(),
{
    if caps.len() > 0 {
        let init = caps.drop_last();
        lemma_filled_total(init, level);
        if count_above(caps, level) == 0 {
            assert forall|i: int| 0 <= i < caps.len() implies caps[i] <= level by {
                if i < caps.len() - 1 {
                    assert(init[i] == caps[i]);
                }
            }
        }
    }
}

/// Fixed items funded in order: the share of each and what remains.
pub fn fund_fixed(values: &Vec<u64>, income: u64) -> (r: (Vec<u64>, u64))
    ensures
        r.0.len() == values.len(),
        forall|i: int| 0 <= i < values.len() ==> r.0[i] == fixed_share(values@, income as int, i),
        r.1 == pool_after_fixed(values@, income as int),
{
    let mut shares: Vec<u64> = Vec::new();
    let mut pool: u64 = income;
    let mut i: usize = 0;
    while i < values.len()
        invariant
            i <= values.len(),
            shares.len() == i,
            forall|k: int| 0 <= k < i ==> shares[k] == fixed_share(values@, income as int, k),
            pool == pool_after_fixed(values@.subrange(0, i as int), income as int),
        decreases values.len() - i,
    {
        proof {
            lemma_total_push(values@, i as int);
            assert(values@.subrange(0, i as int + 1).subrange(0, i as int) =~= values@.subrange(
                0,
                i as int,
            ));
        }
        let v = values[i];
        if pool == 0 {
            shares.push(0);
        } else if pool > v {
            shares.push(v);
            pool = pool - v;
        } else {
            shares.push(pool);
            pool = 0;
        }
        i = i + 1;
    }
    assert(values@.subrange(0, values.len() as int) =~= values@);
    (shares, pool)
}

proof fn lemma_filled_zero(caps: Seq<u64>)
    ensures
        filled(caps, 0) == 0,
    decreases caps.len(),
{
    if caps.len() > 0 {
        lemma_filled_zero(caps.drop_last());
    }
}

proof fn lemma_count_pos(caps: Seq<u64>, level: int)
    requires
        count_above(caps, level) > 0,
    ensures
        exists|j: int| 0 <= j < caps.len() && caps[j] > level,
    decreases caps.len(),
{
    let init = caps.drop_last();
    if caps.last() > level {
        assert(caps[caps.len() - 1] > level);
    } else {
        lemma_count_pos(init, level);
        let j = choose|j: int| 0 <= j < init.len() && init[j] > level;
        assert(caps[j] == init[j]);
    }
}

/// Number of items whose cap lies above `level`, that is, of items that
/// are not yet full when every item stands at `level` or at its cap.
fn count_active(caps: &Vec<u64>, cur: &Vec<u64>, Ghost(level): Ghost<int>) -> (n: usize)
    requires
        cur.len() == caps.len(),
        forall|i: int| 0 <= i < caps.len() ==> cur[i] == min_int(caps[i] as int, level),
    ensures
        n == count_above(caps@, level),
{
    let mut n: usize = 0;
    let mut i: usize = 0;
    while i < caps.len()
        invariant
            i <= caps.len(),
            cur.len() == caps.len(),
            forall|k: int| 0 <= k < caps.len() ==> cur[k] == min_int(caps[k] as int, level),
            n == count_above(caps@.subrange(0, i as int), level),
            n <= i,
        decreases caps.len() - i,
    {
        proof {
            lemma_filled_push(caps@, i as int, level);
        }
        if cur[i] < caps[i] {
            n = n + 1;
        }
        i = i + 1;
    }
    assert(caps@.subrange(0, caps.len() as int) =~= caps@);
    n
}

/// The smallest room left among the items that are not full.
fn min_gap(caps: &Vec<u64>, cur: &Vec<u64>, Ghost(level): Ghost<int>) -> (gap: u64)
    requires
        cur.len() == caps.len(),
        0 <= level,
        forall|i: int| 0 <= i < caps.len() ==> cur[i] == min_int(caps[i] as int, level),
        count_above(caps@, level) > 0,
    ensures
        gap > 0,
        exists|j: int| 0 <= j < caps.len() && caps[j] > level && caps[j] - level == gap,
        forall|i: int| 0 <= i < caps.len() && caps[i] > level ==> caps[i] - level >= gap,
{
    proof {
        lemma_count_pos(caps@, level);
    }
    let mut gap: u64 = u64::MAX;
    let mut found: bool = false;
    let mut i: usize = 0;
    while i < caps.len()
        invariant
            i <= caps.len(),
            cur.len() == caps.len(),
            0 <= level,
            forall|k: int| 0 <= k < caps.len() ==> cur[k] == min_int(caps[k] as int, level),
            found ==> exists|j: int| 0 <= j < i && caps[j] > level && caps[j] - level == gap,
            !found ==> forall|k: int| 0 <= k < i ==> caps[k] <= level,
            forall|k: int| 0 <= k < i && caps[k] > level ==> caps[k] - level >= gap,
        decreases caps.len() - i,
    {
        if cur[i] < caps[i] {
            let room = caps[i] - cur[i];
            if !found || room < gap {
                gap = room;
                found = true;
            }
        }
        i = i + 1;
    }
    gap
}

/// Raises every item that is not full by `inc`.
fn raise_active(cur: &mut Vec<u64>, caps: &Vec<u64>, inc: u64, Ghost(level): Ghost<int>)
    requires
        old(cur).len() == caps.len(),
        0 <= level,
        forall|i: int| 0 <= i < caps.len() ==> old(cur)[i] == min_int(caps[i] as int, level),
        forall|i: int| 0 <= i < caps.len() && caps[i] > level ==> caps[i] - level >= inc,
    ensures
        final(cur).len() == caps.len(),
        forall|i: int|
            0 <= i < caps.len() ==> final(cur)[i] == min_int(caps[i] as int, level + inc),
{
    let mut i: usize = 0;
    while i < caps.len()
        invariant
            i <= caps.len(),
            cur.len() == caps.len(),
            0 <= level,
            forall|k: int| i <= k < caps.len() ==> cur[k] == min_int(caps[k] as int, level),
            forall|k: int| 0 <= k < i ==> cur[k] == min_int(caps[k] as int, level + inc),
            forall|k: int| 0 <= k < caps.len() && caps[k] > level ==> caps[k] - level >= inc,
        decreases caps.len() - i,
    {
        if cur[i] < caps[i] {
            let v = cur[i] + inc;
            cur.set(i, v);
        }
        i = i + 1;
    }
}

/// The last step of water-filling: every item that is not full gets
/// `share`, and the first `rem` of them one cent more.
fn spread_rest(cur: &mut Vec<u64>, caps: &Vec<u64>, share: u64, rem: u64, Ghost(level): Ghost<int>)
    requires
        old(cur).len() == caps.len(),
        0 <= level,
        forall|i: int| 0 <= i < caps.len() ==> old(cur)[i] == min_int(caps[i] as int, level),
        forall|i: int| 0 <= i < caps.len() && caps[i] > level ==> caps[i] - level > share,
    ensures
        final(cur).len() == caps.len(),
        forall|i: int|
            0 <= i < caps.len() ==> final(cur)[i] == min_int(caps[i] as int, level + share) + if caps[i]
                > level && count_above(caps@.subrange(0, i), level) < rem {
                1int
            } else {
                0int
            },
{
    let mut given: u64 = 0;
    let mut i: usize = 0;
    while i < caps.len()
        invariant
            i <= caps.len(),
            cur.len() == caps.len(),
            0 <= level,
            given == count_above(caps@.subrange(0, i as int), level),
            given <= i,
            forall|k: int| i <= k < caps.len() ==> cur[k] == min_int(caps[k] as int, level),
            forall|k: int|
                0 <= k < i ==> cur[k] == min_int(caps[k] as int, level + share) + if caps[k]
                    > level && count_above(caps@.subrange(0, k), level) < rem {
                    1int
                } else {
                    0int
                },
            forall|k: int| 0 <= k < caps.len() && caps[k] > level ==> caps[k] - level > share,
        decreases caps.len() - i,
    {
        proof {
            lemma_filled_push(caps@, i as int, level);
        }
        if cur[i] < caps[i] {
            let bonus: u64 = if given < rem {
                1
            } else {
                0
            };
            let v = cur[i] + share + bonus;
            cur.set(i, v);
            given = given + 1;
        }
        i = i + 1;
    }
}

/// Water-filling of `pool` over items with the given caps.
///
/// When the pool covers every cap, each item gets its cap and the rest is
/// left over. Otherwise nothing is left over and the items stand at the
/// water level that the pool reaches (see `fill_share`).
pub fn water_fill(caps: &Vec<u64>, pool: u64) -> (r: (Vec<u64>, u64))
    ensures
        r.0.len() == caps.len(),
        pool >= total(caps@) ==> r.0@ == caps@ && r.1 == pool - total(caps@),
        pool < total(caps@) ==> r.1 == 0 && exists|level: int|
            is_fill_level(caps@, pool as int, level) && forall|i: int|
                0 <= i < caps.len() ==> r.0[i] == fill_share(caps@, pool as int, level, i),
{
    let mut cur: Vec<u64> = Vec::new();
    let mut i: usize = 0;
    while i < caps.len()
        invariant
            i <= caps.len(),
            cur.len() == i,
            forall|k: int| 0 <= k < i ==> cur[k] == 0,
        decreases caps.len() - i,
    {
        cur.push(0);
        i = i + 1;
    }
    let ghost mut level: int = 0;
    proof {
        lemma_filled_zero(caps@);
    }
    let mut left: u64 = pool;
    let mut active: usize = count_active(caps, &cur, Ghost(level));
    let ghost mut done_level: int = 0;
    loop
        invariant_except_break
            cur.len() == caps.len(),
            0 <= level,
            forall|i: int| 0 <= i < caps.len() ==> cur[i] == min_int(caps[i] as int, level),
            pool == left + filled(caps@, level),
            active == count_above(caps@, level),
        ensures
            cur.len() == caps.len(),
            (left + total(caps@) == pool && cur@ == caps@) || (left == 0 && pool < total(caps@)
                && is_fill_level(caps@, pool as int, done_level) && forall|i: int|
                0 <= i < caps.len() ==> cur[i] == fill_share(caps@, pool as int, done_level, i)),
        decreases active,
    {
        proof {
            lemma_filled_total(caps@, level);
            lemma_filled_raise(caps@, level, 1);
        }
        if active == 0 {
            assert(cur@ =~= caps@);
            break;
        }
        if left == 0 {
            proof {
                done_level = level;
                assert forall|i: int| 0 <= i < caps.len() implies cur[i] == fill_share(
                    caps@,
                    pool as int,
                    done_level,
                    i,
                ) by {}
            }
            break;
        }
        let inc = min_gap(caps, &cur, Ghost(level));
        let n = active as u64;
        if left / n >= inc {
            assert(inc * n <= left) by (nonlinear_arith)
                requires
                    left / n >= inc,
                    n > 0,
            ;
            proof {
                lemma_filled_raise(caps@, level, inc as int);
                let j = choose|j: int|
                    0 <= j < caps.len() && caps[j] > level && caps[j] - level == inc;
                lemma_count_drop(caps@, level, level + inc, j);
            }
            raise_active(&mut cur, caps, inc, Ghost(level));
            left = left - inc * n;
            proof {
                level = level + inc;
            }
            active = count_active(caps, &cur, Ghost(level));
        } else {
            let share = left / n;
            let rem = left % n;
            assert(share * n + rem == left && rem < n && share < inc) by (nonlinear_arith)
                requires
                    share == left / n,
                    rem == left % n,
                    n > 0,
                    left / n < inc,
            ;
            spread_rest(&mut cur, caps, share, rem, Ghost(level));
            proof {
                let top = level + share;
                lemma_filled_raise(caps@, level, share as int);
                lemma_count_same(caps@, level, top);
                lemma_filled_raise(caps@, top, 1);
                lemma_filled_total(caps@, top + 1);
                assert(filled(caps@, top) == filled(caps@, level) + share * n);
                assert(pool - filled(caps@, top) == rem);
                assert(is_fill_level(caps@, pool as int, top));
                assert forall|i: int| 0 <= i < caps.len() implies cur[i] == fill_share(
                    caps@,
                    pool as int,
                    top,
                    i,
                ) by {
                    let sub = caps@.subrange(0, i);
                    assert forall|k: int| 0 <= k < sub.len() implies sub[k] <= level || sub[k]
                        > top by {
                        assert(sub[k] == caps@[k]);
                    }
                    lemma_count_same(sub, level, top);
                }
                done_level = top;
            }
            left = 0;
            break;
        }
    }
    proof {
        lemma_filled_total(caps@, 0);
    }
    (cur, left)
}

proof fn lemma_fixed_sum(values: Seq<u64>, income: int, shares: Seq<u64>, k: int)
    requires
        0 <= income,
        0 <= k <= values.len(),
        shares.len() == values.len(),
        forall|i: int| 0 <= i < values.len() ==> shares[i] == fixed_share(values, income, i),
    ensures
        total(shares.subrange(0, k)) == min_int(income, total(values.subrange(0, k))),
    decreases k,
{
    if k == 0 {
        assert(shares.subrange(0, 0) =~= Seq::<u64>::empty());
        assert(values.subrange(0, 0) =~= Seq::<u64>::empty());
    } else {
        lemma_fixed_sum(values, income, shares, k - 1);
        lemma_total_push(values, k - 1);
        lemma_total_push(shares, k - 1);
    }
}

proof fn lemma_fill_sum(caps: Seq<u64>, pool: int, level: int, shares: Seq<u64>, k: int)
    requires
        is_fill_level(caps, pool, level),
        0 <= k <= caps.len(),
        shares.len() == caps.len(),
        forall|i: int| 0 <= i < caps.len() ==> shares[i] == fill_share(caps, pool, level, i),
    ensures
        total(shares.subrange(0, k)) == filled(caps.subrange(0, k), level) + min_int(
            pool - filled(caps, level),
            count_above(caps.subrange(0, k), level) as int,
        ),
    decreases k,
{
    if k == 0 {
        assert(shares.subrange(0, 0) =~= Seq::<u64>::empty());
        assert(caps.subrange(0, 0) =~= Seq::<u64>::empty());
    } else {
        lemma_fill_sum(caps, pool, level, shares, k - 1);
        lemma_filled_push(caps, k - 1, level);
        lemma_total_push(shares, k - 1);
    }
}

/// Funds the fixed items in order from `income`, then spreads what remains
/// over the expandable items by water-filling.
///
/// Every cent of the income is accounted for; a fixed item receives money
/// only once the one before it is fully funded; no expandable item exceeds
/// its cap, and one that is not full stands within a cent of the best
/// funded one.
pub fn distribute(fixed: &Vec<u64>, caps: &Vec<u64>, income: u64) -> (r: (Vec<u64>, Vec<u64>, u64))
    ensures
        r.0.len() == fixed.len(),
        forall|i: int| 0 <= i < fixed.len() ==> r.0[i] == fixed_share(fixed@, income as int, i),
        r.1.len() == caps.len(),
        ({
            let pool = pool_after_fixed(fixed@, income as int);
            &&& pool >= total(caps@) ==> r.1@ == caps@ && r.2 == pool - total(caps@)
            &&& pool < total(caps@) ==> r.2 == 0 && exists|level: int|
                is_fill_level(caps@, pool, level) && forall|i: int|
                    0 <= i < caps.len() ==> r.1[i] == fill_share(caps@, pool, level, i)
        }),
        total(r.0@) + total(r.1@) + r.2 == income,
        forall|i: int| 0 <= i && i + 1 < fixed.len() && r.0[i + 1] > 0 ==> r.0[i] == fixed[i],
        forall|i: int| 0 <= i < caps.len() ==> r.1[i] <= caps[i],
        forall|i: int, j: int|
            0 <= i < caps.len() && 0 <= j < caps.len() && r.1[i] < caps[i] ==> r.1[j] <= r.1[i]
                + 1,
{
    let (shares, pool) = fund_fixed(fixed, income);
    let (fills, left) = water_fill(caps, pool);
    proof {
        lemma_fixed_sum(fixed@, income as int, shares@, fixed.len() as int);
        assert(shares@.subrange(0, fixed.len() as int) =~= shares@);
        assert(fixed@.subrange(0, fixed.len() as int) =~= fixed@);
        assert forall|i: int| 0 <= i && i + 1 < fixed.len() && shares[i + 1] > 0 implies shares[i]
            == fixed[i] by {
            lemma_total_push(fixed@, i);
        }
        if pool < total(caps@) {
            let level = choose|level: int|
                is_fill_level(caps@, pool as int, level) && forall|i: int|
                    0 <= i < caps.len() ==> fills[i] == fill_share(caps@, pool as int, level, i);
            lemma_fill_sum(caps@, pool as int, level, fills@, caps.len() as int);
            lemma_filled_raise(caps@, level, 1);
            assert(fills@.subrange(0, caps.len() as int) =~= fills@);
            assert(caps@.subrange(0, caps.len() as int) =~= caps@);
        }
    }
    (shares, fills, left)
}

} // verus!
