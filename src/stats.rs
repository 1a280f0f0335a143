use vstd::prelude::*;
use crate::graph::Distance;

verus! {

/// What one source reaches at one hop count: how many vertices, and the sum of
/// their distances. The average distance is `total_distance / reachable_count`,
/// and 0 when nothing is reached.
#[derive(Clone, Copy, Debug, PartialEq, Eq, Structural)]
pub struct DegreeStat {
    pub reachable_count: usize,
    pub total_distance: u128,
}

/// The denominator of the average: the count, or 1 when it is 0 (the total is
/// then 0 too, so the average is 0).
pub open spec fn denom(s: DegreeStat) -> int {
    if s.reachable_count == 0 { 1 } else { s.reachable_count as int }
}

/// The average distance of `a` is at most that of `b`.
pub open spec fn avg_le(a: DegreeStat, b: DegreeStat) -> bool {
    a.total_distance * denom(b) <= b.total_distance * denom(a)
}

/// The average distance of `a` is below that of `b`.
pub open spec fn avg_lt(a: DegreeStat, b: DegreeStat) -> bool {
    a.total_distance * denom(b) < b.total_distance * denom(a)
}

/// Ordering of two fractions with positive denominators is transitive.
pub proof fn lemma_fraction_trans(ta: int, da: int, tb: int, db: int, tc: int, dc: int)
    requires
        da > 0,
        db > 0,
        dc > 0,
        ta * db <= tb * da,
        tb * dc <= tc * db,
    ensures
        ta * dc <= tc * da,
        (ta * db < tb * da || tb * dc < tc * db) ==> ta * dc < tc * da,
{
    assert(ta * db * dc <= tb * da * dc) by (nonlinear_arith)
        requires ta * db <= tb * da, dc > 0;
    assert(tb * dc * da <= tc * db * da) by (nonlinear_arith)
        requires tb * dc <= tc * db, da > 0;
    assert(ta * dc * db <= tc * da * db) by (nonlinear_arith)
        requires ta * db * dc <= tb * da * dc, tb * dc * da <= tc * db * da;
    assert(ta * dc <= tc * da) by (nonlinear_arith)
        requires ta * dc * db <= tc * da * db, db > 0;
    if ta * db < tb * da || tb * dc < tc * db {
        assert(ta * db * dc < tb * da * dc || tb * dc * da < tc * db * da) by (nonlinear_arith)
            requires ta * db < tb * da || tb * dc < tc * db, da > 0, dc > 0;
        assert(ta * dc * db < tc * da * db) by (nonlinear_arith)
            requires
                ta * db * dc <= tb * da * dc,
                tb * dc * da <= tc * db * da,
                ta * db * dc < tb * da * dc || tb * dc * da < tc * db * da;
        assert(ta * dc < tc * da) by (nonlinear_arith)
            requires ta * dc * db < tc * da * db, db > 0;
    }
}

/// Comparing two fractions compares their integer parts first and then their
/// remainders, scaled to a common denominator.
proof fn lemma_fraction_by_parts(t1: int, d1: int, t2: int, d2: int)
    requires
        t1 >= 0,
        t2 >= 0,
        d1 > 0,
        d2 > 0,
    ensures
        (t1 * d2 < t2 * d1) == (t1 / d1 < t2 / d2 || (t1 / d1 == t2 / d2 && (t1 % d1) * d2
            < (t2 % d2) * d1)),
        (t1 * d2 == t2 * d1) == (t1 / d1 == t2 / d2 && (t1 % d1) * d2 == (t2 % d2) * d1),
{
    let q1 = t1 / d1;
    let r1 = t1 % d1;
    let q2 = t2 / d2;
    let r2 = t2 % d2;
    assert(t1 == q1 * d1 + r1 && 0 <= r1 < d1) by (nonlinear_arith)
        requires d1 > 0, q1 == t1 / d1, r1 == t1 % d1;
    assert(t2 == q2 * d2 + r2 && 0 <= r2 < d2) by (nonlinear_arith)
        requires d2 > 0, q2 == t2 / d2, r2 == t2 % d2;
    assert(t1 * d2 == q1 * d1 * d2 + r1 * d2) by (nonlinear_arith)
        requires t1 == q1 * d1 + r1;
    assert(t2 * d1 == q2 * d1 * d2 + r2 * d1) by (nonlinear_arith)
        requires t2 == q2 * d2 + r2;
    assert(r1 * d2 < d1 * d2 && r2 * d1 < d1 * d2 && r1 * d2 >= 0 && r2 * d1 >= 0) by (nonlinear_arith)
        requires 0 <= r1 < d1, 0 <= r2 < d2, d1 > 0, d2 > 0;
    if q1 < q2 {
        assert(q1 * d1 * d2 + d1 * d2 <= q2 * d1 * d2) by (nonlinear_arith)
            requires q1 < q2, d1 > 0, d2 > 0;
    } else if q2 < q1 {
        assert(q2 * d1 * d2 + d1 * d2 <= q1 * d1 * d2) by (nonlinear_arith)
            requires q2 < q1, d1 > 0, d2 > 0;
    }
}

/// Compares the average distances of `a` and `b` exactly: negative when `a`'s
/// is smaller, zero when they are equal, positive when `a`'s is larger.
pub fn compare_average(a: &DegreeStat, b: &DegreeStat) -> (r: i8)
    ensures
        (r < 0) == avg_lt(*a, *b),
        (r > 0) == avg_lt(*b, *a),
        (r == 0) == (avg_le(*a, *b) && avg_le(*b, *a)),
{
    let da: u128 = if a.reachable_count == 0 { 1 } else { a.reachable_count as u128 };
    let db: u128 = if b.reachable_count == 0 { 1 } else { b.reachable_count as u128 };
    let qa = a.total_distance / da;
    let qb = b.total_distance / db;
    if qa < qb {
        proof { lemma_fraction_by_parts(a.total_distance as int, da as int, b.total_distance as int, db as int); }
        return -1;
    }
    if qb < qa {
        proof { lemma_fraction_by_parts(b.total_distance as int, db as int, a.total_distance as int, da as int); }
        return 1;
    }
    let ra = a.total_distance % da;
    let rb = b.total_distance % db;
    assert(ra * db < 0x1_0000_0000_0000_0000_0000_0000_0000_0000) by (nonlinear_arith)
        requires ra < da, da <= 0x1_0000_0000_0000_0000, db <= 0x1_0000_0000_0000_0000;
    assert(rb * da < 0x1_0000_0000_0000_0000_0000_0000_0000_0000) by (nonlinear_arith)
        requires rb < db, da <= 0x1_0000_0000_0000_0000, db <= 0x1_0000_0000_0000_0000;
    let xa = ra * db;
    let xb = rb * da;
    proof {
        lemma_fraction_by_parts(a.total_distance as int, da as int, b.total_distance as int, db as int);
        lemma_fraction_by_parts(b.total_distance as int, db as int, a.total_distance as int, da as int);
    }
    if xa < xb {
        -1
    } else if xb < xa {
        1
    } else {
        0
    }
}

/// How many of `hops` equal `Some(k)`.
pub open spec fn count_at(hops: Seq<Option<usize>>, k: usize) -> nat
    decreases hops.len(),
{
    if hops.len() == 0 {
        0
    } else {
        count_at(hops.drop_last(), k) + if hops.last() == Some(k) { 1nat } else { 0nat }
    }
}

/// The sum of the recorded distances of the first `len` vertices whose hop
/// count is `Some(k)`.
pub open spec fn total_at(dist: Seq<Option<Distance>>, hops: Seq<Option<usize>>, k: usize, len: int) -> nat
    decreases len,
{
    if len <= 0 {
        0
    } else {
        total_at(dist, hops, k, len - 1) + if hops[len - 1] == Some(k) && dist[len - 1].is_some() {
            dist[len - 1].unwrap() as nat
        } else {
            0nat
        }
    }
}

/// The statistics at hop count `k` of one search result.
pub open spec fn stat_at(dist: Seq<Option<Distance>>, hops: Seq<Option<usize>>, k: usize) -> DegreeStat {
    DegreeStat {
        reachable_count: count_at(hops, k) as usize,
        total_distance: total_at(dist, hops, k, hops.len() as int) as u128,
    }
}

/// A total over `len` vertices is at most `len` times the largest distance.
pub proof fn lemma_total_bound(dist: Seq<Option<Distance>>, hops: Seq<Option<usize>>, k: usize, len: int)
    requires
        0 <= len,
    ensures
        total_at(dist, hops, k, len) <= len * 0xffff_ffff_ffff_ffff,
    decreases len,
{
    if len > 0 {
        lemma_total_bound(dist, hops, k, len - 1);
    }
}

/// Nothing reached means nothing summed.
pub proof fn lemma_empty_total(dist: Seq<Option<Distance>>, hops: Seq<Option<usize>>, k: usize, len: int)
    requires
        0 <= len <= hops.len(),
        count_at(hops.subrange(0, len), k) == 0,
    ensures
        total_at(dist, hops, k, len) == 0,
    decreases len,
{
    if len > 0 {
        assert(hops.subrange(0, len).drop_last() =~= hops.subrange(0, len - 1));
        lemma_empty_total(dist, hops, k, len - 1);
    }
}

/// A vertex whose hop count is not `k` is left out of the count at `k`.
pub proof fn lemma_count_excludes(hops: Seq<Option<usize>>, k: usize, s: int)
    requires
        0 <= s < hops.len(),
        hops[s] != Some(k),
    ensures
        count_at(hops, k) + 1 <= hops.len(),
    decreases hops.len(),
{
    lemma_count_le_len(hops.drop_last(), k);
    if s < hops.len() - 1 {
        lemma_count_excludes(hops.drop_last(), k, s);
    }
}

/// A count never exceeds the number of entries.
pub proof fn lemma_count_le_len(hops: Seq<Option<usize>>, k: usize)
    ensures
        count_at(hops, k) <= hops.len(),
    decreases hops.len(),
{
    if hops.len() > 0 {
        lemma_count_le_len(hops.drop_last(), k);
    }
}

/// Counts and sums the vertices that `degrees` records at hop count `degree`.
pub fn stat_for_degree(distances: &Vec<Option<Distance>>, degrees: &Vec<Option<usize>>, degree: usize) -> (stat: DegreeStat)
    requires
        distances@.len() == degrees@.len(),
    ensures
        stat == stat_at(distances@, degrees@, degree),
{
    let mut count: usize = 0;
    let mut total: u128 = 0;
    let mut i: usize = 0;
    while i < degrees.len()
        invariant
            distances@.len() == degrees@.len(),
            i <= degrees@.len(),
            count as nat == count_at(degrees@.subrange(0, i as int), degree),
            total as nat == total_at(distances@, degrees@, degree, i as int),
        decreases degrees@.len() - i,
    {
        proof {
            assert(degrees@.subrange(0, i as int + 1).drop_last() =~= degrees@.subrange(0, i as int));
            lemma_count_le_len(degrees@.subrange(0, i as int), degree);
            lemma_total_bound(distances@, degrees@, degree, i as int);
            assert(i as int * 0xffff_ffff_ffff_ffff + 0xffff_ffff_ffff_ffff
                <= 0xffff_ffff_ffff_ffff_ffff_ffff_ffff_ffff) by (nonlinear_arith)
                requires i < 0x1_0000_0000_0000_0000;
        }
        if degrees[i] == Some(degree) {
            match distances[i] {
                Some(d) => {
                    total = total + d as u128;
                },
                None => {},
            }
            count = count + 1;
        }
        i = i + 1;
    }
    assert(degrees@.subrange(0, degrees@.len() as int) =~= degrees@);
    DegreeStat { reachable_count: count, total_distance: total }
}

} // verus!
