use vstd::prelude::*;
use crate::stats::{DegreeStat, avg_le, avg_lt, compare_average, denom, lemma_fraction_trans};

verus! {

/// `a` ranks strictly ahead of `b`: it reaches more, or as many at a smaller
/// average distance.
pub open spec fn ranks_ahead(a: DegreeStat, b: DegreeStat) -> bool {
    a.reachable_count > b.reachable_count || (a.reachable_count == b.reachable_count && avg_lt(a, b))
}

/// How many entries of `row` rank strictly ahead of `x`: the position of the
/// first copy of `x` once `row` is ranked.
pub open spec fn count_ahead(row: Seq<DegreeStat>, x: DegreeStat) -> nat
    decreases row.len(),
{
    if row.len() == 0 {
        0
    } else {
        count_ahead(row.drop_last(), x) + if ranks_ahead(row.last(), x) { 1nat } else { 0nat }
    }
}

/// How many of the best-ranked entries of a row of `len` are candidates: a
/// tenth of them, rounded up, and at least one.
pub open spec fn cutoff(len: nat) -> nat {
    if len == 0 { 1 } else { ((len + 9) / 10) as nat }
}

/// Entry `i` is among the `cutoff` best-ranked entries of `row`.
pub open spec fn in_top(row: Seq<DegreeStat>, i: int) -> bool {
    count_ahead(row, row[i]) < cutoff(row.len())
}

/// Among candidates `a` is at least as good as `b`: a smaller average
/// distance, or the same average and at least the reach.
pub open spec fn preferred(a: DegreeStat, b: DegreeStat) -> bool {
    avg_lt(a, b) || (avg_le(a, b) && avg_le(b, a) && a.reachable_count >= b.reachable_count)
}

/// Entry `i` is the chosen one of `row`: a candidate that is preferred to
/// every candidate, and the first such entry.
pub open spec fn is_choice(row: Seq<DegreeStat>, i: int) -> bool {
    &&& 0 <= i < row.len()
    &&& in_top(row, i)
    &&& forall|j: int| 0 <= j < row.len() && in_top(row, j) ==> preferred(row[i], #[trigger] row[j])
    &&& forall|j: int| 0 <= j < i && in_top(row, j) ==> !preferred(#[trigger] row[j], row[i])
}

proof fn lemma_preferred_trans(a: DegreeStat, b: DegreeStat, c: DegreeStat)
    requires
        preferred(a, b),
        preferred(b, c),
    ensures
        preferred(a, c),
{
    let (ta, da) = (a.total_distance as int, denom(a));
    let (tb, db) = (b.total_distance as int, denom(b));
    let (tc, dc) = (c.total_distance as int, denom(c));
    lemma_fraction_trans(ta, da, tb, db, tc, dc);
    if avg_le(c, b) && avg_le(b, a) {
        lemma_fraction_trans(tc, dc, tb, db, ta, da);
    }
}

proof fn lemma_ranks_ahead_trans(a: DegreeStat, b: DegreeStat, c: DegreeStat)
    requires
        ranks_ahead(a, b),
        ranks_ahead(b, c),
    ensures
        ranks_ahead(a, c),
{
    if a.reachable_count == b.reachable_count && b.reachable_count == c.reachable_count {
        lemma_fraction_trans(a.total_distance as int, denom(a), b.total_distance as int, denom(b), c.total_distance as int, denom(c));
    }
}

proof fn lemma_count_ahead_zero(row: Seq<DegreeStat>, x: DegreeStat)
    ensures
        (count_ahead(row, x) == 0) == (forall|j: int| 0 <= j < row.len() ==> !ranks_ahead(#[trigger] row[j], x)),
    decreases row.len(),
{
    if row.len() > 0 {
        lemma_count_ahead_zero(row.drop_last(), x);
        if count_ahead(row, x) == 0 {
            assert forall|j: int| 0 <= j < row.len() implies !ranks_ahead(#[trigger] row[j], x) by {
                if j < row.len() - 1 {
                    assert(row.drop_last()[j] == row[j]);
                }
            }
        }
        if forall|j: int| 0 <= j < row.len() ==> !ranks_ahead(#[trigger] row[j], x) {
            assert forall|j: int| 0 <= j < row.len() - 1 implies !ranks_ahead(#[trigger] row.drop_last()[j], x) by {
                assert(row.drop_last()[j] == row[j]);
            }
            assert(!ranks_ahead(row[row.len() - 1], x));
        }
    }
}

/// A non-empty row has an entry that nothing ranks ahead of.
proof fn lemma_leader_exists(row: Seq<DegreeStat>) -> (i: int)
    requires
        row.len() > 0,
    ensures
        0 <= i < row.len(),
        count_ahead(row, row[i]) == 0,
    decreases row.len(),
{
    let i = if row.len() == 1 {
        0
    } else {
        let i0 = lemma_leader_exists(row.drop_last());
        lemma_count_ahead_zero(row.drop_last(), row[i0]);
        if ranks_ahead(row.last(), row[i0]) {
            assert forall|j: int| 0 <= j < row.len() implies !ranks_ahead(#[trigger] row[j], row.last()) by {
                if j < row.len() - 1 {
                    assert(row.drop_last()[j] == row[j]);
                    if ranks_ahead(row[j], row.last()) {
                        lemma_ranks_ahead_trans(row[j], row.last(), row[i0]);
                    }
                }
            }
            row.len() - 1
        } else {
            assert forall|j: int| 0 <= j < row.len() implies !ranks_ahead(#[trigger] row[j], row[i0]) by {
                if j < row.len() - 1 {
                    assert(row.drop_last()[j] == row[j]);
                }
            }
            i0
        }
    };
    lemma_count_ahead_zero(row, row[i]);
    i
}

/// A row has at most one chosen entry.
pub proof fn lemma_choice_unique(row: Seq<DegreeStat>, i: int, j: int)
    requires
        is_choice(row, i),
        is_choice(row, j),
    ensures
        i == j,
{
    if i < j {
        assert(preferred(row[i], row[j]));
    } else if j < i {
        assert(preferred(row[j], row[i]));
    }
}

/// `a` ranks strictly ahead of `b`.
fn ranks_ahead_exec(a: &DegreeStat, b: &DegreeStat) -> (r: bool)
    ensures
        r == ranks_ahead(*a, *b),
{
    if a.reachable_count != b.reachable_count {
        a.reachable_count > b.reachable_count
    } else {
        compare_average(a, b) < 0
    }
}

/// Counts the entries of `row` that rank strictly ahead of `x`.
fn count_ranked_ahead(row: &Vec<DegreeStat>, x: &DegreeStat) -> (r: usize)
    ensures
        r == count_ahead(row@, *x),
{
    let mut count: usize = 0;
    let mut i: usize = 0;
    while i < row.len()
        invariant
            i <= row@.len(),
            count == count_ahead(row@.subrange(0, i as int), *x),
            count <= i,
        decreases row@.len() - i,
    {
        assert(row@.subrange(0, i as int + 1).drop_last() =~= row@.subrange(0, i as int));
        if ranks_ahead_exec(&row[i], x) {
            count = count + 1;
        }
        i = i + 1;
    }
    assert(row@.subrange(0, row@.len() as int) =~= row@);
    count
}

/// Picks the important entry of one row: among the tenth of the entries
/// (rounded up, at least one) that rank best by reach and then by average
/// distance, the one with the smallest average distance, the larger reach
/// breaking a tie, and the first position holding it. `None` only for an
/// empty row.
pub fn choose_important(row: &Vec<DegreeStat>) -> (r: Option<usize>)
    ensures
        match r {
            Some(i) => is_choice(row@, i as int),
            None => row@.len() == 0,
        },
{
    let len = row.len();
    let c: usize = if len == 0 { 1 } else { len / 10 + if len % 10 == 0 { 0 } else { 1 } };
    assert(c == cutoff(len as nat));
    let mut best: Option<usize> = None;
    let mut i: usize = 0;
    while i < len
        invariant
            len == row@.len(),
            c == cutoff(len as nat),
            i <= len,
            match best {
                None => forall|j: int| 0 <= j < i ==> !in_top(row@, j),
                Some(b) => {
                    &&& b < i
                    &&& in_top(row@, b as int)
                    &&& forall|j: int| 0 <= j < i && in_top(row@, j) ==> preferred(row@[b as int], #[trigger] row@[j])
                    &&& forall|j: int| 0 <= j < b && in_top(row@, j) ==> !preferred(#[trigger] row@[j], row@[b as int])
                },
            },
        decreases len - i,
    {
        let candidate = match best {
            None => true,
            Some(b) => {
                let cmp = compare_average(&row[i], &row[b]);
                cmp < 0 || (cmp == 0 && row[i].reachable_count > row[b].reachable_count)
            },
        };
        if candidate && count_ranked_ahead(row, &row[i]) < c {
            proof {
                if let Some(b) = best {
                    assert forall|j: int| 0 <= j < i && in_top(row@, j) implies preferred(row@[i as int], #[trigger] row@[j]) by {
                        assert(preferred(row@[b as int], row@[j]));
                        assert(preferred(row@[i as int], row@[b as int]));
                        lemma_preferred_trans(row@[i as int], row@[b as int], row@[j]);
                    }
                    assert forall|j: int| 0 <= j < i && in_top(row@, j) implies !preferred(#[trigger] row@[j], row@[i as int]) by {
                        if preferred(row@[j], row@[i as int]) {
                            assert(preferred(row@[b as int], row@[j]));
                            lemma_preferred_trans(row@[b as int], row@[j], row@[i as int]);
                        }
                    }
                }
            }
            best = Some(i);
        }
        i = i + 1;
    }
    proof {
        if len > 0 && best.is_none() {
            let k = lemma_leader_exists(row@);
            assert(!in_top(row@, k));
        }
    }
    best
}

/// The view of a slice of rows as nested sequences.
pub open spec fn rows_view(rows: Seq<Vec<DegreeStat>>) -> Seq<Seq<DegreeStat>> {
    rows.map_values(|row: Vec<DegreeStat>| row@)
}

/// Every row of the table has as many entries as the first.
pub open spec fn rows_aligned(table: Seq<Seq<DegreeStat>>) -> bool {
    forall|k: int| 0 <= k < table.len() ==> (#[trigger] table[k]).len() == table[0].len()
}

/// Entry `i` of every row, in row order: one source's statistics at every
/// hop count.
pub open spec fn column(table: Seq<Seq<DegreeStat>>, i: int) -> Seq<DegreeStat> {
    Seq::new(table.len(), |k: int| table[k][i])
}

/// `out` is the important-node result for row `k`: the chosen entry and its
/// full column when that entry reaches something, and nothing when the row is
/// empty or its chosen entry reaches nothing.
pub open spec fn important_at(table: Seq<Seq<DegreeStat>>, k: int, out: Option<(usize, Seq<DegreeStat>)>) -> bool {
    match out {
        Some((i, profile)) => {
            &&& is_choice(table[k], i as int)
            &&& table[k][i as int].reachable_count > 0
            &&& profile == column(table, i as int)
        },
        None => table[k].len() == 0 || exists|i: int| is_choice(table[k], i) && table[k][i].reachable_count == 0,
    }
}

/// `out` holds the important-node result of every row of `table`, in order.
pub open spec fn is_selection(table: Seq<Seq<DegreeStat>>, out: Seq<Option<(usize, Seq<DegreeStat>)>>) -> bool {
    &&& out.len() == table.len()
    &&& forall|k: int| 0 <= k < table.len() ==> important_at(table, k, #[trigger] out[k])
}

/// The view of the selector's output, with each profile as a sequence.
pub open spec fn profiles_view(out: Seq<Option<(usize, Vec<DegreeStat>)>>) -> Seq<Option<(usize, Seq<DegreeStat>)>> {
    out.map_values(|o: Option<(usize, Vec<DegreeStat>)>| match o {
        Some(x) => Some((x.0, x.1@)),
        None => None,
    })
}

/// For each hop count (row of `results`), the important source and its
/// statistics at every hop count, or `None` when no source there reaches
/// anything. A present profile always reaches something at its own hop count.
pub fn find_detailed_important_nodes_by_degree(results: &[Vec<DegreeStat>]) -> (detailed_important_nodes: Vec<Option<(usize, Vec<DegreeStat>)>>)
    requires
        rows_aligned(rows_view(results@)),
    ensures
        is_selection(rows_view(results@), profiles_view(detailed_important_nodes@)),
        forall|k: int|
            0 <= k < detailed_important_nodes@.len() && (#[trigger] detailed_important_nodes@[k]).is_some() ==> {
                &&& k < detailed_important_nodes@[k].unwrap().1@.len()
                &&& detailed_important_nodes@[k].unwrap().1@[k].reachable_count > 0
            },
{
    let ghost table = rows_view(results@);
    let mut detailed_important_nodes: Vec<Option<(usize, Vec<DegreeStat>)>> = Vec::new();
    let mut k: usize = 0;
    while k < results.len()
        invariant
            table == rows_view(results@),
            rows_aligned(table),
            k <= results@.len(),
            detailed_important_nodes@.len() == k,
            forall|x: int| 0 <= x < k ==> important_at(table, x, #[trigger] profiles_view(detailed_important_nodes@)[x]),
            forall|x: int|
                0 <= x < k && (#[trigger] detailed_important_nodes@[x]).is_some() ==> {
                    &&& x < detailed_important_nodes@[x].unwrap().1@.len()
                    &&& detailed_important_nodes@[x].unwrap().1@[x].reachable_count > 0
                },
        decreases results@.len() - k,
    {
        let row = &results[k];
        assert(table[k as int] == row@);
        let choice = choose_important(row);
        let entry = match choice {
            None => None,
            Some(i) => {
                if row[i].reachable_count == 0 {
                    assert(is_choice(table[k as int], i as int) && table[k as int][i as int].reachable_count == 0);
                    None
                } else {
                    let mut profile: Vec<DegreeStat> = Vec::new();
                    let mut x: usize = 0;
                    while x < results.len()
                        invariant
                            table == rows_view(results@),
                            rows_aligned(table),
                            k < results@.len(),
                            i < table[k as int].len(),
                            x <= results@.len(),
                            profile@ == column(table, i as int).subrange(0, x as int),
                        decreases results@.len() - x,
                    {
                        assert(table[x as int] == results@[x as int]@);
                        assert(table[x as int].len() == table[0].len() && table[k as int].len() == table[0].len());
                        profile.push(results[x][i]);
                        assert(profile@ =~= column(table, i as int).subrange(0, x as int + 1));
                        x = x + 1;
                    }
                    assert(profile@ =~= column(table, i as int));
                    Some((i, profile))
                }
            },
        };
        let ghost before = detailed_important_nodes@;
        detailed_important_nodes.push(entry);
        assert(profiles_view(detailed_important_nodes@)[k as int] == match entry {
            Some(x) => Some((x.0, x.1@)),
            None => None::<(usize, Seq<DegreeStat>)>,
        });
        assert(important_at(table, k as int, profiles_view(detailed_important_nodes@)[k as int]));
        assert forall|x: int| 0 <= x < k + 1 implies important_at(table, x, #[trigger] profiles_view(detailed_important_nodes@)[x]) by {
            if x < k {
                assert(detailed_important_nodes@[x] == before[x]);
                assert(profiles_view(detailed_important_nodes@)[x] == profiles_view(before)[x]);
            }
        }
        k = k + 1;
    }
    detailed_important_nodes
}

/// The important-node profiles are determined by the table: any two results
/// that meet the selector's contract for the same table are equal.
pub proof fn lemma_selection_deterministic(
    table: Seq<Seq<DegreeStat>>,
    o1: Seq<Option<(usize, Seq<DegreeStat>)>>,
    o2: Seq<Option<(usize, Seq<DegreeStat>)>>,
)
    requires
        is_selection(table, o1),
        is_selection(table, o2),
    ensures
        o1 == o2,
{
    assert forall|k: int| 0 <= k < o1.len() implies #[trigger] o1[k] == o2[k] by {
        assert(important_at(table, k, o1[k]));
        assert(important_at(table, k, o2[k]));
        match (o1[k], o2[k]) {
            (Some((i1, p1)), Some((i2, p2))) => {
                lemma_choice_unique(table[k], i1 as int, i2 as int);
            },
            (Some((i1, p1)), None) => {
                if table[k].len() != 0 {
                    let i = choose|i: int| is_choice(table[k], i) && table[k][i].reachable_count == 0;
                    lemma_choice_unique(table[k], i1 as int, i);
                }
            },
            (None, Some((i2, p2))) => {
                if table[k].len() != 0 {
                    let i = choose|i: int| is_choice(table[k], i) && table[k][i].reachable_count == 0;
                    lemma_choice_unique(table[k], i2 as int, i);
                }
            },
            (None, None) => {},
        }
    }
    assert(o1 =~= o2);
}

} // verus!
