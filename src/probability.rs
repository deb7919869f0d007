use crate::combination::{
    combinations, is_combination, is_enumeration, lemma_combinations, successor,
    CombinationIterator,
};
use crate::game::{Event, GameState};
use crate::grouping::{
    distinct_cells, group_cells, is_grouping, lemma_groups_distinct, lemma_unknown_upto,
    lemma_views_push, unknown_cells, unknown_upto, views,
};
use crate::placement::{saturated, seen_then, tally_group, valid_total, valid_with};
use rayon::iter::{IndexedParallelIterator, IntoParallelRefIterator, ParallelIterator};
use vstd::prelude::*;

verus! {

/// Searches with fewer candidates than this are enumerated exhaustively: their estimated
/// number of decimal digits is below three.
pub const SEARCH_LIMIT: usize = 1000;

/// The number of ways to choose `r` of `n`.
pub open spec fn binomial(n: nat, r: nat) -> nat
    decreases n,
{
    if r == 0 {
        1
    } else if n == 0 {
        0
    } else {
        binomial((n - 1) as nat, (r - 1) as nat) + binomial((n - 1) as nat, r)
    }
}

pub open spec fn capped(x: nat, cap: nat) -> nat {
    if x < cap {
        x
    } else {
        cap
    }
}

/// Choosing `r` of `n` is small enough to enumerate.
pub open spec fn tractable(n: nat, r: nat) -> bool {
    binomial(n, r) < SEARCH_LIMIT
}

proof fn lemma_binomial_grows(i: nat, n: nat, r: nat)
    requires
        i <= n,
    ensures
        binomial(i, r) <= binomial(n, r),
    decreases n - i,
{
    if i < n {
        lemma_binomial_grows(i, (n - 1) as nat, r);
    }
}

proof fn lemma_binomial_zero(n: nat, r: nat)
    requires
        r > n,
    ensures
        binomial(n, r) == 0,
    decreases n,
{
    if n > 0 {
        lemma_binomial_zero((n - 1) as nat, (r - 1) as nat);
        lemma_binomial_zero((n - 1) as nat, r);
    }
}

/// `binomial(n, r)`, or `SEARCH_LIMIT` once it gets that large.
fn binomial_capped(n: usize, r: usize) -> (c: usize)
    ensures
        c == capped(binomial(n as nat, r as nat), SEARCH_LIMIT as nat),
{
    if r > n {
        proof {
            lemma_binomial_zero(n as nat, r as nat);
        }
        return 0;
    }
    let mut row: Vec<usize> = Vec::new();
    row.push(1);
    let mut j: usize = 0;
    while j < r
        invariant
            j <= r,
            r <= n,
            row@.len() == j + 1,
            forall|q: int|
                0 <= q <= j ==> #[trigger] row@[q] == capped(
                    binomial(0, q as nat),
                    SEARCH_LIMIT as nat,
                ),
        decreases r - j,
    {
        row.push(0);
        j += 1;
    }
    let mut i: usize = 0;
    while i < n && row[r] < SEARCH_LIMIT
        invariant
            i <= n,
            r <= n,
            row@.len() == r + 1,
            forall|q: int|
                0 <= q <= r ==> #[trigger] row@[q] == capped(
                    binomial(i as nat, q as nat),
                    SEARCH_LIMIT as nat,
                ),
        decreases n - i,
    {
        let mut k: usize = r;
        while k > 0
            invariant
                k <= r,
                i < n,
                row@.len() == r + 1,
                forall|q: int|
                    0 <= q <= k ==> #[trigger] row@[q] == capped(
                        binomial(i as nat, q as nat),
                        SEARCH_LIMIT as nat,
                    ),
                forall|q: int|
                    k < q <= r ==> #[trigger] row@[q] == capped(
                        binomial((i + 1) as nat, q as nat),
                        SEARCH_LIMIT as nat,
                    ),
            decreases k,
        {
            let sum = row[k] + row[k - 1];
            let v = if sum < SEARCH_LIMIT {
                sum
            } else {
                SEARCH_LIMIT
            };
            assert(binomial((i + 1) as nat, k as nat) == binomial(i as nat, (k - 1) as nat)
                + binomial(i as nat, k as nat));
            row.set(k, v);
            k -= 1;
        }
        assert(binomial((i + 1) as nat, 0) == binomial(i as nat, 0));
        i += 1;
    }
    proof {
        lemma_binomial_grows(i as nat, n as nat, r as nat);
    }
    row[r]
}

/// The number of mines each group gets when the budget `total` is cut at `cuts`: the
/// differences between consecutive points of `0, cuts..., total`.
pub open spec fn cut_bound(cuts: Seq<usize>, total: nat, g: int) -> int {
    if g <= 0 {
        0
    } else if g > cuts.len() {
        total as int
    } else {
        cuts[g - 1] as int
    }
}

pub open spec fn mine_counts(cuts: Seq<usize>, total: nat) -> Seq<int> {
    Seq::new(cuts.len() + 1, |g: int| cut_bound(cuts, total, g + 1) - cut_bound(cuts, total, g))
}

pub open spec fn seq_sum(s: Seq<int>) -> int
    decreases s.len(),
{
    if s.len() == 0 {
        0
    } else {
        seq_sum(s.drop_last()) + s.last()
    }
}

/// Cut points that never decrease and stay within the budget.
pub open spec fn cuts_ok(cuts: Seq<usize>, total: nat) -> bool {
    &&& forall|a: int, b: int| 0 <= a <= b < cuts.len() ==> cuts[a] <= cuts[b]
    &&& forall|a: int| 0 <= a < cuts.len() ==> cuts[a] <= total
}

proof fn lemma_prefix_sum(cuts: Seq<usize>, total: nat, k: int)
    requires
        0 <= k <= cuts.len() + 1,
    ensures
        seq_sum(mine_counts(cuts, total).take(k)) == cut_bound(cuts, total, k),
    decreases k,
{
    if k > 0 {
        lemma_prefix_sum(cuts, total, k - 1);
        assert(mine_counts(cuts, total).take(k).drop_last() =~= mine_counts(cuts, total).take(
            k - 1,
        ));
    }
}

/// Cutting a mine budget at non-decreasing points within it splits the whole budget:
/// every group gets a non-negative count and the counts add up to the budget.
pub proof fn lemma_mine_counts_split(cuts: Seq<usize>, total: nat)
    requires
        cuts_ok(cuts, total),
    ensures
        forall|g: int| 0 <= g < mine_counts(cuts, total).len() ==> #[trigger] mine_counts(cuts, total)[g] >= 0,
        seq_sum(mine_counts(cuts, total)) == total,
{
    lemma_prefix_sum(cuts, total, cuts.len() + 1 as int);
    assert(mine_counts(cuts, total).take(cuts.len() + 1 as int) =~= mine_counts(cuts, total));
}

/// The mines each group gets when the budget `total` is cut at `cuts`.
pub fn partition_mine_counts(cuts: &Vec<usize>, total: usize) -> (counts: Vec<usize>)
    requires
        cuts_ok(cuts@, total as nat),
    ensures
        counts@.len() == cuts@.len() + 1,
        forall|g: int| 0 <= g < counts@.len() ==> #[trigger] counts@[g] == mine_counts(cuts@, total as nat)[g],
{
    let mut counts: Vec<usize> = Vec::new();
    let mut prev: usize = 0;
    let mut g: usize = 0;
    while g < cuts.len()
        invariant
            g <= cuts@.len(),
            cuts_ok(cuts@, total as nat),
            counts@.len() == g,
            prev == cut_bound(cuts@, total as nat, g as int),
            forall|q: int| 0 <= q < g ==> #[trigger] counts@[q] == mine_counts(cuts@, total as nat)[q],
        decreases cuts@.len() - g,
    {
        counts.push(cuts[g] - prev);
        prev = cuts[g];
        g += 1;
    }
    counts.push(total - prev);
    counts
}

/// What the placements of `m` mines on `group` add to the tally of the member at position
/// `k`: the agreeing placements with a mine there when the search is small enough to
/// enumerate, and one otherwise.
pub open spec fn group_share(gs: &GameState, group: Seq<usize>, m: nat, k: int) -> nat {
    if tractable(group.len(), m) {
        valid_with(gs, group, combinations(group.len(), m), k)
    } else {
        1
    }
}

/// What the first `upto` members of `group` add to the tally of cell `i`.
pub open spec fn group_add(gs: &GameState, group: Seq<usize>, m: nat, i: int, upto: int) -> nat
    decreases upto,
{
    if upto <= 0 {
        0
    } else {
        group_add(gs, group, m, i, upto - 1) + if group[upto - 1] == i {
            group_share(gs, group, m, upto - 1)
        } else {
            0
        }
    }
}

/// No group is given more mines than it has cells.
pub open spec fn feasible(groups: Seq<Seq<usize>>, counts: Seq<int>) -> bool {
    forall|g: int| 0 <= g < groups.len() ==> #[trigger] counts[g] <= groups[g].len()
}

/// Some placement of `m` mines on `group` agrees with the clues, or the group is too large
/// to enumerate.
pub open spec fn group_agrees(gs: &GameState, group: Seq<usize>, m: nat) -> bool {
    !tractable(group.len(), m) || valid_total(gs, group, combinations(group.len(), m)) > 0
}

/// The mine counts fit the groups and every enumerated group has a placement that agrees
/// with the clues: the split can hold the mines.
pub open spec fn split_agrees(gs: &GameState, groups: Seq<Seq<usize>>, counts: Seq<int>) -> bool {
    &&& feasible(groups, counts)
    &&& forall|g: int| 0 <= g < groups.len() ==> #[trigger] group_agrees(gs, groups[g], counts[g] as nat)
}

/// What the first `upto` groups add to the tally of cell `i` under the mine counts `counts`.
pub open spec fn partition_add(
    gs: &GameState,
    groups: Seq<Seq<usize>>,
    counts: Seq<int>,
    i: int,
    upto: int,
) -> nat
    decreases upto,
{
    if upto <= 0 {
        0
    } else {
        partition_add(gs, groups, counts, i, upto - 1) + group_add(
            gs,
            groups[upto - 1],
            counts[upto - 1] as nat,
            i,
            groups[upto - 1].len() as int,
        )
    }
}

/// What the cut points of `run` add to the tally of cell `i`, skipping splits that cannot
/// hold the mines.
pub open spec fn partitions_add(
    gs: &GameState,
    groups: Seq<Seq<usize>>,
    remaining: nat,
    run: Seq<Seq<usize>>,
    i: int,
) -> nat
    decreases run.len(),
{
    if run.len() == 0 {
        0
    } else {
        partitions_add(gs, groups, remaining, run.drop_last(), i) + if split_agrees(
            gs,
            groups,
            mine_counts(run.last(), remaining),
        ) {
            partition_add(
                gs,
                groups,
                mine_counts(run.last(), remaining),
                i,
                groups.len() as int,
            )
        } else {
            0
        }
    }
}

/// Some cut points of `run` give a split that can hold the mines.
pub open spec fn any_agreeing(
    gs: &GameState,
    groups: Seq<Seq<usize>>,
    remaining: nat,
    run: Seq<Seq<usize>>,
) -> bool {
    exists|q: int|
        0 <= q < run.len() && #[trigger] split_agrees(gs, groups, mine_counts(run[q], remaining))
}

/// The cut points that a combination of `remaining + k - 1` picks for `k` groups: the
/// `j`-th chosen index less `j`. Every split of `remaining` into `k` non-negative counts
/// comes from exactly one combination.
pub open spec fn stars(c: Seq<usize>) -> Seq<usize> {
    Seq::new(c.len(), |j: int| (c[j] - j) as usize)
}

pub open spec fn stars_run(run: Seq<Seq<usize>>) -> Seq<Seq<usize>> {
    Seq::new(run.len(), |q: int| stars(run[q]))
}

/// The size of the search over splits of `remaining` mines into `k` groups.
pub open spec fn split_space(remaining: nat, k: nat) -> nat {
    (remaining + k - 1) as nat
}

/// How many hypotheses put a mine on cell `i`: every split of the remaining mines into
/// non-negative counts over several groups is enumerated when that is small enough;
/// otherwise, or when no split can hold the mines, every cell counts the same.
pub open spec fn tally_total(gs: &GameState, groups: Seq<Seq<usize>>, remaining: nat, i: int) -> nat {
    let k = groups.len();
    let run = stars_run(combinations(split_space(remaining, k), (k - 1) as nat));
    if k > 1 && split_space(remaining, k) <= usize::MAX && tractable(
        split_space(remaining, k),
        (k - 1) as nat,
    ) && any_agreeing(gs, groups, remaining, run) {
        partitions_add(gs, groups, remaining, run, i)
    } else {
        1
    }
}

/// Stepping through a combination, each index grows by at least one.
proof fn lemma_combination_gaps(c: Seq<usize>, n: nat)
    requires
        is_combination(c, n),
    ensures
        forall|a: int, b: int| 0 <= a <= b < c.len() ==> c[b] - c[a] >= b - a,
        forall|j: int| 0 <= j < c.len() ==> j <= c[j] && c[j] + (c.len() - j) <= n,
    decreases c.len(),
{
    if c.len() > 0 {
        let d = c.drop_last();
        lemma_combination_gaps(d, n);
        assert forall|a: int, b: int| 0 <= a <= b < c.len() implies c[b] - c[a] >= b - a by {
            if b == c.len() - 1 && a < b {
                assert(d[a] == c[a]);
                assert(d[b - 1] == c[b - 1]);
                assert(d[b - 1] - d[a] >= b - 1 - a);
                assert(c[b - 1] < c[b]);
            } else if b < c.len() - 1 {
                assert(d[a] == c[a]);
                assert(d[b] == c[b]);
                assert(d[b] - d[a] >= b - a);
            }
        }
        assert forall|j: int| 0 <= j < c.len() implies j <= c[j] && c[j] + (c.len() - j) <= n by {
            assert(c[j] - c[0] >= j);
            assert(c[c.len() - 1] - c[j] >= c.len() - 1 - j);
            assert(c[c.len() - 1] < n);
        }
    }
}

/// The cut points of a combination of `remaining + k - 1` never decrease and stay within
/// the budget.
pub proof fn lemma_stars_cuts(c: Seq<usize>, remaining: nat)
    requires
        is_combination(c, remaining + c.len()),
    ensures
        cuts_ok(stars(c), remaining),
        stars(c).len() == c.len(),
{
    lemma_combination_gaps(c, remaining + c.len());
}

fn saturating_add(x: usize, y: usize) -> (r: usize)
    ensures
        r == capped((x + y) as nat, usize::MAX as nat),
{
    if x <= usize::MAX - y {
        x + y
    } else {
        usize::MAX
    }
}

proof fn lemma_saturated_add(a: nat, b: nat)
    ensures
        saturated(a + b) == capped(saturated(a) + saturated(b), usize::MAX as nat),
{
}

/// Adds what `group`, holding `m` mines, contributes to each cell's tally.
fn add_group_share(
    hist: &mut Vec<usize>,
    gs: &GameState,
    group: &Vec<usize>,
    m: usize,
    exact: Ghost<Seq<nat>>,
) -> (agrees: bool)
    requires
        gs.shape_ok(),
        distinct_cells(group@, gs.field@.len()),
        old(hist)@.len() == gs.field@.len(),
        exact@.len() == gs.field@.len(),
        forall|i: int| 0 <= i < old(hist)@.len() ==> #[trigger] old(hist)@[i] == saturated(exact@[i]),
    ensures
        final(hist)@.len() == old(hist)@.len(),
        forall|i: int|
            0 <= i < final(hist)@.len() ==> #[trigger] final(hist)@[i] == saturated(
                exact@[i] + group_add(gs, group@, m as nat, i, group@.len() as int),
            ),
        agrees == group_agrees(gs, group@, m as nat),
{
    let n = group.len();
    let small = binomial_capped(n, m) < SEARCH_LIMIT;
    let mut share: Vec<usize> = Vec::new();
    let mut agrees = true;
    if small {
        let (t, valid) = tally_group(gs, group, m);
        share = t;
        agrees = valid > 0;
    } else {
        let mut k: usize = 0;
        while k < n
            invariant
                k <= n,
                share@.len() == k,
                forall|q: int| 0 <= q < k ==> #[trigger] share@[q] == 1,
            decreases n - k,
        {
            share.push(1);
            k += 1;
        }
    }
    assert(forall|k: int| 0 <= k < n ==> #[trigger] share@[k] == saturated(group_share(gs, group@, m as nat, k)));
    let mut k: usize = 0;
    while k < n
        invariant
            k <= n,
            n == group@.len(),
            share@.len() == n,
            distinct_cells(group@, gs.field@.len()),
            hist@.len() == gs.field@.len(),
            exact@.len() == gs.field@.len(),
            forall|q: int|
                0 <= q < n ==> #[trigger] share@[q] == saturated(group_share(gs, group@, m as nat, q)),
            forall|i: int|
                0 <= i < hist@.len() ==> #[trigger] hist@[i] == saturated(
                    exact@[i] + group_add(gs, group@, m as nat, i, k as int),
                ),
        decreases n - k,
    {
        let i = group[k];
        let v = saturating_add(hist[i], share[k]);
        proof {
            lemma_saturated_add(
                exact@[i as int] + group_add(gs, group@, m as nat, i as int, k as int),
                group_share(gs, group@, m as nat, k as int),
            );
        }
        hist.set(i, v);
        k += 1;
    }
    agrees
}

/// Adds what every group contributes under the mine counts `counts`.
fn add_partition_share(
    hist: &mut Vec<usize>,
    gs: &GameState,
    groups: &Vec<Vec<usize>>,
    counts: &Vec<usize>,
    exact: Ghost<Seq<nat>>,
) -> (all_agree: bool)
    requires
        gs.shape_ok(),
        forall|g: int| 0 <= g < groups@.len() ==> distinct_cells(#[trigger] views(groups@)[g], gs.field@.len()),
        counts@.len() == groups@.len(),
        old(hist)@.len() == gs.field@.len(),
        exact@.len() == gs.field@.len(),
        forall|i: int| 0 <= i < old(hist)@.len() ==> #[trigger] old(hist)@[i] == saturated(exact@[i]),
    ensures
        final(hist)@.len() == old(hist)@.len(),
        forall|i: int|
            0 <= i < final(hist)@.len() ==> #[trigger] final(hist)@[i] == saturated(
                exact@[i] + partition_add(
                    gs,
                    views(groups@),
                    counts@.map_values(|c: usize| c as int),
                    i,
                    groups@.len() as int,
                ),
            ),
        all_agree == forall|g: int|
            0 <= g < groups@.len() ==> #[trigger] group_agrees(
                gs,
                views(groups@)[g],
                counts@[g] as nat,
            ),
{
    let ghost cs = counts@.map_values(|c: usize| c as int);
    let mut all_agree = true;
    let mut g: usize = 0;
    while g < groups.len()
        invariant
            gs.shape_ok(),
            g <= groups@.len(),
            forall|q: int| 0 <= q < groups@.len() ==> distinct_cells(#[trigger] views(groups@)[q], gs.field@.len()),
            counts@.len() == groups@.len(),
            cs == counts@.map_values(|c: usize| c as int),
            hist@.len() == gs.field@.len(),
            exact@.len() == gs.field@.len(),
            forall|i: int|
                0 <= i < hist@.len() ==> #[trigger] hist@[i] == saturated(
                    exact@[i] + partition_add(gs, views(groups@), cs, i, g as int),
                ),
            all_agree == forall|q: int|
                0 <= q < g ==> #[trigger] group_agrees(gs, views(groups@)[q], counts@[q] as nat),
        decreases groups@.len() - g,
    {
        let ghost now = Seq::new(
            gs.field@.len(),
            |i: int| exact@[i] + partition_add(gs, views(groups@), cs, i, g as int),
        );
        assert(views(groups@)[g as int] == groups@[g as int]@);
        let agrees = add_group_share(hist, gs, &groups[g], counts[g], Ghost(now));
        all_agree = all_agree && agrees;
        g += 1;
    }
    all_agree
}

fn filled(len: usize, v: usize) -> (r: Vec<usize>)
    ensures
        r@.len() == len,
        forall|i: int| 0 <= i < len ==> #[trigger] r@[i] == v,
{
    let mut r: Vec<usize> = Vec::new();
    let mut i: usize = 0;
    while i < len
        invariant
            i <= len,
            r@.len() == i,
            forall|q: int| 0 <= q < i ==> #[trigger] r@[q] == v,
        decreases len - i,
    {
        r.push(v);
        i += 1;
    }
    r
}

/// What the spread of the remaining mines cut at `cuts` adds to every cell's tally.
pub open spec fn share_of(gs: &GameState, groups: Seq<Seq<usize>>, remaining: nat, cuts: Seq<usize>) -> Seq<
    usize,
> {
    Seq::new(
        gs.field@.len(),
        |i: int|
            saturated(
                if feasible(groups, mine_counts(cuts, remaining)) {
                    partition_add(gs, groups, mine_counts(cuts, remaining), i, groups.len() as int)
                } else {
                    0
                },
            ) as usize,
    )
}

/// The cut points that the combination `c` of `n` picks: its `j`-th index less `j`.
fn cut_points(c: &Vec<usize>, n: usize) -> (cuts: Vec<usize>)
    requires
        is_combination(c@, n as nat),
    ensures
        cuts@ == stars(c@),
{
    proof {
        lemma_combination_gaps(c@, n as nat);
    }
    let mut cuts: Vec<usize> = Vec::new();
    let mut j: usize = 0;
    while j < c.len()
        invariant
            j <= c@.len(),
            forall|q: int| 0 <= q < c@.len() ==> q <= #[trigger] c@[q],
            cuts@ == stars(c@).subrange(0, j as int),
        decreases c@.len() - j,
    {
        cuts.push(c[j] - j);
        j += 1;
        assert(cuts@ =~= stars(c@).subrange(0, j as int));
    }
    assert(cuts@ =~= stars(c@));
    cuts
}

/// What one split of the remaining mines, cut at `cuts`, adds to every cell's tally, and
/// whether the split can hold the mines.
pub fn partition_share(
    gs: &GameState,
    groups: &Vec<Vec<usize>>,
    cuts: &Vec<usize>,
    remaining: usize,
) -> (res: (Vec<usize>, bool))
    requires
        gs.shape_ok(),
        forall|g: int| 0 <= g < groups@.len() ==> distinct_cells(#[trigger] views(groups@)[g], gs.field@.len()),
        cuts_ok(cuts@, remaining as nat),
        cuts@.len() + 1 == groups@.len(),
    ensures
        res.1 == split_agrees(gs, views(groups@), mine_counts(cuts@, remaining as nat)),
        res.0@ == share_of(gs, views(groups@), remaining as nat, cuts@),
{
    let len = gs.field.len();
    let ng = groups.len();
    let counts = partition_mine_counts(cuts, remaining);
    let ghost cs = counts@.map_values(|c: usize| c as int);
    assert(cs =~= mine_counts(cuts@, remaining as nat));
    let mut fits = true;
    let mut g: usize = 0;
    while g < ng
        invariant
            g <= ng,
            ng == groups@.len(),
            counts@.len() == ng,
            fits == forall|q: int| 0 <= q < g ==> #[trigger] counts@[q] <= groups@[q]@.len(),
        decreases ng - g,
    {
        if counts[g] > groups[g].len() {
            fits = false;
        }
        g += 1;
    }
    assert(fits == feasible(views(groups@), cs));
    let mut share = filled(len, 0);
    let mut usable = false;
    if fits {
        let ghost zero = Seq::new(len as nat, |i: int| 0nat);
        usable = add_partition_share(&mut share, gs, groups, &counts, Ghost(zero));
        assert forall|q: int| 0 <= q < ng implies counts@[q] as nat == cs[q] as nat by {}
    }
    assert(share@ =~= share_of(gs, views(groups@), remaining as nat, cuts@));
    (share, usable)
}

/// Relies on rayon's `par_iter().map(..).collect_into_vec(..)` over an indexed iterator:
/// the vector holds, at each index, what the mapped function returned for the item at
/// that index. The function mapped is `partition_share`, whose `requires` holds for
/// every item.
#[verifier::external_body]
fn shares_in_parallel(
    gs: &GameState,
    groups: &Vec<Vec<usize>>,
    parts: &Vec<Vec<usize>>,
    remaining: usize,
) -> (out: Vec<(Vec<usize>, bool)>)
    requires
        gs.shape_ok(),
        forall|g: int| 0 <= g < groups@.len() ==> distinct_cells(#[trigger] views(groups@)[g], gs.field@.len()),
        forall|q: int|
            0 <= q < parts@.len() ==> cuts_ok(#[trigger] parts@[q]@, remaining as nat)
                && parts@[q]@.len() + 1 == groups@.len(),
    ensures
        out@.len() == parts@.len(),
        forall|q: int|
            0 <= q < parts@.len() ==> (#[trigger] out@[q]).1 == split_agrees(
                gs,
                views(groups@),
                mine_counts(parts@[q]@, remaining as nat),
            ) && out@[q].0@ == share_of(gs, views(groups@), remaining as nat, parts@[q]@),
{
    let mut out = Vec::new();
    parts.par_iter().map(|cuts| partition_share(gs, groups, cuts, remaining)).collect_into_vec(
        &mut out,
    );
    out
}

/// The tally of every cell: how many of the enumerated hypotheses that agree with the
/// clues put a mine there, summed over every split of `remaining` mines into non-negative
/// counts over the groups that can hold the mines; one for every cell when that search is
/// too large, no split can hold the mines, or there is a single group. The spreads are evaluated in parallel and their
/// shares added up in order.
pub fn tally_cells(gs: &GameState, groups: &Vec<Vec<usize>>, remaining: usize) -> (hist: Vec<
    usize,
>)
    requires
        gs.shape_ok(),
        forall|g: int| 0 <= g < groups@.len() ==> distinct_cells(#[trigger] views(groups@)[g], gs.field@.len()),
    ensures
        hist@.len() == gs.field@.len(),
        forall|i: int|
            0 <= i < hist@.len() ==> #[trigger] hist@[i] == saturated(
                tally_total(gs, views(groups@), remaining as nat, i),
            ),
{
    let len = gs.field.len();
    let ng = groups.len();
    if ng <= 1 || remaining > usize::MAX - (ng - 1) {
        return filled(len, 1);
    }
    let r = ng - 1;
    let n = remaining + r;
    if binomial_capped(n, r) >= SEARCH_LIMIT {
        return filled(len, 1);
    }
    let mut parts: Vec<Vec<usize>> = Vec::new();
    let mut it = CombinationIterator::new(n, r);
    let ghost mut seen: Seq<Seq<usize>> = Seq::empty();
    let mut cur = it.next();
    while cur.is_some()
        invariant
            views(parts@) == stars_run(seen),
            n == remaining + r,
            it.wf(),
            it.n() == n,
            it.r() == r,
            r > n ==> cur is None && seen.len() == 0,
            r <= n ==> {
                let full = seen_then(seen, cur);
                &&& full.len() > 0
                &&& full[0] == crate::combination::first_combination(r as nat)
                &&& forall|q: int|
                    0 <= q < full.len() - 1 ==> successor(#[trigger] full[q], n as nat)
                        == Some(full[q + 1])
            },
            cur matches Some(c) ==> it.current() == successor(c@, n as nat) && is_combination(
                c@,
                n as nat,
            ) && c@.len() == r,
            r <= n && cur is None ==> successor(seen.last(), n as nat) is None,
        decreases it.remaining() + if cur is Some {
            1int
        } else {
            0int
        },
    {
        let comb = cur.unwrap();
        let cuts = cut_points(&comb, n);
        proof {
            lemma_views_push(parts@, cuts);
            assert(stars_run(seen.push(comb@)) =~= stars_run(seen).push(cuts@));
            seen = seen.push(comb@);
        }
        parts.push(cuts);
        cur = it.next();
    }
    proof {
        assert(is_enumeration(seen, n as nat, r as nat));
        lemma_combinations(seen, n as nat, r as nat);
        crate::combination::lemma_enumeration_ordered(seen, n as nat, r as nat);
        assert forall|q: int| 0 <= q < parts@.len() implies cuts_ok(#[trigger] parts@[q]@, remaining as nat)
            && parts@[q]@.len() + 1 == groups@.len() by {
            assert(views(parts@)[q] == parts@[q]@);
            assert(stars_run(seen)[q] == stars(seen[q]));
            assert(seen[q].len() == r && is_combination(seen[q], n as nat));
            lemma_stars_cuts(seen[q], remaining as nat);
        }
    }
    let ghost cutrun = views(parts@);
    let shares = shares_in_parallel(gs, groups, &parts, remaining);
    let ghost gv = views(groups@);
    let ghost rm = remaining as nat;
    let mut hist = filled(len, 0);
    let mut found = false;
    let mut q: usize = 0;
    while q < shares.len()
        invariant
            q <= shares@.len(),
            shares@.len() == parts@.len(),
            cutrun == views(parts@),
            len == gs.field@.len(),
            hist@.len() == len,
            gv == views(groups@),
            rm == remaining,
            forall|p: int|
                0 <= p < parts@.len() ==> (#[trigger] shares@[p]).1 == split_agrees(
                    gs,
                    gv,
                    mine_counts(parts@[p]@, rm),
                ) && shares@[p].0@ == share_of(gs, gv, rm, parts@[p]@),
            found == any_agreeing(gs, gv, rm, cutrun.take(q as int)),
            forall|i: int|
                0 <= i < len ==> #[trigger] hist@[i] == saturated(
                    partitions_add(gs, gv, rm, cutrun.take(q as int), i),
                ),
        decreases shares@.len() - q,
    {
        let ghost before = cutrun.take(q as int);
        let ghost after = cutrun.take(q + 1);
        assert(cutrun.len() == parts@.len());
        assert(after.len() == q + 1);
        assert(after.drop_last() =~= before);
        assert(after.last() == parts@[q as int]@);
        let fits = shares[q].1;
        if fits {
            let mut i: usize = 0;
            while i < len
                invariant
                    i <= len,
                    len == gs.field@.len(),
                    hist@.len() == len,
                    q < shares@.len(),
                    shares@[q as int].0@ == share_of(gs, gv, rm, parts@[q as int]@),
                    fits == split_agrees(gs, gv, mine_counts(parts@[q as int]@, rm)),
                    fits,
                    after.last() == parts@[q as int]@,
                    after.drop_last() == before,
                    after.len() > 0,
                    forall|j: int|
                        0 <= j < i ==> #[trigger] hist@[j] == saturated(partitions_add(gs, gv, rm, after, j)),
                    forall|j: int|
                        i <= j < len ==> #[trigger] hist@[j] == saturated(partitions_add(gs, gv, rm, before, j)),
                decreases len - i,
            {
                let v = saturating_add(hist[i], shares[q].0[i]);
                proof {
                    let extra = partition_add(
                        gs,
                        gv,
                        mine_counts(parts@[q as int]@, rm),
                        i as int,
                        gv.len() as int,
                    );
                    lemma_saturated_add(partitions_add(gs, gv, rm, before, i as int), extra);
                    assert(after.len() > 0);
                    assert(split_agrees(gs, gv, mine_counts(after.last(), rm)));
                    assert(shares@[q as int].0@[i as int] == saturated(extra));
                    assert(partitions_add(gs, gv, rm, after, i as int) == partitions_add(
                        gs,
                        gv,
                        rm,
                        before,
                        i as int,
                    ) + extra);
                }
                hist.set(i, v);
                i += 1;
            }
        }
        proof {
            if fits {
                assert(split_agrees(gs, gv, mine_counts(after[q as int], rm)));
            }
            if any_agreeing(gs, gv, rm, before) {
                let p = choose|p: int| 0 <= p < before.len() && #[trigger] split_agrees(gs, gv, mine_counts(before[p], rm));
                assert(after[p] == before[p]);
            }
            if any_agreeing(gs, gv, rm, after) {
                let p = choose|p: int| 0 <= p < after.len() && #[trigger] split_agrees(gs, gv, mine_counts(after[p], rm));
                if p < before.len() {
                    assert(after[p] == before[p]);
                }
            }
            if !fits {
                assert forall|j: int| 0 <= j < len implies #[trigger] hist@[j] == saturated(
                    partitions_add(gs, gv, rm, after, j),
                ) by {}
            }
        }
        found = found || fits;
        q += 1;
    }
    proof {
        assert(cutrun.take(shares@.len() as int) =~= cutrun);
        assert(cutrun =~= stars_run(combinations(n as nat, r as nat)));
    }
    if !found {
        return filled(len, 1);
    }
    hist
}

/// The position, among the first `k` of `cells`, of the first cell with the smallest tally.
pub open spec fn least(hist: Seq<usize>, cells: Seq<usize>, k: int) -> int
    decreases k,
{
    if k <= 1 {
        0
    } else {
        let p = least(hist, cells, k - 1);
        if hist[cells[k - 1] as int] < hist[cells[p] as int] {
            k - 1
        } else {
            p
        }
    }
}

/// The grid position of cell index `i` on a board `w` cells wide.
pub open spec fn position(w: nat, i: int) -> (usize, usize) {
    ((i % (w as int)) as usize, (i / (w as int)) as usize)
}

/// Clicks on the cells among the first `k` of `cells` whose tally is zero, but the one at
/// position `skip`.
pub open spec fn zero_clicks(w: nat, hist: Seq<usize>, cells: Seq<usize>, skip: int, k: int) -> Seq<
    Event,
>
    decreases k,
{
    if k <= 0 {
        seq![]
    } else {
        let prev = zero_clicks(w, hist, cells, skip, k - 1);
        if k - 1 != skip && hist[cells[k - 1] as int] == 0 {
            prev.push(Event::Click { pos: position(w, cells[k - 1] as int) })
        } else {
            prev
        }
    }
}

proof fn lemma_least(hist: Seq<usize>, cells: Seq<usize>, k: int)
    requires
        1 <= k <= cells.len(),
    ensures
        0 <= least(hist, cells, k) < k,
        forall|q: int|
            0 <= q < k ==> hist[cells[least(hist, cells, k)] as int] <= hist[#[trigger] cells[q] as int],
        forall|q: int|
            0 <= q < least(hist, cells, k) ==> hist[cells[least(hist, cells, k)] as int] < hist[#[trigger] cells[q] as int],
    decreases k,
{
    if k > 1 {
        lemma_least(hist, cells, k - 1);
    }
}

/// Picks the move to make from the tallies of the unknown `cells`: the first cell with the
/// smallest tally is clicked. When that tally is zero, the other zero-tally cells are
/// queued on `saved` as safe clicks; otherwise the click is a guess and is counted.
pub fn select_move(
    width: usize,
    cells: &Vec<usize>,
    hist: &Vec<usize>,
    guess_count: &mut usize,
    saved: &mut Vec<Event>,
) -> (event: Event)
    requires
        width > 0,
        forall|q: int| 0 <= q < cells@.len() ==> #[trigger] cells@[q] < hist@.len(),
        *old(guess_count) < usize::MAX,
    ensures
        cells@.len() == 0 ==> event is Idle && *final(guess_count) == *old(guess_count)
            && final(saved)@ == old(saved)@,
        cells@.len() > 0 ==> {
            let p = least(hist@, cells@, cells@.len() as int);
            let c = cells@[p] as int;
            &&& event == Event::Click { pos: position(width as nat, c) }
            &&& *final(guess_count) == *old(guess_count) + if hist@[c] > 0 {
                1int
            } else {
                0int
            }
            &&& final(saved)@ == old(saved)@ + if hist@[c] == 0 {
                zero_clicks(width as nat, hist@, cells@, p, cells@.len() as int)
            } else {
                seq![]
            }
        },
{
    let n = cells.len();
    if n == 0 {
        return Event::Idle;
    }
    let mut p: usize = 0;
    let mut k: usize = 1;
    while k < n
        invariant
            1 <= k <= n,
            n == cells@.len(),
            forall|q: int| 0 <= q < cells@.len() ==> #[trigger] cells@[q] < hist@.len(),
            p == least(hist@, cells@, k as int),
        decreases n - k,
    {
        proof {
            lemma_least(hist@, cells@, k as int);
        }
        if hist[cells[k]] < hist[cells[p]] {
            p = k;
        }
        k += 1;
    }
    proof {
        lemma_least(hist@, cells@, n as int);
    }
    let c = cells[p];
    if hist[c] == 0 {
        let ghost start = saved@;
        let mut q: usize = 0;
        while q < n
            invariant
                q <= n,
                n == cells@.len(),
                width > 0,
                forall|j: int| 0 <= j < cells@.len() ==> #[trigger] cells@[j] < hist@.len(),
                saved@ == start + zero_clicks(width as nat, hist@, cells@, p as int, q as int),
            decreases n - q,
        {
            if q != p && hist[cells[q]] == 0 {
                let i = cells[q];
                saved.push(Event::Click { pos: (i % width, i / width) });
            }
            q += 1;
        }
    } else {
        *guess_count = *guess_count + 1;
    }
    Event::Click { pos: (c % width, c / width) }
}

/// What a guess yields on `gs` for a grouping `groups` of its unknown cells: the move,
/// the guess count and the queue of safe clicks.
pub open spec fn guess_outcome(
    gs: &GameState,
    groups: Seq<Seq<usize>>,
    guesses: usize,
    saved: Seq<Event>,
) -> (Event, int, Seq<Event>) {
    let cells = unknown_upto(gs.field@, gs.field@.len() as int);
    let hist = Seq::new(
        gs.field@.len(),
        |i: int| saturated(tally_total(gs, groups, (gs.bomb_count - gs.flagged()) as nat, i)) as usize,
    );
    if cells.len() == 0 {
        (Event::Idle, guesses as int, saved)
    } else {
        let p = least(hist, cells, cells.len() as int);
        let c = cells[p] as int;
        (
            Event::Click { pos: position(gs.width as nat, c) },
            guesses + if hist[c] > 0 {
                1int
            } else {
                0int
            },
            saved + if hist[c] == 0 {
                zero_clicks(gs.width as nat, hist, cells, p, cells.len() as int)
            } else {
                seq![]
            },
        )
    }
}

/// The probability engine: when no deduction applies, tallies for each unknown cell the
/// hypotheses that agree with the clues and put a mine there, and clicks the least risky
/// cell; cells that no hypothesis mines are queued on `saved_valid_clicks`.
pub fn educated_guess(
    game_state: &GameState,
    guess_count: &mut usize,
    saved_valid_clicks: &mut Vec<Event>,
) -> (event: Event)
    requires
        game_state.wf(),
        *old(guess_count) < usize::MAX,
    ensures
        exists|groups: Seq<Seq<usize>>|
            is_grouping(game_state, groups) && guess_outcome(
                game_state,
                groups,
                *old(guess_count),
                old(saved_valid_clicks)@,
            ) == (event, *final(guess_count) as int, final(saved_valid_clicks)@),
{
    let cells = unknown_cells(game_state);
    let groups = group_cells(game_state);
    proof {
        lemma_groups_distinct(views(groups@), game_state.field@.len());
        lemma_unknown_upto(game_state.field@, game_state.field@.len() as int);
    }
    let remaining = game_state.remaining_mines();
    let hist = tally_cells(game_state, &groups, remaining);
    let ghost spec_hist = Seq::new(
        game_state.field@.len(),
        |i: int| saturated(tally_total(game_state, views(groups@), remaining as nat, i)) as usize,
    );
    assert(hist@ =~= spec_hist);
    if cells.len() == 0 {
        return Event::Idle;
    }
    proof {
        crate::game::lemma_index_cell(
            game_state.width as nat,
            game_state.height as nat,
            cells@[0] as int,
        );
    }
    let event = select_move(game_state.width, &cells, &hist, guess_count, saved_valid_clicks);
    event
}

/// When the unknown cells form a single group, every cell gets the same tally, so no cell
/// is singled out as safe: the move is a counted guess and nothing is queued.
pub proof fn lemma_single_group_guesses(
    gs: &GameState,
    groups: Seq<Seq<usize>>,
    guesses: usize,
    saved: Seq<Event>,
)
    requires
        groups.len() <= 1,
        unknown_upto(gs.field@, gs.field@.len() as int).len() > 0,
        gs.field@.len() <= usize::MAX,
    ensures
        forall|i: int| #[trigger] tally_total(gs, groups, (gs.bomb_count - gs.flagged()) as nat, i) == 1,
        guess_outcome(gs, groups, guesses, saved).1 == guesses + 1,
        guess_outcome(gs, groups, guesses, saved).2 == saved,
{
    let len = gs.field@.len();
    let cells = unknown_upto(gs.field@, len as int);
    let hist = Seq::new(
        len,
        |i: int| saturated(tally_total(gs, groups, (gs.bomb_count - gs.flagged()) as nat, i)) as usize,
    );
    lemma_unknown_upto(gs.field@, len as int);
    lemma_least(hist, cells, cells.len() as int);
    let p = least(hist, cells, cells.len() as int);
    assert(cells[p] < len);
    assert(hist[cells[p] as int] == 1);
}

} // verus!
