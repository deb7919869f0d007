use crate::combination::{
    combinations, is_combination, is_enumeration, lemma_combinations, successor,
    CombinationIterator,
};
use crate::game::{Cell, CellState, GameState};
use crate::grouping::distinct_cells;
use crate::probability::capped;
use vstd::prelude::*;

verus! {

pub open spec fn in_group(group: Seq<usize>, i: int) -> bool {
    exists|k: int| 0 <= k < group.len() && group[k] == i
}

/// The field `f` with a mine on the cells of `group` whose position `comb` picks, and no
/// mine on the other cells of the group.
pub open spec fn placed(f: Seq<Cell>, group: Seq<usize>, comb: Seq<usize>) -> Seq<Cell> {
    Seq::new(
        f.len(),
        |i: int|
            if in_group(group, i) {
                let k = choose|k: int| 0 <= k < group.len() && group[k] == i;
                Cell {
                    state: if comb.contains(k as usize) {
                        CellState::Mine
                    } else {
                        CellState::Empty
                    },
                    visibility: f[i].visibility,
                }
            } else {
                f[i]
            },
    )
}

/// The placement `comb` of mines on `group` agrees with every revealed clue.
pub open spec fn placement_valid(gs: &GameState, group: Seq<usize>, comb: Seq<usize>) -> bool {
    gs.clues_met(placed(gs.field@, group, comb))
}

/// How many placements of `run` agree with every clue and put a mine at position `k`.
pub open spec fn valid_with(gs: &GameState, group: Seq<usize>, run: Seq<Seq<usize>>, k: int) -> nat
    decreases run.len(),
{
    if run.len() == 0 {
        0
    } else {
        valid_with(gs, group, run.drop_last(), k) + if placement_valid(gs, group, run.last())
            && run.last().contains(k as usize) {
            1nat
        } else {
            0nat
        }
    }
}

/// How many placements of `run` agree with every clue.
pub open spec fn valid_total(gs: &GameState, group: Seq<usize>, run: Seq<Seq<usize>>) -> nat
    decreases run.len(),
{
    if run.len() == 0 {
        0
    } else {
        valid_total(gs, group, run.drop_last()) + if placement_valid(gs, group, run.last()) {
            1nat
        } else {
            0nat
        }
    }
}

pub open spec fn saturated(x: nat) -> nat {
    capped(x, usize::MAX as nat)
}

pub(crate) fn saturating_inc(x: usize) -> (r: usize)
    ensures
        r == (if x < usize::MAX {
            x + 1
        } else {
            x as int
        }),
{
    if x < usize::MAX {
        x + 1
    } else {
        x
    }
}

/// Sets the cells of `group` on the hypothesis to the placement `comb`.
fn place_mines(hyp: &mut GameState, gs: &GameState, group: &Vec<usize>, comb: &Vec<usize>)
    requires
        old(hyp).field@.len() == gs.field@.len(),
        distinct_cells(group@, gs.field@.len()),
        is_combination(comb@, group@.len()),
        forall|i: int|
            0 <= i < gs.field@.len() && !in_group(group@, i) ==> #[trigger] old(hyp).field@[i]
                == gs.field@[i],
    ensures
        final(hyp).field@ == placed(gs.field@, group@, comb@),
        final(hyp).width == old(hyp).width,
        final(hyp).height == old(hyp).height,
        final(hyp).game_condition == old(hyp).game_condition,
        final(hyp).bomb_count == old(hyp).bomb_count,
        final(hyp).flagged_count == old(hyp).flagged_count,
{
    let n = group.len();
    let mut picked: Vec<bool> = Vec::new();
    let mut k: usize = 0;
    while k < n
        invariant
            k <= n,
            n == group@.len(),
            picked@.len() == k,
            forall|q: int| 0 <= q < k ==> !(#[trigger] picked@[q]),
        decreases n - k,
    {
        picked.push(false);
        k += 1;
    }
    let mut q: usize = 0;
    while q < comb.len()
        invariant
            q <= comb@.len(),
            n == group@.len(),
            picked@.len() == n,
            is_combination(comb@, n as nat),
            forall|j: int|
                0 <= j < n ==> #[trigger] picked@[j] == comb@.subrange(0, q as int).contains(
                    j as usize,
                ),
        decreases comb@.len() - q,
    {
        let e = comb[q];
        picked.set(e, true);
        proof {
            assert forall|j: int| 0 <= j < n implies #[trigger] picked@[j] == comb@.subrange(
                0,
                q + 1,
            ).contains(j as usize) by {
                if comb@.subrange(0, q + 1).contains(j as usize) {
                    let w = choose|w: int|
                        0 <= w < q + 1 && #[trigger] comb@.subrange(0, q + 1)[w] == j as usize;
                    if w < q {
                        assert(comb@.subrange(0, q as int)[w] == j as usize);
                    }
                }
                if comb@.subrange(0, q as int).contains(j as usize) {
                    let w = choose|w: int|
                        0 <= w < q && #[trigger] comb@.subrange(0, q as int)[w] == j as usize;
                    assert(comb@.subrange(0, q + 1)[w] == j as usize);
                }
                if j == e {
                    assert(comb@.subrange(0, q + 1)[q as int] == j as usize);
                }
            }
        }
        q += 1;
    }
    assert(comb@.subrange(0, comb@.len() as int) =~= comb@);
    let ghost before = hyp.field@;
    let mut k: usize = 0;
    while k < n
        invariant
            k <= n,
            n == group@.len(),
            picked@.len() == n,
            hyp.field@.len() == gs.field@.len(),
            distinct_cells(group@, gs.field@.len()),
            hyp.width == old(hyp).width,
            hyp.height == old(hyp).height,
            hyp.game_condition == old(hyp).game_condition,
            hyp.bomb_count == old(hyp).bomb_count,
            hyp.flagged_count == old(hyp).flagged_count,
            forall|j: int| 0 <= j < n ==> #[trigger] picked@[j] == comb@.contains(j as usize),
            forall|j: int|
                0 <= j < k ==> #[trigger] hyp.field@[group@[j] as int] == (Cell {
                    state: if comb@.contains(j as usize) {
                        CellState::Mine
                    } else {
                        CellState::Empty
                    },
                    visibility: gs.field@[group@[j] as int].visibility,
                }),
            forall|i: int|
                0 <= i < gs.field@.len() && !(exists|j: int| 0 <= j < k && group@[j] == i)
                    ==> #[trigger] hyp.field@[i] == before[i],
        decreases n - k,
    {
        let i = group[k];
        let state = if picked[k] {
            CellState::Mine
        } else {
            CellState::Empty
        };
        let cell = Cell { state, visibility: gs.field[i].visibility };
        hyp.field.set(i, cell);
        k += 1;
    }
    proof {
        assert forall|i: int| 0 <= i < gs.field@.len() implies #[trigger] hyp.field@[i] == placed(
            gs.field@,
            group@,
            comb@,
        )[i] by {
            if in_group(group@, i) {
                let j = choose|j: int| 0 <= j < group@.len() && group@[j] == i;
                assert(hyp.field@[group@[j] as int] == hyp.field@[i]);
            } else {
                assert(!(exists|j: int| 0 <= j < n && group@[j] == i));
            }
        }
        assert(hyp.field@ =~= placed(gs.field@, group@, comb@));
    }
}

/// The combinations handed out so far, followed by the one about to be processed.
pub open spec fn seen_then(seen: Seq<Seq<usize>>, cur: Option<Vec<usize>>) -> Seq<Seq<usize>> {
    match cur {
        Some(c) => seen.push(c@),
        None => seen,
    }
}

/// Enumerates every placement of `mines` mines on the cells of `group` and counts, per
/// position of the group, the placements that agree with every revealed clue and put a
/// mine there; also counts the placements that agree. Counts stop at `usize::MAX`.
pub fn tally_group(gs: &GameState, group: &Vec<usize>, mines: usize) -> (res: (Vec<usize>, usize))
    requires
        gs.shape_ok(),
        distinct_cells(group@, gs.field@.len()),
    ensures
        res.0@.len() == group@.len(),
        forall|k: int|
            0 <= k < group@.len() ==> #[trigger] res.0@[k] == saturated(
                valid_with(gs, group@, combinations(group@.len(), mines as nat), k),
            ),
        res.1 == saturated(valid_total(gs, group@, combinations(group@.len(), mines as nat))),
{
    let n = group.len();
    let mut hyp = gs.hypothesis();
    let mut tally: Vec<usize> = Vec::new();
    let mut k: usize = 0;
    while k < n
        invariant
            k <= n,
            tally@.len() == k,
            forall|q: int| 0 <= q < k ==> #[trigger] tally@[q] == 0,
        decreases n - k,
    {
        tally.push(0);
        k += 1;
    }
    let mut valid: usize = 0;
    let mut it = CombinationIterator::new(n, mines);
    let ghost mut seen: Seq<Seq<usize>> = Seq::empty();
    let mut cur = it.next();
    while cur.is_some()
        invariant
            gs.shape_ok(),
            n == group@.len(),
            distinct_cells(group@, gs.field@.len()),
            it.wf(),
            it.n() == n,
            it.r() == mines,
            hyp.field@.len() == gs.field@.len(),
            hyp.width == gs.width,
            hyp.height == gs.height,
            hyp.shape_ok(),
            forall|i: int|
                0 <= i < gs.field@.len() && !in_group(group@, i) ==> #[trigger] hyp.field@[i]
                    == gs.field@[i],
            mines > n ==> cur is None && seen.len() == 0,
            mines <= n ==> {
                let full = seen_then(seen, cur);
                &&& full.len() > 0
                &&& full[0] == crate::combination::first_combination(mines as nat)
                &&& forall|q: int|
                    0 <= q < full.len() - 1 ==> successor(#[trigger] full[q], n as nat) == Some(
                        full[q + 1],
                    )
            },
            cur matches Some(c) ==> it.current() == successor(c@, n as nat) && is_combination(
                c@,
                n as nat,
            ) && c@.len() == mines,
            mines <= n && cur is None ==> successor(seen.last(), n as nat) is None,
            tally@.len() == n,
            forall|q: int|
                0 <= q < n ==> #[trigger] tally@[q] == saturated(valid_with(gs, group@, seen, q)),
            valid == saturated(valid_total(gs, group@, seen)),
        decreases it.remaining() + if cur is Some {
            1int
        } else {
            0int
        },
    {
        let comb = cur.unwrap();
        place_mines(&mut hyp, gs, group, &comb);
        let ok = gs.validate(&hyp);
        let ghost old_tally = tally@;
        if ok {
            let mut q: usize = 0;
            while q < comb.len()
                invariant
                    q <= comb@.len(),
                    is_combination(comb@, n as nat),
                    tally@.len() == n,
                    forall|j: int|
                        0 <= j < n ==> #[trigger] tally@[j] == if comb@.subrange(
                            0,
                            q as int,
                        ).contains(j as usize) {
                            saturated(valid_with(gs, group@, seen, j) + 1)
                        } else {
                            old_tally[j] as nat
                        },
                    forall|j: int|
                        0 <= j < n ==> #[trigger] old_tally[j] == saturated(
                            valid_with(gs, group@, seen, j),
                        ),
                decreases comb@.len() - q,
            {
                let e = comb[q];
                let t = saturating_inc(tally[e]);
                tally.set(e, t);
                proof {
                    assert forall|j: int| 0 <= j < n implies #[trigger] tally@[j] == if comb@.subrange(
                        0,
                        q + 1,
                    ).contains(j as usize) {
                        saturated(valid_with(gs, group@, seen, j) + 1)
                    } else {
                        old_tally[j] as nat
                    } by {
                        if j == e {
                            assert(comb@.subrange(0, q + 1)[q as int] == j as usize);
                            if comb@.subrange(0, q as int).contains(j as usize) {
                                let w = choose|w: int|
                                    0 <= w < q && #[trigger] comb@.subrange(0, q as int)[w]
                                        == j as usize;
                                assert(comb@[w] == comb@[q as int]);
                            }
                        } else {
                            if comb@.subrange(0, q + 1).contains(j as usize) {
                                let w = choose|w: int|
                                    0 <= w < q + 1 && #[trigger] comb@.subrange(0, q + 1)[w]
                                        == j as usize;
                                assert(comb@.subrange(0, q as int)[w] == j as usize);
                            }
                            if comb@.subrange(0, q as int).contains(j as usize) {
                                let w = choose|w: int|
                                    0 <= w < q && #[trigger] comb@.subrange(0, q as int)[w]
                                        == j as usize;
                                assert(comb@.subrange(0, q + 1)[w] == j as usize);
                            }
                        }
                    }
                }
                q += 1;
            }
            assert(comb@.subrange(0, comb@.len() as int) =~= comb@);
            valid = saturating_inc(valid);
        }
        proof {
            let grown = seen.push(comb@);
            assert(grown.drop_last() =~= seen);
            assert forall|j: int| 0 <= j < n implies #[trigger] tally@[j] == saturated(
                valid_with(gs, group@, grown, j),
            ) by {
                if !ok {
                    assert(!placement_valid(gs, group@, comb@));
                }
            }
            seen = grown;
        }
        cur = it.next();
    }
    proof {
        assert(is_enumeration(seen, n as nat, mines as nat));
        lemma_combinations(seen, n as nat, mines as nat);
    }
    (tally, valid)
}

/// The positions below `m` that the combination `c` picks.
pub open spec fn picked_below(c: Seq<usize>, m: int) -> nat
    decreases m,
{
    if m <= 0 {
        0
    } else {
        picked_below(c, m - 1) + if c.contains((m - 1) as usize) {
            1nat
        } else {
            0nat
        }
    }
}

/// The tallies of the positions below `m` added up.
pub open spec fn tally_sum(gs: &GameState, group: Seq<usize>, run: Seq<Seq<usize>>, m: int) -> nat
    decreases m,
{
    if m <= 0 {
        0
    } else {
        tally_sum(gs, group, run, m - 1) + valid_with(gs, group, run, m - 1)
    }
}

proof fn lemma_picked_same(c: Seq<usize>, d: Seq<usize>, m: int)
    requires
        0 <= m,
        m <= usize::MAX + 1,
        forall|k: int| 0 <= k < m ==> (#[trigger] c.contains(k as usize) <==> d.contains(k as usize)),
    ensures
        picked_below(c, m) == picked_below(d, m),
    decreases m,
{
    if m > 0 {
        lemma_picked_same(c, d, m - 1);
    }
}

/// A combination picks exactly as many positions as it is long.
proof fn lemma_picked_count(c: Seq<usize>, n: nat)
    requires
        is_combination(c, n),
        n <= usize::MAX,
    ensures
        picked_below(c, n as int) == c.len(),
    decreases n,
{
    if n == 0 && c.len() > 0 {
        assert(c[0] < n);
    }
    if n > 0 {
        let m = (n - 1) as nat;
        if c.contains(m as usize) {
            let w = choose|w: int| 0 <= w < c.len() && c[w] == m as usize;
            if w < c.len() - 1 {
                assert(c[w] < c[c.len() - 1]);
            }
            let d = c.drop_last();
            assert forall|k: int| 0 <= k < m implies (#[trigger] c.contains(k as usize) <==> d.contains(
                k as usize,
            )) by {
                if c.contains(k as usize) {
                    let v = choose|v: int| 0 <= v < c.len() && c[v] == k as usize;
                    assert(v != c.len() - 1);
                    assert(d[v] == k as usize);
                }
                if d.contains(k as usize) {
                    let v = choose|v: int| 0 <= v < d.len() && d[v] == k as usize;
                    assert(c[v] == k as usize);
                }
            }
            lemma_picked_same(c, d, m as int);
            assert forall|i: int| 0 <= i < d.len() implies d[i] < m by {
                assert(c[i] < c[c.len() - 1]);
            }
            lemma_picked_count(d, m);
            assert(picked_below(c, n as int) == picked_below(c, m as int) + 1);
        } else {
            assert forall|i: int| 0 <= i < c.len() implies c[i] < m by {
                assert(c[i] != m as usize);
            }
            lemma_picked_count(c, m);
            assert(picked_below(c, n as int) == picked_below(c, m as int));
        }
    }
}

proof fn lemma_tally_sum_empty(gs: &GameState, group: Seq<usize>, run: Seq<Seq<usize>>, m: int)
    requires
        run.len() == 0,
    ensures
        tally_sum(gs, group, run, m) == 0,
    decreases m,
{
    if m > 0 {
        lemma_tally_sum_empty(gs, group, run, m - 1);
    }
}

proof fn lemma_tally_sum_step(gs: &GameState, group: Seq<usize>, run: Seq<Seq<usize>>, m: int)
    requires
        run.len() > 0,
        0 <= m,
    ensures
        tally_sum(gs, group, run, m) == tally_sum(gs, group, run.drop_last(), m) + if placement_valid(
            gs,
            group,
            run.last(),
        ) {
            picked_below(run.last(), m)
        } else {
            0
        },
    decreases m,
{
    if m > 0 {
        lemma_tally_sum_step(gs, group, run, m - 1);
    }
}

/// Over any run of `r`-combinations of a group's positions, the group's tallies add up to
/// `r` times the number of agreeing placements: each agreeing placement puts exactly `r`
/// mines on the group. With `r = 1`, cells that no clue tells apart share the agreeing
/// placements evenly.
pub proof fn lemma_tallies_add_up(gs: &GameState, group: Seq<usize>, run: Seq<Seq<usize>>, r: nat)
    requires
        group.len() <= usize::MAX,
        forall|q: int|
            0 <= q < run.len() ==> #[trigger] run[q].len() == r && is_combination(run[q], group.len()),
    ensures
        tally_sum(gs, group, run, group.len() as int) == r * valid_total(gs, group, run),
    decreases run.len(),
{
    if run.len() == 0 {
        lemma_tally_sum_empty(gs, group, run, group.len() as int);
        assert(valid_total(gs, group, run) == 0);
        assert(r * 0 == 0);
    } else {
        let prev = run.drop_last();
        assert forall|q: int| 0 <= q < prev.len() implies #[trigger] prev[q].len() == r
            && is_combination(prev[q], group.len()) by {
            assert(prev[q] == run[q]);
        }
        lemma_tallies_add_up(gs, group, prev, r);
        lemma_tally_sum_step(gs, group, run, group.len() as int);
        assert(run[run.len() - 1] == run.last());
        lemma_picked_count(run.last(), group.len());
        assert(picked_below(run.last(), group.len() as int) == r);
        assert(tally_sum(gs, group, prev, group.len() as int) == r * valid_total(gs, group, prev));
        let v = placement_valid(gs, group, run.last());
        assert(tally_sum(gs, group, run, group.len() as int) == tally_sum(
            gs,
            group,
            prev,
            group.len() as int,
        ) + if v {
            r
        } else {
            0
        });
        assert(r * valid_total(gs, group, run) == r * valid_total(gs, group, prev) + if placement_valid(
            gs,
            group,
            run.last(),
        ) {
            r
        } else {
            0
        }) by (nonlinear_arith)
            requires
                valid_total(gs, group, run) == valid_total(gs, group, prev) + if placement_valid(
                    gs,
                    group,
                    run.last(),
                ) {
                    1nat
                } else {
                    0nat
                },
        ;
    }
}

/// The enumeration of one mine among three positions is `[0], [1], [2]`.
pub proof fn lemma_one_of_three()
    ensures
        combinations(3, 1) == seq![seq![0usize], seq![1usize], seq![2usize]],
{
    let run = seq![seq![0usize], seq![1usize], seq![2usize]];
    assert(crate::combination::first_combination(1) =~= seq![0usize]);
    assert(crate::combination::pivot(seq![0usize], 3, 1) == 0);
    assert(successor(seq![0usize], 3) == Some(seq![1usize])) by {
        assert(successor(seq![0usize], 3)->Some_0 =~= seq![1usize]);
    }
    assert(crate::combination::pivot(seq![1usize], 3, 1) == 0);
    assert(successor(seq![1usize], 3) == Some(seq![2usize])) by {
        assert(successor(seq![1usize], 3)->Some_0 =~= seq![2usize]);
    }
    assert(crate::combination::pivot(seq![2usize], 3, 1) == -1) by {
        assert(crate::combination::pivot(seq![2usize], 3, 0) == -1);
    }
    assert(run[1] == seq![1usize] && run[2] == seq![2usize]);
    assert(is_enumeration(run, 3, 1));
    lemma_combinations(run, 3, 1);
}

/// With one mine among three cells that no clue constrains, the enumeration finds three
/// agreeing placements and each cell holds the mine in exactly one of them: a third of
/// the agreeing placements each.
pub proof fn lemma_symmetric_three(gs: &GameState, group: Seq<usize>)
    requires
        group.len() == 3,
        forall|c: Seq<usize>| #[trigger] placement_valid(gs, group, c),
    ensures
        valid_total(gs, group, combinations(3, 1)) == 3,
        forall|k: int| 0 <= k < 3 ==> 3 * #[trigger] valid_with(gs, group, combinations(3, 1), k)
            == valid_total(gs, group, combinations(3, 1)),
{
    lemma_one_of_three();
    let run = seq![seq![0usize], seq![1usize], seq![2usize]];
    assert(placement_valid(gs, group, seq![0usize]));
    assert(placement_valid(gs, group, seq![1usize]));
    assert(placement_valid(gs, group, seq![2usize]));
    let r1 = run.drop_last();
    let r0 = r1.drop_last();
    assert(r1 =~= seq![seq![0usize], seq![1usize]]);
    assert(r0 =~= seq![seq![0usize]]);
    let e = r0.drop_last();
    assert(e =~= Seq::<Seq<usize>>::empty());
    assert(run.last() == seq![2usize] && r1.last() == seq![1usize] && r0.last() == seq![0usize]);
    assert(valid_total(gs, group, e) == 0);
    assert(valid_total(gs, group, r0) == 1);
    assert(valid_total(gs, group, r1) == 2);
    assert(valid_total(gs, group, run) == 3);
    assert forall|k: int| 0 <= k < 3 implies 3 * #[trigger] valid_with(gs, group, combinations(3, 1), k)
        == valid_total(gs, group, combinations(3, 1)) by {
        assert(valid_with(gs, group, e, k) == 0);
        assert(seq![0usize].contains(k as usize) == (k == 0)) by {
            if k == 0 { assert(seq![0usize][0] == 0usize); }
        }
        assert(seq![1usize].contains(k as usize) == (k == 1)) by {
            if k == 1 { assert(seq![1usize][0] == 1usize); }
        }
        assert(seq![2usize].contains(k as usize) == (k == 2)) by {
            if k == 2 { assert(seq![2usize][0] == 2usize); }
        }
        assert(valid_with(gs, group, r0, k) == if k == 0 { 1nat } else { 0nat });
        assert(valid_with(gs, group, r1, k) == if k <= 1 { 1nat } else { 0nat });
        assert(valid_with(gs, group, run, k) == 1);
    }
}

} // verus!
