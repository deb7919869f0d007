use crate::game::{Cell, CellVisibility, GameState};
use vstd::prelude::*;

verus! {

/// Indices of the cells among the first `k` of `f` that are still unknown, in order.
pub open spec fn unknown_upto(f: Seq<Cell>, k: int) -> Seq<usize>
    decreases k,
{
    if k <= 0 {
        seq![]
    } else if f[k - 1].visibility == CellVisibility::Unknown {
        unknown_upto(f, k - 1).push((k - 1) as usize)
    } else {
        unknown_upto(f, k - 1)
    }
}

pub proof fn lemma_unknown_upto(f: Seq<Cell>, k: int)
    requires
        0 <= k <= f.len(),
        f.len() <= usize::MAX,
    ensures
        forall|a: int, b: int|
            0 <= a < b < unknown_upto(f, k).len() ==> unknown_upto(f, k)[a] < unknown_upto(f, k)[b],
        forall|a: int|
            0 <= a < unknown_upto(f, k).len() ==> unknown_upto(f, k)[a] < k && f[unknown_upto(
                f,
                k,
            )[a] as int].visibility == CellVisibility::Unknown,
        forall|i: int|
            0 <= i < k && f[i].visibility == CellVisibility::Unknown ==> unknown_upto(
                f,
                k,
            ).contains(i as usize),
    decreases k,
{
    if k > 0 {
        lemma_unknown_upto(f, k - 1);
        let prev = unknown_upto(f, k - 1);
        if f[k - 1].visibility == CellVisibility::Unknown {
            assert(unknown_upto(f, k)[prev.len() as int] == (k - 1) as usize);
            assert forall|i: int|
                0 <= i < k && f[i].visibility == CellVisibility::Unknown implies unknown_upto(
                f,
                k,
            ).contains(i as usize) by {
                if i < k - 1 {
                    let q = choose|q: int| 0 <= q < prev.len() && prev[q] == i as usize;
                    assert(unknown_upto(f, k)[q] == i as usize);
                }
            }
        }
    }
}

pub proof fn lemma_unknown_upto_len(f: Seq<Cell>, k: int)
    requires
        0 <= k <= f.len(),
    ensures
        unknown_upto(f, k).len() <= k,
    decreases k,
{
    if k > 0 {
        lemma_unknown_upto_len(f, k - 1);
    }
}

/// The indices of the cells that are still unknown, in increasing order.
pub fn unknown_cells(gs: &GameState) -> (cells: Vec<usize>)
    ensures
        cells@ == unknown_upto(gs.field@, gs.field@.len() as int),
{
    let mut cells: Vec<usize> = Vec::new();
    let mut i: usize = 0;
    while i < gs.field.len()
        invariant
            i <= gs.field@.len(),
            cells@ == unknown_upto(gs.field@, i as int),
        decreases gs.field@.len() - i,
    {
        if gs.field[i].visibility == CellVisibility::Unknown {
            cells.push(i);
        }
        i += 1;
    }
    cells
}

/// The cells of `group` are distinct positions of a field of `len` cells.
pub open spec fn distinct_cells(group: Seq<usize>, len: nat) -> bool {
    &&& forall|a: int, b: int| 0 <= a < b < group.len() ==> group[a] != group[b]
    &&& forall|a: int| 0 <= a < group.len() ==> group[a] < len
}

/// All members of `groups`, group after group.
pub open spec fn flat(groups: Seq<Seq<usize>>) -> Seq<usize>
    decreases groups.len(),
{
    if groups.len() == 0 {
        seq![]
    } else {
        flat(groups.drop_last()) + groups.last()
    }
}

pub open spec fn views(groups: Seq<Vec<usize>>) -> Seq<Seq<usize>> {
    Seq::new(groups.len(), |g: int| groups[g]@)
}

/// The index of the `m`-th neighbor of the `j`-th neighbor of cell `a`.
pub open spec fn probe(gs: &GameState, a: usize, j: int, m: int) -> int {
    let w = gs.width as int;
    let c = gs.neighbors_of(a as int % w, a as int / w)[j];
    let d = gs.neighbors_of(c.0 as int, c.1 as int)[m];
    crate::game::cell_index(gs.width as nat, d.0 as int, d.1 as int)
}

/// The `j`-th neighbor of cell `a` is a revealed cell with an `m`-th neighbor.
pub open spec fn probe_ok(gs: &GameState, a: usize, j: int, m: int) -> bool {
    let w = gs.width as int;
    let na = gs.neighbors_of(a as int % w, a as int / w);
    &&& 0 <= j < na.len()
    &&& gs.cell(na[j].0 as int, na[j].1 as int).visibility is Empty
    &&& 0 <= m < gs.neighbors_of(na[j].0 as int, na[j].1 as int).len()
}

/// Cells `a` and `b` share a revealed neighbor: some revealed cell around `a` has `b`
/// around it.
pub open spec fn linked(gs: &GameState, a: usize, b: usize) -> bool {
    exists|j: int, m: int| probe_ok(gs, a, j, m) && #[trigger] probe(gs, a, j, m) == b
}

/// Every unknown cell linked to a member of `cells` is among them.
pub open spec fn closed(gs: &GameState, cells: Seq<usize>) -> bool {
    forall|p: int, b: usize|
        0 <= p < cells.len() && b < gs.field@.len() && gs.field@[b as int].visibility
            == CellVisibility::Unknown && #[trigger] linked(gs, cells[p], b) ==> cells.contains(b)
}

proof fn lemma_probe_in_range(gs: &GameState, a: usize, j: int, m: int)
    requires
        gs.shape_ok(),
        a < gs.field@.len(),
        probe_ok(gs, a, j, m),
    ensures
        0 <= probe(gs, a, j, m) < gs.field@.len(),
{
    let w = gs.width as nat;
    let h = gs.height as nat;
    crate::game::lemma_index_cell(w, h, a as int);
    let ax = a as int % (w as int);
    let ay = a as int / (w as int);
    crate::game::lemma_neighbors_in_grid(w, h, ax, ay);
    let c = gs.neighbors_of(ax, ay)[j];
    assert(crate::game::in_grid(w, h, c.0 as int, c.1 as int));
    crate::game::lemma_neighbors_in_grid(w, h, c.0 as int, c.1 as int);
    let d = gs.neighbors_of(c.0 as int, c.1 as int)[m];
    assert(crate::game::in_grid(w, h, d.0 as int, d.1 as int));
    crate::game::lemma_cell_index(w, h, d.0 as int, d.1 as int);
}

proof fn lemma_linked_symmetric(gs: &GameState, a: usize, b: usize)
    requires
        gs.shape_ok(),
        a < gs.field@.len(),
        b < gs.field@.len(),
        linked(gs, a, b),
    ensures
        linked(gs, b, a),
{
    let w = gs.width as nat;
    let h = gs.height as nat;
    let (j, m) = choose|j: int, m: int| probe_ok(gs, a, j, m) && #[trigger] probe(gs, a, j, m) == b;
    crate::game::lemma_index_cell(w, h, a as int);
    let ax = a as int % (w as int);
    let ay = a as int / (w as int);
    let na = gs.neighbors_of(ax, ay);
    crate::game::lemma_neighbors_in_grid(w, h, ax, ay);
    let c = na[j];
    assert(crate::game::in_grid(w, h, c.0 as int, c.1 as int));
    let nc = gs.neighbors_of(c.0 as int, c.1 as int);
    crate::game::lemma_neighbors_in_grid(w, h, c.0 as int, c.1 as int);
    let d = nc[m];
    assert(crate::game::in_grid(w, h, d.0 as int, d.1 as int));
    crate::game::lemma_cell_index(w, h, d.0 as int, d.1 as int);
    crate::game::lemma_neighbor_symmetric(w, h, c.0 as int, c.1 as int, m);
    crate::game::lemma_neighbor_symmetric(w, h, ax, ay, j);
    let nd = gs.neighbors_of(d.0 as int, d.1 as int);
    assert(nd.contains((c.0 as int as usize, c.1 as int as usize)));
    let j2 = choose|j2: int| 0 <= j2 < nd.len() && nd[j2] == (c.0 as int as usize, c.1 as int as usize);
    assert(nc.contains((ax as usize, ay as usize)));
    let m2 = choose|m2: int| 0 <= m2 < nc.len() && nc[m2] == (ax as usize, ay as usize);
    assert(nd[j2] == c);
    assert(probe_ok(gs, b, j2, m2));
    assert(probe(gs, b, j2, m2) == a);
}

/// The member at position `k` is linked to a member before it.
pub open spec fn linked_back(gs: &GameState, group: Seq<usize>, k: int) -> bool {
    exists|p: int| 0 <= p < k && #[trigger] linked(gs, group[p], group[k])
}

/// Every member of the group after the first is linked to an earlier member.
pub open spec fn spans(gs: &GameState, group: Seq<usize>) -> bool {
    forall|k: int| 0 < k < group.len() ==> #[trigger] linked_back(gs, group, k)
}

/// `groups` splits the unknown cells of `gs`: no cell twice, every unknown cell once,
/// nothing else, no empty group, each group held together by shared clues, and no
/// revealed clue shared between two groups.
pub open spec fn is_grouping(gs: &GameState, groups: Seq<Seq<usize>>) -> bool {
    &&& distinct_cells(flat(groups), gs.field@.len())
    &&& forall|q: int|
        0 <= q < flat(groups).len() ==> gs.field@[flat(groups)[q] as int].visibility
            == CellVisibility::Unknown
    &&& forall|i: int|
        0 <= i < gs.field@.len() && gs.field@[i].visibility == CellVisibility::Unknown ==> flat(
            groups,
        ).contains(i as usize)
    &&& forall|g: int| 0 <= g < groups.len() ==> #[trigger] groups[g].len() > 0
    &&& forall|g: int| 0 <= g < groups.len() ==> spans(gs, #[trigger] groups[g])
    &&& forall|g: int| 0 <= g < groups.len() ==> closed(gs, #[trigger] groups[g])
}

pub open spec fn count_false(s: Seq<bool>) -> nat
    decreases s.len(),
{
    if s.len() == 0 {
        0
    } else {
        count_false(s.drop_last()) + if s.last() {
            0nat
        } else {
            1nat
        }
    }
}

proof fn lemma_count_false_set(s: Seq<bool>, i: int)
    requires
        0 <= i < s.len(),
        !s[i],
    ensures
        count_false(s.update(i, true)) + 1 == count_false(s),
    decreases s.len(),
{
    if i < s.len() - 1 {
        assert(s.update(i, true).drop_last() =~= s.drop_last().update(i, true));
        lemma_count_false_set(s.drop_last(), i);
    } else {
        assert(s.update(i, true).drop_last() =~= s.drop_last());
    }
}

/// `grouped` marks exactly the cells of `all`, which are distinct unknown cells.
pub open spec fn marks_ok(gs: &GameState, grouped: Seq<bool>, all: Seq<usize>) -> bool {
    &&& grouped.len() == gs.field@.len()
    &&& distinct_cells(all, gs.field@.len())
    &&& forall|q: int|
        0 <= q < all.len() ==> gs.field@[#[trigger] all[q] as int].visibility
            == CellVisibility::Unknown
    &&& forall|i: int| 0 <= i < grouped.len() ==> (#[trigger] grouped[i] <==> all.contains(i as usize))
}

proof fn lemma_marks_push(gs: &GameState, grouped: Seq<bool>, prefix: Seq<usize>, g: Seq<usize>, b: usize)
    requires
        gs.shape_ok(),
        marks_ok(gs, grouped, prefix + g),
        b < grouped.len(),
        !grouped[b as int],
        gs.field@[b as int].visibility == CellVisibility::Unknown,
    ensures
        marks_ok(gs, grouped.update(b as int, true), prefix + g.push(b)),
{
    let all = prefix + g;
    let all2 = prefix + g.push(b);
    assert(all2 =~= all.push(b));
    assert(all2[all.len() as int] == b);
    assert forall|i: int| 0 <= i < grouped.len() implies (#[trigger] grouped.update(b as int, true)[i]
        <==> all2.contains(i as usize)) by {
        if i == b {
            assert(all2[all.len() as int] == b);
        } else {
            if all2.contains(i as usize) {
                let q = choose|q: int| 0 <= q < all2.len() && #[trigger] all2[q] == i as usize;
                assert(q != all.len());
                assert(all[q] == i as usize);
            }
            if all.contains(i as usize) {
                let q = choose|q: int| 0 <= q < all.len() && #[trigger] all[q] == i as usize;
                assert(all2[q] == i as usize);
            }
        }
    }
    assert forall|x: int, y: int| 0 <= x < y < all2.len() implies all2[x] != all2[y] by {
        if y == all.len() {
            assert(all.contains(all[x]));
        }
    }
}

proof fn lemma_spans_push(gs: &GameState, g: Seq<usize>, cur: int, b: usize)
    requires
        spans(gs, g),
        0 <= cur < g.len(),
        linked(gs, g[cur], b),
    ensures
        spans(gs, g.push(b)),
{
    assert forall|k: int| 0 < k < g.push(b).len() implies #[trigger] linked_back(gs, g.push(b), k) by {
        if k < g.len() {
            assert(linked_back(gs, g, k));
            let p = choose|p: int| 0 <= p < k && #[trigger] linked(gs, g[p], g[k]);
            assert(g.push(b)[p] == g[p]);
            assert(g.push(b)[k] == g[k]);
            assert(linked(gs, g.push(b)[p], g.push(b)[k]));
        } else {
            assert(g.push(b)[cur] == g[cur]);
            assert(g.push(b)[k] == b);
            assert(linked(gs, g.push(b)[cur], g.push(b)[k]));
        }
    }
}

/// Adds to the group every unknown, ungrouped cell that shares a revealed neighbor with the
/// member at position `cur`.
fn absorb_around(
    gs: &GameState,
    grouped: &mut Vec<bool>,
    g: &mut Vec<usize>,
    cur: usize,
    prefix: Ghost<Seq<usize>>,
)
    requires
        gs.shape_ok(),
        marks_ok(gs, old(grouped)@, prefix@ + old(g)@),
        spans(gs, old(g)@),
        closed(gs, prefix@),
        cur < old(g)@.len(),
    ensures
        forall|b: usize|
            b < gs.field@.len() && gs.field@[b as int].visibility == CellVisibility::Unknown
                && #[trigger] linked(gs, final(g)@[cur as int], b) ==> final(g)@.contains(b),
        marks_ok(gs, final(grouped)@, prefix@ + final(g)@),
        spans(gs, final(g)@),
        final(g)@.len() >= old(g)@.len(),
        final(g)@.subrange(0, old(g)@.len() as int) == old(g)@,
        count_false(final(grouped)@) + final(g)@.len() == count_false(old(grouped)@) + old(
            g,
        )@.len(),
{
    let ghost g0 = g@;
    let ghost f0 = count_false(grouped@);
    let w = gs.width;
    let ghost wn = gs.width as nat;
    let ghost hn = gs.height as nat;
    let a = g[cur];
    proof {
        assert((prefix@ + g@)[prefix@.len() + cur] == a);
        crate::game::lemma_index_cell(wn, hn, a as int);
    }
    let na = gs.neighbors(a % w, a / w);
    proof {
        crate::game::lemma_neighbors_in_grid(wn, hn, (a % w) as int, (a / w) as int);
    }
    let mut j: usize = 0;
    while j < na.len()
        invariant
            gs.shape_ok(),
            w == gs.width,
            wn == w,
            hn == gs.height,
            j <= na@.len(),
            na@ == gs.neighbors_of(a as int % w as int, a as int / w as int),
            forall|q: int|
                0 <= q < na@.len() ==> crate::game::in_grid(
                    wn,
                    hn,
                    #[trigger] na@[q].0 as int,
                    na@[q].1 as int,
                ),
            cur < g@.len(),
            g@[cur as int] == a,
            a < gs.field@.len(),
            marks_ok(gs, grouped@, prefix@ + g@),
            spans(gs, g@),
            g@.len() >= g0.len(),
            g@.subrange(0, g0.len() as int) == g0,
            count_false(grouped@) + g@.len() == f0 + g0.len(),
            grouped@.len() == gs.field@.len(),
            forall|jj: int, mm: int|
                0 <= jj < j && probe_ok(gs, a, jj, mm) && gs.field@[probe(gs, a, jj, mm)].visibility
                    == CellVisibility::Unknown ==> grouped@[#[trigger] probe(gs, a, jj, mm)],
        decreases na@.len() - j,
    {
        let (cx, cy) = na[j];
        proof {
            crate::game::lemma_cell_index(wn, hn, cx as int, cy as int);
        }
        if let CellVisibility::Empty(_) = gs.field[cy * w + cx].visibility {
            let nc = gs.neighbors(cx, cy);
            proof {
                crate::game::lemma_neighbors_in_grid(wn, hn, cx as int, cy as int);
            }
            let mut m: usize = 0;
            while m < nc.len()
                invariant
                    gs.shape_ok(),
                    w == gs.width,
                    wn == w,
                    hn == gs.height,
                    j < na@.len(),
                    na@ == gs.neighbors_of(a as int % w as int, a as int / w as int),
                    na@[j as int] == (cx, cy),
                    gs.cell(cx as int, cy as int).visibility is Empty,
                    m <= nc@.len(),
                    nc@ == gs.neighbors_of(cx as int, cy as int),
                    forall|q: int|
                        0 <= q < nc@.len() ==> crate::game::in_grid(
                            wn,
                            hn,
                            #[trigger] nc@[q].0 as int,
                            nc@[q].1 as int,
                        ),
                    cur < g@.len(),
                    g@[cur as int] == a,
                    a < gs.field@.len(),
                    marks_ok(gs, grouped@, prefix@ + g@),
                    spans(gs, g@),
                    g@.len() >= g0.len(),
                    g@.subrange(0, g0.len() as int) == g0,
                    count_false(grouped@) + g@.len() == f0 + g0.len(),
                    grouped@.len() == gs.field@.len(),
                    forall|jj: int, mm: int|
                        (0 <= jj < j || (jj == j && 0 <= mm < m)) && probe_ok(gs, a, jj, mm)
                            && gs.field@[probe(gs, a, jj, mm)].visibility == CellVisibility::Unknown
                            ==> grouped@[#[trigger] probe(gs, a, jj, mm)],
                decreases nc@.len() - m,
            {
                let (bx, by) = nc[m];
                proof {
                    crate::game::lemma_cell_index(wn, hn, bx as int, by as int);
                }
                let b = by * w + bx;
                assert(probe(gs, a, j as int, m as int) == b);
                let ghost gb = grouped@;
                if gs.field[b].visibility == CellVisibility::Unknown && !grouped[b] {
                    proof {
                        lemma_marks_push(gs, grouped@, prefix@, g@, b);
                        lemma_count_false_set(grouped@, b as int);
                        assert(probe(gs, a, j as int, m as int) == b);
                        assert(probe_ok(gs, a, j as int, m as int));
                        assert(linked(gs, a, b));
                        lemma_spans_push(gs, g@, cur as int, b);
                        assert(g@.push(b).subrange(0, g0.len() as int) =~= g@.subrange(0, g0.len() as int));
                    }
                    grouped.set(b, true);
                    g.push(b);
                }
                proof {
                    assert forall|jj: int, mm: int|
                        (0 <= jj < j || (jj == j && 0 <= mm < m + 1)) && probe_ok(gs, a, jj, mm)
                            && gs.field@[probe(gs, a, jj, mm)].visibility == CellVisibility::Unknown
                            implies grouped@[#[trigger] probe(gs, a, jj, mm)] by {
                        lemma_probe_in_range(gs, a, jj, mm);
                        if jj == j && mm == m {
                            assert(grouped@[b as int]);
                        } else {
                            assert(gb[probe(gs, a, jj, mm)]);
                        }
                    }
                }
                m += 1;
            }
        }
        j += 1;
    }
    proof {
        let all = prefix@ + g@;
        assert(all[prefix@.len() + cur] == a);
        assert forall|b: usize|
            b < gs.field@.len() && gs.field@[b as int].visibility == CellVisibility::Unknown
                && #[trigger] linked(gs, g@[cur as int], b) implies g@.contains(b) by {
            let (jj, mm) = choose|jj: int, mm: int| probe_ok(gs, a, jj, mm) && #[trigger] probe(gs, a, jj, mm) == b;
            assert(grouped@[probe(gs, a, jj, mm)]);
            assert(all.contains(b));
            let x = choose|x: int| 0 <= x < all.len() && all[x] == b;
            if x >= prefix@.len() {
                assert(g@[x - prefix@.len()] == b);
            } else {
                assert(a < gs.field@.len());
                lemma_linked_symmetric(gs, a, b);
                assert(prefix@[x] == b);
                assert(linked(gs, prefix@[x], a));
                assert(prefix@.contains(a));
                let y = choose|y: int| 0 <= y < prefix@.len() && prefix@[y] == a;
                assert(all[y] == a);
            }
        }
    }
}

pub(crate) proof fn lemma_views_push(groups: Seq<Vec<usize>>, g: Vec<usize>)
    ensures
        views(groups.push(g)) == views(groups).push(g@),
        flat(views(groups.push(g))) == flat(views(groups)) + g@,
{
    assert(views(groups.push(g)) =~= views(groups).push(g@));
    assert(views(groups).push(g@).drop_last() =~= views(groups));
}

/// Splits the unknown cells into groups that no revealed clue connects: each group grows
/// breadth-first from an ungrouped unknown cell through shared revealed neighbors.
pub fn group_cells(gs: &GameState) -> (groups: Vec<Vec<usize>>)
    requires
        gs.shape_ok(),
    ensures
        is_grouping(gs, views(groups@)),
{
    let unknown = unknown_cells(gs);
    let len = gs.field.len();
    proof {
        lemma_unknown_upto(gs.field@, len as int);
    }
    let mut grouped: Vec<bool> = Vec::new();
    let mut i: usize = 0;
    while i < len
        invariant
            i <= len,
            len == gs.field@.len(),
            grouped@.len() == i,
            forall|q: int| 0 <= q < i ==> !(#[trigger] grouped@[q]),
        decreases len - i,
    {
        grouped.push(false);
        i += 1;
    }
    let mut groups: Vec<Vec<usize>> = Vec::new();
    let mut t: usize = 0;
    while t < unknown.len()
        invariant
            gs.shape_ok(),
            len == gs.field@.len(),
            t <= unknown@.len(),
            unknown@ == unknown_upto(gs.field@, len as int),
            forall|a: int|
                0 <= a < unknown@.len() ==> unknown@[a] < len && gs.field@[unknown@[a] as int].visibility
                    == CellVisibility::Unknown,
            marks_ok(gs, grouped@, flat(views(groups@))),
            forall|q: int| 0 <= q < t ==> #[trigger] grouped@[unknown@[q] as int],
            forall|g: int| 0 <= g < groups@.len() ==> #[trigger] views(groups@)[g].len() > 0,
            forall|g: int| 0 <= g < groups@.len() ==> spans(gs, #[trigger] views(groups@)[g]),
            forall|g: int| 0 <= g < groups@.len() ==> closed(gs, #[trigger] views(groups@)[g]),
            closed(gs, flat(views(groups@))),
        decreases unknown@.len() - t,
    {
        let u = unknown[t];
        if !grouped[u] {
            let ghost prefix = flat(views(groups@));
            let ghost start = grouped@;
            let mut g: Vec<usize> = Vec::new();
            proof {
                assert(prefix + g@ =~= prefix);
                lemma_marks_push(gs, grouped@, prefix, g@, u);
                lemma_count_false_set(grouped@, u as int);
            }
            grouped.set(u, true);
            g.push(u);
            let mut cur: usize = 0;
            while cur < g.len()
                invariant
                    gs.shape_ok(),
                    len == gs.field@.len(),
                    cur <= g@.len(),
                    g@.len() > 0,
                    g@[0] == u,
                    marks_ok(gs, grouped@, prefix + g@),
                    spans(gs, g@),
                    closed(gs, prefix),
                    forall|p: int, b: usize|
                        0 <= p < cur && b < gs.field@.len() && gs.field@[b as int].visibility
                            == CellVisibility::Unknown && #[trigger] linked(gs, g@[p], b)
                            ==> g@.contains(b),
                decreases count_false(grouped@) + g@.len() - cur,
            {
                let ghost before = g@;
                absorb_around(gs, &mut grouped, &mut g, cur, Ghost(prefix));
                assert(g@[0] == g@.subrange(0, before.len() as int)[0]);
                proof {
                    assert forall|p: int, b: usize|
                        0 <= p < cur + 1 && b < gs.field@.len() && gs.field@[b as int].visibility
                            == CellVisibility::Unknown && #[trigger] linked(gs, g@[p], b)
                            implies g@.contains(b) by {
                        if p < cur {
                            assert(g@[p] == before[p]);
                            assert(linked(gs, before[p], b));
                            assert(before.contains(b));
                            let x = choose|x: int| 0 <= x < before.len() && before[x] == b;
                            assert(g@[x] == b);
                        }
                    }
                }
                cur += 1;
            }
            proof {
                lemma_views_push(groups@, g);
                assert(views(groups@.push(g))[groups@.len() as int] == g@);
                let all = prefix + g@;
                assert forall|p: int, b: usize|
                    0 <= p < all.len() && b < gs.field@.len() && gs.field@[b as int].visibility
                        == CellVisibility::Unknown && #[trigger] linked(gs, all[p], b)
                        implies all.contains(b) by {
                    if p < prefix.len() {
                        assert(linked(gs, prefix[p], b));
                        let x = choose|x: int| 0 <= x < prefix.len() && prefix[x] == b;
                        assert(all[x] == b);
                    } else {
                        assert(linked(gs, g@[p - prefix.len()], b));
                        let x = choose|x: int| 0 <= x < g@.len() && g@[x] == b;
                        assert(all[prefix.len() + x] == b);
                    }
                }
                assert(all[prefix.len() as int] == u);
                assert forall|q: int| 0 <= q <= t implies #[trigger] grouped@[unknown@[q] as int] by {
                    let v = unknown@[q];
                    if q < t {
                        assert(start[v as int]);
                        assert(prefix.contains(v));
                        let w = choose|w: int| 0 <= w < prefix.len() && prefix[w] == v;
                        assert(all[w] == v);
                    }
                }
            }
            groups.push(g);
        }
        t += 1;
    }
    proof {
        let all = flat(views(groups@));
        assert forall|i: int|
            0 <= i < gs.field@.len() && gs.field@[i].visibility == CellVisibility::Unknown implies all.contains(
            i as usize,
        ) by {
            assert(unknown@.contains(i as usize));
            let q = choose|q: int| 0 <= q < unknown@.len() && unknown@[q] == i as usize;
            assert(grouped@[unknown@[q] as int]);
        }
    }
    groups
}

pub(crate) proof fn lemma_distinct_split(a: Seq<usize>, b: Seq<usize>, len: nat)
    requires
        distinct_cells(a + b, len),
    ensures
        distinct_cells(a, len),
        distinct_cells(b, len),
{
    assert forall|x: int, y: int| 0 <= x < y < b.len() implies b[x] != b[y] by {
        assert((a + b)[a.len() + x] == b[x]);
        assert((a + b)[a.len() + y] == b[y]);
    }
    assert forall|x: int| 0 <= x < b.len() implies b[x] < len by {
        assert((a + b)[a.len() + x] == b[x]);
    }
    assert forall|x: int, y: int| 0 <= x < y < a.len() implies a[x] != a[y] by {
        assert((a + b)[x] == a[x]);
        assert((a + b)[y] == a[y]);
    }
    assert forall|x: int| 0 <= x < a.len() implies a[x] < len by {
        assert((a + b)[x] == a[x]);
    }
}

/// Each group of a grouping holds distinct cells.
pub(crate) proof fn lemma_groups_distinct(groups: Seq<Seq<usize>>, len: nat)
    requires
        distinct_cells(flat(groups), len),
    ensures
        forall|g: int| 0 <= g < groups.len() ==> distinct_cells(#[trigger] groups[g], len),
    decreases groups.len(),
{
    if groups.len() > 0 {
        lemma_distinct_split(flat(groups.drop_last()), groups.last(), len);
        lemma_groups_distinct(groups.drop_last(), len);
        assert forall|g: int| 0 <= g < groups.len() implies distinct_cells(#[trigger] groups[g], len) by {
            if g < groups.len() - 1 {
                assert(groups.drop_last()[g] == groups[g]);
            }
        }
    }
}

} // verus!
