use rand::Rng;
use vstd::prelude::*;

verus! {

/// A move: reveal a cell, flag a cell, or no suggestion.
#[derive(Copy, Clone, Debug, PartialEq, Eq)]
pub enum Event {
    Click { pos: (usize, usize) },
    Flag { pos: (usize, usize) },
    Idle,
}

/// The hidden truth of a cell.
#[derive(Copy, Clone, Debug, PartialEq, Eq, Structural)]
pub enum CellState {
    Empty,
    Mine,
}

/// What the player sees of a cell; `Empty(n)` is a revealed cell with `n` mines around it.
#[derive(Copy, Clone, Debug, PartialEq, Eq, Structural)]
pub enum CellVisibility {
    Unknown,
    Flagged,
    Empty(usize),
}

#[derive(Copy, Clone, Debug, PartialEq, Eq, Structural)]
pub struct Cell {
    pub state: CellState,
    pub visibility: CellVisibility,
}

#[derive(Copy, Clone, Debug, PartialEq, Eq, Structural)]
pub enum GameCondition {
    InProgress,
    Won,
    Lost,
}

/// A rectangular board stored row by row: cell `(x, y)` sits at `y * width + x`.
#[derive(Clone)]
pub struct GameState {
    pub field: Vec<Cell>,
    pub width: usize,
    pub height: usize,
    pub game_condition: GameCondition,
    pub bomb_count: usize,
    pub flagged_count: usize,
}

pub open spec fn in_grid(w: nat, h: nat, x: int, y: int) -> bool {
    0 <= x < w && 0 <= y < h
}

pub open spec fn cell_index(w: nat, x: int, y: int) -> int {
    y * w + x
}

/// The `k`-th of the nine cells of the 3x3 block around `(x, y)`, column by column.
pub open spec fn block_cell(x: int, y: int, k: int) -> (int, int) {
    (x + k / 3 - 1, y + k % 3 - 1)
}

/// The in-grid cells among the first `k` of the block around `(x, y)`, the centre left out.
pub open spec fn neighbors_upto(w: nat, h: nat, x: int, y: int, k: int) -> Seq<(usize, usize)>
    decreases k,
{
    if k <= 0 {
        seq![]
    } else {
        let prev = neighbors_upto(w, h, x, y, k - 1);
        let p = block_cell(x, y, k - 1);
        if k - 1 != 4 && in_grid(w, h, p.0, p.1) {
            prev.push((p.0 as usize, p.1 as usize))
        } else {
            prev
        }
    }
}

/// The in-grid cells among the eight around `(x, y)`; edges never wrap.
pub open spec fn neighbor_list(w: nat, h: nat, x: int, y: int) -> Seq<(usize, usize)> {
    neighbors_upto(w, h, x, y, 9)
}

/// Cells of `s` that `p` holds of.
pub open spec fn count_cells(s: Seq<Cell>, p: spec_fn(Cell) -> bool) -> nat
    decreases s.len(),
{
    if s.len() == 0 {
        0
    } else {
        count_cells(s.drop_last(), p) + if p(s.last()) {
            1nat
        } else {
            0nat
        }
    }
}

pub open spec fn mine_p() -> spec_fn(Cell) -> bool {
    |c: Cell| c.state == CellState::Mine
}

pub open spec fn empty_p() -> spec_fn(Cell) -> bool {
    |c: Cell| c.state == CellState::Empty
}

pub open spec fn flagged_mine_p() -> spec_fn(Cell) -> bool {
    |c: Cell| c.state == CellState::Mine && c.visibility == CellVisibility::Flagged
}

pub open spec fn mine_total(s: Seq<Cell>) -> nat {
    count_cells(s, mine_p())
}

pub open spec fn flagged_mine_total(s: Seq<Cell>) -> nat {
    count_cells(s, flagged_mine_p())
}

/// Positions of `ps` whose cell in the row-major field `f` of width `w` satisfies `p`.
pub open spec fn count_at(
    f: Seq<Cell>,
    w: nat,
    ps: Seq<(usize, usize)>,
    p: spec_fn(Cell) -> bool,
) -> nat
    decreases ps.len(),
{
    if ps.len() == 0 {
        0
    } else {
        count_at(f, w, ps.drop_last(), p) + if p(
            f[cell_index(w, ps.last().0 as int, ps.last().1 as int)],
        ) {
            1nat
        } else {
            0nat
        }
    }
}

pub open spec fn mines_at(f: Seq<Cell>, w: nat, ps: Seq<(usize, usize)>) -> nat {
    count_at(f, w, ps, mine_p())
}

/// Every revealed cell is free of mines and shows the true number of mines around it.
pub open spec fn clues_truthful(gs: &GameState) -> bool {
    forall|i: int|
        0 <= i < gs.field@.len() ==> match #[trigger] gs.field@[i].visibility {
            CellVisibility::Empty(n) => gs.field@[i].state == CellState::Empty && n == gs.mines_around(
                i % (gs.width as int),
                i / (gs.width as int),
            ),
            _ => true,
        }
}

/// Every flag stands on a mine.
pub open spec fn flags_on_mines(gs: &GameState) -> bool {
    forall|i: int|
        0 <= i < gs.field@.len() && (#[trigger] gs.field@[i]).visibility == CellVisibility::Flagged
            ==> gs.field@[i].state == CellState::Mine
}

proof fn lemma_mines_at_states(f1: Seq<Cell>, f2: Seq<Cell>, w: nat, ps: Seq<(usize, usize)>)
    requires
        f1.len() == f2.len(),
        forall|k: int| 0 <= k < f1.len() ==> (#[trigger] f1[k]).state == f2[k].state,
        forall|j: int|
            0 <= j < ps.len() ==> 0 <= cell_index(w, #[trigger] ps[j].0 as int, ps[j].1 as int)
                < f1.len(),
    ensures
        mines_at(f1, w, ps) == mines_at(f2, w, ps),
    decreases ps.len(),
{
    if ps.len() > 0 {
        let prev = ps.drop_last();
        assert forall|j: int| 0 <= j < prev.len() implies 0 <= cell_index(
            w,
            #[trigger] prev[j].0 as int,
            prev[j].1 as int,
        ) < f1.len() by {
            assert(prev[j] == ps[j]);
        }
        lemma_mines_at_states(f1, f2, w, prev);
        assert(ps[ps.len() - 1] == ps.last());
    }
}

/// Changing what is shown, not where the mines are, keeps every mine count around a cell.
proof fn lemma_mines_around_states(g1: &GameState, g2: &GameState)
    requires
        g1.shape_ok(),
        g2.width == g1.width,
        g2.height == g1.height,
        g2.field@.len() == g1.field@.len(),
        forall|k: int| 0 <= k < g1.field@.len() ==> (#[trigger] g1.field@[k]).state == g2.field@[k].state,
    ensures
        forall|x: int, y: int| #[trigger] g1.mines_around(x, y) == g2.mines_around(x, y),
{
    assert forall|x: int, y: int| #[trigger] g1.mines_around(x, y) == g2.mines_around(x, y) by {
        let w = g1.width as nat;
        let h = g1.height as nat;
        let ps = g1.neighbors_of(x, y);
        lemma_neighbors_in_grid(w, h, x, y);
        assert forall|j: int| 0 <= j < ps.len() implies 0 <= cell_index(
            w,
            #[trigger] ps[j].0 as int,
            ps[j].1 as int,
        ) < g1.field@.len() by {
            lemma_cell_index(w, h, ps[j].0 as int, ps[j].1 as int);
        }
        lemma_mines_at_states(g1.field@, g2.field@, w, ps);
    }
}

pub proof fn lemma_cell_index(w: nat, h: nat, x: int, y: int)
    requires
        in_grid(w, h, x, y),
    ensures
        0 <= cell_index(w, x, y) < w * h,
        cell_index(w, x, y) % (w as int) == x,
        cell_index(w, x, y) / (w as int) == y,
{
    assert(0 <= y * w + x < w * h) by (nonlinear_arith)
        requires
            0 <= x < w,
            0 <= y < h,
    ;
    vstd::arithmetic::div_mod::lemma_fundamental_div_mod_converse(
        cell_index(w, x, y),
        w as int,
        y,
        x,
    );
}

pub proof fn lemma_index_cell(w: nat, h: nat, i: int)
    requires
        0 <= i < w * h,
    ensures
        in_grid(w, h, i % (w as int), i / (w as int)),
        cell_index(w, i % (w as int), i / (w as int)) == i,
{
    assert(w > 0) by (nonlinear_arith)
        requires
            0 <= i < w * h,
    ;
    vstd::arithmetic::div_mod::lemma_fundamental_div_mod(i, w as int);
    vstd::arithmetic::mul::lemma_mul_is_commutative(i / (w as int), w as int);
    vstd::arithmetic::div_mod::lemma_div_pos_is_pos(i, w as int);
    vstd::arithmetic::div_mod::lemma_mod_pos_bound(i, w as int);
    assert(i / (w as int) < h) by {
        vstd::arithmetic::div_mod::lemma_div_is_ordered(i, (w * h - 1) as int, w as int);
        vstd::arithmetic::div_mod::lemma_div_plus_one(i, w as int);
        assert((w * h) as int / (w as int) == h) by {
            vstd::arithmetic::div_mod::lemma_div_multiples_vanish(h as int, w as int);
            vstd::arithmetic::mul::lemma_mul_is_commutative(w as int, h as int);
        }
        vstd::arithmetic::div_mod::lemma_div_is_ordered(i + 1, (w * h) as int, w as int);
        vstd::arithmetic::div_mod::lemma_div_is_ordered(i, i + 1, w as int);
        assert(i / (w as int) <= h);
        if i / (w as int) == h {
            vstd::arithmetic::mul::lemma_mul_is_commutative(w as int, h as int);
            assert(false) by (nonlinear_arith)
                requires
                    i == (w as int) * (i / (w as int)) + i % (w as int),
                    i % (w as int) >= 0,
                    i / (w as int) == h,
                    i < w * h,
            ;
        }
    }
}

pub proof fn lemma_neighbors_upto(w: nat, h: nat, x: int, y: int, k: int)
    requires
        0 <= k <= 9,
    ensures
        forall|j: int|
            0 <= j < neighbors_upto(w, h, x, y, k).len() ==> in_grid(
                w,
                h,
                #[trigger] neighbors_upto(w, h, x, y, k)[j].0 as int,
                neighbors_upto(w, h, x, y, k)[j].1 as int,
            ),
        neighbors_upto(w, h, x, y, k).len() <= k,
    decreases k,
{
    if k > 0 {
        lemma_neighbors_upto(w, h, x, y, k - 1);
    }
}

/// Every listed neighbor lies inside the grid, and there are at most eight.
pub proof fn lemma_neighbors_in_grid(w: nat, h: nat, x: int, y: int)
    ensures
        forall|j: int|
            0 <= j < neighbor_list(w, h, x, y).len() ==> in_grid(
                w,
                h,
                #[trigger] neighbor_list(w, h, x, y)[j].0 as int,
                neighbor_list(w, h, x, y)[j].1 as int,
            ),
        neighbor_list(w, h, x, y).len() <= 9,
{
    lemma_neighbors_upto(w, h, x, y, 9);
}

/// The cells listed among the first `k` of the block are the in-grid block cells before
/// `k`, the centre left out.
proof fn lemma_neighbors_upto_members(w: nat, h: nat, x: int, y: int, k: int)
    requires
        0 <= k <= 9,
    ensures
        forall|t: int|
            0 <= t < k && t != 4 && in_grid(w, h, block_cell(x, y, t).0, block_cell(x, y, t).1)
                ==> neighbors_upto(w, h, x, y, k).contains(
                (block_cell(x, y, t).0 as usize, block_cell(x, y, t).1 as usize),
            ),
        forall|q: int|
            0 <= q < neighbors_upto(w, h, x, y, k).len() ==> exists|t: int|
                0 <= t < k && t != 4 && in_grid(w, h, block_cell(x, y, t).0, block_cell(x, y, t).1)
                    && #[trigger] neighbors_upto(w, h, x, y, k)[q] == (
                    block_cell(x, y, t).0 as usize,
                    block_cell(x, y, t).1 as usize,
                ),
    decreases k,
{
    if k > 0 {
        lemma_neighbors_upto_members(w, h, x, y, k - 1);
        let prev = neighbors_upto(w, h, x, y, k - 1);
        let cur = neighbors_upto(w, h, x, y, k);
        assert forall|t: int|
            0 <= t < k && t != 4 && in_grid(w, h, block_cell(x, y, t).0, block_cell(x, y, t).1)
                implies cur.contains((block_cell(x, y, t).0 as usize, block_cell(x, y, t).1 as usize)) by {
            let v = (block_cell(x, y, t).0 as usize, block_cell(x, y, t).1 as usize);
            if t < k - 1 {
                let q = choose|q: int| 0 <= q < prev.len() && prev[q] == v;
                assert(cur[q] == v);
            } else {
                assert(cur[prev.len() as int] == v);
            }
        }
        assert forall|q: int| 0 <= q < cur.len() implies exists|t: int|
            0 <= t < k && t != 4 && in_grid(w, h, block_cell(x, y, t).0, block_cell(x, y, t).1)
                && #[trigger] cur[q] == (
                block_cell(x, y, t).0 as usize,
                block_cell(x, y, t).1 as usize,
            ) by {
            if q < prev.len() {
                assert(cur[q] == prev[q]);
            } else {
                assert(cur[q] == (block_cell(x, y, k - 1).0 as usize, block_cell(x, y, k - 1).1 as usize));
            }
        }
    }
}

/// Being neighbors is symmetric: `(x, y)` is listed around each of its listed neighbors.
pub proof fn lemma_neighbor_symmetric(w: nat, h: nat, x: int, y: int, j: int)
    requires
        in_grid(w, h, x, y),
        w <= usize::MAX,
        h <= usize::MAX,
        0 <= j < neighbor_list(w, h, x, y).len(),
    ensures
        ({
            let p = neighbor_list(w, h, x, y)[j];
            neighbor_list(w, h, p.0 as int, p.1 as int).contains((x as usize, y as usize))
        }),
{
    lemma_neighbors_upto_members(w, h, x, y, 9);
    let p = neighbor_list(w, h, x, y)[j];
    let t = choose|t: int|
        0 <= t < 9 && t != 4 && in_grid(w, h, block_cell(x, y, t).0, block_cell(x, y, t).1)
            && #[trigger] neighbor_list(w, h, x, y)[j] == (
            block_cell(x, y, t).0 as usize,
            block_cell(x, y, t).1 as usize,
        );
    let px = p.0 as int;
    let py = p.1 as int;
    assert(px == x + t / 3 - 1 && py == y + t % 3 - 1);
    let t2 = 8 - t;
    assert(t2 / 3 == 2 - t / 3 && t2 % 3 == 2 - t % 3) by {
        assert(0 <= t < 9);
        if t == 0 {} else if t == 1 {} else if t == 2 {} else if t == 3 {} else if t == 5 {}
        else if t == 6 {} else if t == 7 {} else {}
    }
    assert(block_cell(px, py, t2) == (x, y));
    lemma_neighbors_upto_members(w, h, px, py, 9);
}

pub proof fn lemma_count_update(s: Seq<Cell>, p: spec_fn(Cell) -> bool, i: int, v: Cell)
    requires
        0 <= i < s.len(),
    ensures
        count_cells(s.update(i, v), p) + (if p(s[i]) {
            1nat
        } else {
            0nat
        }) == count_cells(s, p) + (if p(v) {
            1nat
        } else {
            0nat
        }),
    decreases s.len(),
{
    let t = s.update(i, v);
    if i < s.len() - 1 {
        assert(t.drop_last() =~= s.drop_last().update(i, v));
        lemma_count_update(s.drop_last(), p, i, v);
    } else {
        assert(t.drop_last() =~= s.drop_last());
    }
}

pub proof fn lemma_count_implies(s: Seq<Cell>, p: spec_fn(Cell) -> bool, q: spec_fn(Cell) -> bool)
    requires
        forall|c: Cell| #[trigger] p(c) ==> q(c),
    ensures
        count_cells(s, p) <= count_cells(s, q),
    decreases s.len(),
{
    if s.len() > 0 {
        lemma_count_implies(s.drop_last(), p, q);
    }
}

pub proof fn lemma_count_complement(s: Seq<Cell>, p: spec_fn(Cell) -> bool, q: spec_fn(Cell) -> bool)
    requires
        forall|c: Cell| #[trigger] p(c) <==> !q(c),
    ensures
        count_cells(s, p) + count_cells(s, q) == s.len(),
    decreases s.len(),
{
    if s.len() > 0 {
        lemma_count_complement(s.drop_last(), p, q);
    }
}

pub proof fn lemma_count_uniform(s: Seq<Cell>, p: spec_fn(Cell) -> bool)
    ensures
        (forall|i: int| 0 <= i < s.len() ==> !p(#[trigger] s[i])) ==> count_cells(s, p) == 0,
        (forall|i: int| 0 <= i < s.len() ==> p(#[trigger] s[i])) ==> count_cells(s, p) == s.len(),
    decreases s.len(),
{
    if s.len() > 0 {
        lemma_count_uniform(s.drop_last(), p);
        assert(forall|i: int| 0 <= i < s.len() - 1 ==> s.drop_last()[i] == s[i]);
    }
}

/// The position of the empty cell that `t` empty cells precede.
fn nth_empty(cells: &Vec<Cell>, t: usize) -> (slot: usize)
    requires
        t < count_cells(cells@, empty_p()),
    ensures
        slot < cells@.len(),
        cells@[slot as int].state == CellState::Empty,
{
    let mut i: usize = 0;
    let mut seen: usize = 0;
    while i < cells.len() && !(cells[i].state == CellState::Empty && seen == t)
        invariant
            i <= cells@.len(),
            seen == count_cells(cells@.subrange(0, i as int), empty_p()),
            seen <= t,
        decreases cells@.len() - i,
    {
        assert(cells@.subrange(0, i + 1).drop_last() =~= cells@.subrange(0, i as int));
        assert(cells@.subrange(0, i + 1).last() == cells@[i as int]);
        if cells[i].state == CellState::Empty {
            seen += 1;
        }
        i += 1;
    }
    if i == cells.len() {
        assert(cells@.subrange(0, i as int) =~= cells@);
    }
    i
}

pub proof fn lemma_count_at_bound(f: Seq<Cell>, w: nat, ps: Seq<(usize, usize)>, p: spec_fn(Cell) -> bool)
    ensures
        count_at(f, w, ps, p) <= ps.len(),
    decreases ps.len(),
{
    if ps.len() > 0 {
        lemma_count_at_bound(f, w, ps.drop_last(), p);
    }
}

/// `v + d - 1` when it lies in `0..limit`.
fn shifted(v: usize, d: usize, limit: usize) -> (r: Option<usize>)
    requires
        d < 3,
    ensures
        r == (if 0 <= v + d - 1 < limit {
            Some((v + d - 1) as usize)
        } else {
            None
        }),
{
    if d == 0 {
        if v > 0 && v - 1 < limit {
            Some(v - 1)
        } else {
            None
        }
    } else if d == 1 {
        if v < limit {
            Some(v)
        } else {
            None
        }
    } else {
        if v < limit && limit - v > 1 {
            Some(v + 1)
        } else {
            None
        }
    }
}

/// Relies on rand's `Rng::gen_range` over `0..n`: a value below `n`; it panics on an empty
/// range, which `n > 0` rules out.
#[verifier::external_body]
fn random_below(n: usize) -> (r: usize)
    requires
        n > 0,
    ensures
        r < n,
{
    rand::thread_rng().gen_range(0..n)
}

impl GameState {
    pub open spec fn flagged(&self) -> nat {
        self.flagged_count as nat
    }

    /// The field has one cell per grid position.
    pub open spec fn shape_ok(&self) -> bool {
        &&& self.field@.len() == self.width * self.height
        &&& self.width * self.height <= usize::MAX
    }

    /// The bomb count is the number of mines and the flag count the number of flagged mines.
    pub open spec fn wf(&self) -> bool {
        &&& self.shape_ok()
        &&& self.bomb_count == mine_total(self.field@)
        &&& self.flagged() == flagged_mine_total(self.field@)
    }

    pub open spec fn cell(&self, x: int, y: int) -> Cell {
        self.field@[cell_index(self.width as nat, x, y)]
    }

    pub open spec fn neighbors_of(&self, x: int, y: int) -> Seq<(usize, usize)> {
        neighbor_list(self.width as nat, self.height as nat, x, y)
    }

    /// The number of mines around `(x, y)`.
    pub open spec fn mines_around(&self, x: int, y: int) -> nat {
        mines_at(self.field@, self.width as nat, self.neighbors_of(x, y))
    }

    /// A board of `width * height` unknown cells holding `num_bombs` mines placed uniformly
    /// at random.
    pub fn new(width: usize, height: usize, num_bombs: usize) -> (g: Self)
        requires
            width * height <= usize::MAX,
            num_bombs <= width * height,
        ensures
            g.wf(),
            g.width == width,
            g.height == height,
            g.bomb_count == num_bombs,
            g.flagged() == 0,
            g.game_condition == GameCondition::InProgress,
            forall|i: int|
                0 <= i < g.field@.len() ==> (#[trigger] g.field@[i]).visibility
                    == CellVisibility::Unknown,
            clues_truthful(&g),
            flags_on_mines(&g),
    {
        let len = width * height;
        let blank = Cell { state: CellState::Empty, visibility: CellVisibility::Unknown };
        let mut cells: Vec<Cell> = Vec::new();
        let mut i: usize = 0;
        while i < len
            invariant
                i <= len,
                cells@.len() == i,
                forall|j: int| 0 <= j < i ==> cells@[j] == blank,
            decreases len - i,
        {
            cells.push(blank);
            i += 1;
        }
        proof {
            lemma_count_uniform(cells@, mine_p());
        }
        let mut placed: usize = 0;
        while placed < num_bombs
            invariant
                placed <= num_bombs,
                num_bombs <= len,
                cells@.len() == len,
                mine_total(cells@) == placed,
                forall|j: int|
                    0 <= j < len ==> (#[trigger] cells@[j]).visibility == CellVisibility::Unknown,
            decreases num_bombs - placed,
        {
            proof {
                assert forall|c: Cell| #[trigger] empty_p()(c) <==> !mine_p()(c) by {}
                lemma_count_complement(cells@, empty_p(), mine_p());
            }
            let target = random_below(len - placed);
            let slot = nth_empty(&cells, target);
            let mine = Cell { state: CellState::Mine, visibility: CellVisibility::Unknown };
            proof {
                lemma_count_update(cells@, mine_p(), slot as int, mine);
            }
            cells.set(slot, mine);
            placed += 1;
        }
        proof {
            lemma_count_uniform(cells@, flagged_mine_p());
        }
        GameState {
            field: cells,
            game_condition: GameCondition::InProgress,
            bomb_count: num_bombs,
            flagged_count: 0,
            width,
            height,
        }
    }

    /// A board of unknown cells whose mines are where `mines` holds `true`, row by row.
    pub fn with_mines(width: usize, height: usize, mines: &Vec<bool>) -> (g: Self)
        requires
            mines@.len() == width * height,
        ensures
            g.wf(),
            g.width == width,
            g.height == height,
            g.flagged() == 0,
            g.game_condition == GameCondition::InProgress,
            g.field@.len() == mines@.len(),
            clues_truthful(&g),
            flags_on_mines(&g),
            forall|i: int|
                0 <= i < mines@.len() ==> #[trigger] g.field@[i] == (Cell {
                    state: if mines@[i] {
                        CellState::Mine
                    } else {
                        CellState::Empty
                    },
                    visibility: CellVisibility::Unknown,
                }),
    {
        let mut cells: Vec<Cell> = Vec::new();
        let mut count: usize = 0;
        let mut i: usize = 0;
        while i < mines.len()
            invariant
                i <= mines@.len(),
                cells@.len() == i,
                count == mine_total(cells@),
                count <= i,
                forall|j: int|
                    0 <= j < i ==> #[trigger] cells@[j] == (Cell {
                        state: if mines@[j] {
                            CellState::Mine
                        } else {
                            CellState::Empty
                        },
                        visibility: CellVisibility::Unknown,
                    }),
            decreases mines@.len() - i,
        {
            let state = if mines[i] {
                CellState::Mine
            } else {
                CellState::Empty
            };
            let ghost before = cells@;
            cells.push(Cell { state, visibility: CellVisibility::Unknown });
            assert(cells@.drop_last() =~= before);
            if mines[i] {
                count += 1;
            }
            i += 1;
        }
        proof {
            lemma_count_uniform(cells@, flagged_mine_p());
        }
        GameState {
            field: cells,
            game_condition: GameCondition::InProgress,
            bomb_count: count,
            flagged_count: 0,
            width,
            height,
        }
    }

    /// A copy of the board, to be altered as a hypothesis.
    pub fn hypothesis(&self) -> (h: Self)
        ensures
            h.field@ == self.field@,
            h.width == self.width,
            h.height == self.height,
            h.game_condition == self.game_condition,
            h.bomb_count == self.bomb_count,
            h.flagged_count == self.flagged_count,
    {
        let mut cells: Vec<Cell> = Vec::new();
        let mut i: usize = 0;
        while i < self.field.len()
            invariant
                i <= self.field@.len(),
                cells@ == self.field@.subrange(0, i as int),
            decreases self.field@.len() - i,
        {
            cells.push(self.field[i]);
            i += 1;
            assert(cells@ =~= self.field@.subrange(0, i as int));
        }
        assert(cells@ =~= self.field@);
        GameState {
            field: cells,
            game_condition: self.game_condition,
            bomb_count: self.bomb_count,
            flagged_count: self.flagged_count,
            width: self.width,
            height: self.height,
        }
    }

    /// Mines not yet flagged.
    pub fn remaining_mines(&self) -> (r: usize)
        requires
            self.wf(),
        ensures
            r == self.bomb_count - self.flagged(),
    {
        proof {
            lemma_count_implies(self.field@, flagged_mine_p(), mine_p());
        }
        self.bomb_count - self.flagged_count
    }

    /// A position drawn at random inside a `width` by `height` grid.
    pub fn random_xy(width: usize, height: usize) -> (p: (usize, usize))
        requires
            width > 0,
            height > 0,
        ensures
            p.0 < width,
            p.1 < height,
    {
        (random_below(width), random_below(height))
    }

    /// The cell at `(x, y)`, or `None` outside the grid.
    pub fn at(&self, x: usize, y: usize) -> (c: Option<Cell>)
        requires
            self.shape_ok(),
        ensures
            c == (if in_grid(self.width as nat, self.height as nat, x as int, y as int) {
                Some(self.cell(x as int, y as int))
            } else {
                None
            }),
    {
        if x >= self.width || y >= self.height {
            None
        } else {
            proof {
                lemma_cell_index(self.width as nat, self.height as nat, x as int, y as int);
            }
            Some(self.field[y * self.width + x])
        }
    }

    /// The in-grid cells among the eight around `(x, y)`, column by column.
    pub fn neighbors(&self, x: usize, y: usize) -> (r: Vec<(usize, usize)>)
        ensures
            r@ == self.neighbors_of(x as int, y as int),
    {
        let mut r: Vec<(usize, usize)> = Vec::new();
        let mut k: usize = 0;
        while k < 9
            invariant
                k <= 9,
                r@ == neighbors_upto(
                    self.width as nat,
                    self.height as nat,
                    x as int,
                    y as int,
                    k as int,
                ),
            decreases 9 - k,
        {
            if k != 4 {
                let nx = shifted(x, k / 3, self.width);
                let ny = shifted(y, k % 3, self.height);
                if let (Some(px), Some(py)) = (nx, ny) {
                    r.push((px, py));
                }
            }
            k += 1;
        }
        r
    }

    /// The number of mines around `(x, y)`.
    pub fn count_mines_around(&self, x: usize, y: usize) -> (n: usize)
        requires
            self.shape_ok(),
        ensures
            n == self.mines_around(x as int, y as int),
    {
        let nb = self.neighbors(x, y);
        let ghost w = self.width as nat;
        let ghost h = self.height as nat;
        proof {
            lemma_neighbors_in_grid(w, h, x as int, y as int);
        }
        let mut n: usize = 0;
        let mut j: usize = 0;
        while j < nb.len()
            invariant
                j <= nb@.len(),
                nb@ == self.neighbors_of(x as int, y as int),
                nb@.len() <= 9,
                n <= j,
                n == mines_at(self.field@, w, nb@.subrange(0, j as int)),
                self.shape_ok(),
                w == self.width,
                h == self.height,
                forall|q: int|
                    0 <= q < nb@.len() ==> in_grid(w, h, #[trigger] nb@[q].0 as int, nb@[q].1 as int),
            decreases nb@.len() - j,
        {
            let (px, py) = nb[j];
            proof {
                lemma_cell_index(w, h, px as int, py as int);
                assert(nb@.subrange(0, j + 1).drop_last() =~= nb@.subrange(0, j as int));
            }
            if self.field[py * self.width + px].state == CellState::Mine {
                n += 1;
            }
            j += 1;
        }
        assert(nb@.subrange(0, j as int) =~= nb@);
        n
    }

    /// The clue at index `i`, if revealed, equals the number of mines that the field `f`
    /// places around that position.
    pub open spec fn clue_holds(&self, f: Seq<Cell>, i: int) -> bool {
        match self.field@[i].visibility {
            CellVisibility::Empty(n) => n == mines_at(
                f,
                self.width as nat,
                self.neighbors_of(i % (self.width as int), i / (self.width as int)),
            ),
            _ => true,
        }
    }

    /// Every revealed clue of the board is met by the mines of the field `f`.
    pub open spec fn clues_met(&self, f: Seq<Cell>) -> bool {
        forall|i: int| 0 <= i < self.field@.len() ==> #[trigger] self.clue_holds(f, i)
    }

    /// Whether `hypothetical`'s mines could have produced every clue revealed on this board.
    pub fn validate(&self, hypothetical: &GameState) -> (ok: bool)
        requires
            self.shape_ok(),
            hypothetical.shape_ok(),
            hypothetical.width == self.width,
            hypothetical.height == self.height,
        ensures
            ok == self.clues_met(hypothetical.field@),
    {
        let mut i: usize = 0;
        while i < self.field.len()
            invariant
                i <= self.field@.len(),
                self.shape_ok(),
                hypothetical.shape_ok(),
                hypothetical.width == self.width,
                hypothetical.height == self.height,
                forall|j: int| 0 <= j < i ==> #[trigger] self.clue_holds(hypothetical.field@, j),
            decreases self.field@.len() - i,
        {
            if let CellVisibility::Empty(n) = self.field[i].visibility {
                proof {
                    lemma_index_cell(self.width as nat, self.height as nat, i as int);
                }
                let x = i % self.width;
                let y = i / self.width;
                let m = hypothetical.count_mines_around(x, y);
                if n != m {
                    assert(!self.clue_holds(hypothetical.field@, i as int));
                    return false;
                }
            }
            i += 1;
        }
        true
    }

    /// Marks the unknown cell `(x, y)` as flagged; flagging a mine counts towards the win,
    /// which comes when every mine is flagged while the game is in progress. A won or lost
    /// game stays so. A revealed or flagged cell, or a position outside the grid, is left
    /// as it is.
    pub fn flag(&mut self, x: usize, y: usize)
        requires
            old(self).wf(),
        ensures
            final(self).wf(),
            final(self).width == old(self).width,
            final(self).height == old(self).height,
            final(self).bomb_count == old(self).bomb_count,
            clues_truthful(old(self)) ==> clues_truthful(final(self)),
            ({
                let w = old(self).width as nat;
                let c = old(self).cell(x as int, y as int);
                let counts = c.state == CellState::Mine;
                if in_grid(w, old(self).height as nat, x as int, y as int) && c.visibility
                    == CellVisibility::Unknown {
                    &&& final(self).field@ == old(self).field@.update(
                        cell_index(w, x as int, y as int),
                        Cell { state: c.state, visibility: CellVisibility::Flagged },
                    )
                    &&& final(self).flagged() == old(self).flagged() + if counts {
                        1nat
                    } else {
                        0nat
                    }
                    &&& final(self).game_condition == if counts && old(self).flagged() + 1
                        == old(self).bomb_count && old(self).game_condition
                        == GameCondition::InProgress {
                        GameCondition::Won
                    } else {
                        old(self).game_condition
                    }
                } else {
                    *final(self) == *old(self)
                }
            }),
    {
        let copy = match self.at(x, y) {
            Some(c) => c,
            Option::None => {
                return;
            },
        };
        proof {
            lemma_cell_index(self.width as nat, self.height as nat, x as int, y as int);
        }
        if copy.visibility != CellVisibility::Unknown {
            return;
        }
        let idx = y * self.width + x;
        let flagged = Cell { state: copy.state, visibility: CellVisibility::Flagged };
        proof {
            lemma_count_update(self.field@, mine_p(), idx as int, flagged);
            lemma_count_update(self.field@, flagged_mine_p(), idx as int, flagged);
            lemma_count_implies(self.field@.update(idx as int, flagged), flagged_mine_p(), mine_p());
        }
        let ghost before = *self;
        if copy.state == CellState::Mine {
            self.flagged_count += 1;
            if self.flagged_count == self.bomb_count && self.game_condition
                == GameCondition::InProgress {
                self.game_condition = GameCondition::Won;
            }
        }
        self.field.set(idx, flagged);
        proof {
            lemma_mines_around_states(&before, self);
            if clues_truthful(&before) {
                assert forall|i: int| 0 <= i < self.field@.len() implies match #[trigger] self.field@[i].visibility {
                    CellVisibility::Empty(n) => self.field@[i].state == CellState::Empty
                        && n == self.mines_around(i % (self.width as int), i / (self.width as int)),
                    _ => true,
                } by {
                    if i != idx {
                        assert(self.field@[i] == before.field@[i]);
                    }
                }
            }
        }
    }

    /// Reveals the unknown cell `(x, y)`: a mine loses a game in progress and stays hidden;
    /// an empty cell shows the number of mines around it. A won or lost game stays so. A
    /// revealed or flagged cell, or a position outside the grid, is left as it is.
    pub fn click(&mut self, x: usize, y: usize)
        requires
            old(self).wf(),
        ensures
            final(self).wf(),
            final(self).width == old(self).width,
            final(self).height == old(self).height,
            final(self).bomb_count == old(self).bomb_count,
            final(self).flagged() == old(self).flagged(),
            clues_truthful(old(self)) ==> clues_truthful(final(self)),
            ({
                let w = old(self).width as nat;
                let c = old(self).cell(x as int, y as int);
                if !in_grid(w, old(self).height as nat, x as int, y as int) || c.visibility
                    != CellVisibility::Unknown {
                    *final(self) == *old(self)
                } else if c.state == CellState::Mine {
                    &&& final(self).field@ == old(self).field@
                    &&& final(self).game_condition == if old(self).game_condition
                        == GameCondition::InProgress {
                        GameCondition::Lost
                    } else {
                        old(self).game_condition
                    }
                } else {
                    &&& final(self).field@ == old(self).field@.update(
                        cell_index(w, x as int, y as int),
                        Cell {
                            state: c.state,
                            visibility: CellVisibility::Empty(
                                old(self).mines_around(x as int, y as int) as usize,
                            ),
                        },
                    )
                    &&& final(self).game_condition == old(self).game_condition
                }
            }),
    {
        let copy = match self.at(x, y) {
            Some(c) => c,
            Option::None => {
                return;
            },
        };
        if copy.visibility != CellVisibility::Unknown {
            return;
        }
        if copy.state == CellState::Mine {
            if self.game_condition == GameCondition::InProgress {
                self.game_condition = GameCondition::Lost;
            }
            return;
        }
        proof {
            lemma_cell_index(self.width as nat, self.height as nat, x as int, y as int);
        }
        let idx = y * self.width + x;
        let n = self.count_mines_around(x, y);
        let revealed = Cell { state: copy.state, visibility: CellVisibility::Empty(n) };
        proof {
            lemma_count_update(self.field@, mine_p(), idx as int, revealed);
            lemma_count_update(self.field@, flagged_mine_p(), idx as int, revealed);
        }
        let ghost before = *self;
        self.field.set(idx, revealed);
        proof {
            lemma_mines_around_states(&before, self);
            if clues_truthful(&before) {
                assert forall|i: int| 0 <= i < self.field@.len() implies match #[trigger] self.field@[i].visibility {
                    CellVisibility::Empty(n) => self.field@[i].state == CellState::Empty
                        && n == self.mines_around(i % (self.width as int), i / (self.width as int)),
                    _ => true,
                } by {
                    if i != idx {
                        assert(self.field@[i] == before.field@[i]);
                    }
                }
            }
        }
    }

    /// A mutable view of the cell at `(x, y)`, or `None` outside the grid.
    pub fn at_mut(&mut self, x: usize, y: usize) -> (c: Option<&mut Cell>)
        requires
            old(self).shape_ok(),
        ensures
            match c {
                Some(r) => {
                    &&& in_grid(old(self).width as nat, old(self).height as nat, x as int, y as int)
                    &&& *r == old(self).cell(x as int, y as int)
                    &&& final(self).field@ == old(self).field@.update(
                        cell_index(old(self).width as nat, x as int, y as int),
                        *final(r),
                    )
                    &&& final(self).width == old(self).width
                    &&& final(self).height == old(self).height
                    &&& final(self).game_condition == old(self).game_condition
                    &&& final(self).bomb_count == old(self).bomb_count
                    &&& final(self).flagged_count == old(self).flagged_count
                },
                Option::None => {
                    &&& !in_grid(old(self).width as nat, old(self).height as nat, x as int, y as int)
                    &&& *final(self) == *old(self)
                },
            },
    {
        if x >= self.width || y >= self.height {
            None
        } else {
            proof {
                lemma_cell_index(self.width as nat, self.height as nat, x as int, y as int);
            }
            let idx = y * self.width + x;
            Some(&mut self.field[idx])
        }
    }
}

pub open spec fn mine_bit(c: Cell) -> nat {
    if c.state == CellState::Mine {
        1
    } else {
        0
    }
}

/// How many positions of `ps` sit at cell index `j`.
pub open spec fn hits(w: nat, ps: Seq<(usize, usize)>, j: int) -> nat
    decreases ps.len(),
{
    if ps.len() == 0 {
        0
    } else {
        hits(w, ps.drop_last(), j) + if cell_index(w, ps.last().0 as int, ps.last().1 as int) == j {
            1nat
        } else {
            0nat
        }
    }
}

proof fn lemma_mines_update(f: Seq<Cell>, w: nat, ps: Seq<(usize, usize)>, j: int, c: Cell)
    requires
        0 <= j < f.len(),
        forall|k: int|
            0 <= k < ps.len() ==> 0 <= cell_index(w, #[trigger] ps[k].0 as int, ps[k].1 as int)
                < f.len(),
    ensures
        mines_at(f.update(j, c), w, ps) + hits(w, ps, j) * mine_bit(f[j]) == mines_at(f, w, ps)
            + hits(w, ps, j) * mine_bit(c),
    decreases ps.len(),
{
    if ps.len() == 0 {
        assert(0 * mine_bit(f[j]) == 0 && 0 * mine_bit(c) == 0) by (nonlinear_arith);
    } else {
        let prev = ps.drop_last();
        assert forall|k: int| 0 <= k < prev.len() implies 0 <= cell_index(
            w,
            #[trigger] prev[k].0 as int,
            prev[k].1 as int,
        ) < f.len() by {
            assert(prev[k] == ps[k]);
        }
        lemma_mines_update(f, w, prev, j, c);
        assert(ps[ps.len() - 1] == ps.last());
        let h = hits(w, prev, j);
        let mo = mine_bit(f[j]);
        let mn = mine_bit(c);
        let f2 = f.update(j, c);
        let l = cell_index(w, ps.last().0 as int, ps.last().1 as int);
        let a2 = mines_at(f2, w, prev);
        let a1 = mines_at(f, w, prev);
        assert(mines_at(f2, w, ps) == a2 + mine_bit(f2[l]));
        assert(mines_at(f, w, ps) == a1 + mine_bit(f[l]));
        if l == j {
            assert(f2[l] == c);
            assert(hits(w, ps, j) == h + 1);
            assert(a2 + mn + (h + 1) * mo == a1 + mo + (h + 1) * mn) by (nonlinear_arith)
                requires
                    a2 + h * mo == a1 + h * mn,
            ;
        } else {
            assert(f2[l] == f[l]);
            assert(hits(w, ps, j) == h);
        }
    }
}

pub proof fn lemma_hits_positive(w: nat, ps: Seq<(usize, usize)>, j: int, q: int)
    requires
        0 <= q < ps.len(),
        cell_index(w, ps[q].0 as int, ps[q].1 as int) == j,
    ensures
        hits(w, ps, j) >= 1,
    decreases ps.len(),
{
    if q < ps.len() - 1 {
        assert(ps.drop_last()[q] == ps[q]);
        lemma_hits_positive(w, ps.drop_last(), j, q);
    }
}

/// A revealed clue that a field of mines meets is broken by switching any one of its
/// neighbors between mine and empty; `validate` then rejects the changed hypothesis.
pub proof fn lemma_clue_detects_one_change(gs: &GameState, f: Seq<Cell>, i: int, q: int, c: Cell)
    requires
        gs.shape_ok(),
        f.len() == gs.field@.len(),
        0 <= i < gs.field@.len(),
        gs.field@[i].visibility is Empty,
        gs.clue_holds(f, i),
        0 <= q < gs.neighbors_of(i % (gs.width as int), i / (gs.width as int)).len(),
        ({
            let p = gs.neighbors_of(i % (gs.width as int), i / (gs.width as int))[q];
            c.state != f[cell_index(gs.width as nat, p.0 as int, p.1 as int)].state
        }),
    ensures
        ({
            let p = gs.neighbors_of(i % (gs.width as int), i / (gs.width as int))[q];
            let changed = f.update(cell_index(gs.width as nat, p.0 as int, p.1 as int), c);
            !gs.clue_holds(changed, i) && !gs.clues_met(changed)
        }),
{
    let w = gs.width as nat;
    let h = gs.height as nat;
    lemma_index_cell(w, h, i);
    let x = i % (w as int);
    let y = i / (w as int);
    let nb = gs.neighbors_of(x, y);
    lemma_neighbors_in_grid(w, h, x, y);
    assert forall|k: int| 0 <= k < nb.len() implies 0 <= cell_index(
        w,
        #[trigger] nb[k].0 as int,
        nb[k].1 as int,
    ) < f.len() by {
        lemma_cell_index(w, h, nb[k].0 as int, nb[k].1 as int);
    }
    let j = cell_index(w, nb[q].0 as int, nb[q].1 as int);
    lemma_mines_update(f, w, nb, j, c);
    lemma_hits_positive(w, nb, j, q);
    let changed = f.update(j, c);
    assert(mines_at(changed, w, nb) != mines_at(f, w, nb)) by (nonlinear_arith)
        requires
            mines_at(changed, w, nb) + hits(w, nb, j) * mine_bit(f[j]) == mines_at(f, w, nb)
                + hits(w, nb, j) * mine_bit(c),
            hits(w, nb, j) >= 1,
            mine_bit(f[j]) + mine_bit(c) == 1,
    ;
    assert(!gs.clue_holds(changed, i));
}

pub open spec fn bit(p: spec_fn(Cell) -> bool, c: Cell) -> nat {
    if p(c) {
        1
    } else {
        0
    }
}

/// Changing the cell at index `j` changes a count over `ps` once for each time `ps` lists it.
pub proof fn lemma_count_at_change(
    f: Seq<Cell>,
    w: nat,
    ps: Seq<(usize, usize)>,
    p: spec_fn(Cell) -> bool,
    j: int,
    c: Cell,
)
    requires
        0 <= j < f.len(),
        forall|k: int|
            0 <= k < ps.len() ==> 0 <= cell_index(w, #[trigger] ps[k].0 as int, ps[k].1 as int)
                < f.len(),
    ensures
        count_at(f.update(j, c), w, ps, p) + hits(w, ps, j) * bit(p, f[j]) == count_at(f, w, ps, p)
            + hits(w, ps, j) * bit(p, c),
    decreases ps.len(),
{
    if ps.len() == 0 {
        assert(0 * bit(p, f[j]) == 0 && 0 * bit(p, c) == 0) by (nonlinear_arith);
    } else {
        let prev = ps.drop_last();
        assert forall|k: int| 0 <= k < prev.len() implies 0 <= cell_index(
            w,
            #[trigger] prev[k].0 as int,
            prev[k].1 as int,
        ) < f.len() by {
            assert(prev[k] == ps[k]);
        }
        lemma_count_at_change(f, w, prev, p, j, c);
        assert(ps[ps.len() - 1] == ps.last());
        let h = hits(w, prev, j);
        let mo = bit(p, f[j]);
        let mn = bit(p, c);
        let f2 = f.update(j, c);
        let l = cell_index(w, ps.last().0 as int, ps.last().1 as int);
        let a2 = count_at(f2, w, prev, p);
        let a1 = count_at(f, w, prev, p);
        assert(count_at(f2, w, ps, p) == a2 + bit(p, f2[l]));
        assert(count_at(f, w, ps, p) == a1 + bit(p, f[l]));
        if l == j {
            assert(f2[l] == c);
            assert(hits(w, ps, j) == h + 1);
            assert(a2 + mn + (h + 1) * mo == a1 + mo + (h + 1) * mn) by (nonlinear_arith)
                requires
                    a2 + h * mo == a1 + h * mn,
            ;
        } else {
            assert(f2[l] == f[l]);
            assert(hits(w, ps, j) == h);
        }
    }
}

proof fn lemma_neighbors_upto_distinct(w: nat, h: nat, x: int, y: int, k: int)
    requires
        0 <= k <= 9,
        w <= usize::MAX,
        h <= usize::MAX,
    ensures
        forall|a: int, b: int|
            0 <= a < b < neighbors_upto(w, h, x, y, k).len() ==> neighbors_upto(w, h, x, y, k)[a]
                != neighbors_upto(w, h, x, y, k)[b],
    decreases k,
{
    if k > 0 {
        lemma_neighbors_upto_distinct(w, h, x, y, k - 1);
        lemma_neighbors_upto_members(w, h, x, y, k - 1);
        let prev = neighbors_upto(w, h, x, y, k - 1);
        let cur = neighbors_upto(w, h, x, y, k);
        let t = k - 1;
        if t != 4 && in_grid(w, h, block_cell(x, y, t).0, block_cell(x, y, t).1) {
            assert forall|a: int| 0 <= a < prev.len() implies prev[a] != cur[prev.len() as int] by {
                let s = choose|s: int|
                    0 <= s < k - 1 && s != 4 && in_grid(w, h, block_cell(x, y, s).0, block_cell(x, y, s).1)
                        && #[trigger] prev[a] == (
                        block_cell(x, y, s).0 as usize,
                        block_cell(x, y, s).1 as usize,
                    );
                assert(s == 3 * (s / 3) + s % 3);
                assert(t == 3 * (t / 3) + t % 3);
            }
            assert forall|a: int, b: int| 0 <= a < b < cur.len() implies cur[a] != cur[b] by {
                if b < prev.len() {
                    assert(cur[a] == prev[a] && cur[b] == prev[b]);
                } else {
                    assert(cur[a] == prev[a]);
                }
            }
        }
    }
}

/// The neighbors of a cell are listed once each.
pub proof fn lemma_neighbors_distinct(w: nat, h: nat, x: int, y: int)
    requires
        w <= usize::MAX,
        h <= usize::MAX,
    ensures
        forall|a: int, b: int|
            0 <= a < b < neighbor_list(w, h, x, y).len() ==> neighbor_list(w, h, x, y)[a]
                != neighbor_list(w, h, x, y)[b],
{
    lemma_neighbors_upto_distinct(w, h, x, y, 9);
}

/// A list of distinct in-grid positions lists each cell index at most once.
pub proof fn lemma_hits_at_most_one(w: nat, hh: nat, ps: Seq<(usize, usize)>, j: int)
    requires
        forall|a: int, b: int| 0 <= a < b < ps.len() ==> ps[a] != ps[b],
        forall|k: int| 0 <= k < ps.len() ==> in_grid(w, hh, #[trigger] ps[k].0 as int, ps[k].1 as int),
    ensures
        hits(w, ps, j) <= 1,
    decreases ps.len(),
{
    if ps.len() > 0 {
        let prev = ps.drop_last();
        assert forall|k: int| 0 <= k < prev.len() implies in_grid(w, hh, #[trigger] prev[k].0 as int, prev[k].1 as int) by {
            assert(prev[k] == ps[k]);
        }
        lemma_hits_at_most_one(w, hh, prev, j);
        let l = ps.last();
        if cell_index(w, l.0 as int, l.1 as int) == j && hits(w, prev, j) == 1 {
            lemma_hits_witness(w, prev, j);
            let q = choose|q: int| 0 <= q < prev.len() && cell_index(w, prev[q].0 as int, prev[q].1 as int) == j;
            assert(ps[ps.len() - 1] == l);
            assert(prev[q] == ps[q]);
            lemma_cell_index(w, hh, l.0 as int, l.1 as int);
            lemma_cell_index(w, hh, prev[q].0 as int, prev[q].1 as int);
            assert(ps[q] == l);
        }
    }
}

proof fn lemma_hits_witness(w: nat, ps: Seq<(usize, usize)>, j: int)
    requires
        hits(w, ps, j) >= 1,
    ensures
        exists|q: int| 0 <= q < ps.len() && cell_index(w, ps[q].0 as int, ps[q].1 as int) == j,
    decreases ps.len(),
{
    let prev = ps.drop_last();
    if cell_index(w, ps.last().0 as int, ps.last().1 as int) == j {
        assert(cell_index(w, ps[ps.len() - 1].0 as int, ps[ps.len() - 1].1 as int) == j);
    } else {
        lemma_hits_witness(w, prev, j);
        let q = choose|q: int| 0 <= q < prev.len() && cell_index(w, prev[q].0 as int, prev[q].1 as int) == j;
        assert(prev[q] == ps[q]);
    }
}

} // verus!
