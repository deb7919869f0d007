use crate::game::{
    cell_index, count_at, in_grid, lemma_cell_index, lemma_index_cell, lemma_neighbors_in_grid,
    clues_truthful, flags_on_mines, Cell, CellState, CellVisibility, Event, GameState,
};
use rayon::iter::{IndexedParallelIterator, IntoParallelRefMutIterator, ParallelIterator};
use vstd::prelude::*;

verus! {

pub open spec fn visibility_p(v: CellVisibility) -> spec_fn(Cell) -> bool {
    |c: Cell| c.visibility == v
}

/// The number of cells around `(x, y)` that show `v`.
pub open spec fn count_visible(gs: &GameState, x: int, y: int, v: CellVisibility) -> nat {
    count_at(gs.field@, gs.width as nat, gs.neighbors_of(x, y), visibility_p(v))
}

/// The first position of `ps` whose cell is still unknown.
pub open spec fn first_unknown(f: Seq<Cell>, w: nat, ps: Seq<(usize, usize)>) -> Option<
    (usize, usize),
>
    decreases ps.len(),
{
    if ps.len() == 0 {
        None
    } else if f[cell_index(w, ps[0].0 as int, ps[0].1 as int)].visibility
        == CellVisibility::Unknown {
        Some(ps[0])
    } else {
        first_unknown(f, w, ps.drop_first())
    }
}

pub open spec fn first_unknown_around(gs: &GameState, x: int, y: int) -> Option<(usize, usize)> {
    first_unknown(gs.field@, gs.width as nat, gs.neighbors_of(x, y))
}

/// The exhausted-clue rule at cell `i`: whether the cell stays of interest, and the move
/// it yields. A clue whose flags account for all its mines makes its first unknown
/// neighbor safe; with no unknown neighbor left the cell is exhausted.
pub open spec fn exhausted_step(gs: &GameState, i: int) -> (bool, Option<Event>) {
    let x = i % (gs.width as int);
    let y = i / (gs.width as int);
    match gs.field@[i].visibility {
        CellVisibility::Empty(n) => if n != count_visible(gs, x, y, CellVisibility::Flagged) {
            (true, None)
        } else {
            match first_unknown_around(gs, x, y) {
                Some(p) => (true, Some(Event::Click { pos: p })),
                None => (false, None),
            }
        },
        _ => (false, None),
    }
}

/// The bijection rule at cell `i`: a clue already met by its flags is exhausted; otherwise,
/// when the unknown and flagged neighbors together are exactly as many as the clue, the
/// first unknown neighbor is a mine.
pub open spec fn bijection_step(gs: &GameState, i: int) -> (bool, Option<Event>) {
    let x = i % (gs.width as int);
    let y = i / (gs.width as int);
    match gs.field@[i].visibility {
        CellVisibility::Empty(n) => {
            let unknown = count_visible(gs, x, y, CellVisibility::Unknown);
            let flagged = count_visible(gs, x, y, CellVisibility::Flagged);
            if flagged == n {
                (false, None)
            } else if unknown + flagged != n {
                (true, None)
            } else {
                match first_unknown_around(gs, x, y) {
                    Some(p) => (true, Some(Event::Flag { pos: p })),
                    None => (true, None),
                }
            }
        },
        _ => (false, None),
    }
}

/// The moves that `step` yields at the first `k` cells, over the cells marked in `t`.
pub open spec fn frontier_events(
    step: spec_fn(int) -> (bool, Option<Event>),
    t: Seq<bool>,
    k: int,
) -> Seq<Event>
    decreases k,
{
    if k <= 0 {
        seq![]
    } else {
        let prev = frontier_events(step, t, k - 1);
        if t[k - 1] {
            match step(k - 1).1 {
                Some(e) => prev.push(e),
                None => prev,
            }
        } else {
            prev
        }
    }
}

/// The frontier `t` once `step` has dropped the cells it found exhausted.
pub open spec fn frontier_kept(step: spec_fn(int) -> (bool, Option<Event>), t: Seq<bool>) -> Seq<
    bool,
> {
    Seq::new(t.len(), |i: int| t[i] && step(i).0)
}

/// Cell index `i` is the index of one of the first `j` positions of `ps`.
pub open spec fn indexes_one_of(w: nat, ps: Seq<(usize, usize)>, j: int, i: int) -> bool
    decreases j,
{
    if j <= 0 {
        false
    } else {
        indexes_one_of(w, ps, j - 1, i) || cell_index(w, ps[j - 1].0 as int, ps[j - 1].1 as int)
            == i
    }
}

/// Cell index `i` is one of the neighbors of `pos`.
pub open spec fn is_neighbor_index(gs: &GameState, pos: (usize, usize), i: int) -> bool {
    let nb = gs.neighbors_of(pos.0 as int, pos.1 as int);
    indexes_one_of(gs.width as nat, nb, nb.len() as int, i)
}

/// The frontier a strategy starts from: its own once sized to the board, else all clear.
pub open spec fn frontier_base(t: Seq<bool>, gs: &GameState) -> Seq<bool> {
    if t.len() == gs.field@.len() {
        t
    } else {
        Seq::new(gs.field@.len(), |i: int| false)
    }
}

/// The frontier after `event`: a click adds the cell and its neighbors; a flag removes the
/// cell and adds its neighbors. Positions outside the grid change nothing.
pub open spec fn frontier_after(t: Seq<bool>, gs: &GameState, event: Event) -> Seq<bool> {
    let w = gs.width as nat;
    let h = gs.height as nat;
    match event {
        Event::Click { pos } => if in_grid(w, h, pos.0 as int, pos.1 as int) {
            Seq::new(
                t.len(),
                |i: int|
                    i == cell_index(w, pos.0 as int, pos.1 as int) || is_neighbor_index(gs, pos, i)
                        || t[i],
            )
        } else {
            t
        },
        Event::Flag { pos } => if in_grid(w, h, pos.0 as int, pos.1 as int) {
            Seq::new(
                t.len(),
                |i: int|
                    is_neighbor_index(gs, pos, i) || (i != cell_index(w, pos.0 as int, pos.1 as int)
                        && t[i]),
            )
        } else {
            t
        },
        Event::Idle => t,
    }
}

/// A deduction rule that tracks its own frontier of cells of interest.
pub trait Strategy: Sized {
    spec fn frontier(&self) -> Seq<bool>;

    /// The moves `attempt` finds on `gs`, one per cell of interest at most, in cell order.
    spec fn moves(&self, gs: &GameState) -> Seq<Event>;

    /// The frontier once `attempt` has dropped the cells it found exhausted.
    spec fn pruned(&self, gs: &GameState) -> Seq<bool>;

    fn attempt(&mut self, game_state: &GameState) -> (events: Vec<Event>)
        requires
            game_state.shape_ok(),
            old(self).frontier().len() <= game_state.field@.len(),
        ensures
            events@ == old(self).moves(game_state),
            final(self).frontier() == old(self).pruned(game_state),
    ;

    fn update(&mut self, game_state: &GameState, event: Event)
        requires
            game_state.shape_ok(),
        ensures
            final(self).frontier() == frontier_after(
                frontier_base(old(self).frontier(), game_state),
                game_state,
                event,
            ),
    ;
}

/// The number of cells around `(x, y)` that show `v`.
fn count_visible_around(gs: &GameState, x: usize, y: usize, v: CellVisibility) -> (n: usize)
    requires
        gs.shape_ok(),
    ensures
        n == count_visible(gs, x as int, y as int, v),
{
    let nb = gs.neighbors(x, y);
    let ghost w = gs.width as nat;
    let ghost h = gs.height as nat;
    proof {
        lemma_neighbors_in_grid(w, h, x as int, y as int);
    }
    let mut n: usize = 0;
    let mut j: usize = 0;
    while j < nb.len()
        invariant
            j <= nb@.len(),
            nb@ == gs.neighbors_of(x as int, y as int),
            nb@.len() <= 9,
            n <= j,
            n == count_at(gs.field@, w, nb@.subrange(0, j as int), visibility_p(v)),
            gs.shape_ok(),
            w == gs.width,
            h == gs.height,
            forall|q: int|
                0 <= q < nb@.len() ==> in_grid(w, h, #[trigger] nb@[q].0 as int, nb@[q].1 as int),
        decreases nb@.len() - j,
    {
        let (px, py) = nb[j];
        proof {
            lemma_cell_index(w, h, px as int, py as int);
            assert(nb@.subrange(0, j + 1).drop_last() =~= nb@.subrange(0, j as int));
        }
        if gs.field[py * gs.width + px].visibility == v {
            n += 1;
        }
        j += 1;
    }
    assert(nb@.subrange(0, j as int) =~= nb@);
    n
}

/// The first neighbor of `(x, y)` that is still unknown.
fn find_unknown_around(gs: &GameState, x: usize, y: usize) -> (r: Option<(usize, usize)>)
    requires
        gs.shape_ok(),
    ensures
        r == first_unknown_around(gs, x as int, y as int),
{
    let nb = gs.neighbors(x, y);
    let ghost w = gs.width as nat;
    let ghost h = gs.height as nat;
    proof {
        lemma_neighbors_in_grid(w, h, x as int, y as int);
        assert(nb@.subrange(0, nb@.len() as int) =~= nb@);
    }
    let mut j: usize = 0;
    while j < nb.len()
        invariant
            j <= nb@.len(),
            nb@ == gs.neighbors_of(x as int, y as int),
            first_unknown(gs.field@, w, nb@) == first_unknown(
                gs.field@,
                w,
                nb@.subrange(j as int, nb@.len() as int),
            ),
            gs.shape_ok(),
            w == gs.width,
            h == gs.height,
            forall|q: int|
                0 <= q < nb@.len() ==> in_grid(w, h, #[trigger] nb@[q].0 as int, nb@[q].1 as int),
        decreases nb@.len() - j,
    {
        let (px, py) = nb[j];
        proof {
            lemma_cell_index(w, h, px as int, py as int);
            assert(nb@.subrange(j as int, nb@.len() as int).drop_first() =~= nb@.subrange(
                j + 1,
                nb@.len() as int,
            ));
        }
        if gs.field[py * gs.width + px].visibility == CellVisibility::Unknown {
            return Some((px, py));
        }
        j += 1;
    }
    None
}

fn exhausted_cell(gs: &GameState, i: usize) -> (r: (bool, Option<Event>))
    requires
        gs.shape_ok(),
        i < gs.field@.len(),
    ensures
        r == exhausted_step(gs, i as int),
{
    proof {
        lemma_index_cell(gs.width as nat, gs.height as nat, i as int);
    }
    let x = i % gs.width;
    let y = i / gs.width;
    match gs.field[i].visibility {
        CellVisibility::Empty(n) => {
            let flagged = count_visible_around(gs, x, y, CellVisibility::Flagged);
            if n != flagged {
                return (true, None);
            }
            match find_unknown_around(gs, x, y) {
                Some(p) => (true, Some(Event::Click { pos: p })),
                None => (false, None),
            }
        },
        _ => (false, None),
    }
}

fn bijection_cell(gs: &GameState, i: usize) -> (r: (bool, Option<Event>))
    requires
        gs.shape_ok(),
        i < gs.field@.len(),
    ensures
        r == bijection_step(gs, i as int),
{
    proof {
        lemma_index_cell(gs.width as nat, gs.height as nat, i as int);
        lemma_neighbor_counts(gs, i as int % gs.width as int, i as int / gs.width as int);
    }
    let x = i % gs.width;
    let y = i / gs.width;
    match gs.field[i].visibility {
        CellVisibility::Empty(n) => {
            let unknown = count_visible_around(gs, x, y, CellVisibility::Unknown);
            let flagged = count_visible_around(gs, x, y, CellVisibility::Flagged);
            if flagged == n {
                return (false, None);
            }
            if unknown + flagged != n {
                return (true, None);
            }
            match find_unknown_around(gs, x, y) {
                Some(p) => (true, Some(Event::Flag { pos: p })),
                None => (true, None),
            }
        },
        _ => (false, None),
    }
}

proof fn lemma_neighbor_counts(gs: &GameState, x: int, y: int)
    ensures
        count_visible(gs, x, y, CellVisibility::Unknown) <= 9,
        count_visible(gs, x, y, CellVisibility::Flagged) <= 9,
{
    lemma_neighbors_in_grid(gs.width as nat, gs.height as nat, x, y);
    crate::game::lemma_count_at_bound(
        gs.field@,
        gs.width as nat,
        gs.neighbors_of(x, y),
        visibility_p(CellVisibility::Unknown),
    );
    crate::game::lemma_count_at_bound(
        gs.field@,
        gs.width as nat,
        gs.neighbors_of(x, y),
        visibility_p(CellVisibility::Flagged),
    );
}

pub open spec fn exhausted_rule(gs: &GameState) -> spec_fn(int) -> (bool, Option<Event>) {
    |i: int| exhausted_step(gs, i)
}

pub open spec fn bijection_rule(gs: &GameState) -> spec_fn(int) -> (bool, Option<Event>) {
    |i: int| bijection_step(gs, i)
}

pub open spec fn chosen_rule(bijection: bool, gs: &GameState) -> spec_fn(int) -> (
    bool,
    Option<Event>,
) {
    if bijection {
        bijection_rule(gs)
    } else {
        exhausted_rule(gs)
    }
}

/// Applies one rule to cell `i`: a cell of interest yields the rule's move, if any, and
/// stays of interest unless the rule finds it exhausted.
fn scan_cell(gs: &GameState, i: usize, mark: &mut bool, bijection: bool) -> (e: Option<Event>)
    requires
        gs.shape_ok(),
        i < gs.field@.len(),
    ensures
        *final(mark) == (*old(mark) && chosen_rule(bijection, gs)(i as int).0),
        e == (if *old(mark) {
            chosen_rule(bijection, gs)(i as int).1
        } else {
            None
        }),
{
    if !*mark {
        return None;
    }
    let r = if bijection {
        bijection_cell(gs, i)
    } else {
        exhausted_cell(gs, i)
    };
    assert(r == chosen_rule(bijection, gs)(i as int));
    *mark = r.0;
    r.1
}

/// Relies on rayon's `par_iter_mut().enumerate().map(..).collect_into_vec(..)` over an
/// indexed iterator: the mapped function runs once on each element, with that element's
/// index and exclusive access to it, and the vector holds its result at that index. The
/// function mapped is `scan_cell`, whose `requires` holds for every index.
#[verifier::external_body]
fn scan_in_parallel(marks: &mut Vec<bool>, gs: &GameState, bijection: bool) -> (found: Vec<
    Option<Event>,
>)
    requires
        gs.shape_ok(),
        old(marks)@.len() <= gs.field@.len(),
    ensures
        found@.len() == old(marks)@.len(),
        final(marks)@.len() == old(marks)@.len(),
        forall|i: int|
            0 <= i < old(marks)@.len() ==> #[trigger] final(marks)@[i] == (old(marks)@[i]
                && chosen_rule(bijection, gs)(i).0),
        forall|i: int|
            0 <= i < old(marks)@.len() ==> #[trigger] found@[i] == (if old(marks)@[i] {
                chosen_rule(bijection, gs)(i).1
            } else {
                None
            }),
{
    let mut found = Vec::new();
    marks.par_iter_mut().enumerate().map(|(i, mark)| scan_cell(gs, i, mark, bijection)).collect_into_vec(
        &mut found,
    );
    found
}

/// Applies one rule to every cell of interest, dropping the exhausted ones; the cells are
/// examined in parallel and the moves kept in cell order.
fn scan_frontier(marks: &mut Vec<bool>, gs: &GameState, bijection: bool) -> (events: Vec<Event>)
    requires
        gs.shape_ok(),
        old(marks)@.len() <= gs.field@.len(),
    ensures
        events@ == frontier_events(
            chosen_rule(bijection, gs),
            old(marks)@,
            old(marks)@.len() as int,
        ),
        final(marks)@ == frontier_kept(chosen_rule(bijection, gs), old(marks)@),
{
    let ghost t = marks@;
    let found = scan_in_parallel(marks, gs, bijection);
    assert(marks@ =~= frontier_kept(chosen_rule(bijection, gs), t));
    let mut events: Vec<Event> = Vec::new();
    let mut i: usize = 0;
    while i < found.len()
        invariant
            i <= found@.len(),
            found@.len() == t.len(),
            forall|q: int|
                0 <= q < t.len() ==> #[trigger] found@[q] == (if t[q] {
                    chosen_rule(bijection, gs)(q).1
                } else {
                    None
                }),
            events@ == frontier_events(chosen_rule(bijection, gs), t, i as int),
        decreases found@.len() - i,
    {
        match found[i] {
            Some(e) => events.push(e),
            None => {},
        }
        i += 1;
    }
    events
}

/// Marks the cells that `event` makes interesting, and unmarks a flagged cell.
fn mark_event(marks: &mut Vec<bool>, gs: &GameState, event: Event)
    requires
        gs.shape_ok(),
        old(marks)@.len() == gs.field@.len(),
    ensures
        final(marks)@ == frontier_after(old(marks)@, gs, event),
{
    let ghost t = marks@;
    let (pos, clicked) = match event {
        Event::Click { pos } => (pos, true),
        Event::Flag { pos } => (pos, false),
        Event::Idle => {
            return;
        },
    };
    if pos.0 >= gs.width || pos.1 >= gs.height {
        return;
    }
    let ghost w = gs.width as nat;
    let ghost h = gs.height as nat;
    proof {
        lemma_cell_index(w, h, pos.0 as int, pos.1 as int);
        lemma_neighbors_in_grid(w, h, pos.0 as int, pos.1 as int);
    }
    let centre = pos.1 * gs.width + pos.0;
    marks.set(centre, clicked);
    let ghost mid = marks@;
    let nb = gs.neighbors(pos.0, pos.1);
    let mut j: usize = 0;
    while j < nb.len()
        invariant
            j <= nb@.len(),
            nb@ == gs.neighbors_of(pos.0 as int, pos.1 as int),
            marks@.len() == t.len(),
            mid.len() == t.len(),
            t.len() == gs.field@.len(),
            gs.shape_ok(),
            w == gs.width,
            h == gs.height,
            forall|q: int|
                0 <= q < nb@.len() ==> in_grid(w, h, #[trigger] nb@[q].0 as int, nb@[q].1 as int),
            forall|i: int|
                0 <= i < t.len() ==> #[trigger] marks@[i] == (mid[i] || indexes_one_of(
                    w,
                    nb@,
                    j as int,
                    i,
                )),
        decreases nb@.len() - j,
    {
        let (px, py) = nb[j];
        proof {
            lemma_cell_index(w, h, px as int, py as int);
        }
        let k = py * gs.width + px;
        let ghost before = marks@;
        marks.set(k, true);
        j += 1;
    }
    assert(marks@ =~= frontier_after(t, gs, event));
}

/// Makes the frontier the size of the board, all clear, unless it is already.
fn fit_frontier(marks: &mut Vec<bool>, gs: &GameState)
    ensures
        final(marks)@ == frontier_base(old(marks)@, gs),
{
    if marks.len() == gs.field.len() {
        return;
    }
    let mut fresh: Vec<bool> = Vec::new();
    let mut i: usize = 0;
    while i < gs.field.len()
        invariant
            i <= gs.field@.len(),
            fresh@ == Seq::new(i as nat, |q: int| false),
        decreases gs.field@.len() - i,
    {
        fresh.push(false);
        i += 1;
        assert(fresh@ =~= Seq::new(i as nat, |q: int| false));
    }
    *marks = fresh;
}

/// Clicks the unknown neighbors of clues whose flags already account for every mine.
pub struct ExhaustedCellDetection {
    cells_of_interest: Vec<bool>,
}

/// Flags the unknown neighbors of clues that have exactly as many unknown and flagged
/// neighbors as mines.
pub struct BijectionDetection {
    cells_of_interest: Vec<bool>,
}

impl ExhaustedCellDetection {
    /// A strategy with an empty frontier.
    pub fn new() -> (s: Self)
        ensures
            s.frontier() == Seq::<bool>::empty(),
    {
        ExhaustedCellDetection { cells_of_interest: Vec::new() }
    }
}

impl BijectionDetection {
    /// A strategy with an empty frontier.
    pub fn new() -> (s: Self)
        ensures
            s.frontier() == Seq::<bool>::empty(),
    {
        BijectionDetection { cells_of_interest: Vec::new() }
    }
}

impl Strategy for ExhaustedCellDetection {
    closed spec fn frontier(&self) -> Seq<bool> {
        self.cells_of_interest@
    }

    open spec fn moves(&self, gs: &GameState) -> Seq<Event> {
        frontier_events(exhausted_rule(gs), self.frontier(), self.frontier().len() as int)
    }

    open spec fn pruned(&self, gs: &GameState) -> Seq<bool> {
        frontier_kept(exhausted_rule(gs), self.frontier())
    }

    fn attempt(&mut self, game_state: &GameState) -> (events: Vec<Event>) {
        scan_frontier(&mut self.cells_of_interest, game_state, false)
    }

    fn update(&mut self, game_state: &GameState, event: Event) {
        fit_frontier(&mut self.cells_of_interest, game_state);
        mark_event(&mut self.cells_of_interest, game_state, event);
    }
}

impl Strategy for BijectionDetection {
    closed spec fn frontier(&self) -> Seq<bool> {
        self.cells_of_interest@
    }

    open spec fn moves(&self, gs: &GameState) -> Seq<Event> {
        frontier_events(bijection_rule(gs), self.frontier(), self.frontier().len() as int)
    }

    open spec fn pruned(&self, gs: &GameState) -> Seq<bool> {
        frontier_kept(bijection_rule(gs), self.frontier())
    }

    fn attempt(&mut self, game_state: &GameState) -> (events: Vec<Event>) {
        scan_frontier(&mut self.cells_of_interest, game_state, true)
    }

    fn update(&mut self, game_state: &GameState, event: Event) {
        fit_frontier(&mut self.cells_of_interest, game_state);
        mark_event(&mut self.cells_of_interest, game_state, event);
    }
}

proof fn lemma_no_idle(step: spec_fn(int) -> (bool, Option<Event>), t: Seq<bool>, k: int)
    requires
        0 <= k <= t.len(),
        forall|i: int| !(#[trigger] step(i).1 matches Some(Event::Idle)),
    ensures
        forall|q: int|
            0 <= q < frontier_events(step, t, k).len() ==> !(#[trigger] frontier_events(
                step,
                t,
                k,
            )[q] is Idle),
    decreases k,
{
    if k > 0 {
        lemma_no_idle(step, t, k - 1);
    }
}

/// Runs both deduction strategies and keeps each one's frontier up to date.
pub struct Solver {
    exhausted: ExhaustedCellDetection,
    bijection: BijectionDetection,
}

impl Solver {
    pub closed spec fn exhausted(&self) -> ExhaustedCellDetection {
        self.exhausted
    }

    pub closed spec fn bijection(&self) -> BijectionDetection {
        self.bijection
    }

    /// Both frontiers fit on `gs`.
    pub open spec fn fits(&self, gs: &GameState) -> bool {
        &&& self.exhausted().frontier().len() <= gs.field@.len()
        &&& self.bijection().frontier().len() <= gs.field@.len()
    }

    pub fn new() -> (s: Self)
        ensures
            s.exhausted().frontier() == Seq::<bool>::empty(),
            s.bijection().frontier() == Seq::<bool>::empty(),
    {
        Solver { exhausted: ExhaustedCellDetection::new(), bijection: BijectionDetection::new() }
    }

    /// The moves both strategies find, exhausted-clue moves first; none of them is `Idle`.
    pub fn next_clicks(&mut self, game_state: &GameState) -> (events: Vec<Event>)
        requires
            game_state.shape_ok(),
            old(self).fits(game_state),
        ensures
            events@ == old(self).exhausted().moves(game_state) + old(self).bijection().moves(
                game_state,
            ),
            final(self).exhausted().frontier() == old(self).exhausted().pruned(game_state),
            final(self).bijection().frontier() == old(self).bijection().pruned(game_state),
            forall|q: int| 0 <= q < events@.len() ==> !(#[trigger] events@[q] is Idle),
    {
        let mut events = self.exhausted.attempt(game_state);
        let mut more = self.bijection.attempt(game_state);
        proof {
            lemma_no_idle(
                exhausted_rule(game_state),
                old(self).exhausted().frontier(),
                old(self).exhausted().frontier().len() as int,
            );
            lemma_no_idle(
                bijection_rule(game_state),
                old(self).bijection().frontier(),
                old(self).bijection().frontier().len() as int,
            );
        }
        events.append(&mut more);
        events
    }

    /// Hands `event`, just applied to `game_state`, to both strategies.
    pub fn update(&mut self, game_state: &GameState, event: Event)
        requires
            game_state.shape_ok(),
        ensures
            final(self).exhausted().frontier() == frontier_after(
                frontier_base(old(self).exhausted().frontier(), game_state),
                game_state,
                event,
            ),
            final(self).bijection().frontier() == frontier_after(
                frontier_base(old(self).bijection().frontier(), game_state),
                game_state,
                event,
            ),
            final(self).fits(game_state),
    {
        self.exhausted.update(game_state, event);
        self.bijection.update(game_state, event);
    }
}

proof fn lemma_first_unknown(f: Seq<Cell>, w: nat, ps: Seq<(usize, usize)>)
    ensures
        first_unknown(f, w, ps) matches Some(x) ==> ps.contains(x) && f[cell_index(
            w,
            x.0 as int,
            x.1 as int,
        )].visibility == CellVisibility::Unknown,
    decreases ps.len(),
{
    if ps.len() > 0 {
        lemma_first_unknown(f, w, ps.drop_first());
        if let Some(x) = first_unknown(f, w, ps.drop_first()) {
            let j = choose|j: int| 0 <= j < ps.drop_first().len() && ps.drop_first()[j] == x;
            assert(ps[j + 1] == x);
        }
    }
}

/// Where every position satisfying `p` also satisfies `q`, `q` counts at least as many,
/// and strictly more when some position satisfies `q` but not `p`.
proof fn lemma_count_at_dominates(
    f: Seq<Cell>,
    w: nat,
    ps: Seq<(usize, usize)>,
    p: spec_fn(Cell) -> bool,
    q: spec_fn(Cell) -> bool,
    x: (usize, usize),
)
    requires
        forall|j: int|
            0 <= j < ps.len() ==> (p(f[cell_index(w, ps[j].0 as int, ps[j].1 as int)]) ==> q(
                f[cell_index(w, #[trigger] ps[j].0 as int, ps[j].1 as int)],
            )),
    ensures
        count_at(f, w, ps, p) <= count_at(f, w, ps, q),
        ps.contains(x) && q(f[cell_index(w, x.0 as int, x.1 as int)]) && !p(
            f[cell_index(w, x.0 as int, x.1 as int)],
        ) ==> count_at(f, w, ps, p) < count_at(f, w, ps, q),
    decreases ps.len(),
{
    if ps.len() > 0 {
        let prev = ps.drop_last();
        assert forall|j: int|
            0 <= j < prev.len() implies (p(f[cell_index(w, prev[j].0 as int, prev[j].1 as int)])
            ==> q(f[cell_index(w, #[trigger] prev[j].0 as int, prev[j].1 as int)])) by {
            assert(prev[j] == ps[j]);
        }
        lemma_count_at_dominates(f, w, prev, p, q, x);
        assert(ps[ps.len() - 1] == ps.last());
        if ps.contains(x) && ps.last() != x {
            let j = choose|j: int| 0 <= j < ps.len() && ps[j] == x;
            assert(prev[j] == x);
        }
    }
}

/// The exhausted-clue rule is sound: on a board whose clues are truthful and whose flags
/// all stand on mines, every cell it clicks is free of mines.
pub proof fn lemma_exhausted_clicks_are_safe(gs: &GameState, i: int)
    requires
        gs.shape_ok(),
        clues_truthful(gs),
        flags_on_mines(gs),
        0 <= i < gs.field@.len(),
    ensures
        exhausted_step(gs, i).1 matches Some(Event::Click { pos }) ==> gs.cell(
            pos.0 as int,
            pos.1 as int,
        ).state == CellState::Empty,
{
    let w = gs.width as nat;
    let h = gs.height as nat;
    lemma_index_cell(w, h, i);
    let x = i % (w as int);
    let y = i / (w as int);
    let nb = gs.neighbors_of(x, y);
    lemma_neighbors_in_grid(w, h, x, y);
    if let Some(Event::Click { pos }) = exhausted_step(gs, i).1 {
        lemma_first_unknown(gs.field@, w, nb);
        assert(nb.contains(pos));
        let j = choose|j: int| 0 <= j < nb.len() && nb[j] == pos;
        assert(crate::game::in_grid(w, h, nb[j].0 as int, nb[j].1 as int));
        if gs.cell(pos.0 as int, pos.1 as int).state == CellState::Mine {
            assert forall|k: int|
                0 <= k < nb.len() implies (visibility_p(CellVisibility::Flagged)(
                gs.field@[cell_index(w, nb[k].0 as int, nb[k].1 as int)],
            ) ==> crate::game::mine_p()(
                gs.field@[cell_index(w, #[trigger] nb[k].0 as int, nb[k].1 as int)],
            )) by {
                assert(crate::game::in_grid(w, h, nb[k].0 as int, nb[k].1 as int));
                lemma_cell_index(w, h, nb[k].0 as int, nb[k].1 as int);
            }
            lemma_count_at_dominates(
                gs.field@,
                w,
                nb,
                visibility_p(CellVisibility::Flagged),
                crate::game::mine_p(),
                pos,
            );
            assert(gs.field@[i].visibility is Empty);
        }
    }
}

/// A cell not yet revealed: unknown or flagged.
pub open spec fn unresolved_p() -> spec_fn(Cell) -> bool {
    |c: Cell| c.visibility == CellVisibility::Unknown || c.visibility == CellVisibility::Flagged
}

proof fn lemma_count_at_split(f: Seq<Cell>, w: nat, ps: Seq<(usize, usize)>)
    ensures
        count_at(f, w, ps, unresolved_p()) == count_at(
            f,
            w,
            ps,
            visibility_p(CellVisibility::Unknown),
        ) + count_at(f, w, ps, visibility_p(CellVisibility::Flagged)),
    decreases ps.len(),
{
    if ps.len() > 0 {
        lemma_count_at_split(f, w, ps.drop_last());
    }
}

/// The bijection rule is sound: on a board whose clues are truthful and whose flags all
/// stand on mines, every cell it flags holds a mine.
pub proof fn lemma_bijection_flags_are_mines(gs: &GameState, i: int)
    requires
        gs.shape_ok(),
        clues_truthful(gs),
        flags_on_mines(gs),
        0 <= i < gs.field@.len(),
    ensures
        bijection_step(gs, i).1 matches Some(Event::Flag { pos }) ==> gs.cell(
            pos.0 as int,
            pos.1 as int,
        ).state == CellState::Mine,
{
    let w = gs.width as nat;
    let h = gs.height as nat;
    lemma_index_cell(w, h, i);
    let x = i % (w as int);
    let y = i / (w as int);
    let nb = gs.neighbors_of(x, y);
    lemma_neighbors_in_grid(w, h, x, y);
    if let Some(Event::Flag { pos }) = bijection_step(gs, i).1 {
        lemma_first_unknown(gs.field@, w, nb);
        assert(nb.contains(pos));
        let j = choose|j: int| 0 <= j < nb.len() && nb[j] == pos;
        assert(crate::game::in_grid(w, h, nb[j].0 as int, nb[j].1 as int));
        if gs.cell(pos.0 as int, pos.1 as int).state != CellState::Mine {
            assert forall|k: int|
                0 <= k < nb.len() implies (crate::game::mine_p()(
                gs.field@[cell_index(w, nb[k].0 as int, nb[k].1 as int)],
            ) ==> unresolved_p()(
                gs.field@[cell_index(w, #[trigger] nb[k].0 as int, nb[k].1 as int)],
            )) by {
                assert(crate::game::in_grid(w, h, nb[k].0 as int, nb[k].1 as int));
                lemma_cell_index(w, h, nb[k].0 as int, nb[k].1 as int);
            }
            lemma_count_at_dominates(
                gs.field@,
                w,
                nb,
                crate::game::mine_p(),
                unresolved_p(),
                pos,
            );
            lemma_count_at_split(gs.field@, w, nb);
            assert(gs.field@[i].visibility is Empty);
        }
    }
}

/// Every move the deduction strategies find over the frontier `t`, on a board whose clues
/// are truthful and whose flags all stand on mines, is right: the exhausted-clue rule only
/// clicks cells free of mines and the bijection rule only flags mines.
pub proof fn lemma_deductions_sound(gs: &GameState, t: Seq<bool>, k: int)
    requires
        gs.shape_ok(),
        clues_truthful(gs),
        flags_on_mines(gs),
        0 <= k <= t.len(),
        t.len() <= gs.field@.len(),
    ensures
        forall|q: int|
            0 <= q < frontier_events(exhausted_rule(gs), t, k).len() ==> (#[trigger] frontier_events(
                exhausted_rule(gs),
                t,
                k,
            )[q] matches Event::Click { pos } && gs.cell(pos.0 as int, pos.1 as int).state
                == CellState::Empty),
        forall|q: int|
            0 <= q < frontier_events(bijection_rule(gs), t, k).len() ==> (#[trigger] frontier_events(
                bijection_rule(gs),
                t,
                k,
            )[q] matches Event::Flag { pos } && gs.cell(pos.0 as int, pos.1 as int).state
                == CellState::Mine),
    decreases k,
{
    if k > 0 {
        lemma_deductions_sound(gs, t, k - 1);
        lemma_exhausted_clicks_are_safe(gs, k - 1);
        lemma_bijection_flags_are_mines(gs, k - 1);
    }
}

proof fn lemma_first_unknown_none(f: Seq<Cell>, w: nat, ps: Seq<(usize, usize)>)
    requires
        first_unknown(f, w, ps) is None,
    ensures
        forall|k: int|
            0 <= k < ps.len() ==> f[cell_index(w, #[trigger] ps[k].0 as int, ps[k].1 as int)].visibility
                != CellVisibility::Unknown,
    decreases ps.len(),
{
    if ps.len() > 0 {
        lemma_first_unknown_none(f, w, ps.drop_first());
        assert forall|k: int| 0 <= k < ps.len() implies f[cell_index(
            w,
            #[trigger] ps[k].0 as int,
            ps[k].1 as int,
        )].visibility != CellVisibility::Unknown by {
            if k > 0 {
                assert(ps.drop_first()[k - 1] == ps[k]);
            }
        }
    }
}

proof fn lemma_count_at_none(f: Seq<Cell>, w: nat, ps: Seq<(usize, usize)>, p: spec_fn(Cell) -> bool)
    requires
        forall|k: int|
            0 <= k < ps.len() ==> !p(f[cell_index(w, #[trigger] ps[k].0 as int, ps[k].1 as int)]),
    ensures
        count_at(f, w, ps, p) == 0,
    decreases ps.len(),
{
    if ps.len() > 0 {
        let prev = ps.drop_last();
        assert forall|k: int| 0 <= k < prev.len() implies !p(
            f[cell_index(w, #[trigger] prev[k].0 as int, prev[k].1 as int)],
        ) by {
            assert(prev[k] == ps[k]);
        }
        lemma_count_at_none(f, w, prev, p);
        assert(ps[ps.len() - 1] == ps.last());
    }
}

proof fn lemma_indexes_one_of(w: nat, ps: Seq<(usize, usize)>, jj: int, q: int, i: int)
    requires
        0 <= q < jj <= ps.len(),
        cell_index(w, ps[q].0 as int, ps[q].1 as int) == i,
    ensures
        indexes_one_of(w, ps, jj, i),
    decreases jj,
{
    if q < jj - 1 {
        lemma_indexes_one_of(w, ps, jj - 1, q, i);
    }
}

proof fn lemma_events_contain(step: spec_fn(int) -> (bool, Option<Event>), t: Seq<bool>, k: int, i: int)
    requires
        0 <= i < k <= t.len(),
        t[i],
        step(i).1 is Some,
    ensures
        frontier_events(step, t, k).contains(step(i).1->Some_0),
    decreases k,
{
    let prev = frontier_events(step, t, k - 1);
    if i < k - 1 {
        lemma_events_contain(step, t, k - 1, i);
        let q = choose|q: int| 0 <= q < prev.len() && prev[q] == step(i).1->Some_0;
        if t[k - 1] && step(k - 1).1 is Some {
            assert(frontier_events(step, t, k)[q] == prev[q]);
        }
    } else {
        assert(frontier_events(step, t, k)[prev.len() as int] == step(i).1->Some_0);
    }
}

/// Flagging the mine that the bijection rule found keeps the rule going: once the flag is
/// placed and handed to `update`, the rule at the same clue flags another of its unknown
/// neighbors, as long as the clue still needs more than that one mine.
pub proof fn lemma_bijection_continues(
    gs: &GameState,
    after: &GameState,
    t: Seq<bool>,
    i: int,
    u: (usize, usize),
)
    requires
        gs.shape_ok(),
        0 <= i < gs.field@.len(),
        bijection_step(gs, i).1 == Some(Event::Flag { pos: u }),
        gs.field@[i].visibility matches CellVisibility::Empty(n) && count_visible(
            gs,
            i % (gs.width as int),
            i / (gs.width as int),
            CellVisibility::Flagged,
        ) + 1 < n,
        after.width == gs.width,
        after.height == gs.height,
        after.field@ == gs.field@.update(
            cell_index(gs.width as nat, u.0 as int, u.1 as int),
            Cell { state: gs.cell(u.0 as int, u.1 as int).state, visibility: CellVisibility::Flagged },
        ),
    ensures
        exists|p: (usize, usize)|
            #![trigger gs.cell(p.0 as int, p.1 as int)]
            p != u && gs.cell(p.0 as int, p.1 as int).visibility == CellVisibility::Unknown
                && gs.neighbors_of(i % (gs.width as int), i / (gs.width as int)).contains(p)
                && frontier_events(
                bijection_rule(after),
                frontier_after(frontier_base(t, after), after, Event::Flag { pos: u }),
                gs.field@.len() as int,
            ).contains(Event::Flag { pos: p }),
{
    let w = gs.width as nat;
    let h = gs.height as nat;
    lemma_index_cell(w, h, i);
    let x = i % (w as int);
    let y = i / (w as int);
    let nb = gs.neighbors_of(x, y);
    lemma_neighbors_in_grid(w, h, x, y);
    crate::game::lemma_neighbors_distinct(w, h, x, y);
    lemma_first_unknown(gs.field@, w, nb);
    let qu = choose|qu: int| 0 <= qu < nb.len() && nb[qu] == u;
    assert(in_grid(w, h, u.0 as int, u.1 as int));
    lemma_cell_index(w, h, u.0 as int, u.1 as int);
    let j = cell_index(w, u.0 as int, u.1 as int);
    assert forall|k: int| 0 <= k < nb.len() implies 0 <= cell_index(
        w,
        #[trigger] nb[k].0 as int,
        nb[k].1 as int,
    ) < gs.field@.len() by {
        lemma_cell_index(w, h, nb[k].0 as int, nb[k].1 as int);
    }
    let fl = Cell { state: gs.cell(u.0 as int, u.1 as int).state, visibility: CellVisibility::Flagged };
    crate::game::lemma_count_at_change(gs.field@, w, nb, visibility_p(CellVisibility::Unknown), j, fl);
    crate::game::lemma_count_at_change(gs.field@, w, nb, visibility_p(CellVisibility::Flagged), j, fl);
    crate::game::lemma_hits_positive(w, nb, j, qu);
    crate::game::lemma_hits_at_most_one(w, h, nb, j);
    assert(after.neighbors_of(x, y) == nb);
    assert(i != j);
    assert(after.field@[i] == gs.field@[i]);
    let fu = first_unknown(after.field@, w, nb);
    if fu is None {
        lemma_first_unknown_none(after.field@, w, nb);
        lemma_count_at_none(after.field@, w, nb, visibility_p(CellVisibility::Unknown));
    }
    lemma_first_unknown(after.field@, w, nb);
    let p = fu->Some_0;
    let qp = choose|qp: int| 0 <= qp < nb.len() && nb[qp] == p;
    assert(in_grid(w, h, p.0 as int, p.1 as int));
    lemma_cell_index(w, h, p.0 as int, p.1 as int);
    assert(cell_index(w, p.0 as int, p.1 as int) != j);
    assert(bijection_step(after, i).1 == Some(Event::Flag { pos: p }));
    // the clue's cell is a neighbor of the flagged one, so the update marks it
    crate::game::lemma_neighbor_symmetric(w, h, x, y, qu);
    let nu = after.neighbors_of(u.0 as int, u.1 as int);
    assert(nu.contains((x as usize, y as usize)));
    let m = choose|m: int| 0 <= m < nu.len() && nu[m] == (x as usize, y as usize);
    lemma_indexes_one_of(w, nu, nu.len() as int, m, i);
    let t2 = frontier_after(frontier_base(t, after), after, Event::Flag { pos: u });
    assert(t2[i]);
    assert(bijection_rule(after)(i).1 == Some(Event::Flag { pos: p }));
    lemma_events_contain(bijection_rule(after), t2, gs.field@.len() as int, i);
    assert(gs.cell(p.0 as int, p.1 as int).visibility == CellVisibility::Unknown);
}

} // verus!
