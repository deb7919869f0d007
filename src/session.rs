use crate::game::{in_grid, CellState, CellVisibility, GameCondition, GameState};
use crate::grouping::{unknown_cells, unknown_upto};
use vstd::prelude::*;

verus! {

/// The number of cells still unknown.
pub open spec fn unknown_total(gs: &GameState) -> nat {
    unknown_upto(gs.field@, gs.field@.len() as int).len()
}

/// Games that resolved no more than this many cells are not counted.
pub const MIN_RESOLVED: usize = 10;

/// Clicks every cell left unknown, in index order, stopping at the first one that holds
/// a mine, which stays hidden and is returned. The game's condition does not change.
pub fn reveal_unknown(game_state: &mut GameState) -> (mine_at: Option<(usize, usize)>)
    requires
        old(game_state).wf(),
    ensures
        final(game_state).wf(),
        final(game_state).width == old(game_state).width,
        final(game_state).height == old(game_state).height,
        final(game_state).bomb_count == old(game_state).bomb_count,
        final(game_state).game_condition == old(game_state).game_condition,
        mine_at matches Some(p) ==> {
            &&& in_grid(old(game_state).width as nat, old(game_state).height as nat, p.0 as int, p.1 as int)
            &&& old(game_state).cell(p.0 as int, p.1 as int).visibility == CellVisibility::Unknown
            &&& old(game_state).cell(p.0 as int, p.1 as int).state == CellState::Mine
        },
        mine_at is None ==> forall|i: int|
            0 <= i < old(game_state).field@.len() && old(game_state).field@[i].visibility
                == CellVisibility::Unknown ==> (#[trigger] final(game_state).field@[i]).visibility is Empty,
{
    let cells = unknown_cells(game_state);
    let width = game_state.width;
    proof {
        crate::grouping::lemma_unknown_upto(game_state.field@, game_state.field@.len() as int);
    }
    let mut k: usize = 0;
    while k < cells.len()
        invariant
            game_state.wf(),
            game_state.width == width,
            width == old(game_state).width,
            game_state.height == old(game_state).height,
            game_state.bomb_count == old(game_state).bomb_count,
            game_state.game_condition == old(game_state).game_condition,
            forall|q: int| 0 <= q < cells@.len() ==> #[trigger] cells@[q] < game_state.field@.len(),
            cells@ == unknown_upto(old(game_state).field@, old(game_state).field@.len() as int),
            forall|a: int, b: int| 0 <= a < b < cells@.len() ==> cells@[a] < cells@[b],
            forall|q: int|
                0 <= q < cells@.len() ==> old(game_state).field@[#[trigger] cells@[q] as int].visibility
                    == CellVisibility::Unknown,
            forall|i: int|
                0 <= i < old(game_state).field@.len() && old(game_state).field@[i].visibility
                    == CellVisibility::Unknown ==> cells@.contains(i as usize),
            game_state.field@.len() == old(game_state).field@.len(),
            k <= cells@.len(),
            forall|q: int| 0 <= q < k ==> (#[trigger] game_state.field@[cells@[q] as int]).visibility is Empty,
            forall|q: int|
                k <= q < cells@.len() ==> #[trigger] game_state.field@[cells@[q] as int]
                    == old(game_state).field@[cells@[q] as int],
        decreases cells@.len() - k,
    {
        let i = cells[k];
        proof {
            crate::game::lemma_index_cell(width as nat, game_state.height as nat, i as int);
        }
        let x = i % width;
        let y = i / width;
        if game_state.field[i].state == CellState::Mine {
            return Some((x, y));
        }
        game_state.click(x, y);
        proof {
            assert(crate::game::cell_index(width as nat, x as int, y as int) == i);
            assert forall|q: int| 0 <= q < cells@.len() && q != k implies cells@[q] != cells@[k as int] by {
                if q < k {
                    assert(cells@[q] < cells@[k as int]);
                } else {
                    assert(cells@[k as int] < cells@[q]);
                }
            }
        }
        k += 1;
    }
    proof {
        assert forall|i: int|
            0 <= i < old(game_state).field@.len() && old(game_state).field@[i].visibility
                == CellVisibility::Unknown implies (#[trigger] game_state.field@[i]).visibility is Empty by {
            assert(cells@.contains(i as usize));
            let q = choose|q: int| 0 <= q < cells@.len() && cells@[q] == i as usize;
            assert(game_state.field@[cells@[q] as int].visibility is Empty);
        }
    }
    None
}

/// Counts a finished game in `wins` (games won, games counted): a won game counts as both;
/// a lost one counts only once more than `MIN_RESOLVED` cells were resolved.
pub fn record_outcome(wins: &mut (usize, usize), game_state: &GameState)
    requires
        old(wins).0 < usize::MAX,
        old(wins).1 < usize::MAX,
        game_state.shape_ok(),
    ensures
        game_state.game_condition == GameCondition::Won ==> *final(wins) == (
            (old(wins).0 + 1) as usize,
            (old(wins).1 + 1) as usize,
        ),
        game_state.game_condition != GameCondition::Won && game_state.field@.len()
            - unknown_total(game_state) > MIN_RESOLVED ==> *final(wins) == (
            old(wins).0,
            (old(wins).1 + 1) as usize,
        ),
        game_state.game_condition != GameCondition::Won && game_state.field@.len()
            - unknown_total(game_state) <= MIN_RESOLVED ==> *final(wins) == *old(wins),
{
    if game_state.game_condition == GameCondition::Won {
        wins.0 = wins.0 + 1;
        wins.1 = wins.1 + 1;
        return;
    }
    let unknown = unknown_cells(game_state);
    proof {
        crate::grouping::lemma_unknown_upto_len(game_state.field@, game_state.field@.len() as int);
    }
    if game_state.field.len() - unknown.len() > MIN_RESOLVED {
        wins.1 = wins.1 + 1;
    }
}

} // verus!
