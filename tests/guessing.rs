use minesweeper::game::{CellState, CellVisibility, Event, GameState};
use minesweeper::grouping::{group_cells, unknown_cells};
use minesweeper::placement::tally_group;
use minesweeper::probability::{educated_guess, select_move, tally_cells};

fn layout(width: usize, height: usize, mines: &[(usize, usize)]) -> GameState {
    let mut cells = vec![false; width * height];
    for &(x, y) in mines {
        cells[y * width + x] = true;
    }
    GameState::with_mines(width, height, &cells)
}

#[test]
fn isolated_group_tallies_are_symmetric() {
    let g = layout(3, 1, &[(1, 0)]);
    let (tally, valid) = tally_group(&g, &vec![0, 1, 2], 1);
    assert_eq!(valid, 3);
    assert_eq!(tally, vec![1, 1, 1]);
    for t in &tally {
        assert_eq!(*t * 3, valid);
    }
}

#[test]
fn clues_prune_group_placements() {
    let mut g = layout(3, 1, &[(0, 0)]);
    g.click(1, 0);
    let (tally, valid) = tally_group(&g, &vec![0, 2], 1);
    assert_eq!(valid, 2);
    assert_eq!(tally, vec![1, 1]);
    let (tally, valid) = tally_group(&g, &vec![0, 2], 2);
    assert_eq!(valid, 0);
    assert_eq!(tally, vec![0, 0]);
    let (tally, valid) = tally_group(&g, &vec![0, 2], 3);
    assert_eq!(valid, 0);
    assert_eq!(tally, vec![0, 0]);
}

#[test]
fn unknown_cells_in_order() {
    let mut g = layout(4, 1, &[(3, 0)]);
    g.click(1, 0);
    g.flag(3, 0);
    assert_eq!(unknown_cells(&g), vec![0, 2]);
}

#[test]
fn groups_follow_shared_clues() {
    let mut g = layout(4, 1, &[(3, 0)]);
    g.click(1, 0);
    assert_eq!(group_cells(&g), vec![vec![0, 2], vec![3]]);
    let all_unknown = layout(2, 2, &[]);
    let groups = group_cells(&all_unknown);
    assert_eq!(groups.len(), 4);
}

#[test]
fn tallies_over_two_groups() {
    let mut g = layout(4, 1, &[(3, 0)]);
    g.click(1, 0);
    let groups = group_cells(&g);
    let hist = tally_cells(&g, &groups, g.remaining_mines());
    assert_eq!(hist[0], 0);
    assert_eq!(hist[2], 0);
    assert_eq!(hist[3], 1);
}

#[test]
fn single_group_counts_uniformly() {
    let g = layout(2, 1, &[(0, 0)]);
    let groups = vec![vec![0, 1]];
    assert_eq!(tally_cells(&g, &groups, 1), vec![1, 1]);
}

#[test]
fn guess_clicks_zero_risk_cell_and_queues_the_rest() {
    let mut g = layout(4, 1, &[(3, 0)]);
    g.click(1, 0);
    let mut guesses = 0;
    let mut saved = Vec::new();
    let e = educated_guess(&g, &mut guesses, &mut saved);
    assert_eq!(e, Event::Click { pos: (0, 0) });
    assert_eq!(saved, vec![Event::Click { pos: (2, 0) }]);
    assert_eq!(guesses, 0);
    assert_eq!(g.at(0, 0).unwrap().state, CellState::Empty);
}

#[test]
fn guess_without_safe_cell_counts_a_guess() {
    let g = layout(3, 1, &[(2, 0)]);
    let mut guesses = 4;
    let mut saved = Vec::new();
    let e = educated_guess(&g, &mut guesses, &mut saved);
    assert_eq!(e, Event::Click { pos: (0, 0) });
    assert_eq!(guesses, 5);
    assert!(saved.is_empty());
}

#[test]
fn no_unknown_cell_means_no_move() {
    let mut g = layout(2, 1, &[]);
    g.click(0, 0);
    g.click(1, 0);
    let mut guesses = 0;
    let mut saved = Vec::new();
    assert_eq!(educated_guess(&g, &mut guesses, &mut saved), Event::Idle);
    assert_eq!(guesses, 0);
}

#[test]
fn selection_prefers_first_smallest_tally() {
    let mut guesses = 0;
    let mut saved = Vec::new();
    let hist = vec![3, 2, 9, 2];
    let e = select_move(2, &vec![0, 1, 2, 3], &hist, &mut guesses, &mut saved);
    assert_eq!(e, Event::Click { pos: (1, 0) });
    assert_eq!(guesses, 1);
    let hist = vec![5, 0, 1, 0, 0];
    let e = select_move(5, &vec![0, 1, 2, 4], &hist, &mut guesses, &mut saved);
    assert_eq!(e, Event::Click { pos: (1, 0) });
    assert_eq!(guesses, 1);
    assert_eq!(saved, vec![Event::Click { pos: (4, 0) }]);
}

#[test]
fn unconstrained_group_tallies_add_up() {
    let g = layout(4, 1, &[(0, 0), (3, 0)]);
    let (tally, valid) = tally_group(&g, &vec![0, 1, 2, 3], 2);
    assert_eq!(valid, 6);
    assert_eq!(tally, vec![3, 3, 3, 3]);
    assert_eq!(tally.iter().sum::<usize>(), 2 * valid);
}

#[test]
fn a_split_that_cannot_hold_the_mines_is_skipped() {
    let mut g = layout(4, 1, &[(0, 0)]);
    g.click(1, 0);
    let groups = group_cells(&g);
    assert_eq!(groups, vec![vec![0, 2], vec![3]]);
    let hist = tally_cells(&g, &groups, g.remaining_mines());
    assert_eq!((hist[0], hist[2], hist[3]), (1, 1, 0));
    let mut guesses = 0;
    let mut saved = Vec::new();
    let e = educated_guess(&g, &mut guesses, &mut saved);
    assert_eq!(e, Event::Click { pos: (3, 0) });
    assert_eq!(guesses, 0);
    assert!(saved.is_empty());
    assert_eq!(g.at(3, 0).unwrap().state, CellState::Empty);
}

#[test]
fn empty_groups_take_no_mines_when_the_budget_is_spent_elsewhere() {
    let g = layout(3, 1, &[(2, 0)]);
    let groups = vec![vec![0], vec![1], vec![2]];
    assert_eq!(tally_cells(&g, &groups, 1), vec![1, 1, 1]);
    assert_eq!(tally_cells(&g, &groups, 0), vec![0, 0, 0]);
}

#[test]
fn no_consistent_split_falls_back_to_uniform() {
    let mut g = layout(5, 1, &[]);
    g.click(2, 0);
    g.at_mut(2, 0).unwrap().visibility = CellVisibility::Empty(1);
    let groups = group_cells(&g);
    assert_eq!(groups.len(), 3);
    assert_eq!(tally_cells(&g, &groups, 0), vec![1, 1, 1, 1, 1]);
    let mut guesses = 0;
    let mut saved = Vec::new();
    let e = educated_guess(&g, &mut guesses, &mut saved);
    assert_eq!(e, Event::Click { pos: (0, 0) });
    assert_eq!(guesses, 1);
    assert!(saved.is_empty());
}
