use minesweeper::game::{CellState, CellVisibility, GameCondition, GameState};

fn layout(width: usize, height: usize, mines: &[(usize, usize)]) -> GameState {
    let mut cells = vec![false; width * height];
    for &(x, y) in mines {
        cells[y * width + x] = true;
    }
    GameState::with_mines(width, height, &cells)
}

#[test]
fn corner_and_edge_neighbors_do_not_wrap() {
    let g = layout(3, 3, &[]);
    assert_eq!(g.neighbors(0, 0), vec![(0, 1), (1, 0), (1, 1)]);
    assert_eq!(g.neighbors(1, 1).len(), 8);
    assert_eq!(g.neighbors(2, 1), vec![(1, 0), (1, 1), (1, 2), (2, 0), (2, 2)]);
    assert_eq!(g.neighbors(5, 5), vec![]);
}

#[test]
fn at_is_none_outside_the_grid() {
    let g = layout(2, 3, &[(1, 2)]);
    assert!(g.at(2, 0).is_none());
    assert!(g.at(0, 3).is_none());
    assert_eq!(g.at(1, 2).unwrap().state, CellState::Mine);
    assert_eq!(g.at(0, 0).unwrap().visibility, CellVisibility::Unknown);
}

#[test]
fn click_reveals_the_mine_count() {
    let mut g = layout(3, 3, &[(0, 0), (2, 2)]);
    g.click(1, 1);
    assert_eq!(g.at(1, 1).unwrap().visibility, CellVisibility::Empty(2));
    g.click(2, 0);
    assert_eq!(g.at(2, 0).unwrap().visibility, CellVisibility::Empty(0));
    assert_eq!(g.count_mines_around(1, 2), 1);
    assert!(g.game_condition == GameCondition::InProgress);
}

#[test]
fn clicking_a_mine_loses() {
    let mut g = layout(2, 2, &[(1, 1)]);
    g.click(1, 1);
    assert!(g.game_condition == GameCondition::Lost);
    assert_eq!(g.at(1, 1).unwrap().visibility, CellVisibility::Unknown);
}

#[test]
fn clicking_revealed_flagged_or_outside_cells_changes_nothing() {
    let mut g = layout(3, 1, &[(0, 0)]);
    g.click(1, 0);
    g.flag(2, 0);
    g.click(2, 0);
    g.click(1, 0);
    g.click(7, 7);
    assert_eq!(g.at(1, 0).unwrap().visibility, CellVisibility::Empty(1));
    assert_eq!(g.at(2, 0).unwrap().visibility, CellVisibility::Flagged);
    assert!(g.game_condition == GameCondition::InProgress);
}

#[test]
fn flagging_non_mines_does_not_win() {
    let mut g = layout(2, 1, &[(0, 0)]);
    g.flag(1, 0);
    assert_eq!(g.remaining_mines(), 1);
    assert!(g.game_condition == GameCondition::InProgress);
    g.flag(0, 0);
    g.flag(0, 0);
    assert_eq!(g.remaining_mines(), 0);
    assert!(g.game_condition == GameCondition::Won);
}

#[test]
fn validate_accepts_matching_and_rejects_changed_hypothesis() {
    let mut g = layout(3, 3, &[(0, 0), (2, 2)]);
    g.click(1, 1);
    assert_eq!(g.at(1, 1).unwrap().visibility, CellVisibility::Empty(2));
    let mut hyp = g.hypothesis();
    assert!(g.validate(&hyp));
    hyp.at_mut(0, 0).unwrap().state = CellState::Empty;
    assert!(!g.validate(&hyp));
    hyp.at_mut(1, 0).unwrap().state = CellState::Mine;
    assert!(g.validate(&hyp));
    hyp.at_mut(0, 1).unwrap().state = CellState::Mine;
    assert!(!g.validate(&hyp));
}

#[test]
fn at_mut_is_none_outside_and_writes_inside() {
    let mut g = layout(2, 2, &[]);
    assert!(g.at_mut(2, 0).is_none());
    g.at_mut(1, 0).unwrap().visibility = CellVisibility::Flagged;
    assert_eq!(g.at(1, 0).unwrap().visibility, CellVisibility::Flagged);
}

#[test]
fn single_mine_board_is_won_after_flagging_it() {
    let mut g = layout(5, 5, &[(4, 4)]);
    for y in 0..5 {
        for x in 0..5 {
            if (x, y) != (4, 4) {
                g.click(x, y);
            }
        }
    }
    assert!(g.game_condition == GameCondition::InProgress);
    assert_eq!(g.at(3, 3).unwrap().visibility, CellVisibility::Empty(1));
    assert_eq!(g.at(0, 0).unwrap().visibility, CellVisibility::Empty(0));
    g.flag(4, 4);
    assert!(g.game_condition == GameCondition::Won);
    assert_eq!(g.remaining_mines(), 0);
}

#[test]
fn random_board_has_requested_mines() {
    let g = GameState::new(10, 8, 30);
    assert_eq!(g.field.len(), 80);
    assert_eq!(g.field.iter().filter(|c| c.state == CellState::Mine).count(), 30);
    assert!(g.field.iter().all(|c| c.visibility == CellVisibility::Unknown));
    assert_eq!(g.remaining_mines(), 30);
    let full = GameState::new(3, 3, 9);
    assert!(full.field.iter().all(|c| c.state == CellState::Mine));
}

#[test]
fn random_positions_stay_inside() {
    for _ in 0..200 {
        let (x, y) = GameState::random_xy(7, 3);
        assert!(x < 7 && y < 3);
    }
    let mut seen = vec![false; 5];
    for _ in 0..500 {
        let (x, _) = GameState::random_xy(5, 1);
        seen[x] = true;
    }
    assert!(seen.iter().filter(|s| **s).count() > 1);
}

#[test]
fn flagging_a_revealed_cell_keeps_its_clue() {
    let mut g = layout(3, 1, &[(0, 0)]);
    g.click(1, 0);
    g.flag(1, 0);
    assert_eq!(g.at(1, 0).unwrap().visibility, CellVisibility::Empty(1));
    assert_eq!(g.remaining_mines(), 1);
}

#[test]
fn clicking_a_flagged_mine_changes_nothing() {
    let mut g = layout(3, 1, &[(0, 0), (2, 0)]);
    g.flag(0, 0);
    g.click(0, 0);
    assert!(g.game_condition == GameCondition::InProgress);
    assert_eq!(g.at(0, 0).unwrap().visibility, CellVisibility::Flagged);
}

#[test]
fn won_and_lost_are_final() {
    let mut won = layout(2, 2, &[(0, 0), (1, 1)]);
    won.flag(0, 0);
    won.flag(1, 1);
    assert!(won.game_condition == GameCondition::Won);
    let mut also_mine = layout(2, 2, &[(0, 0), (1, 1)]);
    also_mine.flag(0, 0);
    also_mine.click(1, 1);
    assert!(also_mine.game_condition == GameCondition::Lost);
    also_mine.flag(1, 1);
    assert!(also_mine.game_condition == GameCondition::Lost);
    assert_eq!(also_mine.remaining_mines(), 0);
    let mut g = layout(3, 1, &[(0, 0), (2, 0)]);
    g.flag(0, 0);
    g.flag(2, 0);
    assert!(g.game_condition == GameCondition::Won);
    g.click(1, 0);
    assert!(g.game_condition == GameCondition::Won);
}
