use minesweeper::game::{CellVisibility, GameCondition, GameState};
use minesweeper::session::{record_outcome, reveal_unknown};

fn layout(width: usize, height: usize, mines: &[(usize, usize)]) -> GameState {
    let mut cells = vec![false; width * height];
    for &(x, y) in mines {
        cells[y * width + x] = true;
    }
    GameState::with_mines(width, height, &cells)
}

#[test]
fn won_board_reveals_its_remaining_cells() {
    let mut g = layout(3, 1, &[(0, 0)]);
    g.flag(0, 0);
    assert!(g.game_condition == GameCondition::Won);
    assert_eq!(reveal_unknown(&mut g), None);
    assert_eq!(g.at(1, 0).unwrap().visibility, CellVisibility::Empty(1));
    assert_eq!(g.at(2, 0).unwrap().visibility, CellVisibility::Empty(0));
    assert!(g.game_condition == GameCondition::Won);
}

#[test]
fn revealing_a_hidden_mine_reports_it() {
    let mut g = layout(3, 1, &[(0, 0), (2, 0)]);
    g.flag(0, 0);
    g.flag(1, 0);
    assert_eq!(reveal_unknown(&mut g), Some((2, 0)));
    assert!(g.game_condition == GameCondition::InProgress);
    assert_eq!(g.at(2, 0).unwrap().visibility, CellVisibility::Unknown);
}

#[test]
fn outcomes_are_counted() {
    let mut wins = (0, 0);
    let mut g = layout(4, 4, &[(0, 0)]);
    g.flag(0, 0);
    record_outcome(&mut wins, &g);
    assert_eq!(wins, (1, 1));
    let mut lost_early = layout(4, 4, &[(0, 0)]);
    lost_early.click(0, 0);
    record_outcome(&mut wins, &lost_early);
    assert_eq!(wins, (1, 1));
    let mut lost_late = layout(4, 4, &[(0, 0)]);
    for y in 0..4 {
        for x in 0..3 {
            lost_late.click(x + 1, y);
        }
    }
    lost_late.click(0, 0);
    record_outcome(&mut wins, &lost_late);
    assert_eq!(wins, (1, 2));
}
