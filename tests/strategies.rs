use minesweeper::game::{Event, GameState};
use minesweeper::solver::{BijectionDetection, ExhaustedCellDetection, Solver, Strategy};

fn layout(width: usize, height: usize, mines: &[(usize, usize)]) -> GameState {
    let mut cells = vec![false; width * height];
    for &(x, y) in mines {
        cells[y * width + x] = true;
    }
    GameState::with_mines(width, height, &cells)
}

#[test]
fn exhausted_clue_clicks_the_last_unknown_neighbor() {
    let mut g = layout(3, 1, &[(0, 0)]);
    let mut s = ExhaustedCellDetection::new();
    g.click(1, 0);
    s.update(&g, Event::Click { pos: (1, 0) });
    assert_eq!(s.attempt(&g), vec![]);
    g.flag(0, 0);
    s.update(&g, Event::Flag { pos: (0, 0) });
    assert_eq!(s.attempt(&g), vec![Event::Click { pos: (2, 0) }]);
    g.click(2, 0);
    s.update(&g, Event::Click { pos: (2, 0) });
    assert_eq!(s.attempt(&g), vec![]);
    assert_eq!(s.attempt(&g), vec![]);
}

#[test]
fn bijection_flags_both_unknown_neighbors_in_turn() {
    let mut g = layout(3, 1, &[(0, 0), (2, 0)]);
    let mut s = BijectionDetection::new();
    g.click(1, 0);
    s.update(&g, Event::Click { pos: (1, 0) });
    let first = s.attempt(&g);
    assert_eq!(first, vec![Event::Flag { pos: (0, 0) }]);
    g.flag(0, 0);
    s.update(&g, Event::Flag { pos: (0, 0) });
    let second = s.attempt(&g);
    assert_eq!(second, vec![Event::Flag { pos: (2, 0) }]);
    g.flag(2, 0);
    s.update(&g, Event::Flag { pos: (2, 0) });
    assert_eq!(s.attempt(&g), vec![]);
}

#[test]
fn bijection_waits_while_unknowns_outnumber_mines() {
    let mut g = layout(3, 2, &[(0, 0)]);
    let mut s = BijectionDetection::new();
    g.click(1, 0);
    s.update(&g, Event::Click { pos: (1, 0) });
    assert_eq!(s.attempt(&g), vec![]);
}

#[test]
fn fresh_strategies_find_nothing() {
    let g = layout(3, 3, &[(1, 1)]);
    let mut s = ExhaustedCellDetection::new();
    assert_eq!(s.attempt(&g), vec![]);
    let mut solver = Solver::new();
    assert_eq!(solver.next_clicks(&g), vec![]);
}

#[test]
fn solver_runs_both_strategies() {
    let mut g = layout(4, 1, &[(0, 0)]);
    let mut solver = Solver::new();
    g.click(1, 0);
    solver.update(&g, Event::Click { pos: (1, 0) });
    g.click(2, 0);
    solver.update(&g, Event::Click { pos: (2, 0) });
    assert_eq!(
        solver.next_clicks(&g),
        vec![Event::Click { pos: (3, 0) }, Event::Flag { pos: (0, 0) }]
    );
    solver.update(&g, Event::Idle);
    g.flag(0, 0);
    solver.update(&g, Event::Flag { pos: (0, 0) });
    g.click(3, 0);
    solver.update(&g, Event::Click { pos: (3, 0) });
    assert_eq!(solver.next_clicks(&g), vec![]);
}

#[test]
fn events_outside_the_grid_are_ignored() {
    let mut g = layout(2, 2, &[]);
    let mut s = ExhaustedCellDetection::new();
    s.update(&g, Event::Click { pos: (5, 5) });
    s.update(&g, Event::Flag { pos: (0, 9) });
    assert_eq!(s.attempt(&g), vec![]);
    g.click(0, 0);
    s.update(&g, Event::Click { pos: (0, 0) });
    assert_eq!(s.attempt(&g), vec![Event::Click { pos: (0, 1) }]);
}

#[test]
fn bijection_drops_clues_met_by_flags() {
    let mut g = layout(3, 2, &[(0, 0)]);
    let mut s = BijectionDetection::new();
    g.click(1, 0);
    s.update(&g, Event::Click { pos: (1, 0) });
    g.flag(0, 0);
    s.update(&g, Event::Flag { pos: (0, 0) });
    assert_eq!(s.attempt(&g), vec![]);
    g.flag(2, 0);
    s.update(&g, Event::Idle);
    assert_eq!(s.attempt(&g), vec![]);
}
