use minesolver::board::{Cell, Pos};
use minesolver::field::{Mode, RustMinefield, SolverError};
use minesolver::probability::{EPSILON, PROB_ONE};
use minesolver::solver::Solver;
use rand::SeedableRng;

fn rng(seed: u64) -> rand::rngs::StdRng {
    rand::rngs::StdRng::seed_from_u64(seed)
}

#[test]
fn bla() {
    let minefield = RustMinefield::from_grid(
        vec![
            false, false, false, false, false, false, true, false, false, false, false, false,
            true, false, false, true,
        ],
        4,
        4,
        3,
        rng(0),
    );
    let mut solver = Solver::new(minefield).unwrap();
    solver.solve().unwrap();
    assert!(solver.solved());
}

#[test]
fn scenario_four_by_four_solves() {
    let minefield = RustMinefield::from_grid(
        vec![
            false, false, false, false, false, false, true, false, false, false, false, false,
            true, false, false, true,
        ],
        4,
        4,
        3,
        rng(1),
    );
    let mut solver = Solver::new(minefield).unwrap();
    let (solved, luck) = solver.solve().unwrap();
    assert!(solved);
    assert!(solver.solved());
    assert!(0 <= luck && luck <= PROB_ONE);
    assert_eq!(solver.unknown_remaining(), 0);
    assert_eq!(solver.flags_placed(), 3);
    // the corner seed was probed first, so it cannot still be unknown
    assert!(solver.get(Pos(0, 0)) != Some(Cell::Unknown));
    // with nothing unknown left, another solve succeeds without the oracle
    let (solved_again, luck_again) = solver.solve().unwrap();
    assert!(solved_again);
    assert_eq!(luck_again, PROB_ONE);
}

#[test]
fn counters_track_every_transition() {
    let minefield = RustMinefield::from_grid(
        vec![false, false, false, false, false, false, false, false, true],
        3,
        3,
        1,
        rng(2),
    );
    let mut solver = Solver::new(minefield).unwrap();
    assert_eq!(solver.unknown_remaining(), 9);
    assert_eq!(solver.flags_placed(), 0);
    assert_eq!(
        solver.flags_placed() + solver.revealed_count() + solver.unknown_remaining(),
        9
    );
    solver.uncover(Pos(0, 0)).unwrap();
    assert_eq!(solver.unknown_remaining(), 8);
    assert_eq!(
        solver.flags_placed() + solver.revealed_count() + solver.unknown_remaining(),
        9
    );
    solver.plant_flag(Pos(2, 2)).unwrap();
    assert_eq!(solver.unknown_remaining(), 7);
    assert_eq!(solver.flags_placed(), 1);
    assert_eq!(
        solver.flags_placed() + solver.revealed_count() + solver.unknown_remaining(),
        9
    );
}

#[test]
fn flagging_all_mines_triggers_bulk_reveal() {
    let minefield = RustMinefield::from_grid(
        vec![false, false, false, false, false, true, false, false, false],
        3,
        3,
        1,
        rng(3),
    );
    let mut solver = Solver::new(minefield).unwrap();
    solver.plant_flag(Pos(2, 1)).unwrap();
    assert_eq!(solver.flags_placed(), 1);
    let (solved, luck) = solver.solve().unwrap();
    assert!(solved);
    assert!(solver.solved());
    assert_eq!(luck, PROB_ONE);
    assert_eq!(solver.guesses_taken(), 0);
    assert_eq!(solver.unknown_remaining(), 0);
}

#[test]
fn isolated_cell_preferred_when_cheaper() {
    let minefield = RustMinefield::from_grid(vec![false, true, false, false], 4, 1, 1, rng(4));
    let mut solver = Solver::new(minefield).unwrap();
    let first = solver.uncover(Pos(0, 0)).unwrap();
    assert_eq!(first, Cell::Number(1));
    let active = vec![Pos(0, 0)];
    let (pm, residual) = solver.compute_probabilities(&active, 1);
    assert!(residual >= 0 && residual < EPSILON);
    assert!(pm.total() <= 1_000_000 + pm.len() as i64 * residual);
    let (pos, p) = solver.select_guess(&pm, 1_000_000).unwrap();
    assert_eq!(pos, Pos(2, 0));
    assert_eq!(p, 0);
}

#[test]
fn frontier_minimum_chosen_without_cheaper_isolated_cell() {
    let minefield = RustMinefield::from_grid(vec![false, true], 2, 1, 1, rng(5));
    let mut solver = Solver::new(minefield).unwrap();
    let first = solver.uncover(Pos(0, 0)).unwrap();
    assert_eq!(first, Cell::Number(1));
    let active = vec![Pos(0, 0)];
    let (pm, residual) = solver.compute_probabilities(&active, 1);
    assert!(residual >= 0 && residual < EPSILON);
    assert!(pm.total() <= 1_000_000 + pm.len() as i64 * residual);
    let (pos, p) = solver.select_guess(&pm, 1_000_000).unwrap();
    assert_eq!(pos, Pos(1, 0));
    assert_eq!(p, 1_000_000);
}

#[test]
fn out_of_bounds_probe_is_bad_index() {
    let minefield = RustMinefield::from_grid(
        vec![false, false, false, false, false, false, false, false, true],
        3,
        3,
        1,
        rng(6),
    );
    let mut solver = Solver::new(minefield).unwrap();
    assert_eq!(solver.uncover(Pos(5, 5)), Err(SolverError::BadIndex));
    assert_eq!(solver.plant_flag(Pos(0, 3)), Err(SolverError::BadIndex));
    assert_eq!(solver.get(Pos(3, 0)), None);
}

#[test]
fn revealing_a_mine_is_not_solved() {
    let minefield = RustMinefield::from_grid(
        vec![false, false, false, false, true, false, false, false, false],
        3,
        3,
        1,
        rng(7),
    );
    let mut solver = Solver::new(minefield).unwrap();
    assert_eq!(solver.uncover(Pos(1, 1)), Ok(Cell::Mine));
    assert!(!solver.solved());
}

#[test]
fn show_renders_the_board() {
    let minefield =
        RustMinefield::from_grid(vec![false, false, false, false], 2, 2, 0, rng(8));
    let mut solver = Solver::new(minefield).unwrap();
    assert_eq!(solver.show(), ". . \n. . \n");
    let (solved, _) = solver.solve().unwrap();
    assert!(solved);
    assert_eq!(solver.show(), "    \n    \n");
}

#[test]
fn beginner_runs_terminate() {
    for seed in 0..5u64 {
        let minefield = RustMinefield::new(Mode::Beginner, rng(seed));
        let mut solver = Solver::new(minefield).unwrap();
        let (solved, luck) = solver.solve().unwrap();
        assert!(0 <= luck && luck <= PROB_ONE);
        assert_eq!(solved, solver.solved());
        if solver.guesses_taken() == 0 {
            assert_eq!(luck, PROB_ONE);
        }
    }
}

#[test]
fn stable_board_propagation_is_idempotent() {
    let minefield = RustMinefield::from_grid(
        vec![false, false, false, false, false, true, false, false, false],
        3,
        3,
        1,
        rng(9),
    );
    let mut solver = Solver::new(minefield).unwrap();
    solver.plant_flag(Pos(2, 1)).unwrap();
    let (solved, _) = solver.solve().unwrap();
    assert!(solved);
    let picture = solver.show();
    let flags = solver.flags_placed();
    // every numbered cell is fully resolved: another round must not touch
    // the board and must report no new information
    let active = vec![Pos(0, 0), Pos(1, 1), Pos(2, 2)];
    let mut next = Vec::new();
    let (detonated, new_info) = solver.propagate_round(&active, &mut next).unwrap();
    assert!(!detonated);
    assert!(!new_info);
    assert_eq!(solver.show(), picture);
    assert_eq!(solver.flags_placed(), flags);
    assert_eq!(solver.unknown_remaining(), 0);
}

#[test]
fn forced_guesses_multiply_luck() {
    // a lone corner number gives no deduction: the solver must guess, at
    // one third first and then at one half
    let minefield = RustMinefield::from_grid(vec![false, false, false, true], 2, 2, 1, rng(10));
    let mut solver = Solver::new(minefield).unwrap();
    let (solved, luck) = solver.solve().unwrap();
    assert!(solved);
    assert_eq!(solver.guesses_taken(), 2);
    assert_eq!(luck, 333_333);
}
