use minesolver::board::Cell;
use minesolver::field::{Minefield, Mode, RustMinefield, SolverError};
use minesolver::solver::Solver;
use rand::SeedableRng;

fn rng(seed: u64) -> rand::rngs::StdRng {
    rand::rngs::StdRng::seed_from_u64(seed)
}

struct OversizedField;

impl Minefield for OversizedField {
    // ghost-only trait items, never called at runtime
    fn spec_width(&self) -> usize {
        unreachable!()
    }

    fn spec_height(&self) -> usize {
        unreachable!()
    }

    fn spec_mines(&self) -> usize {
        unreachable!()
    }

    fn width(&self) -> usize {
        usize::MAX
    }

    fn height(&self) -> usize {
        2
    }

    fn number_of_mines(&self) -> usize {
        0
    }

    fn sweep_cell(&mut self, _column: usize, _row: usize) -> Result<Cell, SolverError> {
        Ok(Cell::Number(0))
    }
}

#[test]
fn presets_have_the_advertised_dimensions() {
    let beginner = RustMinefield::new(Mode::Beginner, rng(0));
    assert_eq!(
        (beginner.width(), beginner.height(), beginner.number_of_mines()),
        (10, 10, 10)
    );
    let intermediate = RustMinefield::new(Mode::Intermediate, rng(0));
    assert_eq!(
        (
            intermediate.width(),
            intermediate.height(),
            intermediate.number_of_mines()
        ),
        (16, 16, 40)
    );
    let expert = RustMinefield::new(Mode::Expert, rng(0));
    assert_eq!(
        (expert.width(), expert.height(), expert.number_of_mines()),
        (30, 16, 99)
    );
}

#[test]
fn first_sweep_never_detonates() {
    for seed in 0..25u64 {
        let mut field = RustMinefield::new(Mode::Beginner, rng(seed));
        let outcome = field.sweep_cell(0, 0).unwrap();
        assert!(matches!(outcome, Cell::Number(_)));
    }
}

#[test]
fn first_sweep_anywhere_is_safe() {
    for seed in 0..10u64 {
        let mut field = RustMinefield::new(Mode::Intermediate, rng(seed));
        let col = (seed as usize * 3) % 16;
        let row = (seed as usize * 7) % 16;
        let outcome = field.sweep_cell(col, row).unwrap();
        assert!(matches!(outcome, Cell::Number(_)));
    }
}

#[test]
fn placement_plants_exactly_the_mine_count() {
    let mut field = RustMinefield::new(Mode::Beginner, rng(42));
    let mut mines = 0;
    let mut numbers = 0;
    for row in 0..10 {
        for col in 0..10 {
            match field.sweep_cell(col, row).unwrap() {
                Cell::Mine => mines += 1,
                Cell::Number(n) => {
                    assert!(n <= 8);
                    numbers += 1;
                }
                _ => panic!("a sweep answers with a number or a mine"),
            }
        }
    }
    assert_eq!(mines, 10);
    assert_eq!(numbers, 90);
}

#[test]
fn sweep_counts_adjacent_mines() {
    let mut field = RustMinefield::from_grid(
        vec![false, false, false, false, true, false, false, false, false],
        3,
        3,
        1,
        rng(0),
    );
    assert_eq!(field.sweep_cell(0, 0).unwrap(), Cell::Number(1));
    assert_eq!(field.sweep_cell(1, 0).unwrap(), Cell::Number(1));
    assert_eq!(field.sweep_cell(2, 2).unwrap(), Cell::Number(1));
    assert_eq!(field.sweep_cell(1, 1).unwrap(), Cell::Mine);

    let mut two = RustMinefield::from_grid(
        vec![true, false, true, false, false, false, false, false, false],
        3,
        3,
        2,
        rng(0),
    );
    assert_eq!(two.sweep_cell(1, 0).unwrap(), Cell::Number(2));
    assert_eq!(two.sweep_cell(1, 1).unwrap(), Cell::Number(2));
    assert_eq!(two.sweep_cell(1, 2).unwrap(), Cell::Number(0));
}

#[test]
fn oversized_field_is_rejected() {
    match Solver::new(OversizedField) {
        Err(SolverError::CapabilityFault) => {}
        _ => panic!("a field too large for index arithmetic must be refused"),
    }
}
