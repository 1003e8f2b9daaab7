use vstd::prelude::*;
use crate::board::{Cell, MAX_CELLS};

verus! {

/// Faults that abort a solve. `BadIndex` is a position argument outside the
/// board; `CapabilityFault` is an unexpected failure of the minefield oracle.
/// A detonation is a normal sweep outcome, never an error.
#[derive(Clone, Copy, PartialEq, Eq, Structural, Debug)]
pub enum SolverError {
    BadIndex,
    CapabilityFault,
}

/// Preset board configurations.
#[derive(Clone, Copy, PartialEq, Eq, Structural, Debug, Hash)]
pub enum Mode {
    Beginner,
    Intermediate,
    Expert,
}

pub open spec fn preset_width(mode: Mode) -> usize {
    match mode {
        Mode::Beginner => 10,
        Mode::Intermediate => 16,
        Mode::Expert => 30,
    }
}

pub open spec fn preset_height(mode: Mode) -> usize {
    match mode {
        Mode::Beginner => 10,
        Mode::Intermediate => 16,
        Mode::Expert => 16,
    }
}

pub open spec fn preset_mines(mode: Mode) -> usize {
    match mode {
        Mode::Beginner => 10,
        Mode::Intermediate => 40,
        Mode::Expert => 99,
    }
}

/// The minefield oracle. `sweep_cell` must be probed only in bounds; a
/// detonation is reported as `Ok(Cell::Mine)`, a safe probe as
/// `Ok(Cell::Number(n))` with the count of adjacent mines.
pub trait Minefield: Sized {
    spec fn spec_width(&self) -> usize;

    spec fn spec_height(&self) -> usize;

    spec fn spec_mines(&self) -> usize;

    fn width(&self) -> (w: usize)
        ensures
            w == self.spec_width(),
    ;

    fn height(&self) -> (h: usize)
        ensures
            h == self.spec_height(),
    ;

    fn number_of_mines(&self) -> (m: usize)
        ensures
            m == self.spec_mines(),
    ;

    fn sweep_cell(&mut self, column: usize, row: usize) -> (r: Result<Cell, SolverError>)
        requires
            column < old(self).spec_width(),
            row < old(self).spec_height(),
        ensures
            final(self).spec_width() == old(self).spec_width(),
            final(self).spec_height() == old(self).spec_height(),
            final(self).spec_mines() == old(self).spec_mines(),
            (r matches Ok(c) ==> (c is Mine || (c matches Cell::Number(n) && n <= 8))),
    ;
}

/// Declares rand's standard generator so that a field can carry one; the
/// verifier treats its values as opaque.
#[verifier::external_type_specification]
#[verifier::external_body]
pub struct ExStdRng(rand::rngs::StdRng);

/// Relies on rand's `RngExt::random_range` over `0..n`: a uniform draw
/// strictly below `n`. It panics only on an empty range, which `n > 0`
/// rules out.
#[verifier::external_body]
fn rng_below(rng: &mut rand::rngs::StdRng, n: usize) -> (r: usize)
    requires
        n > 0,
    ensures
        r < n,
    no_unwind
{
    rand::RngExt::random_range(rng, 0..n)
}

pub open spec fn count_true(s: Seq<bool>) -> int
    decreases s.len(),
{
    if s.len() == 0 {
        0
    } else {
        count_true(s.drop_last()) + if s.last() {
            1int
        } else {
            0int
        }
    }
}

pub proof fn lemma_count_true_update(s: Seq<bool>, i: int, b: bool)
    requires
        0 <= i < s.len(),
    ensures
        count_true(s.update(i, b)) == count_true(s) - (if s[i] {
            1int
        } else {
            0int
        }) + (if b {
            1int
        } else {
            0int
        }),
    decreases s.len(),
{
    let t = s.update(i, b);
    if i == s.len() - 1 {
        assert(t.drop_last() =~= s.drop_last());
    } else {
        assert(t.drop_last() =~= s.drop_last().update(i, b));
        lemma_count_true_update(s.drop_last(), i, b);
    }
}

/// 1 when the cell `(c, r)` is in bounds and holds a mine, 0 otherwise.
pub open spec fn mine_at(g: Seq<bool>, w: int, h: int, c: int, r: int) -> int {
    if 0 <= c < w && 0 <= r < h && g[r * w + c] {
        1int
    } else {
        0int
    }
}

/// Number of mines in the 8-neighborhood of `(c, r)`, clipped to bounds.
pub open spec fn spec_adjacent_mines(g: Seq<bool>, w: int, h: int, c: int, r: int) -> int {
    mine_at(g, w, h, c - 1, r - 1) + mine_at(g, w, h, c, r - 1) + mine_at(g, w, h, c + 1, r - 1)
        + mine_at(g, w, h, c - 1, r) + mine_at(g, w, h, c + 1, r) + mine_at(g, w, h, c - 1, r + 1)
        + mine_at(g, w, h, c, r + 1) + mine_at(g, w, h, c + 1, r + 1)
}

/// A natively generated minefield. Mine placement is lazy: the grid stays
/// empty until the first probe, and is then drawn uniformly at random over
/// all cells except the first-probed one, so that the first probe is never
/// a mine.
pub struct RustMinefield {
    field: Vec<bool>,
    rng: rand::rngs::StdRng,
    width: usize,
    height: usize,
    number_of_mines: usize,
}

impl RustMinefield {
    #[verifier::type_invariant]
    spec fn wf(self) -> bool {
        &&& 1 <= self.width
        &&& 1 <= self.height
        &&& self.width * self.height <= MAX_CELLS
        &&& self.number_of_mines < self.width * self.height
        &&& (self.field@.len() == 0 || self.field@.len() == self.width * self.height)
        &&& (self.field@.len() > 0 ==> count_true(self.field@) == self.number_of_mines)
    }

    /// Whether the lazy placement has happened.
    pub closed spec fn spec_placed(self) -> bool {
        self.field@.len() > 0
    }

    /// The mine grid, row-major; empty until placement.
    pub closed spec fn spec_grid(self) -> Seq<bool> {
        self.field@
    }

    /// A fresh, unplaced field with the preset dimensions of `mode`,
    /// drawing its mines from the explicitly passed generator.
    pub fn new(mode: Mode, rng: rand::rngs::StdRng) -> (f: Self)
        ensures
            f.spec_width() == preset_width(mode),
            f.spec_height() == preset_height(mode),
            f.spec_mines() == preset_mines(mode),
            !f.spec_placed(),
    {
        let (width, height, number_of_mines): (usize, usize, usize) = match mode {
            Mode::Beginner => (10, 10, 10),
            Mode::Intermediate => (16, 16, 40),
            Mode::Expert => (30, 16, 99),
        };
        Self { field: Vec::new(), rng, width, height, number_of_mines }
    }

    /// A field with an explicitly given mine grid, for deterministic runs.
    /// The generator is carried but never drawn from: the grid already
    /// stands, so the lazy placement never fires.
    pub fn from_grid(
        field: Vec<bool>,
        width: usize,
        height: usize,
        number_of_mines: usize,
        rng: rand::rngs::StdRng,
    ) -> (f: Self)
        requires
            1 <= width,
            1 <= height,
            width * height <= MAX_CELLS,
            field@.len() == width * height,
            number_of_mines < width * height,
            count_true(field@) == number_of_mines,
        ensures
            f.spec_width() == width,
            f.spec_height() == height,
            f.spec_mines() == number_of_mines,
            f.spec_placed(),
            f.spec_grid() == field@,
    {
        Self { field, rng, width, height, number_of_mines }
    }

    /// Draws `number_of_mines` distinct cells uniformly at random among all
    /// cells except `index` (a partial shuffle of the candidate indices) and
    /// plants a mine on each.
    fn place_mines(&mut self, index: usize)
        requires
            index < old(self).spec_width() * old(self).spec_height(),
            !old(self).spec_placed(),
        ensures
            final(self).spec_width() == old(self).spec_width(),
            final(self).spec_height() == old(self).spec_height(),
            final(self).spec_mines() == old(self).spec_mines(),
            final(self).spec_placed(),
            final(self).spec_grid().len() == final(self).spec_width() * final(self).spec_height(),
            count_true(final(self).spec_grid()) == final(self).spec_mines(),
            final(self).spec_grid()[index as int] == false,
    {
        proof {
            use_type_invariant(&*self);
        }
        let size: usize = self.width * self.height;
        let mut grid: Vec<bool> = Vec::new();
        while grid.len() < size
            invariant
                grid@.len() <= size,
                forall|i: int| 0 <= i < grid@.len() ==> grid@[i] == false,
            decreases size - grid@.len(),
        {
            grid.push(false);
        }
        proof {
            lemma_count_all_false(grid@);
        }

        let mut candidates: Vec<usize> = Vec::new();
        let mut j: usize = 0;
        while j < size
            invariant
                j <= size,
                index < size,
                candidates@.len() == if j <= index {
                    j as int
                } else {
                    j - 1
                },
                forall|a: int|
                    0 <= a < candidates@.len() ==> (#[trigger] candidates@[a]) < j
                        && candidates@[a] != index,
                forall|a: int, b: int|
                    0 <= a < b < candidates@.len() ==> candidates@[a] < candidates@[b],
            decreases size - j,
        {
            if j != index {
                candidates.push(j);
            }
            j += 1;
        }

        let mines: usize = self.number_of_mines;
        let mut k: usize = 0;
        while k < mines
            invariant
                k <= mines,
                mines == self.number_of_mines,
                mines < size,
                index < size,
                size == self.width * self.height,
                self.width == old(self).spec_width(),
                self.height == old(self).spec_height(),
                self.number_of_mines == old(self).spec_mines(),
                self.field == old(self).field,
                candidates@.len() == size - 1,
                forall|a: int|
                    0 <= a < candidates@.len() ==> (#[trigger] candidates@[a]) < size
                        && candidates@[a] != index,
                forall|a: int, b: int|
                    0 <= a < b < candidates@.len() ==> candidates@[a] != candidates@[b],
                grid@.len() == size,
                forall|i: int|
                    0 <= i < size ==> ((#[trigger] grid@[i]) == true <==> exists|m: int|
                        0 <= m < k && candidates@[m] == i),
                count_true(grid@) == k,
            decreases mines - k,
        {
            proof {
                use_type_invariant(&*self);
            }
            let pick: usize = k + rng_below(&mut self.rng, candidates.len() - k);
            let ghost cands0 = candidates@;
            let ghost grid0 = grid@;
            let a: usize = candidates[k];
            let b: usize = candidates[pick];
            candidates.set(k, b);
            candidates.set(pick, a);
            let c: usize = candidates[k];
            proof {
                assert(c == cands0[pick as int]);
                assert(forall|m: int| 0 <= m < k ==> candidates@[m] == cands0[m]);
                assert(!grid0[c as int]) by {
                    if grid0[c as int] {
                        let m = choose|m: int| 0 <= m < k && cands0[m] == c as int;
                        assert(cands0[m] == cands0[pick as int]);
                    }
                }
                lemma_count_true_update(grid0, c as int, true);
            }
            grid.set(c, true);
            k += 1;
            proof {
                assert forall|i: int| 0 <= i < size implies ((#[trigger] grid@[i]) == true
                    <==> exists|m: int| 0 <= m < k && candidates@[m] == i) by {
                    if i == c as int {
                        assert(candidates@[k - 1] == i);
                        assert(grid@[i] == true);
                        assert(0 <= k - 1 < k && candidates@[k - 1] == i);
                    } else {
                        assert(grid@[i] == grid0[i]);
                        if grid0[i] {
                            let m = choose|m: int| 0 <= m < k - 1 && cands0[m] == i;
                            assert(candidates@[m] == i);
                        } else {
                            assert forall|m: int| 0 <= m < k implies candidates@[m] != i by {
                                if m < k - 1 {
                                    assert(candidates@[m] == cands0[m]);
                                }
                            }
                        }
                    }
                }
            }
        }

        proof {
            assert(!grid@[index as int]);
        }
        self.field = grid;
    }

    /// Looks up the cell `(col, row)`, placing the mines first if this is
    /// the very first probe; that first-probed cell is always left clear.
    pub fn get(&mut self, col: usize, row: usize) -> (r: Option<bool>)
        ensures
            final(self).spec_width() == old(self).spec_width(),
            final(self).spec_height() == old(self).spec_height(),
            final(self).spec_mines() == old(self).spec_mines(),
            r is Some <==> (col < old(self).spec_width() && row < old(self).spec_height()),
            !(col < old(self).spec_width() && row < old(self).spec_height()) ==> *final(self)
                == *old(self),
            (col < old(self).spec_width() && row < old(self).spec_height()) ==> {
                &&& final(self).spec_placed()
                &&& final(self).spec_grid().len() == final(self).spec_width() * final(self).spec_height()
                &&& count_true(final(self).spec_grid()) == final(self).spec_mines()
                &&& r == Some(
                    final(self).spec_grid()[row * final(self).spec_width() + col],
                )
            },
            (col < old(self).spec_width() && row < old(self).spec_height() && old(self).spec_placed()) ==> final(self).spec_grid() == old(self).spec_grid(),
            (col < old(self).spec_width() && row < old(self).spec_height() && !old(self).spec_placed()) ==> final(self).spec_grid()[row * final(self).spec_width() + col]
                == false,
    {
        proof {
            use_type_invariant(&*self);
        }
        if col >= self.width || row >= self.height {
            return None;
        }
        proof {
            crate::board::lemma_row_major_bound(col as int, row as int, self.width as int,
                self.height as int);
        }
        let index: usize = row * self.width + col;
        if self.field.len() == 0 {
            self.place_mines(index);
        }
        Some(self.field[index])
    }

    /// Counts the mines adjacent to `(col, row)` on a placed grid.
    pub fn neighbors(&self, col: usize, row: usize) -> (n: u8)
        requires
            self.spec_placed(),
            col < self.spec_width(),
            row < self.spec_height(),
        ensures
            n == spec_adjacent_mines(
                self.spec_grid(),
                self.spec_width() as int,
                self.spec_height() as int,
                col as int,
                row as int,
            ),
            n <= 8,
    {
        proof {
            use_type_invariant(&*self);
        }
        let w = self.width;
        let h = self.height;
        let mut n: u8 = 0;
        proof {
            lemma_grid_index_bounds(w as int, h as int);
        }
        if col > 0 && row > 0 && self.field[(row - 1) * w + (col - 1)] {
            n += 1;
        }
        if row > 0 && self.field[(row - 1) * w + col] {
            n += 1;
        }
        if col + 1 < w && row > 0 && self.field[(row - 1) * w + (col + 1)] {
            n += 1;
        }
        if col > 0 && self.field[row * w + (col - 1)] {
            n += 1;
        }
        if col + 1 < w && self.field[row * w + (col + 1)] {
            n += 1;
        }
        if col > 0 && row + 1 < h && self.field[(row + 1) * w + (col - 1)] {
            n += 1;
        }
        if row + 1 < h && self.field[(row + 1) * w + col] {
            n += 1;
        }
        if col + 1 < w && row + 1 < h && self.field[(row + 1) * w + (col + 1)] {
            n += 1;
        }
        n
    }
}

impl Minefield for RustMinefield {
    closed spec fn spec_width(&self) -> usize {
        self.width
    }

    closed spec fn spec_height(&self) -> usize {
        self.height
    }

    closed spec fn spec_mines(&self) -> usize {
        self.number_of_mines
    }

    fn width(&self) -> (w: usize) {
        self.width
    }

    fn height(&self) -> (h: usize) {
        self.height
    }

    fn number_of_mines(&self) -> (m: usize) {
        self.number_of_mines
    }

    fn sweep_cell(&mut self, column: usize, row: usize) -> (r: Result<Cell, SolverError>)
        ensures
            final(self).spec_placed(),
            r is Ok,
            old(self).spec_placed() ==> final(self).spec_grid() == old(self).spec_grid(),
            !old(self).spec_placed() ==> (r matches Ok(c) && c matches Cell::Number(_)),
            (r matches Ok(c) ==> (c is Mine <==> final(self).spec_grid()[row * final(self).spec_width() + column])),
            (r matches Ok(c) && c matches Cell::Number(n) ==> n == spec_adjacent_mines(
                final(self).spec_grid(),
                final(self).spec_width() as int,
                final(self).spec_height() as int,
                column as int,
                row as int,
            )),
    {
        let hit = match self.get(column, row) {
            Some(b) => b,
            None => {
                return Err(SolverError::CapabilityFault);
            },
        };
        if hit {
            Ok(Cell::Mine)
        } else {
            Ok(Cell::Number(self.neighbors(column, row)))
        }
    }
}

proof fn lemma_count_all_false(s: Seq<bool>)
    requires
        forall|i: int| 0 <= i < s.len() ==> s[i] == false,
    ensures
        count_true(s) == 0,
    decreases s.len(),
{
    if s.len() > 0 {
        lemma_count_all_false(s.drop_last());
    }
}

/// Every row that is in bounds starts a full row inside the grid: its base
/// offset is non-negative and leaves room for `w` cells.
proof fn lemma_grid_index_bounds(w: int, h: int)
    requires
        1 <= w,
        1 <= h,
    ensures
        forall|r: int| 0 <= r < h ==> 0 <= #[trigger] (r * w) && r * w + w <= w * h,
{
    assert forall|r: int| 0 <= r < h implies 0 <= #[trigger] (r * w) && r * w + w <= w * h by {
        assert(0 <= r * w && r * w + w <= w * h) by (nonlinear_arith)
            requires
                0 <= r < h,
                1 <= w,
        ;
    }
}

} // verus!
