use vstd::prelude::*;
use vstd::string::StringExecFns;
use crate::board::{
    Cell, Pos, MAX_CELLS, adjacent, count_flag, count_mine, count_revealed, count_unknown,
    flag_neighbors, unknown_neighbors, lemma_count_bounds, lemma_count_partition,
    lemma_count_unknown_pos, lemma_count_update, lemma_flat_coords,
    lemma_neighbor_counts_update, lemma_row_major_bound,
};
use crate::field::{Minefield, SolverError};
use crate::probability::{
    PROB_ONE, EPSILON, MAX_ITERATIONS, CORR_BOUND, ProbMap, apply_guess_luck, clamp_unit, luck_of,
};

verus! {

/// The remaining-mine budget in probability micro-units, capped at the
/// board-size bound that backs the fixed-point arithmetic.
pub open spec fn spec_remaining_micro(remaining: usize) -> int {
    if remaining > MAX_CELLS {
        (MAX_CELLS as int) * (PROB_ONE as int)
    } else {
        (remaining as int) * (PROB_ONE as int)
    }
}

/// The solver for one board: the oracle it probes, its current knowledge of
/// every cell, and the running flag and unknown counters.
pub struct Solver<M: Minefield> {
    minefield: M,
    board: Vec<Cell>,
    flags: usize,
    unknowns: usize,
    guesses: usize,
    guess_probs: Ghost<Seq<int>>,
}

impl<M: Minefield> Solver<M> {
    pub closed spec fn spec_width(&self) -> usize {
        self.minefield.spec_width()
    }

    pub closed spec fn spec_height(&self) -> usize {
        self.minefield.spec_height()
    }

    pub closed spec fn spec_mines(&self) -> usize {
        self.minefield.spec_mines()
    }

    /// The board contents, row-major.
    pub closed spec fn spec_board(&self) -> Seq<Cell> {
        self.board@
    }

    pub closed spec fn spec_flags(&self) -> usize {
        self.flags
    }

    pub closed spec fn spec_unknowns(&self) -> usize {
        self.unknowns
    }

    /// How many forced guesses have been taken so far.
    pub closed spec fn spec_guesses(&self) -> usize {
        self.guesses
    }

    /// The estimated mine probabilities of the guesses taken so far, in
    /// micro-units, oldest first.
    pub closed spec fn spec_guess_history(&self) -> Seq<int> {
        self.guess_probs@
    }

    pub open spec fn in_bounds(&self, pos: Pos) -> bool {
        pos.0 < self.spec_width() && pos.1 < self.spec_height()
    }

    /// Row-major index of a position.
    pub open spec fn spec_idx(&self, pos: Pos) -> int {
        pos.1 * self.spec_width() + pos.0
    }

    pub open spec fn cell_at(&self, pos: Pos) -> Cell {
        self.spec_board()[self.spec_idx(pos)]
    }

    /// Well-formedness: the board has one cell per position and the two
    /// counters agree with a scan of the board.
    pub closed spec fn wf(&self) -> bool {
        &&& 1 <= self.spec_width()
        &&& 1 <= self.spec_height()
        &&& self.spec_width() * self.spec_height() <= MAX_CELLS
        &&& self.board@.len() == self.spec_width() * self.spec_height()
        &&& self.flags == count_flag(self.board@)
        &&& self.unknowns == count_unknown(self.board@)
        &&& self.guesses + self.unknowns <= self.board@.len()
    }

    /// The counters of a well-formed solver are the scan counts, and the
    /// flagged, revealed and unknown cells partition the board.
    pub proof fn lemma_wf_counts(&self)
        requires
            self.wf(),
        ensures
            self.spec_flags() == count_flag(self.spec_board()),
            self.spec_unknowns() == count_unknown(self.spec_board()),
            self.spec_board().len() == self.spec_width() * self.spec_height(),
            self.spec_flags() + count_revealed(self.spec_board()) + self.spec_unknowns()
                == self.spec_width() * self.spec_height(),
            1 <= self.spec_width(),
            1 <= self.spec_height(),
            self.spec_width() * self.spec_height() <= MAX_CELLS,
    {
        lemma_count_partition(self.board@);
    }

    /// A fresh solver over `minefield`, knowing nothing: every cell is
    /// `Unknown`. Fails with `CapabilityFault` exactly when the advertised
    /// dimensions are degenerate or too large for the solver's index
    /// arithmetic.
    pub fn new(minefield: M) -> (r: Result<Self, SolverError>)
        ensures
            match r {
                Ok(s) => {
                    &&& s.wf()
                    &&& s.spec_width() == minefield.spec_width()
                    &&& s.spec_height() == minefield.spec_height()
                    &&& s.spec_mines() == minefield.spec_mines()
                    &&& s.spec_flags() == 0
                    &&& s.spec_guesses() == 0
                    &&& s.spec_guess_history().len() == 0
                    &&& s.spec_unknowns() == s.spec_width() * s.spec_height()
                    &&& forall|i: int|
                        0 <= i < s.spec_board().len() ==> s.spec_board()[i] is Unknown
                },
                Err(e) => {
                    &&& e == SolverError::CapabilityFault
                    &&& (minefield.spec_width() * minefield.spec_height() == 0
                        || minefield.spec_width() * minefield.spec_height() > MAX_CELLS)
                },
            },
    {
        let width = minefield.width();
        let height = minefield.height();
        let size: usize = match width.checked_mul(height) {
            Some(s) => s,
            None => {
                proof {
                    lemma_mul_too_big(width as int, height as int);
                }
                return Err(SolverError::CapabilityFault);
            },
        };
        if size == 0 || size > MAX_CELLS {
            proof {
                if size == 0 {
                    lemma_mul_zero(width as int, height as int);
                }
            }
            return Err(SolverError::CapabilityFault);
        }
        let mut board: Vec<Cell> = Vec::new();
        while board.len() < size
            invariant
                board@.len() <= size,
                forall|i: int| 0 <= i < board@.len() ==> board@[i] is Unknown,
            decreases size - board@.len(),
        {
            board.push(Cell::Unknown);
        }
        proof {
            lemma_count_all_unknown(board@);
            lemma_mul_pos(width as int, height as int, size as int);
        }
        Ok(Self { minefield, board, flags: 0, unknowns: size, guesses: 0, guess_probs: Ghost(Seq::empty()) })
    }

    /// The row-major index of `pos`, or `None` out of bounds.
    pub fn index(&self, pos: Pos) -> (r: Option<usize>)
        requires
            self.wf(),
        ensures
            match r {
                Some(i) => self.in_bounds(pos) && i == self.spec_idx(pos) && i
                    < self.spec_board().len(),
                None => !self.in_bounds(pos),
            },
    {
        let width = self.minefield.width();
        let height = self.minefield.height();
        let Pos(col, row) = pos;
        if col >= width || row >= height {
            return None;
        }
        proof {
            lemma_row_major_bound(col as int, row as int, width as int, height as int);
        }
        Some(row * width + col)
    }

    /// The solver's knowledge of the cell at `pos`, or `None` out of bounds.
    pub fn get(&self, pos: Pos) -> (r: Option<Cell>)
        requires
            self.wf(),
        ensures
            match r {
                Some(c) => self.in_bounds(pos) && c == self.cell_at(pos),
                None => !self.in_bounds(pos),
            },
    {
        match self.index(pos) {
            Some(i) => Some(self.board[i]),
            None => None,
        }
    }

    /// Probes `pos` through the oracle and records the answer. The cell must
    /// still be unknown: the one transition out of `Unknown` happens here or
    /// in `plant_flag`, never twice.
    pub fn uncover(&mut self, pos: Pos) -> (r: Result<Cell, SolverError>)
        requires
            old(self).wf(),
            old(self).in_bounds(pos) ==> old(self).cell_at(pos) is Unknown,
        ensures
            final(self).wf(),
            final(self).spec_width() == old(self).spec_width(),
            final(self).spec_height() == old(self).spec_height(),
            final(self).spec_mines() == old(self).spec_mines(),
            final(self).spec_guesses() == old(self).spec_guesses(),
            final(self).spec_guess_history() == old(self).spec_guess_history(),
            !old(self).in_bounds(pos) ==> r == Err::<Cell, SolverError>(SolverError::BadIndex)
                && *final(self) == *old(self),
            old(self).in_bounds(pos) ==> match r {
                Ok(c) => {
                    &&& (c is Mine || (c matches Cell::Number(n) && n <= 8))
                    &&& final(self).spec_board() == old(self).spec_board().update(
                        old(self).spec_idx(pos),
                        c,
                    )
                    &&& final(self).spec_unknowns() == old(self).spec_unknowns() - 1
                    &&& final(self).spec_flags() == old(self).spec_flags()
                },
                Err(e) => {
                    &&& e == SolverError::CapabilityFault
                    &&& final(self).spec_board() == old(self).spec_board()
                    &&& final(self).spec_unknowns() == old(self).spec_unknowns()
                    &&& final(self).spec_flags() == old(self).spec_flags()
                },
            },
    {
        let i = match self.index(pos) {
            Some(i) => i,
            None => {
                return Err(SolverError::BadIndex);
            },
        };
        let cell = match self.minefield.sweep_cell(pos.0, pos.1) {
            Ok(c) => c,
            Err(_) => {
                return Err(SolverError::CapabilityFault);
            },
        };
        proof {
            lemma_count_update(self.board@, i as int, cell);
            lemma_count_unknown_pos(self.board@, i as int);
        }
        self.board.set(i, cell);
        self.unknowns = self.unknowns - 1;
        Ok(cell)
    }

    /// Marks `pos` as a deduced mine without consulting the oracle. The cell
    /// must still be unknown, as in `uncover`.
    pub fn plant_flag(&mut self, pos: Pos) -> (r: Result<(), SolverError>)
        requires
            old(self).wf(),
            old(self).in_bounds(pos) ==> old(self).cell_at(pos) is Unknown,
        ensures
            final(self).wf(),
            final(self).spec_width() == old(self).spec_width(),
            final(self).spec_height() == old(self).spec_height(),
            final(self).spec_mines() == old(self).spec_mines(),
            final(self).spec_guesses() == old(self).spec_guesses(),
            final(self).spec_guess_history() == old(self).spec_guess_history(),
            !old(self).in_bounds(pos) ==> r == Err::<(), SolverError>(SolverError::BadIndex)
                && *final(self) == *old(self),
            old(self).in_bounds(pos) ==> {
                &&& r is Ok
                &&& final(self).spec_board() == old(self).spec_board().update(
                    old(self).spec_idx(pos),
                    Cell::Flag,
                )
                &&& final(self).spec_unknowns() == old(self).spec_unknowns() - 1
                &&& final(self).spec_flags() == old(self).spec_flags() + 1
            },
    {
        let i = match self.index(pos) {
            Some(i) => i,
            None => {
                return Err(SolverError::BadIndex);
            },
        };
        proof {
            lemma_count_update(self.board@, i as int, Cell::Flag);
            lemma_count_unknown_pos(self.board@, i as int);
            lemma_count_bounds(self.board@);
        }
        self.board.set(i, Cell::Flag);
        self.unknowns = self.unknowns - 1;
        self.flags = self.flags + 1;
        Ok(())
    }

    /// Counts the flagged cells around `pos`.
    pub fn count_flag_neighbors(&self, pos: Pos) -> (n: u8)
        requires
            self.wf(),
            self.in_bounds(pos),
        ensures
            n == flag_neighbors(
                self.spec_board(),
                self.spec_width() as int,
                self.spec_height() as int,
                pos.0 as int,
                pos.1 as int,
            ),
            n <= 8,
    {
        let w = self.minefield.width();
        let h = self.minefield.height();
        let Pos(col, row) = pos;
        proof {
            crate::board::lemma_row_bases(w as int, h as int);
        }
        let mut n: u8 = 0;
        if col > 0 && row > 0 && self.board[(row - 1) * w + (col - 1)] == Cell::Flag {
            n += 1;
        }
        if row > 0 && self.board[(row - 1) * w + col] == Cell::Flag {
            n += 1;
        }
        if col + 1 < w && row > 0 && self.board[(row - 1) * w + (col + 1)] == Cell::Flag {
            n += 1;
        }
        if col > 0 && self.board[row * w + (col - 1)] == Cell::Flag {
            n += 1;
        }
        if col + 1 < w && self.board[row * w + (col + 1)] == Cell::Flag {
            n += 1;
        }
        if col > 0 && row + 1 < h && self.board[(row + 1) * w + (col - 1)] == Cell::Flag {
            n += 1;
        }
        if row + 1 < h && self.board[(row + 1) * w + col] == Cell::Flag {
            n += 1;
        }
        if col + 1 < w && row + 1 < h && self.board[(row + 1) * w + (col + 1)] == Cell::Flag {
            n += 1;
        }
        n
    }

    /// Counts the unknown cells around `pos`.
    pub fn count_unknown_neighbors(&self, pos: Pos) -> (n: u8)
        requires
            self.wf(),
            self.in_bounds(pos),
        ensures
            n == unknown_neighbors(
                self.spec_board(),
                self.spec_width() as int,
                self.spec_height() as int,
                pos.0 as int,
                pos.1 as int,
            ),
            n <= 8,
    {
        let w = self.minefield.width();
        let h = self.minefield.height();
        let Pos(col, row) = pos;
        proof {
            crate::board::lemma_row_bases(w as int, h as int);
        }
        let mut n: u8 = 0;
        if col > 0 && row > 0 && self.board[(row - 1) * w + (col - 1)] == Cell::Unknown {
            n += 1;
        }
        if row > 0 && self.board[(row - 1) * w + col] == Cell::Unknown {
            n += 1;
        }
        if col + 1 < w && row > 0 && self.board[(row - 1) * w + (col + 1)] == Cell::Unknown {
            n += 1;
        }
        if col > 0 && self.board[row * w + (col - 1)] == Cell::Unknown {
            n += 1;
        }
        if col + 1 < w && self.board[row * w + (col + 1)] == Cell::Unknown {
            n += 1;
        }
        if col > 0 && row + 1 < h && self.board[(row + 1) * w + (col - 1)] == Cell::Unknown {
            n += 1;
        }
        if row + 1 < h && self.board[(row + 1) * w + col] == Cell::Unknown {
            n += 1;
        }
        if col + 1 < w && row + 1 < h && self.board[(row + 1) * w + (col + 1)] == Cell::Unknown {
            n += 1;
        }
        n
    }

    /// The first unknown neighbor of `pos` in a fixed scan order, or `None`
    /// when every neighbor has left `Unknown`.
    pub fn first_unknown_neighbor(&self, pos: Pos) -> (r: Option<Pos>)
        requires
            self.wf(),
            self.in_bounds(pos),
        ensures
            match r {
                Some(q) => self.in_bounds(q) && adjacent(
                    pos.0 as int,
                    pos.1 as int,
                    q.0 as int,
                    q.1 as int,
                ) && self.cell_at(q) is Unknown,
                None => unknown_neighbors(
                    self.spec_board(),
                    self.spec_width() as int,
                    self.spec_height() as int,
                    pos.0 as int,
                    pos.1 as int,
                ) == 0,
            },
    {
        let w = self.minefield.width();
        let h = self.minefield.height();
        let Pos(col, row) = pos;
        proof {
            crate::board::lemma_row_bases(w as int, h as int);
        }
        if col > 0 && row > 0 && self.board[(row - 1) * w + (col - 1)] == Cell::Unknown {
            return Some(Pos(col - 1, row - 1));
        }
        if row > 0 && self.board[(row - 1) * w + col] == Cell::Unknown {
            return Some(Pos(col, row - 1));
        }
        if col + 1 < w && row > 0 && self.board[(row - 1) * w + (col + 1)] == Cell::Unknown {
            return Some(Pos(col + 1, row - 1));
        }
        if col > 0 && self.board[row * w + (col - 1)] == Cell::Unknown {
            return Some(Pos(col - 1, row));
        }
        if col + 1 < w && self.board[row * w + (col + 1)] == Cell::Unknown {
            return Some(Pos(col + 1, row));
        }
        if col > 0 && row + 1 < h && self.board[(row + 1) * w + (col - 1)] == Cell::Unknown {
            return Some(Pos(col - 1, row + 1));
        }
        if row + 1 < h && self.board[(row + 1) * w + col] == Cell::Unknown {
            return Some(Pos(col, row + 1));
        }
        if col + 1 < w && row + 1 < h && self.board[(row + 1) * w + (col + 1)] == Cell::Unknown {
            return Some(Pos(col + 1, row + 1));
        }
        None
    }

    /// Whether the board is cleared: nothing unknown, no revealed mine, and
    /// exactly the advertised number of mines flagged. Recounts the board by
    /// scanning rather than trusting the running counters.
    pub fn solved(&self) -> (r: bool)
        requires
            self.wf(),
        ensures
            r == (count_unknown(self.spec_board()) == 0 && count_mine(self.spec_board()) == 0
                && self.spec_flags() == self.spec_mines()),
    {
        let mut flags: usize = 0;
        let mut unknowns: usize = 0;
        let mut mines: usize = 0;
        let mut i: usize = 0;
        let len = self.board.len();
        while i < len
            invariant
                i <= len,
                len == self.board@.len(),
                flags == count_flag(self.board@.subrange(0, i as int)),
                unknowns == count_unknown(self.board@.subrange(0, i as int)),
                mines == count_mine(self.board@.subrange(0, i as int)),
            decreases len - i,
        {
            proof {
                let pre = self.board@.subrange(0, i as int);
                let post = self.board@.subrange(0, i + 1);
                assert(post.drop_last() =~= pre);
                assert(post.last() == self.board@[i as int]);
                lemma_count_bounds(pre);
            }
            match self.board[i] {
                Cell::Flag => {
                    flags += 1;
                },
                Cell::Unknown => {
                    unknowns += 1;
                },
                Cell::Mine => {
                    mines += 1;
                },
                Cell::Number(_) => {},
            }
            i += 1;
        }
        proof {
            assert(self.board@.subrange(0, len as int) =~= self.board@);
        }
        unknowns == 0 && mines == 0 && flags == self.minefield.number_of_mines()
    }
    /// Rule A: every unknown neighbor of the saturated numbered cell `pos`
    /// is provably safe; probe each in turn. Returns whether a probe
    /// detonated after all, in which case the solve fails at once.
    fn reveal_safe_neighbors(&mut self, pos: Pos, next: &mut Vec<Pos>) -> (r: Result<
        bool,
        SolverError,
    >)
        requires
            old(self).wf(),
            old(self).in_bounds(pos),
        ensures
            final(self).wf(),
            final(self).spec_width() == old(self).spec_width(),
            final(self).spec_height() == old(self).spec_height(),
            final(self).spec_mines() == old(self).spec_mines(),
            final(self).spec_guesses() == old(self).spec_guesses(),
            final(self).spec_guess_history() == old(self).spec_guess_history(),
            final(self).spec_flags() == old(self).spec_flags(),
            final(self).spec_board().len() == old(self).spec_board().len(),
            final(self).spec_unknowns() <= old(self).spec_unknowns(),
            forall|i: int|
                0 <= i < old(self).spec_board().len() && !(old(self).spec_board()[i] is Unknown)
                    ==> final(self).spec_board()[i] == old(self).spec_board()[i],
            final(next)@.len() >= old(next)@.len(),
            final(next)@.subrange(0, old(next)@.len() as int) == old(next)@,
            forall|i: int|
                old(next)@.len() <= i < final(next)@.len() ==> old(self).in_bounds(
                    final(next)@[i],
                ),
            r == Ok::<bool, SolverError>(false) ==> {
                &&& unknown_neighbors(
                    final(self).spec_board(),
                    old(self).spec_width() as int,
                    old(self).spec_height() as int,
                    pos.0 as int,
                    pos.1 as int,
                ) == 0
                &&& final(self).spec_unknowns() == old(self).spec_unknowns() - unknown_neighbors(
                    old(self).spec_board(),
                    old(self).spec_width() as int,
                    old(self).spec_height() as int,
                    pos.0 as int,
                    pos.1 as int,
                )
                &&& count_mine(final(self).spec_board()) == count_mine(old(self).spec_board())
            },
            r == Ok::<bool, SolverError>(true) ==> (count_mine(final(self).spec_board()) >= 1
                && final(self).spec_unknowns() < old(self).spec_unknowns()),
            r is Err ==> (r == Err::<bool, SolverError>(SolverError::CapabilityFault)
                && count_mine(final(self).spec_board()) == count_mine(old(self).spec_board())),
    {
        let ghost snap = *self;
        let ghost next0 = next@;
        let ghost ww = old(self).spec_width() as int;
        let ghost hh = old(self).spec_height() as int;
        let ghost cc = pos.0 as int;
        let ghost rr = pos.1 as int;
        loop
            invariant
                self.wf(),
                self.in_bounds(pos),
                snap == *old(self),
                next0 == old(next)@,
                self.spec_width() == snap.spec_width(),
                self.spec_height() == snap.spec_height(),
                self.spec_mines() == snap.spec_mines(),
                self.spec_guesses() == snap.spec_guesses(),
                self.spec_guess_history() == snap.spec_guess_history(),
                self.spec_flags() == snap.spec_flags(),
                self.spec_board().len() == snap.spec_board().len(),
                ww == snap.spec_width() as int,
                hh == snap.spec_height() as int,
                cc == pos.0 as int,
                rr == pos.1 as int,
                self.spec_unknowns() == snap.spec_unknowns() - (unknown_neighbors(
                    snap.spec_board(),
                    ww,
                    hh,
                    cc,
                    rr,
                ) - unknown_neighbors(self.spec_board(), ww, hh, cc, rr)),
                unknown_neighbors(self.spec_board(), ww, hh, cc, rr) <= unknown_neighbors(
                    snap.spec_board(),
                    ww,
                    hh,
                    cc,
                    rr,
                ),
                count_mine(self.spec_board()) == count_mine(snap.spec_board()),
                forall|i: int|
                    0 <= i < snap.spec_board().len() && !(snap.spec_board()[i] is Unknown)
                        ==> self.spec_board()[i] == snap.spec_board()[i],
                next@.len() >= next0.len(),
                next@.subrange(0, next0.len() as int) == next0,
                forall|i: int| next0.len() <= i < next@.len() ==> snap.in_bounds(next@[i]),
            decreases unknown_neighbors(self.spec_board(), ww, hh, cc, rr),
        {
            let q = match self.first_unknown_neighbor(pos) {
                Some(q) => q,
                None => {
                    return Ok(false);
                },
            };
            let ghost pre = self.spec_board();
            let cell = match self.uncover(q) {
                Ok(c) => c,
                Err(e) => {
                    return Err(e);
                },
            };
            proof {
                lemma_row_major_bound(q.0 as int, q.1 as int, ww, hh);
                lemma_neighbor_counts_update(pre, ww, hh, cc, rr, q.0 as int, q.1 as int, cell);
                lemma_count_update(pre, (q.1 as int) * ww + (q.0 as int), cell);
                lemma_count_bounds(pre);
            }
            if cell == Cell::Mine {
                proof {
                    crate::board::lemma_count_mine_pos(
                        self.spec_board(),
                        (q.1 as int) * ww + (q.0 as int),
                    );
                }
                return Ok(true);
            }
            next.push(q);
            proof {
                assert(next@.subrange(0, next0.len() as int) =~= next0);
            }
        }
    }

    /// Rule B: every unknown neighbor of the numbered cell `pos` is provably
    /// a mine; flag each without consulting the oracle.
    fn flag_mined_neighbors(&mut self, pos: Pos) -> (r: Result<(), SolverError>)
        requires
            old(self).wf(),
            old(self).in_bounds(pos),
        ensures
            final(self).wf(),
            final(self).spec_width() == old(self).spec_width(),
            final(self).spec_height() == old(self).spec_height(),
            final(self).spec_mines() == old(self).spec_mines(),
            final(self).spec_guesses() == old(self).spec_guesses(),
            final(self).spec_guess_history() == old(self).spec_guess_history(),
            final(self).spec_board().len() == old(self).spec_board().len(),
            forall|i: int|
                0 <= i < old(self).spec_board().len() && !(old(self).spec_board()[i] is Unknown)
                    ==> final(self).spec_board()[i] == old(self).spec_board()[i],
            count_mine(final(self).spec_board()) == count_mine(old(self).spec_board()),
            r is Ok,
            unknown_neighbors(
                final(self).spec_board(),
                old(self).spec_width() as int,
                old(self).spec_height() as int,
                pos.0 as int,
                pos.1 as int,
            ) == 0,
            final(self).spec_unknowns() == old(self).spec_unknowns() - unknown_neighbors(
                old(self).spec_board(),
                old(self).spec_width() as int,
                old(self).spec_height() as int,
                pos.0 as int,
                pos.1 as int,
            ),
            final(self).spec_flags() == old(self).spec_flags() + unknown_neighbors(
                old(self).spec_board(),
                old(self).spec_width() as int,
                old(self).spec_height() as int,
                pos.0 as int,
                pos.1 as int,
            ),
    {
        let ghost snap = *self;
        let ghost ww = old(self).spec_width() as int;
        let ghost hh = old(self).spec_height() as int;
        let ghost cc = pos.0 as int;
        let ghost rr = pos.1 as int;
        loop
            invariant
                self.wf(),
                self.in_bounds(pos),
                snap == *old(self),
                self.spec_width() == snap.spec_width(),
                self.spec_height() == snap.spec_height(),
                self.spec_mines() == snap.spec_mines(),
                self.spec_guesses() == snap.spec_guesses(),
                self.spec_guess_history() == snap.spec_guess_history(),
                self.spec_board().len() == snap.spec_board().len(),
                ww == snap.spec_width() as int,
                hh == snap.spec_height() as int,
                cc == pos.0 as int,
                rr == pos.1 as int,
                self.spec_unknowns() == snap.spec_unknowns() - (unknown_neighbors(
                    snap.spec_board(),
                    ww,
                    hh,
                    cc,
                    rr,
                ) - unknown_neighbors(self.spec_board(), ww, hh, cc, rr)),
                self.spec_flags() == snap.spec_flags() + (unknown_neighbors(
                    snap.spec_board(),
                    ww,
                    hh,
                    cc,
                    rr,
                ) - unknown_neighbors(self.spec_board(), ww, hh, cc, rr)),
                unknown_neighbors(self.spec_board(), ww, hh, cc, rr) <= unknown_neighbors(
                    snap.spec_board(),
                    ww,
                    hh,
                    cc,
                    rr,
                ),
                count_mine(self.spec_board()) == count_mine(snap.spec_board()),
                forall|i: int|
                    0 <= i < snap.spec_board().len() && !(snap.spec_board()[i] is Unknown)
                        ==> self.spec_board()[i] == snap.spec_board()[i],
            decreases unknown_neighbors(self.spec_board(), ww, hh, cc, rr),
        {
            let q = match self.first_unknown_neighbor(pos) {
                Some(q) => q,
                None => {
                    return Ok(());
                },
            };
            let ghost pre = self.spec_board();
            match self.plant_flag(q) {
                Ok(()) => {},
                Err(e) => {
                    return Err(e);
                },
            }
            proof {
                lemma_row_major_bound(q.0 as int, q.1 as int, ww, hh);
                lemma_neighbor_counts_update(
                    pre,
                    ww,
                    hh,
                    cc,
                    rr,
                    q.0 as int,
                    q.1 as int,
                    Cell::Flag,
                );
                lemma_count_update(pre, (q.1 as int) * ww + (q.0 as int), Cell::Flag);
            }
        }
    }
    /// No deduction or probe is available at `pos`: its cell is flagged,
    /// or it is a number that is fully resolved (no unknown neighbor) or
    /// that triggers neither rule — its count differs from its flagged
    /// neighbors, and its unknown plus flagged neighbors miss its count.
    pub open spec fn no_move_at(&self, pos: Pos) -> bool {
        let c = self.cell_at(pos);
        let u = unknown_neighbors(
            self.spec_board(),
            self.spec_width() as int,
            self.spec_height() as int,
            pos.0 as int,
            pos.1 as int,
        );
        let f = flag_neighbors(
            self.spec_board(),
            self.spec_width() as int,
            self.spec_height() as int,
            pos.0 as int,
            pos.1 as int,
        );
        &&& !(c is Unknown)
        &&& !(c is Mine)
        &&& (c matches Cell::Number(n) ==> (u == 0 || ((n as int) != f && u + f != n as int)))
    }

    /// One propagation round over the worklist `active`. Numbered cells are
    /// resolved by Rule A or Rule B or re-enqueued on `next`; a position
    /// still unknown is probed at once. Returns `(detonated, new_info)`.
    /// An unproductive, undetonated round certifies that no rule applied
    /// and no probe was owed anywhere on the worklist, and conversely a
    /// stable worklist yields exactly such a round with the solver left
    /// bit for bit as it was: propagation on a stable board is idempotent.
    pub fn propagate_round(&mut self, active: &Vec<Pos>, next: &mut Vec<Pos>) -> (r: Result<
        (bool, bool),
        SolverError,
    >)
        requires
            old(self).wf(),
            forall|i: int| 0 <= i < active@.len() ==> old(self).in_bounds(#[trigger] active@[i]),
        ensures
            final(self).wf(),
            final(self).spec_width() == old(self).spec_width(),
            final(self).spec_height() == old(self).spec_height(),
            final(self).spec_mines() == old(self).spec_mines(),
            final(self).spec_guesses() == old(self).spec_guesses(),
            final(self).spec_guess_history() == old(self).spec_guess_history(),
            final(self).spec_board().len() == old(self).spec_board().len(),
            final(self).spec_unknowns() <= old(self).spec_unknowns(),
            forall|i: int|
                0 <= i < old(self).spec_board().len() && !(old(self).spec_board()[i] is Unknown)
                    ==> final(self).spec_board()[i] == old(self).spec_board()[i],
            final(next)@.len() >= old(next)@.len(),
            final(next)@.subrange(0, old(next)@.len() as int) == old(next)@,
            forall|i: int|
                old(next)@.len() <= i < final(next)@.len() ==> old(self).in_bounds(
                    final(next)@[i],
                ),
            final(self).spec_flags() >= old(self).spec_flags(),
            old(self).spec_unknowns() == 0 ==> r is Ok,
            r == Ok::<(bool, bool), SolverError>((false, false)) ==> forall|i: int|
                0 <= i < active@.len() ==> old(self).no_move_at(#[trigger] active@[i]),
            (forall|i: int| 0 <= i < active@.len() ==> old(self).no_move_at(#[trigger] active@[i]))
                ==> (r == Ok::<(bool, bool), SolverError>((false, false)) && *final(self) == *old(
                self,
            )),
            (r is Ok && active@.len() > 0 && old(self).cell_at(active@[0]) is Unknown) ==> !(
            final(self).cell_at(active@[0]) is Unknown),
            match r {
                Ok((detonated, new_info)) => {
                    &&& (!detonated && !new_info) ==> *final(self) == *old(self)
                    &&& new_info ==> final(self).spec_unknowns() < old(self).spec_unknowns()
                    &&& detonated ==> count_mine(final(self).spec_board()) >= 1
                    &&& !detonated ==> count_mine(final(self).spec_board()) == count_mine(
                        old(self).spec_board(),
                    )
                },
                Err(e) => e == SolverError::CapabilityFault,
            },
    {
        let ghost snap = *self;
        let ghost next0 = next@;
        let mut new_info = false;
        let mut idx: usize = 0;
        while idx < active.len()
            invariant
                self.wf(),
                snap == *old(self),
                next0 == old(next)@,
                idx <= active@.len(),
                forall|i: int| 0 <= i < active@.len() ==> snap.in_bounds(#[trigger] active@[i]),
                self.spec_width() == snap.spec_width(),
                self.spec_height() == snap.spec_height(),
                self.spec_mines() == snap.spec_mines(),
                self.spec_guesses() == snap.spec_guesses(),
                self.spec_guess_history() == snap.spec_guess_history(),
                self.spec_board().len() == snap.spec_board().len(),
                self.spec_unknowns() <= snap.spec_unknowns(),
                self.spec_flags() >= snap.spec_flags(),
                !new_info ==> *self == snap,
                idx == 0 ==> (!new_info && *self == snap),
                !new_info ==> forall|i: int|
                    0 <= i < idx ==> snap.no_move_at(#[trigger] active@[i]),
                (forall|i: int|
                    0 <= i < active@.len() ==> snap.no_move_at(#[trigger] active@[i])) ==> (
                !new_info && *self == snap),
                (active@.len() > 0 && snap.cell_at(active@[0]) is Unknown && idx >= 1) ==> !(
                self.cell_at(active@[0]) is Unknown),
                new_info ==> self.spec_unknowns() < snap.spec_unknowns(),
                count_mine(self.spec_board()) == count_mine(snap.spec_board()),
                forall|i: int|
                    0 <= i < snap.spec_board().len() && !(snap.spec_board()[i] is Unknown)
                        ==> self.spec_board()[i] == snap.spec_board()[i],
                next@.len() >= next0.len(),
                next@.subrange(0, next0.len() as int) == next0,
                forall|i: int| next0.len() <= i < next@.len() ==> snap.in_bounds(next@[i]),
            decreases active@.len() - idx,
        {
            proof {
                if active@.len() > 0 {
                    lemma_row_major_bound(
                        active@[0].0 as int,
                        active@[0].1 as int,
                        snap.spec_width() as int,
                        snap.spec_height() as int,
                    );
                }
            }
            let pos = active[idx];
            let cell = match self.get(pos) {
                Some(c) => c,
                None => {
                    return Err(SolverError::CapabilityFault);
                },
            };
            match cell {
                Cell::Number(mines) => {
                    let flags = self.count_flag_neighbors(pos);
                    let unknowns = self.count_unknown_neighbors(pos);
                    if unknowns == 0 {
                        // fully resolved: drop the cell from the worklist
                    } else if mines == flags {
                        proof {
                            crate::board::lemma_unknown_neighbors_pos(
                                self.spec_board(),
                                snap.spec_width() as int,
                                snap.spec_height() as int,
                                pos.0 as int,
                                pos.1 as int,
                            );
                        }
                        let ghost mid = next@;
                        let res = self.reveal_safe_neighbors(pos, next);
                        proof {
                            assert(next@.subrange(0, next0.len() as int) =~= next0);
                            assert forall|i: int|
                                next0.len() <= i < next@.len() implies snap.in_bounds(
                                next@[i],
                            ) by {
                                if i < mid.len() {
                                    assert(next@[i] == next@.subrange(0, mid.len() as int)[i]);
                                }
                            }
                        }
                        let detonated = match res {
                            Ok(d) => d,
                            Err(e) => {
                                return Err(e);
                            },
                        };
                        if detonated {
                            return Ok((true, true));
                        }
                        new_info = true;
                    } else if (unknowns as usize) + (flags as usize) == (mines as usize) {
                        proof {
                            crate::board::lemma_unknown_neighbors_pos(
                                self.spec_board(),
                                snap.spec_width() as int,
                                snap.spec_height() as int,
                                pos.0 as int,
                                pos.1 as int,
                            );
                        }
                        match self.flag_mined_neighbors(pos) {
                            Ok(()) => {},
                            Err(e) => {
                                return Err(e);
                            },
                        }
                        new_info = true;
                    } else {
                        next.push(pos);
                        proof {
                            assert(next@.subrange(0, next0.len() as int) =~= next0);
                        }
                    }
                },
                Cell::Unknown => {
                    let ghost pre = self.spec_board();
                    proof {
                        lemma_row_major_bound(
                            pos.0 as int,
                            pos.1 as int,
                            snap.spec_width() as int,
                            snap.spec_height() as int,
                        );
                        lemma_count_unknown_pos(
                            pre,
                            (pos.1 as int) * (snap.spec_width() as int) + (pos.0 as int),
                        );
                    }
                    let c = match self.uncover(pos) {
                        Ok(c) => c,
                        Err(e) => {
                            return Err(e);
                        },
                    };
                    proof {
                        lemma_row_major_bound(
                            pos.0 as int,
                            pos.1 as int,
                            snap.spec_width() as int,
                            snap.spec_height() as int,
                        );
                        lemma_count_update(pre, (pos.1 as int) * (snap.spec_width() as int) + (
                        pos.0 as int), c);
                        lemma_count_bounds(pre);
                    }
                    if c == Cell::Mine {
                        proof {
                            crate::board::lemma_count_mine_pos(
                                self.spec_board(),
                                (pos.1 as int) * (snap.spec_width() as int) + (pos.0 as int),
                            );
                        }
                        return Ok((true, true));
                    }
                    next.push(pos);
                    proof {
                        assert(next@.subrange(0, next0.len() as int) =~= next0);
                    }
                    new_info = true;
                },
                Cell::Mine => {
                    proof {
                        lemma_row_major_bound(
                            pos.0 as int,
                            pos.1 as int,
                            snap.spec_width() as int,
                            snap.spec_height() as int,
                        );
                        crate::board::lemma_count_mine_pos(
                            self.spec_board(),
                            (pos.1 as int) * (snap.spec_width() as int) + (pos.0 as int),
                        );
                    }
                    return Ok((true, new_info));
                },
                Cell::Flag => {
                    // a flagged cell needs no further examination
                },
            }
            proof {
                if active@.len() > 0 {
                    lemma_row_major_bound(
                        active@[0].0 as int,
                        active@[0].1 as int,
                        snap.spec_width() as int,
                        snap.spec_height() as int,
                    );
                }
            }
            idx += 1;
        }
        Ok((false, new_info))
    }

    /// The shortcut once every mine is flagged: all remaining unknown cells
    /// are guaranteed safe, so reveal them all in row-major order without
    /// consulting the probability engine. Returns whether a probe detonated
    /// after all.
    fn reveal_remaining(&mut self) -> (r: Result<bool, SolverError>)
        requires
            old(self).wf(),
        ensures
            final(self).wf(),
            final(self).spec_width() == old(self).spec_width(),
            final(self).spec_height() == old(self).spec_height(),
            final(self).spec_mines() == old(self).spec_mines(),
            final(self).spec_guesses() == old(self).spec_guesses(),
            final(self).spec_guess_history() == old(self).spec_guess_history(),
            final(self).spec_flags() == old(self).spec_flags(),
            final(self).spec_board().len() == old(self).spec_board().len(),
            final(self).spec_unknowns() <= old(self).spec_unknowns(),
            forall|i: int|
                0 <= i < old(self).spec_board().len() && !(old(self).spec_board()[i] is Unknown)
                    ==> final(self).spec_board()[i] == old(self).spec_board()[i],
            r == Ok::<bool, SolverError>(false) ==> {
                &&& final(self).spec_unknowns() == 0
                &&& count_mine(final(self).spec_board()) == count_mine(old(self).spec_board())
            },
            r == Ok::<bool, SolverError>(true) ==> count_mine(final(self).spec_board()) >= 1,
            r is Err ==> r == Err::<bool, SolverError>(SolverError::CapabilityFault),
    {
        let ghost snap = *self;
        let width = self.minefield.width();
        let height = self.minefield.height();
        let mut row: usize = 0;
        while row < height
            invariant
                self.wf(),
                snap == *old(self),
                row <= height,
                width == snap.spec_width(),
                height == snap.spec_height(),
                self.spec_width() == snap.spec_width(),
                self.spec_height() == snap.spec_height(),
                self.spec_mines() == snap.spec_mines(),
                self.spec_guesses() == snap.spec_guesses(),
                self.spec_guess_history() == snap.spec_guess_history(),
                self.spec_flags() == snap.spec_flags(),
                self.spec_board().len() == snap.spec_board().len(),
                self.spec_unknowns() <= snap.spec_unknowns(),
                count_mine(self.spec_board()) == count_mine(snap.spec_board()),
                forall|i: int|
                    0 <= i < snap.spec_board().len() && !(snap.spec_board()[i] is Unknown)
                        ==> self.spec_board()[i] == snap.spec_board()[i],
                forall|i: int|
                    0 <= i < row * (width as int) ==> !(self.spec_board()[i] is Unknown),
            decreases height - row,
        {
            let mut col: usize = 0;
            while col < width
                invariant
                    self.wf(),
                    snap == *old(self),
                    row < height,
                    col <= width,
                    width == snap.spec_width(),
                    height == snap.spec_height(),
                    self.spec_width() == snap.spec_width(),
                    self.spec_height() == snap.spec_height(),
                    self.spec_mines() == snap.spec_mines(),
                    self.spec_guesses() == snap.spec_guesses(),
                self.spec_guess_history() == snap.spec_guess_history(),
                    self.spec_flags() == snap.spec_flags(),
                    self.spec_board().len() == snap.spec_board().len(),
                    self.spec_unknowns() <= snap.spec_unknowns(),
                    count_mine(self.spec_board()) == count_mine(snap.spec_board()),
                    forall|i: int|
                        0 <= i < snap.spec_board().len() && !(snap.spec_board()[i] is Unknown)
                            ==> self.spec_board()[i] == snap.spec_board()[i],
                    forall|i: int|
                        0 <= i < row * (width as int) + col ==> !(self.spec_board()[i] is Unknown),
                decreases width - col,
            {
                let pos = Pos(col, row);
                proof {
                    lemma_row_major_bound(col as int, row as int, width as int, height as int);
                }
                let cell = match self.get(pos) {
                    Some(c) => c,
                    None => {
                        return Err(SolverError::CapabilityFault);
                    },
                };
                if cell == Cell::Unknown {
                    let ghost pre = self.spec_board();
                    let c = match self.uncover(pos) {
                        Ok(c) => c,
                        Err(e) => {
                            return Err(e);
                        },
                    };
                    proof {
                        lemma_count_update(pre, (row as int) * (width as int) + (col as int), c);
                        lemma_count_bounds(pre);
                    }
                    if c == Cell::Mine {
                        proof {
                            crate::board::lemma_count_mine_pos(
                                self.spec_board(),
                                (row as int) * (width as int) + (col as int),
                            );
                        }
                        return Ok(true);
                    }
                }
                col += 1;
            }
            proof {
                assert((row + 1) * (width as int) == row * (width as int) + (width as int))
                    by (nonlinear_arith);
            }
            row += 1;
        }
        proof {
            assert forall|i: int| 0 <= i < self.spec_board().len() implies !(
            self.spec_board()[i] is Unknown) by {
                assert(height * (width as int) == (width as int) * (height as int))
                    by (nonlinear_arith);
            }
            crate::board::lemma_count_none_unknown(self.spec_board());
        }
        Ok(false)
    }
    /// The map covers only unknown cells of this board.
    pub open spec fn frontier_sound(&self, pm: &ProbMap) -> bool {
        forall|j: int|
            #[trigger] pm.spec_in(j) ==> 0 <= j < self.spec_board().len()
                && self.spec_board()[j] is Unknown
    }

    /// Every unknown neighbor of `pos` is on the map.
    pub open spec fn covered_neighbors(&self, pos: Pos, pm: &ProbMap) -> bool {
        forall|q: Pos|
            self.in_bounds(q) && adjacent(
                pos.0 as int,
                pos.1 as int,
                q.0 as int,
                q.1 as int,
            ) && self.cell_at(q) is Unknown ==> #[trigger] pm.spec_in(self.spec_idx(q))
    }

    /// Cell index `j` lies on the frontier of the worklist `active`: it is
    /// the index of an in-bounds cell in the 8-neighborhood of some
    /// numbered worklist cell.
    pub open spec fn near_active_number(&self, active: Seq<Pos>, j: int) -> bool {
        exists|i: int, qc: int, qr: int|
            {
                &&& 0 <= i < active.len()
                &&& self.cell_at(active[i]) is Number
                &&& 0 <= qc < self.spec_width()
                &&& 0 <= qr < self.spec_height()
                &&& j == qr * self.spec_width() + qc
                &&& adjacent(active[i].0 as int, active[i].1 as int, qc, qr)
            }
    }

    /// The map holds the whole frontier: every unknown neighbor of every
    /// numbered cell on the worklist.
    pub open spec fn frontier_complete(&self, active: Seq<Pos>, pm: &ProbMap) -> bool {
        forall|i: int|
            0 <= i < active.len() && self.cell_at(#[trigger] active[i]) is Number
                ==> self.covered_neighbors(active[i], pm)
    }

    /// A sound map never lists more frontier cells than there are unknown
    /// cells.
    pub proof fn lemma_frontier_at_most_unknowns(&self, pm: &ProbMap)
        requires
            self.wf(),
            pm.wf(),
            self.frontier_sound(pm),
        ensures
            pm.spec_len() <= self.spec_unknowns(),
    {
        pm.lemma_wf_facts();
        crate::probability::lemma_distinct_below(
            pm.spec_frontier(),
            self.spec_board().len() as int,
        );
        let fr = pm.spec_frontier();
        let ghost s = self.spec_board();
        let u = Set::new(|j: int| 0 <= j < s.len() && s[j] is Unknown);
        crate::board::lemma_count_unknown_card(s);
        broadcast use vstd::seq_lib::group_seq_properties;
        broadcast use vstd::set::group_set_axioms;

        let ints = fr.map_values(|x: usize| x as int);
        assert forall|a: int, b: int|
            0 <= a < fr.len() && 0 <= b < fr.len() && a != b implies fr[a] != fr[b] by {
            if a < b {
            } else {
            }
        }
        assert(fr.no_duplicates());
        fr.lemma_no_duplicates_injective(|x: usize| x as int);
        ints.unique_seq_to_set();
        assert(ints.to_set().subset_of(u)) by {
            assert forall|x: int| ints.to_set().contains(x) implies u.contains(x) by {
                let a = choose|a: int| 0 <= a < ints.len() && ints[a] == x;
                assert(pm.spec_in(fr[a] as int));
            }
        }
        vstd::set_lib::lemma_len_subset(ints.to_set(), u);
    }

    /// Puts the neighbor `(col, row)` of `pos` on the map with the naive
    /// estimate if it is still unknown and not yet listed.
    fn add_frontier_cell(&self, pm: &mut ProbMap, pos: Pos, col: usize, row: usize, naive: i64)
        requires
            self.wf(),
            col < self.spec_width(),
            row < self.spec_height(),
            adjacent(pos.0 as int, pos.1 as int, col as int, row as int),
            old(pm).wf(),
            old(pm).spec_cells() == self.spec_board().len(),
            0 <= naive <= PROB_ONE,
            self.frontier_sound(old(pm)),
        ensures
            final(pm).wf(),
            final(pm).spec_cells() == old(pm).spec_cells(),
            self.frontier_sound(final(pm)),
            forall|j: int| old(pm).spec_in(j) ==> final(pm).spec_in(j),
            forall|j: int|
                final(pm).spec_in(j) ==> old(pm).spec_in(j) || (exists|qc: int, qr: int|
                    {
                        &&& 0 <= qc < self.spec_width()
                        &&& 0 <= qr < self.spec_height()
                        &&& j == qr * self.spec_width() + qc
                        &&& adjacent(pos.0 as int, pos.1 as int, qc, qr)
                    }),
            forall|j: int|
                #[trigger] old(pm).spec_in(j) ==> final(pm).spec_prob(j) == old(pm).spec_prob(j),
            forall|j: int|
                #[trigger] final(pm).spec_in(j) && !old(pm).spec_in(j) ==> final(pm).spec_prob(j)
                    == naive,
            self.cell_at(Pos(col, row)) is Unknown ==> final(pm).spec_in(
                self.spec_idx(Pos(col, row)),
            ),
    {
        proof {
            old(pm).lemma_wf_facts();
            let jj = self.spec_idx(Pos(col, row));
            assert({
                let qc = col as int;
                let qr = row as int;
                &&& 0 <= qc < self.spec_width()
                &&& 0 <= qr < self.spec_height()
                &&& jj == qr * self.spec_width() + qc
                &&& adjacent(pos.0 as int, pos.1 as int, qc, qr)
            });
            assert(exists|qc: int, qr: int|
                {
                    &&& 0 <= qc < self.spec_width()
                    &&& 0 <= qr < self.spec_height()
                    &&& jj == #[trigger] (qr * self.spec_width() + qc)
                    &&& adjacent(pos.0 as int, pos.1 as int, qc, qr)
                });
        }
        proof {
            lemma_row_major_bound(
                col as int,
                row as int,
                self.spec_width() as int,
                self.spec_height() as int,
            );
        }
        let i: usize = row * self.minefield.width() + col;
        if self.board[i] == Cell::Unknown && !pm.contains(i) {
            pm.insert(i, naive);
            proof {
                pm.lemma_wf_facts();
                assert forall|j: int| #[trigger] pm.spec_in(j) implies 0 <= j
                    < self.spec_board().len() && self.spec_board()[j] is Unknown by {
                    if j != i as int {
                        assert(0 <= j < pm.spec_cells());
                        assert(old(pm).spec_in(j));
                    }
                }
            }
        }
    }

    /// Extends the map with every unknown neighbor of `pos`, each at the
    /// naive estimate.
    fn add_frontier_of(&self, pm: &mut ProbMap, pos: Pos, naive: i64)
        requires
            self.wf(),
            self.in_bounds(pos),
            old(pm).wf(),
            old(pm).spec_cells() == self.spec_board().len(),
            0 <= naive <= PROB_ONE,
            self.frontier_sound(old(pm)),
        ensures
            final(pm).wf(),
            final(pm).spec_cells() == old(pm).spec_cells(),
            self.frontier_sound(final(pm)),
            forall|j: int| old(pm).spec_in(j) ==> final(pm).spec_in(j),
            forall|j: int|
                final(pm).spec_in(j) ==> old(pm).spec_in(j) || (exists|qc: int, qr: int|
                    {
                        &&& 0 <= qc < self.spec_width()
                        &&& 0 <= qr < self.spec_height()
                        &&& j == qr * self.spec_width() + qc
                        &&& adjacent(pos.0 as int, pos.1 as int, qc, qr)
                    }),
            forall|j: int|
                #[trigger] old(pm).spec_in(j) ==> final(pm).spec_prob(j) == old(pm).spec_prob(j),
            forall|j: int|
                #[trigger] final(pm).spec_in(j) && !old(pm).spec_in(j) ==> final(pm).spec_prob(j)
                    == naive,
            self.covered_neighbors(pos, final(pm)),
    {
        let w = self.minefield.width();
        let h = self.minefield.height();
        let Pos(col, row) = pos;
        if col > 0 && row > 0 {
            self.add_frontier_cell(pm, pos, col - 1, row - 1, naive);
        }
        if row > 0 {
            self.add_frontier_cell(pm, pos, col, row - 1, naive);
        }
        if col + 1 < w && row > 0 {
            self.add_frontier_cell(pm, pos, col + 1, row - 1, naive);
        }
        if col > 0 {
            self.add_frontier_cell(pm, pos, col - 1, row, naive);
        }
        if col + 1 < w {
            self.add_frontier_cell(pm, pos, col + 1, row, naive);
        }
        if col > 0 && row + 1 < h {
            self.add_frontier_cell(pm, pos, col - 1, row + 1, naive);
        }
        if row + 1 < h {
            self.add_frontier_cell(pm, pos, col, row + 1, naive);
        }
        if col + 1 < w && row + 1 < h {
            self.add_frontier_cell(pm, pos, col + 1, row + 1, naive);
        }
        proof {
            assert forall|q: Pos|
                self.in_bounds(q) && adjacent(
                    pos.0 as int,
                    pos.1 as int,
                    q.0 as int,
                    q.1 as int,
                ) && self.cell_at(q) is Unknown implies #[trigger] pm.spec_in(
                self.spec_idx(q)) by {
                assert(q == Pos(q.0, q.1));
            }
        }
    }

    /// The frontier of the stalled position: every unknown cell adjacent to
    /// a numbered worklist cell, each starting at the naive estimate.
    fn build_frontier(&self, active: &Vec<Pos>, naive: i64) -> (pm: ProbMap)
        requires
            self.wf(),
            forall|i: int| 0 <= i < active@.len() ==> self.in_bounds(#[trigger] active@[i]),
            0 <= naive <= PROB_ONE,
        ensures
            pm.wf(),
            pm.spec_cells() == self.spec_board().len(),
            self.frontier_sound(&pm),
            self.frontier_complete(active@, &pm),
            forall|j: int| #[trigger] pm.spec_in(j) ==> self.near_active_number(active@, j),
            forall|j: int| #[trigger] pm.spec_in(j) ==> pm.spec_prob(j) == naive,
    {
        let mut pm = ProbMap::new(self.board.len());
        let mut k: usize = 0;
        while k < active.len()
            invariant
                self.wf(),
                k <= active@.len(),
                forall|i: int| 0 <= i < active@.len() ==> self.in_bounds(#[trigger] active@[i]),
                0 <= naive <= PROB_ONE,
                pm.wf(),
                pm.spec_cells() == self.spec_board().len(),
                self.frontier_sound(&pm),
                forall|j: int| #[trigger] pm.spec_in(j) ==> self.near_active_number(active@, j),
                forall|j: int| #[trigger] pm.spec_in(j) ==> pm.spec_prob(j) == naive,
                forall|i: int|
                    0 <= i < k && self.cell_at(#[trigger] active@[i]) is Number
                        ==> self.covered_neighbors(active@[i], &pm),
            decreases active@.len() - k,
        {
            let pos = active[k];
            let cell = match self.get(pos) {
                Some(c) => c,
                None => {
                    // worklist positions are always in bounds
                    Cell::Flag
                },
            };
            let ghost before = pm;
            if let Cell::Number(_) = cell {
                self.add_frontier_of(&mut pm, pos, naive);
            }
            proof {
                assert forall|j: int| #[trigger] pm.spec_in(j) implies self.near_active_number(
                    active@,
                    j,
                ) by {
                    if !before.spec_in(j) {
                        let (qc, qr) = choose|qc: int, qr: int|
                            {
                                &&& 0 <= qc < self.spec_width()
                                &&& 0 <= qr < self.spec_height()
                                &&& j == qr * self.spec_width() + qc
                                &&& adjacent(pos.0 as int, pos.1 as int, qc, qr)
                            };
                        assert({
                            &&& 0 <= k < active@.len()
                            &&& self.cell_at(active@[k as int]) is Number
                            &&& 0 <= qc < self.spec_width()
                            &&& 0 <= qr < self.spec_height()
                            &&& j == qr * self.spec_width() + qc
                            &&& adjacent(
                                active@[k as int].0 as int,
                                active@[k as int].1 as int,
                                qc,
                                qr,
                            )
                        });
                    }
                }
                assert forall|i: int|
                    0 <= i < k + 1 && self.cell_at(#[trigger] active@[i]) is Number implies self
                    .covered_neighbors(active@[i], &pm) by {
                    if i < k {
                        assert(self.covered_neighbors(active@[i], &before));
                        assert forall|q: Pos|
                            self.in_bounds(q) && adjacent(
                                active@[i].0 as int,
                                active@[i].1 as int,
                                q.0 as int,
                                q.1 as int,
                            ) && self.cell_at(q) is Unknown implies #[trigger] pm.spec_in(
                            self.spec_idx(q)) by {
                            assert(before.spec_in(self.spec_idx(q)));
                        }
                    }
                }
            }
            k += 1;
        }
        pm
    }
    /// The map's estimate at the neighbor `(col, row)` of `pos`, or zero
    /// when that cell is not unknown.
    fn neighbor_prob(&self, pm: &ProbMap, pos: Pos, col: usize, row: usize) -> (r: i64)
        requires
            self.wf(),
            self.in_bounds(pos),
            col < self.spec_width(),
            row < self.spec_height(),
            adjacent(pos.0 as int, pos.1 as int, col as int, row as int),
            pm.wf(),
            pm.spec_cells() == self.spec_board().len(),
            self.covered_neighbors(pos, pm),
        ensures
            0 <= r <= PROB_ONE,
    {
        proof {
            lemma_row_major_bound(
                col as int,
                row as int,
                self.spec_width() as int,
                self.spec_height() as int,
            );
        }
        let i: usize = row * self.minefield.width() + col;
        if self.board[i] == Cell::Unknown {
            proof {
                assert(pm.spec_in(self.spec_idx(Pos(col, row))));
            }
            pm.get(i)
        } else {
            0
        }
    }

    /// Sum of the map's estimates over the unknown neighbors of `pos`.
    fn sum_unknown_neighbor_probs(&self, pos: Pos, pm: &ProbMap) -> (r: i64)
        requires
            self.wf(),
            self.in_bounds(pos),
            pm.wf(),
            pm.spec_cells() == self.spec_board().len(),
            self.covered_neighbors(pos, pm),
        ensures
            0 <= r <= 8 * PROB_ONE,
    {
        let w = self.minefield.width();
        let h = self.minefield.height();
        let Pos(col, row) = pos;
        let mut acc: i64 = 0;
        if col > 0 && row > 0 {
            acc = acc + self.neighbor_prob(pm, pos, col - 1, row - 1);
        }
        if row > 0 {
            acc = acc + self.neighbor_prob(pm, pos, col, row - 1);
        }
        if col + 1 < w && row > 0 {
            acc = acc + self.neighbor_prob(pm, pos, col + 1, row - 1);
        }
        if col > 0 {
            acc = acc + self.neighbor_prob(pm, pos, col - 1, row);
        }
        if col + 1 < w {
            acc = acc + self.neighbor_prob(pm, pos, col + 1, row);
        }
        if col > 0 && row + 1 < h {
            acc = acc + self.neighbor_prob(pm, pos, col - 1, row + 1);
        }
        if row + 1 < h {
            acc = acc + self.neighbor_prob(pm, pos, col, row + 1);
        }
        if col + 1 < w && row + 1 < h {
            acc = acc + self.neighbor_prob(pm, pos, col + 1, row + 1);
        }
        acc
    }

    /// Applies the correction to the neighbor `(col, row)` of `pos` if that
    /// cell is unknown, clamped into the probability range.
    fn nudge_neighbor(&self, pm: &mut ProbMap, pos: Pos, col: usize, row: usize, corr: i64)
        requires
            self.wf(),
            self.in_bounds(pos),
            col < self.spec_width(),
            row < self.spec_height(),
            adjacent(pos.0 as int, pos.1 as int, col as int, row as int),
            old(pm).wf(),
            old(pm).spec_cells() == self.spec_board().len(),
            self.covered_neighbors(pos, old(pm)),
            -CORR_BOUND <= corr <= CORR_BOUND,
        ensures
            final(pm).wf(),
            final(pm).spec_cells() == old(pm).spec_cells(),
            final(pm).spec_frontier() == old(pm).spec_frontier(),
            forall|j: int| final(pm).spec_in(j) == old(pm).spec_in(j),
    {
        proof {
            lemma_row_major_bound(
                col as int,
                row as int,
                self.spec_width() as int,
                self.spec_height() as int,
            );
        }
        let i: usize = row * self.minefield.width() + col;
        if self.board[i] == Cell::Unknown {
            proof {
                assert(pm.spec_in(self.spec_idx(Pos(col, row))));
            }
            pm.add_one_clamped(i, corr);
        }
    }

    /// Adds the correction to each unknown neighbor of `pos`, clamped into
    /// the probability range.
    fn apply_correction_to_neighbors(&self, pos: Pos, pm: &mut ProbMap, corr: i64)
        requires
            self.wf(),
            self.in_bounds(pos),
            old(pm).wf(),
            old(pm).spec_cells() == self.spec_board().len(),
            self.covered_neighbors(pos, old(pm)),
            -CORR_BOUND <= corr <= CORR_BOUND,
        ensures
            final(pm).wf(),
            final(pm).spec_cells() == old(pm).spec_cells(),
            final(pm).spec_frontier() == old(pm).spec_frontier(),
            forall|j: int| final(pm).spec_in(j) == old(pm).spec_in(j),
    {
        let w = self.minefield.width();
        let h = self.minefield.height();
        let Pos(col, row) = pos;
        if col > 0 && row > 0 {
            self.nudge_neighbor(pm, pos, col - 1, row - 1, corr);
        }
        if row > 0 {
            self.nudge_neighbor(pm, pos, col, row - 1, corr);
        }
        if col + 1 < w && row > 0 {
            self.nudge_neighbor(pm, pos, col + 1, row - 1, corr);
        }
        if col > 0 {
            self.nudge_neighbor(pm, pos, col - 1, row, corr);
        }
        if col + 1 < w {
            self.nudge_neighbor(pm, pos, col + 1, row, corr);
        }
        if col > 0 && row + 1 < h {
            self.nudge_neighbor(pm, pos, col - 1, row + 1, corr);
        }
        if row + 1 < h {
            self.nudge_neighbor(pm, pos, col, row + 1, corr);
        }
        if col + 1 < w && row + 1 < h {
            self.nudge_neighbor(pm, pos, col + 1, row + 1, corr);
        }
    }

    /// One pass of the Gauss-Seidel-style relaxation: for each numbered
    /// worklist cell, spread the gap between its remaining mine count and
    /// its neighbors' current mass evenly over those neighbors, then
    /// normalize the whole frontier against the remaining budget. Returns
    /// the largest correction magnitude of the pass.
    fn relax_iteration(&self, active: &Vec<Pos>, pm: &mut ProbMap, remaining_micro: i64) -> (maxc:
        i64)
        requires
            self.wf(),
            forall|i: int| 0 <= i < active@.len() ==> self.in_bounds(#[trigger] active@[i]),
            old(pm).wf(),
            old(pm).spec_cells() == self.spec_board().len(),
            self.frontier_complete(active@, old(pm)),
            0 <= remaining_micro <= CORR_BOUND,
        ensures
            final(pm).wf(),
            final(pm).spec_cells() == old(pm).spec_cells(),
            forall|j: int| final(pm).spec_in(j) == old(pm).spec_in(j),
            self.frontier_complete(active@, final(pm)),
            maxc >= 0,
            final(pm).spec_total() <= remaining_micro + final(pm).spec_len() * maxc,
    {
        let mut maxc: i64 = 0;
        let mut k: usize = 0;
        while k < active.len()
            invariant
                self.wf(),
                k <= active@.len(),
                forall|i: int| 0 <= i < active@.len() ==> self.in_bounds(#[trigger] active@[i]),
                pm.wf(),
                pm.spec_cells() == self.spec_board().len(),
                forall|j: int| pm.spec_in(j) == old(pm).spec_in(j),
                self.frontier_complete(active@, pm),
                0 <= maxc,
            decreases active@.len() - k,
        {
            let pos = active[k];
            let cell = match self.get(pos) {
                Some(c) => c,
                None => Cell::Flag,
            };
            if let Cell::Number(mines) = cell {
                let u = self.count_unknown_neighbors(pos);
                if u > 0 {
                    let flags = self.count_flag_neighbors(pos);
                    proof {
                        assert(self.covered_neighbors(pos, pm));
                    }
                    let sum = self.sum_unknown_neighbor_probs(pos, pm);
                    let expected = ((mines as i64) - (flags as i64)) * PROB_ONE;
                    let diff = expected - sum;
                    let corr: i64 = if diff >= 0 {
                        diff / (u as i64)
                    } else {
                        proof {
                            vstd::arithmetic::div_mod::lemma_div_pos_is_pos(
                                -diff as int,
                                u as int,
                            );
                            vstd::arithmetic::div_mod::lemma_div_is_ordered(
                                0,
                                -diff as int,
                                u as int,
                            );
                            vstd::arithmetic::div_mod::lemma_div_nonincreasing(
                                -diff as int,
                                u as int,
                            );
                        }
                        -((-diff) / (u as i64))
                    };
                    proof {
                        if diff >= 0 {
                            vstd::arithmetic::div_mod::lemma_div_pos_is_pos(
                                diff as int,
                                u as int,
                            );
                            vstd::arithmetic::div_mod::lemma_div_nonincreasing(
                                diff as int,
                                u as int,
                            );
                        }
                    }
                    let mag: i64 = if corr < 0 {
                        -corr
                    } else {
                        corr
                    };
                    if mag > maxc {
                        maxc = mag;
                    }
                    let ghost before = *pm;
                    self.apply_correction_to_neighbors(pos, pm, corr);
                    proof {
                        assert forall|i: int|
                            0 <= i < active@.len() && self.cell_at(
                                #[trigger] active@[i],
                            ) is Number implies self.covered_neighbors(active@[i], pm) by {
                            assert(self.covered_neighbors(active@[i], &before));
                            assert forall|q: Pos|
                                self.in_bounds(q) && adjacent(
                                    active@[i].0 as int,
                                    active@[i].1 as int,
                                    q.0 as int,
                                    q.1 as int,
                                ) && self.cell_at(q) is Unknown implies #[trigger] pm.spec_in(
                                self.spec_idx(q)) by {
                                assert(before.spec_in(self.spec_idx(q)));
                            }
                        }
                    }
                }
            }
            k += 1;
        }
        let ghost pre_norm = *pm;
        let shrink = pm.normalize(remaining_micro);
        if shrink > maxc {
            maxc = shrink;
        }
        proof {
            assert(pm.spec_len() * maxc >= 0) by (nonlinear_arith)
                requires
                    pm.spec_len() >= 0,
                    maxc >= 0,
            ;
            if shrink >= 1 {
                assert(pre_norm.spec_total() - remaining_micro <= pre_norm.spec_len() * shrink);
                assert(pm.spec_len() * shrink <= pm.spec_len() * maxc) by (nonlinear_arith)
                    requires
                        shrink <= maxc,
                        pm.spec_len() >= 0,
                ;
            }
            assert forall|i: int|
                0 <= i < active@.len() && self.cell_at(#[trigger] active@[i]) is Number implies self
                .covered_neighbors(active@[i], pm) by {
                assert forall|q: Pos|
                    self.in_bounds(q) && adjacent(
                        active@[i].0 as int,
                        active@[i].1 as int,
                        q.0 as int,
                        q.1 as int,
                    ) && self.cell_at(q) is Unknown implies #[trigger] pm.spec_in(
                    self.spec_idx(q)) by {
                }
            }
        }
        maxc
    }

    /// When deduction stalls, estimates a mine probability for every
    /// frontier cell: naive uniform estimates refined by the bounded
    /// relaxation loop. Returns the map and the last pass's largest
    /// correction magnitude, the residual that the loop drives below the
    /// convergence threshold when it does not hit the iteration cap; the
    /// frontier's total mass is bounded by the remaining budget plus one
    /// residual per frontier cell.
    pub fn compute_probabilities(&self, active: &Vec<Pos>, remaining: usize) -> (r: (
        ProbMap,
        i64,
    ))
        requires
            self.wf(),
            forall|i: int| 0 <= i < active@.len() ==> self.in_bounds(#[trigger] active@[i]),
            self.spec_unknowns() > 0,
        ensures
            r.0.wf(),
            r.0.spec_cells() == self.spec_board().len(),
            self.frontier_sound(&r.0),
            self.frontier_complete(active@, &r.0),
            forall|j: int| #[trigger] r.0.spec_in(j) ==> self.near_active_number(active@, j),
            forall|j: int| #[trigger] r.0.spec_in(j) ==> 0 <= r.0.spec_prob(j) <= PROB_ONE,
            r.1 >= 0,
            r.0.spec_total() <= spec_remaining_micro(remaining) + r.0.spec_len() * r.1,
    {
        // a consistent oracle never advertises more mines than the board
        // holds cells, so the cap only tames a nonsensical one
        let rem_capped: usize = if remaining > MAX_CELLS {
            MAX_CELLS
        } else {
            remaining
        };
        let remaining_micro: i64 = (rem_capped as i64) * PROB_ONE;
        let naive_raw: i64 = remaining_micro / (self.unknowns as i64);
        proof {
            vstd::arithmetic::div_mod::lemma_div_pos_is_pos(
                remaining_micro as int,
                self.unknowns as int,
            );
        }
        let naive: i64 = if naive_raw > PROB_ONE {
            PROB_ONE
        } else {
            naive_raw
        };
        let mut pm = self.build_frontier(active, naive);
        let mut residual: i64 = 0;
        let mut it: usize = 0;
        while it < MAX_ITERATIONS
            invariant
                self.wf(),
                forall|i: int| 0 <= i < active@.len() ==> self.in_bounds(#[trigger] active@[i]),
                0 <= remaining_micro <= CORR_BOUND,
                remaining_micro == spec_remaining_micro(remaining),
                pm.wf(),
                pm.spec_cells() == self.spec_board().len(),
                self.frontier_sound(&pm),
                self.frontier_complete(active@, &pm),
                forall|j: int| #[trigger] pm.spec_in(j) ==> self.near_active_number(active@, j),
                residual >= 0,
                it > 0 ==> pm.spec_total() <= remaining_micro + pm.spec_len() * residual,
            ensures
                pm.wf(),
                pm.spec_cells() == self.spec_board().len(),
                self.frontier_sound(&pm),
                self.frontier_complete(active@, &pm),
                forall|j: int| #[trigger] pm.spec_in(j) ==> self.near_active_number(active@, j),
                residual >= 0,
                it > 0,
                pm.spec_total() <= remaining_micro + pm.spec_len() * residual,
            decreases MAX_ITERATIONS - it,
        {
            let ghost before = pm;
            let maxc = self.relax_iteration(active, &mut pm, remaining_micro);
            residual = maxc;
            proof {
                assert forall|j: int| #[trigger] pm.spec_in(j) implies 0 <= j
                    < self.spec_board().len() && self.spec_board()[j] is Unknown by {
                    assert(before.spec_in(j));
                }
                assert forall|j: int| #[trigger] pm.spec_in(j) implies self.near_active_number(
                    active@,
                    j,
                ) by {
                    assert(before.spec_in(j));
                }
            }
            it += 1;
            if maxc < EPSILON {
                break ;
            }
        }
        proof {
            pm.lemma_wf_facts();
        }
        (pm, residual)
    }
    /// The estimated probability of an isolated unknown cell: the leftover
    /// mass after the frontier's share, spread uniformly.
    pub open spec fn spec_p_other(&self, pm: &ProbMap, rem: int) -> int {
        if pm.spec_total() >= rem {
            0
        } else {
            clamp_unit((rem - pm.spec_total()) / (self.spec_unknowns() - pm.spec_len()))
        }
    }

    /// The first unknown cell off the frontier, scanning the board in
    /// row-major order (column varies fastest), or `None` if every unknown
    /// cell is on the frontier.
    pub fn first_isolated(&self, pm: &ProbMap) -> (r: Option<Pos>)
        requires
            self.wf(),
            pm.wf(),
            pm.spec_cells() == self.spec_board().len(),
        ensures
            match r {
                Some(q) => {
                    &&& self.in_bounds(q)
                    &&& self.cell_at(q) is Unknown
                    &&& !pm.spec_in(self.spec_idx(q))
                    &&& forall|i: int|
                        0 <= i < self.spec_idx(q) ==> !(self.spec_board()[i] is Unknown
                            && !pm.spec_in(i))
                },
                None => forall|i: int|
                    0 <= i < self.spec_board().len() ==> !(self.spec_board()[i] is Unknown
                        && !pm.spec_in(i)),
            },
    {
        let width = self.minefield.width();
        let height = self.minefield.height();
        let mut row: usize = 0;
        while row < height
            invariant
                self.wf(),
                pm.wf(),
                pm.spec_cells() == self.spec_board().len(),
                row <= height,
                width == self.spec_width(),
                height == self.spec_height(),
                forall|i: int|
                    0 <= i < row * (width as int) ==> !(self.spec_board()[i] is Unknown
                        && !pm.spec_in(i)),
            decreases height - row,
        {
            let mut col: usize = 0;
            while col < width
                invariant
                    self.wf(),
                    pm.wf(),
                    pm.spec_cells() == self.spec_board().len(),
                    row < height,
                    col <= width,
                    width == self.spec_width(),
                    height == self.spec_height(),
                    forall|i: int|
                        0 <= i < row * (width as int) + col ==> !(self.spec_board()[i] is Unknown
                            && !pm.spec_in(i)),
                decreases width - col,
            {
                proof {
                    lemma_row_major_bound(col as int, row as int, width as int, height as int);
                }
                let i: usize = row * width + col;
                if self.board[i] == Cell::Unknown && !pm.contains(i) {
                    return Some(Pos(col, row));
                }
                col += 1;
            }
            proof {
                assert((row + 1) * (width as int) == row * (width as int) + (width as int))
                    by (nonlinear_arith);
            }
            row += 1;
        }
        proof {
            assert forall|i: int| 0 <= i < self.spec_board().len() implies !(
            self.spec_board()[i] is Unknown && !pm.spec_in(i)) by {
                assert(height * (width as int) == (width as int) * (height as int))
                    by (nonlinear_arith);
            }
        }
        None
    }

    /// Picks the next probe from the probability estimates: the frontier
    /// cell with the least estimate by default, or the first isolated cell
    /// in row-major order when the isolated share undercuts that minimum.
    /// The impossible no-candidate case is a checked internal fault, shown
    /// never to happen.
    pub fn select_guess(&self, pm: &ProbMap, remaining_micro: i64) -> (r: Result<
        (Pos, i64),
        SolverError,
    >)
        requires
            self.wf(),
            pm.wf(),
            pm.spec_cells() == self.spec_board().len(),
            self.frontier_sound(pm),
            self.spec_unknowns() > 0,
            0 <= remaining_micro <= CORR_BOUND,
        ensures
            r is Ok,
            ({
                let (q, p) = r.unwrap();
                &&& self.in_bounds(q)
                &&& self.cell_at(q) is Unknown
                &&& 0 <= p <= PROB_ONE
                &&& (pm.spec_len() == 0 || (self.spec_unknowns() > pm.spec_len() && (forall|a: int|
                    0 <= a < pm.spec_len() ==> self.spec_p_other(pm, remaining_micro as int)
                        < pm.spec_prob((#[trigger] pm.spec_frontier()[a]) as int)))) ==> {
                    &&& !pm.spec_in(self.spec_idx(q))
                    &&& p == self.spec_p_other(pm, remaining_micro as int)
                    &&& forall|i: int|
                        0 <= i < self.spec_idx(q) ==> !(self.spec_board()[i] is Unknown
                            && !pm.spec_in(i))
                }
                &&& (pm.spec_len() > 0 && (self.spec_unknowns() == pm.spec_len() || (exists|a: int|
                    0 <= a < pm.spec_len() && self.spec_p_other(pm, remaining_micro as int)
                        >= pm.spec_prob((#[trigger] pm.spec_frontier()[a]) as int)))) ==> {
                    &&& pm.spec_in(self.spec_idx(q))
                    &&& p == pm.spec_prob(self.spec_idx(q))
                    &&& forall|a: int|
                        0 <= a < pm.spec_len() ==> p <= pm.spec_prob(
                            (#[trigger] pm.spec_frontier()[a]) as int,
                        )
                    &&& exists|k: int|
                        0 <= k < pm.spec_len() && pm.spec_frontier()[k] as int == self.spec_idx(q)
                            && (forall|a: int|
                            0 <= a < k ==> pm.spec_prob(
                                (#[trigger] pm.spec_frontier()[a]) as int,
                            ) > p)
                }
            }),
    {
        proof {
            self.lemma_frontier_at_most_unknowns(pm);
            pm.lemma_wf_facts();
            self.lemma_wf_counts();
        }
        let t = pm.total();
        let iso: usize = self.unknowns - pm.len();
        let p_other: i64 = if t >= remaining_micro {
            0
        } else if iso > 0 {
            proof {
                vstd::arithmetic::div_mod::lemma_div_pos_is_pos(
                    (remaining_micro - t) as int,
                    iso as int,
                );
            }
            let raw = (remaining_micro - t) / (iso as i64);
            if raw > PROB_ONE {
                PROB_ONE
            } else {
                raw
            }
        } else {
            0
        };
        match pm.min_entry() {
            Some((j, p)) => {
                if iso > 0 && p_other < p {
                    proof {
                        crate::board::lemma_unknown_beyond(self.spec_board(), pm.spec_frontier());
                        let jj = choose|jj: int|
                            0 <= jj < self.spec_board().len() && self.spec_board()[jj] is Unknown
                                && (forall|a: int|
                                0 <= a < pm.spec_frontier().len() ==> (
                                #[trigger] pm.spec_frontier()[a]) as int != jj);
                        if pm.spec_in(jj) {
                            let a = choose|a: int|
                                0 <= a < pm.spec_len() && pm.spec_frontier()[a] == jj;
                            assert(false);
                        }
                    }
                    match self.first_isolated(pm) {
                        Some(q) => Ok((q, p_other)),
                        None => {
                            // the global accounting above proves an isolated
                            // cell exists, so this internal check cannot fire
                            Err(SolverError::CapabilityFault)
                        },
                    }
                } else {
                    proof {
                        lemma_flat_coords(
                            j as int,
                            self.spec_width() as int,
                            self.spec_height() as int,
                        );
                    }
                    let col = j % self.minefield.width();
                    let row = j / self.minefield.width();
                    Ok((Pos(col, row), p))
                }
            },
            None => {
                proof {
                    if self.spec_unknowns() > 0 {
                        if forall|i: int|
                            0 <= i < self.spec_board().len() ==> !(
                            #[trigger] self.spec_board()[i] is Unknown && !pm.spec_in(i)) {
                            assert forall|i: int|
                                0 <= i < self.spec_board().len() implies !(
                            self.spec_board()[i] is Unknown) by {
                                if pm.spec_in(i) {
                                    let a = choose|a: int|
                                        0 <= a < pm.spec_len() && pm.spec_frontier()[a] == i;
                                    assert(false);
                                }
                            }
                            crate::board::lemma_count_none_unknown(self.spec_board());
                            assert(false);
                        }
                    }
                }
                match self.first_isolated(pm) {
                    Some(q) => Ok((q, p_other)),
                    None => Err(SolverError::CapabilityFault),
                }
            },
        }
    }

    /// Drives the solve to a terminal outcome: propagation to a fixed
    /// point, the bulk reveal once every mine is flagged, and otherwise a
    /// probability-guided guess, over and over. Returns whether the board
    /// was cleared and the accumulated luck, in probability micro-units:
    /// exactly one unit for a run that never had to guess.
    pub fn solve(&mut self) -> (r: Result<(bool, i64), SolverError>)
        requires
            old(self).wf(),
        ensures
            final(self).wf(),
            final(self).spec_width() == old(self).spec_width(),
            final(self).spec_height() == old(self).spec_height(),
            final(self).spec_mines() == old(self).spec_mines(),
            final(self).spec_board().len() == old(self).spec_board().len(),
            final(self).spec_guesses() >= old(self).spec_guesses(),
            final(self).spec_guess_history().len() == old(self).spec_guess_history().len() + (
            final(self).spec_guesses() - old(self).spec_guesses()),
            final(self).spec_guess_history().subrange(
                0,
                old(self).spec_guess_history().len() as int,
            ) == old(self).spec_guess_history(),
            forall|i: int|
                old(self).spec_guess_history().len() <= i < final(self).spec_guess_history().len()
                    ==> 0 <= #[trigger] final(self).spec_guess_history()[i] <= PROB_ONE,
            forall|i: int|
                0 <= i < old(self).spec_board().len() && !(old(self).spec_board()[i] is Unknown)
                    ==> final(self).spec_board()[i] == old(self).spec_board()[i],
            old(self).spec_unknowns() == 0 ==> r is Ok,
            (r is Ok && old(self).cell_at(Pos(0, 0)) is Unknown) ==> !(final(self).cell_at(
                Pos(0, 0),
            ) is Unknown),
            old(self).spec_flags() >= old(self).spec_mines() ==> final(self).spec_guesses() == old(
                self,
            ).spec_guesses(),
            match r {
                Ok((solved, luck)) => {
                    &&& solved == (count_unknown(final(self).spec_board()) == 0 && count_mine(
                        final(self).spec_board(),
                    ) == 0 && final(self).spec_flags() == final(self).spec_mines())
                    &&& (final(self).spec_unknowns() == 0 || count_mine(
                        final(self).spec_board(),
                    ) >= 1)
                    &&& 0 <= luck <= PROB_ONE
                    &&& luck == luck_of(
                        final(self).spec_guess_history().skip(
                            old(self).spec_guess_history().len() as int,
                        ),
                    )
                    &&& (final(self).spec_guesses() == old(self).spec_guesses() ==> luck
                        == PROB_ONE)
                },
                Err(e) => e == SolverError::CapabilityFault,
            },
    {
        let mut luck: i64 = PROB_ONE;
        let mut active: Vec<Pos> = Vec::new();
        let mut next: Vec<Pos> = Vec::new();
        let ghost mut gs: Seq<int> = Seq::empty();
        proof {
            assert(self.spec_board().len() >= 1) by (nonlinear_arith)
                requires
                    self.spec_board().len() == self.spec_width() * self.spec_height(),
                    1 <= self.spec_width(),
                    1 <= self.spec_height(),
            ;
            assert(self.spec_guess_history() + gs =~= self.spec_guess_history());
            assert(self.spec_guess_history().subrange(
                0,
                self.spec_guess_history().len() as int,
            ) =~= self.spec_guess_history());
            assert(self.spec_guess_history().skip(self.spec_guess_history().len() as int) =~= gs);
        }
        // corner-first convention: the opening probe is the fixed cell (0, 0)
        next.push(Pos(0, 0));
        loop
            invariant
                self.wf(),
                self.spec_width() == old(self).spec_width(),
                self.spec_height() == old(self).spec_height(),
                self.spec_mines() == old(self).spec_mines(),
                self.spec_board().len() == old(self).spec_board().len(),
                self.spec_board().len() >= 1,
                self.spec_unknowns() <= old(self).spec_unknowns(),
                self.spec_flags() >= old(self).spec_flags(),
                old(self).spec_flags() >= old(self).spec_mines() ==> gs.len() == 0,
                (old(self).cell_at(Pos(0, 0)) is Unknown && self.cell_at(Pos(0, 0)) is Unknown)
                    ==> (next@.len() > 0 && next@[0] == Pos(0, 0)),
                self.spec_guesses() == old(self).spec_guesses() + gs.len(),
                self.spec_guess_history() == old(self).spec_guess_history() + gs,
                self.spec_guess_history().subrange(
                    0,
                    old(self).spec_guess_history().len() as int,
                ) == old(self).spec_guess_history(),
                self.spec_guess_history().skip(old(self).spec_guess_history().len() as int) == gs,
                luck == luck_of(gs),
                forall|i: int| 0 <= i < gs.len() ==> 0 <= #[trigger] gs[i] <= PROB_ONE,
                forall|i: int|
                    0 <= i < old(self).spec_board().len() && !(
                    old(self).spec_board()[i] is Unknown) ==> self.spec_board()[i] == old(
                        self,
                    ).spec_board()[i],
                forall|i: int| 0 <= i < next@.len() ==> self.in_bounds(#[trigger] next@[i]),
                0 <= luck <= PROB_ONE,
            decreases self.spec_unknowns(),
        {
            active.clear();
            std::mem::swap(&mut active, &mut next);
            let ghost pre_round = *self;
            let round = self.propagate_round(&active, &mut next);
            proof {
                assert forall|i: int|
                    0 <= i < old(self).spec_board().len() && !(
                    old(self).spec_board()[i] is Unknown) implies self.spec_board()[i] == old(
                    self,
                ).spec_board()[i] by {
                    assert(pre_round.spec_board()[i] == old(self).spec_board()[i]);
                }
            }
            let (detonated, new_info) = match round {
                Ok(x) => x,
                Err(_) => {
                    return Err(SolverError::CapabilityFault);
                },
            };
            proof {
                if old(self).cell_at(Pos(0, 0)) is Unknown {
                    assert(round is Ok);
                    if pre_round.cell_at(Pos(0, 0)) is Unknown {
                        assert(active@.len() > 0);
                        assert(active@[0] == Pos(0, 0));
                        assert(pre_round.cell_at(active@[0]) is Unknown);
                        assert(!(self.cell_at(active@[0]) is Unknown));
                        assert(!(self.cell_at(Pos(0, 0)) is Unknown));
                    } else {
                        assert(pre_round.spec_idx(Pos(0, 0)) == 0) by (nonlinear_arith);
                        assert(!(pre_round.spec_board()[0] is Unknown));
                        assert(self.spec_board()[0] == pre_round.spec_board()[0]);
                        assert(!(self.cell_at(Pos(0, 0)) is Unknown));
                    }
                }
            }
            if detonated {
                proof {
                    lemma_count_bounds(self.spec_board());
                }
                return Ok((false, luck));
            }
            if self.unknowns == 0 {
                let s = self.solved();
                return Ok((s, luck));
            }
            let m = self.minefield.number_of_mines();
            let remaining: usize = if self.flags >= m {
                0
            } else {
                m - self.flags
            };
            if remaining == 0 {
                let ghost pre_bulk = *self;
                let bulk = self.reveal_remaining();
                proof {
                    assert forall|i: int|
                        0 <= i < old(self).spec_board().len() && !(
                        old(self).spec_board()[i] is Unknown) implies self.spec_board()[i] == old(
                        self,
                    ).spec_board()[i] by {
                        assert(pre_bulk.spec_board()[i] == old(self).spec_board()[i]);
                    }
                    if old(self).cell_at(Pos(0, 0)) is Unknown {
                        assert(self.spec_idx(Pos(0, 0)) == 0) by (nonlinear_arith);
                        assert(pre_bulk.spec_idx(Pos(0, 0)) == 0) by (nonlinear_arith);
                        assert(!(self.cell_at(Pos(0, 0)) is Unknown));
                    }
                }
                let det = match bulk {
                    Ok(d) => d,
                    Err(_) => {
                        return Err(SolverError::CapabilityFault);
                    },
                };
                if det {
                    proof {
                        lemma_count_bounds(self.spec_board());
                    }
                    return Ok((false, luck));
                }
                let s = self.solved();
                return Ok((s, luck));
            }
            if new_info {
                continue ;
            }
            // deduction is stalled: fall back to the probability engine
            let (pm, _residual) = self.compute_probabilities(&active, remaining);
            let rem_capped: usize = if remaining > MAX_CELLS {
                MAX_CELLS
            } else {
                remaining
            };
            let remaining_micro: i64 = (rem_capped as i64) * PROB_ONE;
            let (pos, p) = match self.select_guess(&pm, remaining_micro) {
                Ok(x) => x,
                Err(e) => {
                    return Err(e);
                },
            };
            luck = apply_guess_luck(luck, p);
            let ghost pre_guess = *self;
            let cell = match self.uncover(pos) {
                Ok(c) => c,
                Err(_) => {
                    return Err(SolverError::CapabilityFault);
                },
            };
            proof {
                lemma_row_major_bound(
                    pos.0 as int,
                    pos.1 as int,
                    self.spec_width() as int,
                    self.spec_height() as int,
                );
                lemma_count_update(
                    pre_guess.spec_board(),
                    pre_guess.spec_idx(pos),
                    cell,
                );
                lemma_count_bounds(pre_guess.spec_board());
                assert forall|i: int|
                    0 <= i < old(self).spec_board().len() && !(
                    old(self).spec_board()[i] is Unknown) implies self.spec_board()[i] == old(
                    self,
                ).spec_board()[i] by {
                    assert(pre_guess.spec_board()[i] == old(self).spec_board()[i]);
                }
                if old(self).cell_at(Pos(0, 0)) is Unknown {
                    assert(self.spec_idx(Pos(0, 0)) == 0) by (nonlinear_arith);
                    assert(pre_guess.spec_idx(Pos(0, 0)) == 0) by (nonlinear_arith);
                    assert(!(self.cell_at(Pos(0, 0)) is Unknown));
                }
            }
            self.guesses = self.guesses + 1;
            self.guess_probs = Ghost(self.guess_probs@.push(p as int));
            proof {
                let prev = gs;
                gs = gs.push(p as int);
                assert(gs.drop_last() =~= prev);
                assert((old(self).spec_guess_history() + prev).push(p as int)
                    =~= old(self).spec_guess_history() + gs);
                assert(self.spec_guess_history().subrange(
                    0,
                    old(self).spec_guess_history().len() as int,
                ) =~= old(self).spec_guess_history());
                assert(self.spec_guess_history().skip(
                    old(self).spec_guess_history().len() as int,
                ) =~= gs);
            }
            if cell == Cell::Mine {
                proof {
                    crate::board::lemma_count_mine_pos(
                        self.spec_board(),
                        pre_guess.spec_idx(pos),
                    );
                }
                return Ok((false, luck));
            }
            next.push(pos);
        }
    }
    pub fn width(&self) -> (w: usize)
        ensures
            w == self.spec_width(),
    {
        self.minefield.width()
    }

    pub fn height(&self) -> (h: usize)
        ensures
            h == self.spec_height(),
    {
        self.minefield.height()
    }

    pub fn number_of_mines(&self) -> (m: usize)
        ensures
            m == self.spec_mines(),
    {
        self.minefield.number_of_mines()
    }

    /// The running count of planted flags.
    pub fn flags_placed(&self) -> (n: usize)
        requires
            self.wf(),
        ensures
            n == self.spec_flags(),
            n == count_flag(self.spec_board()),
    {
        self.flags
    }

    /// The running count of cells still unknown.
    pub fn unknown_remaining(&self) -> (n: usize)
        requires
            self.wf(),
        ensures
            n == self.spec_unknowns(),
            n == count_unknown(self.spec_board()),
    {
        self.unknowns
    }

    /// How many forced guesses have been taken.
    pub fn guesses_taken(&self) -> (n: usize)
        ensures
            n == self.spec_guesses(),
    {
        self.guesses
    }

    /// Count of revealed cells: numbers shown plus mines uncovered.
    pub fn revealed_count(&self) -> (n: usize)
        requires
            self.wf(),
        ensures
            n == count_revealed(self.spec_board()),
    {
        let mut n: usize = 0;
        let mut i: usize = 0;
        let len = self.board.len();
        while i < len
            invariant
                i <= len,
                len == self.board@.len(),
                n == count_revealed(self.board@.subrange(0, i as int)),
                0 <= n <= i,
            decreases len - i,
        {
            proof {
                let pre = self.board@.subrange(0, i as int);
                let post = self.board@.subrange(0, i + 1);
                assert(post.drop_last() =~= pre);
                assert(post.last() == self.board@[i as int]);
                lemma_count_bounds(pre);
            }
            match self.board[i] {
                Cell::Number(_) => {
                    n += 1;
                },
                Cell::Mine => {
                    n += 1;
                },
                _ => {},
            }
            i += 1;
        }
        proof {
            assert(self.board@.subrange(0, len as int) =~= self.board@);
        }
        n
    }
    /// A plain-text dump of the board, one text line per board row: `F `
    /// for a flag, `. ` for unknown, two spaces for a revealed zero, the
    /// digit and a space for another number, `X ` for a revealed mine.
    /// Presentation only; any coloring is the caller's business.
    pub fn show(&self) -> (s: String)
        requires
            self.wf(),
        ensures
            s@.len() == self.spec_height() * (2 * self.spec_width() + 1),
    {
        let w = self.minefield.width();
        let h = self.minefield.height();
        let mut s = String::new();
        let mut row: usize = 0;
        while row < h
            invariant
                self.wf(),
                row <= h,
                w == self.spec_width(),
                h == self.spec_height(),
                s@.len() == row * (2 * (w as int) + 1),
            decreases h - row,
        {
            let mut col: usize = 0;
            while col < w
                invariant
                    self.wf(),
                    row < h,
                    col <= w,
                    w == self.spec_width(),
                    h == self.spec_height(),
                    s@.len() == row * (2 * (w as int) + 1) + 2 * col,
                decreases w - col,
            {
                proof {
                    lemma_row_major_bound(col as int, row as int, w as int, h as int);
                    reveal_strlit("F ");
                    reveal_strlit(". ");
                    reveal_strlit("  ");
                    reveal_strlit("1 ");
                    reveal_strlit("2 ");
                    reveal_strlit("3 ");
                    reveal_strlit("4 ");
                    reveal_strlit("5 ");
                    reveal_strlit("6 ");
                    reveal_strlit("7 ");
                    reveal_strlit("8 ");
                    reveal_strlit("? ");
                    reveal_strlit("X ");
                }
                let piece: &str = match self.board[row * w + col] {
                    Cell::Flag => "F ",
                    Cell::Unknown => ". ",
                    Cell::Number(0) => "  ",
                    Cell::Number(1) => "1 ",
                    Cell::Number(2) => "2 ",
                    Cell::Number(3) => "3 ",
                    Cell::Number(4) => "4 ",
                    Cell::Number(5) => "5 ",
                    Cell::Number(6) => "6 ",
                    Cell::Number(7) => "7 ",
                    Cell::Number(8) => "8 ",
                    Cell::Number(_) => "? ",
                    Cell::Mine => "X ",
                };
                s.append(piece);
                col += 1;
            }
            proof {
                reveal_strlit("\n");
            }
            s.append("\n");
            proof {
                assert((row + 1) * (2 * (w as int) + 1) == row * (2 * (w as int) + 1) + 2 * (
                w as int) + 1) by (nonlinear_arith);
            }
            row += 1;
        }
        s
    }
}

proof fn lemma_count_all_unknown(s: Seq<Cell>)
    requires
        forall|i: int| 0 <= i < s.len() ==> s[i] is Unknown,
    ensures
        count_unknown(s) == s.len(),
        count_flag(s) == 0,
    decreases s.len(),
{
    if s.len() > 0 {
        lemma_count_all_unknown(s.drop_last());
    }
}

proof fn lemma_mul_too_big(w: int, h: int)
    requires
        0 <= w,
        0 <= h,
        w * h > usize::MAX,
    ensures
        w * h > MAX_CELLS,
{
}

proof fn lemma_mul_zero(w: int, h: int)
    requires
        0 <= w,
        0 <= h,
        w * h == 0,
    ensures
        w == 0 || h == 0,
{
    if w > 0 && h > 0 {
        assert(w * h > 0) by (nonlinear_arith)
            requires
                w > 0,
                h > 0,
        ;
    }
}

proof fn lemma_mul_pos(w: int, h: int, s: int)
    requires
        0 <= w,
        0 <= h,
        w * h == s,
        s > 0,
    ensures
        w >= 1,
        h >= 1,
{
    if w == 0 || h == 0 {
        assert(w * h == 0) by (nonlinear_arith)
            requires
                w == 0 || h == 0,
        ;
    }
}

} // verus!
