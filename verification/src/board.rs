use vstd::prelude::*;

verus! {

/// Upper bound on the number of cells of a board, so that index arithmetic
/// and fixed-point sums stay well inside the machine integer ranges.
pub const MAX_CELLS: usize = 1_000_000;

/// A 0-based (column, row) position on the board; column varies fastest in
/// row-major order.
#[derive(Clone, Copy, PartialEq, Eq, Structural, Debug, Hash)]
pub struct Pos(pub usize, pub usize);

/// The solver's knowledge about one cell. A cell leaves `Unknown` exactly
/// once, to exactly one of the other three states, and never reverts.
#[derive(Clone, Copy, PartialEq, Eq, Structural, Debug)]
pub enum Cell {
    Unknown,
    Flag,
    Number(u8),
    Mine,
}

/// Number of `Unknown` cells on the board.
pub open spec fn count_unknown(s: Seq<Cell>) -> int
    decreases s.len(),
{
    if s.len() == 0 {
        0
    } else {
        count_unknown(s.drop_last()) + if s.last() is Unknown {
            1int
        } else {
            0int
        }
    }
}

/// Number of flagged cells on the board.
pub open spec fn count_flag(s: Seq<Cell>) -> int
    decreases s.len(),
{
    if s.len() == 0 {
        0
    } else {
        count_flag(s.drop_last()) + if s.last() is Flag {
            1int
        } else {
            0int
        }
    }
}

/// Number of cells showing a neighbor-mine count.
pub open spec fn count_number(s: Seq<Cell>) -> int
    decreases s.len(),
{
    if s.len() == 0 {
        0
    } else {
        count_number(s.drop_last()) + if s.last() is Number {
            1int
        } else {
            0int
        }
    }
}

/// Number of revealed mines on the board.
pub open spec fn count_mine(s: Seq<Cell>) -> int
    decreases s.len(),
{
    if s.len() == 0 {
        0
    } else {
        count_mine(s.drop_last()) + if s.last() is Mine {
            1int
        } else {
            0int
        }
    }
}

/// Cells showing a number or a revealed mine, i.e. cells on which the oracle
/// has already been consulted.
pub open spec fn count_revealed(s: Seq<Cell>) -> int {
    count_number(s) + count_mine(s)
}

/// Every cell is in exactly one of the four states, so the four counts
/// partition the board.
pub proof fn lemma_count_partition(s: Seq<Cell>)
    ensures
        count_unknown(s) + count_flag(s) + count_number(s) + count_mine(s) == s.len(),
    decreases s.len(),
{
    if s.len() > 0 {
        lemma_count_partition(s.drop_last());
    }
}

/// Each count lies between 0 and the board size.
pub proof fn lemma_count_bounds(s: Seq<Cell>)
    ensures
        0 <= count_unknown(s) <= s.len(),
        0 <= count_flag(s) <= s.len(),
        0 <= count_number(s) <= s.len(),
        0 <= count_mine(s) <= s.len(),
    decreases s.len(),
{
    if s.len() > 0 {
        lemma_count_bounds(s.drop_last());
    }
}

/// How each of the four counts moves when the cell at `i` is overwritten
/// with `c`.
pub proof fn lemma_count_update(s: Seq<Cell>, i: int, c: Cell)
    requires
        0 <= i < s.len(),
    ensures
        count_unknown(s.update(i, c)) == count_unknown(s) - (if s[i] is Unknown {
            1int
        } else {
            0int
        }) + (if c is Unknown {
            1int
        } else {
            0int
        }),
        count_flag(s.update(i, c)) == count_flag(s) - (if s[i] is Flag {
            1int
        } else {
            0int
        }) + (if c is Flag {
            1int
        } else {
            0int
        }),
        count_number(s.update(i, c)) == count_number(s) - (if s[i] is Number {
            1int
        } else {
            0int
        }) + (if c is Number {
            1int
        } else {
            0int
        }),
        count_mine(s.update(i, c)) == count_mine(s) - (if s[i] is Mine {
            1int
        } else {
            0int
        }) + (if c is Mine {
            1int
        } else {
            0int
        }),
    decreases s.len(),
{
    let t = s.update(i, c);
    if i == s.len() - 1 {
        assert(t.drop_last() =~= s.drop_last());
    } else {
        assert(t.drop_last() =~= s.drop_last().update(i, c));
        lemma_count_update(s.drop_last(), i, c);
    }
}

/// An in-bounds position has an in-range row-major index.
pub proof fn lemma_row_major_bound(c: int, r: int, w: int, h: int)
    requires
        0 <= c < w,
        0 <= r < h,
    ensures
        0 <= r * w + c < w * h,
{
    assert(r * w + c < w * h) by (nonlinear_arith)
        requires
            0 <= c < w,
            0 <= r < h,
    ;
    assert(r * w + c >= 0) by (nonlinear_arith)
        requires
            0 <= c,
            0 <= r,
            0 <= w,
    ;
}

/// Every in-bounds row starts at a non-negative base offset and leaves room
/// for a full row of `w` cells.
pub proof fn lemma_row_bases(w: int, h: int)
    requires
        1 <= w,
        1 <= h,
    ensures
        forall|r: int| 0 <= r < h ==> 0 <= #[trigger] (r * w) && r * w + w <= w * h,
{
    assert forall|r: int| 0 <= r < h implies 0 <= #[trigger] (r * w) && r * w + w <= w * h by {
        assert(0 <= r * w && r * w + w <= w * h) by (nonlinear_arith)
            requires
                0 <= r < h,
                1 <= w,
        ;
    }
}

/// Row-major indexing is injective over in-bounds positions.
pub proof fn lemma_row_major_injective(c1: int, r1: int, c2: int, r2: int, w: int, h: int)
    requires
        0 <= c1 < w,
        0 <= r1 < h,
        0 <= c2 < w,
        0 <= r2 < h,
    ensures
        (r1 * w + c1 == r2 * w + c2) <==> (c1 == c2 && r1 == r2),
{
    assert((r1 * w + c1 == r2 * w + c2) <==> (c1 == c2 && r1 == r2)) by (nonlinear_arith)
        requires
            0 <= c1 < w,
            0 <= r1 < h,
            0 <= c2 < w,
            0 <= r2 < h,
    ;
}

/// Whether `(qc, qr)` lies in the 8-neighborhood of `(c, r)`.
pub open spec fn adjacent(c: int, r: int, qc: int, qr: int) -> bool {
    &&& !(qc == c && qr == r)
    &&& -1 <= qc - c <= 1
    &&& -1 <= qr - r <= 1
}

/// 1 when `(c, r)` is in bounds and flagged, 0 otherwise.
pub open spec fn flag_at(b: Seq<Cell>, w: int, h: int, c: int, r: int) -> int {
    if 0 <= c < w && 0 <= r < h && b[r * w + c] is Flag {
        1int
    } else {
        0int
    }
}

/// 1 when `(c, r)` is in bounds and unknown, 0 otherwise.
pub open spec fn unknown_at(b: Seq<Cell>, w: int, h: int, c: int, r: int) -> int {
    if 0 <= c < w && 0 <= r < h && b[r * w + c] is Unknown {
        1int
    } else {
        0int
    }
}

/// Number of flagged cells in the 8-neighborhood of `(c, r)`, clipped to
/// bounds.
pub open spec fn flag_neighbors(b: Seq<Cell>, w: int, h: int, c: int, r: int) -> int {
    flag_at(b, w, h, c - 1, r - 1) + flag_at(b, w, h, c, r - 1) + flag_at(b, w, h, c + 1, r - 1)
        + flag_at(b, w, h, c - 1, r) + flag_at(b, w, h, c + 1, r) + flag_at(b, w, h, c - 1, r + 1)
        + flag_at(b, w, h, c, r + 1) + flag_at(b, w, h, c + 1, r + 1)
}

/// Number of unknown cells in the 8-neighborhood of `(c, r)`, clipped to
/// bounds.
pub open spec fn unknown_neighbors(b: Seq<Cell>, w: int, h: int, c: int, r: int) -> int {
    unknown_at(b, w, h, c - 1, r - 1) + unknown_at(b, w, h, c, r - 1) + unknown_at(
        b,
        w,
        h,
        c + 1,
        r - 1,
    ) + unknown_at(b, w, h, c - 1, r) + unknown_at(b, w, h, c + 1, r) + unknown_at(
        b,
        w,
        h,
        c - 1,
        r + 1,
    ) + unknown_at(b, w, h, c, r + 1) + unknown_at(b, w, h, c + 1, r + 1)
}

/// How one per-cell term reacts to an update of the cell `(qc, qr)`.
pub proof fn lemma_cell_at_update(b: Seq<Cell>, w: int, h: int, x: int, y: int, qc: int, qr: int, v: Cell)
    requires
        1 <= w,
        1 <= h,
        b.len() == w * h,
        0 <= qc < w,
        0 <= qr < h,
    ensures
        flag_at(b.update(qr * w + qc, v), w, h, x, y) == if x == qc && y == qr {
            if v is Flag {
                1int
            } else {
                0int
            }
        } else {
            flag_at(b, w, h, x, y)
        },
        unknown_at(b.update(qr * w + qc, v), w, h, x, y) == if x == qc && y == qr {
            if v is Unknown {
                1int
            } else {
                0int
            }
        } else {
            unknown_at(b, w, h, x, y)
        },
{
    lemma_row_major_bound(qc, qr, w, h);
    if 0 <= x < w && 0 <= y < h {
        lemma_row_major_bound(x, y, w, h);
        if !(x == qc && y == qr) {
            lemma_row_major_injective(x, y, qc, qr, w, h);
        }
    }
}

/// How the two neighborhood counts of `(c, r)` react to an update of the
/// cell `(qc, qr)`: only an adjacent update moves them, by the swap of the
/// old and new term at that cell.
pub proof fn lemma_neighbor_counts_update(
    b: Seq<Cell>,
    w: int,
    h: int,
    c: int,
    r: int,
    qc: int,
    qr: int,
    v: Cell,
)
    requires
        1 <= w,
        1 <= h,
        b.len() == w * h,
        0 <= qc < w,
        0 <= qr < h,
    ensures
        adjacent(c, r, qc, qr) ==> flag_neighbors(b.update(qr * w + qc, v), w, h, c, r)
            == flag_neighbors(b, w, h, c, r) - flag_at(b, w, h, qc, qr) + (if v is Flag {
            1int
        } else {
            0int
        }),
        adjacent(c, r, qc, qr) ==> unknown_neighbors(b.update(qr * w + qc, v), w, h, c, r)
            == unknown_neighbors(b, w, h, c, r) - unknown_at(b, w, h, qc, qr) + (if v is Unknown {
            1int
        } else {
            0int
        }),
        !adjacent(c, r, qc, qr) ==> flag_neighbors(b.update(qr * w + qc, v), w, h, c, r)
            == flag_neighbors(b, w, h, c, r),
        !adjacent(c, r, qc, qr) ==> unknown_neighbors(b.update(qr * w + qc, v), w, h, c, r)
            == unknown_neighbors(b, w, h, c, r),
{
    lemma_cell_at_update(b, w, h, c - 1, r - 1, qc, qr, v);
    lemma_cell_at_update(b, w, h, c, r - 1, qc, qr, v);
    lemma_cell_at_update(b, w, h, c + 1, r - 1, qc, qr, v);
    lemma_cell_at_update(b, w, h, c - 1, r, qc, qr, v);
    lemma_cell_at_update(b, w, h, c + 1, r, qc, qr, v);
    lemma_cell_at_update(b, w, h, c - 1, r + 1, qc, qr, v);
    lemma_cell_at_update(b, w, h, c, r + 1, qc, qr, v);
    lemma_cell_at_update(b, w, h, c + 1, r + 1, qc, qr, v);
}

/// A board that contains an `Unknown` cell has a positive unknown count.
pub proof fn lemma_count_unknown_pos(s: Seq<Cell>, i: int)
    requires
        0 <= i < s.len(),
        s[i] is Unknown,
    ensures
        count_unknown(s) >= 1,
    decreases s.len(),
{
    if i < s.len() - 1 {
        lemma_count_unknown_pos(s.drop_last(), i);
    } else {
        lemma_count_bounds(s.drop_last());
    }
}

/// Recovering a position from its row-major index.
pub proof fn lemma_flat_coords(j: int, w: int, h: int)
    requires
        1 <= w,
        1 <= h,
        0 <= j < w * h,
    ensures
        0 <= j % w < w,
        0 <= j / w < h,
        (j / w) * w + (j % w) == j,
{
    vstd::arithmetic::div_mod::lemma_fundamental_div_mod(j, w);
    vstd::arithmetic::div_mod::lemma_mod_bound(j, w);
    let q = j / w;
    let m = j % w;
    assert(0 <= q < h && q * w + m == j) by (nonlinear_arith)
        requires
            j == w * q + m,
            0 <= m < w,
            0 <= j < w * h,
            1 <= w,
            1 <= h,
    ;
}

/// The unknown count is the cardinality of the set of unknown cells.
pub proof fn lemma_count_unknown_card(s: Seq<Cell>)
    ensures
        ({
            let u = Set::new(|j: int| 0 <= j < s.len() && s[j] is Unknown);
            u.finite() && u.len() == count_unknown(s)
        }),
    decreases s.len(),
{
    broadcast use vstd::set::group_set_axioms;

    let u = Set::new(|j: int| 0 <= j < s.len() && s[j] is Unknown);
    if s.len() == 0 {
        assert(u =~= Set::empty());
    } else {
        lemma_count_unknown_card(s.drop_last());
        let t = s.drop_last();
        let u0 = Set::new(|j: int| 0 <= j < t.len() && t[j] is Unknown);
        if s.last() is Unknown {
            assert(u =~= u0.insert(s.len() - 1));
            assert(!u0.contains(s.len() - 1));
        } else {
            assert(u =~= u0);
        }
    }
}

/// When fewer distinct unknown cells are listed than the board holds, some
/// unknown cell stays off the list: the global accounting that guarantees
/// an isolated cell whenever the guess selector looks for one.
pub proof fn lemma_unknown_beyond(s: Seq<Cell>, idxs: Seq<usize>)
    requires
        forall|a: int|
            0 <= a < idxs.len() ==> (#[trigger] idxs[a]) < s.len() && s[idxs[a] as int] is Unknown,
        forall|a: int, b: int| 0 <= a < b < idxs.len() ==> idxs[a] != idxs[b],
        idxs.len() < count_unknown(s),
    ensures
        exists|j: int|
            0 <= j < s.len() && s[j] is Unknown && (forall|a: int|
                0 <= a < idxs.len() ==> (#[trigger] idxs[a]) as int != j),
{
    broadcast use vstd::seq_lib::group_seq_properties;
    broadcast use vstd::set::group_set_axioms;

    let u = Set::new(|j: int| 0 <= j < s.len() && s[j] is Unknown);
    lemma_count_unknown_card(s);
    let ints = idxs.map_values(|x: usize| x as int);
    assert forall|a: int, b: int|
        0 <= a < idxs.len() && 0 <= b < idxs.len() && a != b implies idxs[a] != idxs[b] by {
        if a < b {
        } else {
        }
    }
    assert(idxs.no_duplicates());
    idxs.lemma_no_duplicates_injective(|x: usize| x as int);
    ints.unique_seq_to_set();
    let f = ints.to_set();
    assert(f.subset_of(u)) by {
        assert forall|x: int| f.contains(x) implies u.contains(x) by {
            let a = choose|a: int| 0 <= a < ints.len() && ints[a] == x;
            assert(s[idxs[a] as int] is Unknown);
        }
    }
    if !(exists|j: int| u.contains(j) && !f.contains(j)) {
        assert(u.subset_of(f));
        vstd::set_lib::lemma_len_subset(u, f);
        assert(false);
    }
    let j = choose|j: int| u.contains(j) && !f.contains(j);
    assert forall|a: int| 0 <= a < idxs.len() implies (#[trigger] idxs[a]) as int != j by {
        if idxs[a] as int == j {
            assert(ints[a] == j);
            assert(f.contains(j));
        }
    }
    assert(0 <= j < s.len() && s[j] is Unknown && (forall|a: int|
        0 <= a < idxs.len() ==> (#[trigger] idxs[a]) as int != j));
}

/// A cell with an unknown neighbor sits on a board with a positive
/// unknown count.
pub proof fn lemma_unknown_neighbors_pos(b: Seq<Cell>, w: int, h: int, c: int, r: int)
    requires
        1 <= w,
        1 <= h,
        b.len() == w * h,
        unknown_neighbors(b, w, h, c, r) > 0,
    ensures
        count_unknown(b) >= 1,
{
    if unknown_at(b, w, h, c - 1, r - 1) == 1 {
        lemma_row_major_bound(c - 1, r - 1, w, h);
        lemma_count_unknown_pos(b, (r - 1) * w + (c - 1));
    } else if unknown_at(b, w, h, c, r - 1) == 1 {
        lemma_row_major_bound(c, r - 1, w, h);
        lemma_count_unknown_pos(b, (r - 1) * w + c);
    } else if unknown_at(b, w, h, c + 1, r - 1) == 1 {
        lemma_row_major_bound(c + 1, r - 1, w, h);
        lemma_count_unknown_pos(b, (r - 1) * w + (c + 1));
    } else if unknown_at(b, w, h, c - 1, r) == 1 {
        lemma_row_major_bound(c - 1, r, w, h);
        lemma_count_unknown_pos(b, r * w + (c - 1));
    } else if unknown_at(b, w, h, c + 1, r) == 1 {
        lemma_row_major_bound(c + 1, r, w, h);
        lemma_count_unknown_pos(b, r * w + (c + 1));
    } else if unknown_at(b, w, h, c - 1, r + 1) == 1 {
        lemma_row_major_bound(c - 1, r + 1, w, h);
        lemma_count_unknown_pos(b, (r + 1) * w + (c - 1));
    } else if unknown_at(b, w, h, c, r + 1) == 1 {
        lemma_row_major_bound(c, r + 1, w, h);
        lemma_count_unknown_pos(b, (r + 1) * w + c);
    } else if unknown_at(b, w, h, c + 1, r + 1) == 1 {
        lemma_row_major_bound(c + 1, r + 1, w, h);
        lemma_count_unknown_pos(b, (r + 1) * w + (c + 1));
    }
}

/// A board that contains a revealed mine has a positive mine count.
pub proof fn lemma_count_mine_pos(s: Seq<Cell>, i: int)
    requires
        0 <= i < s.len(),
        s[i] is Mine,
    ensures
        count_mine(s) >= 1,
    decreases s.len(),
{
    if i < s.len() - 1 {
        lemma_count_mine_pos(s.drop_last(), i);
    } else {
        lemma_count_bounds(s.drop_last());
    }
}

/// A board without an `Unknown` cell has unknown count zero.
pub proof fn lemma_count_none_unknown(s: Seq<Cell>)
    requires
        forall|i: int| 0 <= i < s.len() ==> !(s[i] is Unknown),
    ensures
        count_unknown(s) == 0,
    decreases s.len(),
{
    if s.len() > 0 {
        lemma_count_none_unknown(s.drop_last());
    }
}

} // verus!
