use vstd::prelude::*;

verus! {

/// One unit of probability, in fixed-point micro-units.
pub const PROB_ONE: i64 = 1_000_000;

/// Convergence threshold of the relaxation loop, in micro-units.
pub const EPSILON: i64 = 100;

/// Iteration cap of the relaxation loop.
pub const MAX_ITERATIONS: usize = 100;

/// Largest magnitude the relaxation arithmetic ever feeds into the map:
/// comfortably past one probability unit per cell of the largest board.
pub const CORR_BOUND: i64 = 1_000_000_000_000;

/// A probability clamped into `[0, PROB_ONE]`.
pub open spec fn clamp_unit(v: int) -> int {
    if v < 0 {
        0
    } else if v > PROB_ONE as int {
        PROB_ONE as int
    } else {
        v
    }
}

/// Sum of the probabilities recorded at the cell indices `idxs`.
pub open spec fn sum_probs(probs: Seq<i64>, idxs: Seq<usize>) -> int
    decreases idxs.len(),
{
    if idxs.len() == 0 {
        0
    } else {
        sum_probs(probs, idxs.drop_last()) + probs[idxs.last() as int]
    }
}

/// A sum of in-range probabilities is itself bounded by one unit per entry.
pub proof fn lemma_sum_bounds(probs: Seq<i64>, idxs: Seq<usize>)
    requires
        forall|a: int|
            0 <= a < idxs.len() ==> (#[trigger] idxs[a]) < probs.len() && 0 <= probs[idxs[a] as int]
                <= PROB_ONE,
    ensures
        0 <= sum_probs(probs, idxs) <= idxs.len() * PROB_ONE,
    decreases idxs.len(),
{
    if idxs.len() > 0 {
        lemma_sum_bounds(probs, idxs.drop_last());
        assert((idxs.len() - 1) * PROB_ONE + PROB_ONE == idxs.len() * PROB_ONE) by (nonlinear_arith);
    }
}

/// Summing is pointwise: indices outside `idxs` do not matter.
pub proof fn lemma_sum_congruence(p1: Seq<i64>, p2: Seq<i64>, idxs: Seq<usize>)
    requires
        forall|a: int|
            0 <= a < idxs.len() ==> p1[(#[trigger] idxs[a]) as int] == p2[idxs[a] as int],
    ensures
        sum_probs(p1, idxs) == sum_probs(p2, idxs),
    decreases idxs.len(),
{
    if idxs.len() > 0 {
        lemma_sum_congruence(p1, p2, idxs.drop_last());
    }
}

/// Shifting every summed entry down by `c` shifts the sum by `len * c`.
pub proof fn lemma_sum_shift(before: Seq<i64>, after: Seq<i64>, idxs: Seq<usize>, c: int)
    requires
        forall|a: int|
            0 <= a < idxs.len() ==> after[(#[trigger] idxs[a]) as int] == before[idxs[a] as int]
                - c,
    ensures
        sum_probs(after, idxs) == sum_probs(before, idxs) - idxs.len() * c,
    decreases idxs.len(),
{
    if idxs.len() > 0 {
        lemma_sum_shift(before, after, idxs.drop_last(), c);
        assert((idxs.len() - 1) * c + c == idxs.len() * c) by (nonlinear_arith);
    }
}

/// A duplicate-free list of cell indices below `n` has at most `n` entries.
pub proof fn lemma_distinct_below(idxs: Seq<usize>, n: int)
    requires
        0 <= n,
        forall|a: int| 0 <= a < idxs.len() ==> (#[trigger] idxs[a]) < n,
        forall|a: int, b: int| 0 <= a < b < idxs.len() ==> idxs[a] != idxs[b],
    ensures
        idxs.len() <= n,
{
    broadcast use vstd::seq_lib::group_seq_properties;
    broadcast use vstd::set::group_set_axioms;

    let ints = idxs.map_values(|u: usize| u as int);
    assert forall|a: int, b: int| 0 <= a < idxs.len() && 0 <= b < idxs.len() && a != b implies idxs[a]
        != idxs[b] by {
        if a < b {
        } else {
        }
    }
    assert(idxs.no_duplicates());
    idxs.lemma_no_duplicates_injective(|u: usize| u as int);
    ints.unique_seq_to_set();
    assert(ints.to_set().subset_of(vstd::set_lib::set_int_range(0, n))) by {
        assert forall|x: int| ints.to_set().contains(x) implies 0 <= x < n by {
            let a = choose|a: int| 0 <= a < ints.len() && ints[a] == x;
            assert(idxs[a] < n);
        }
    }
    vstd::set_lib::lemma_int_range(0, n);
    vstd::set_lib::lemma_len_subset(ints.to_set(), vstd::set_lib::set_int_range(0, n));
}

/// A pointwise-smaller map has a smaller sum.
pub proof fn lemma_sum_pointwise_le(before: Seq<i64>, after: Seq<i64>, idxs: Seq<usize>)
    requires
        forall|a: int|
            0 <= a < idxs.len() ==> after[(#[trigger] idxs[a]) as int] <= before[idxs[a] as int],
    ensures
        sum_probs(after, idxs) <= sum_probs(before, idxs),
    decreases idxs.len(),
{
    if idxs.len() > 0 {
        lemma_sum_pointwise_le(before, after, idxs.drop_last());
    }
}

/// The mass law of the normalization step: when the total frontier mass
/// exceeds the remaining budget `rem` and every frontier probability is at
/// least the correction `c` (so none clamps at the floor), subtracting the
/// clamped correction everywhere brings the total to at most `rem`.
pub proof fn lemma_frontier_mass_bound(
    before: Seq<i64>,
    after: Seq<i64>,
    frontier: Seq<usize>,
    rem: int,
    c: int,
)
    requires
        c >= 1,
        after.len() == before.len(),
        forall|a: int| 0 <= a < frontier.len() ==> (#[trigger] frontier[a]) < before.len(),
        sum_probs(before, frontier) - rem <= frontier.len() * c,
        forall|a: int|
            0 <= a < frontier.len() ==> c <= before[(#[trigger] frontier[a]) as int] <= PROB_ONE,
        forall|a: int|
            0 <= a < frontier.len() ==> after[(#[trigger] frontier[a]) as int] == clamp_unit(
                before[frontier[a] as int] - c,
            ),
    ensures
        sum_probs(after, frontier) <= rem,
{
    assert forall|a: int| 0 <= a < frontier.len() implies after[(#[trigger] frontier[a]) as int]
        == before[frontier[a] as int] - c by {
        assert(clamp_unit(before[frontier[a] as int] - c) == before[frontier[a] as int] - c);
    }
    lemma_sum_shift(before, after, frontier, c);
}

/// The luck value after taking one guess whose estimated mine probability
/// is `p`: the running product picks up the survival chance `1 - p`.
pub open spec fn spec_next_luck(luck: int, p: int) -> int {
    luck * (PROB_ONE - p) / (PROB_ONE as int)
}

/// Luck never increases with a guess, and a guess held to be surely safe
/// keeps it exactly.
pub proof fn lemma_luck_nonincreasing(luck: int, p: int)
    requires
        0 <= luck <= PROB_ONE,
        0 <= p <= PROB_ONE,
    ensures
        0 <= spec_next_luck(luck, p) <= luck,
        p == 0 ==> spec_next_luck(luck, p) == luck,
{
    let one = PROB_ONE as int;
    assert(0 <= luck * (one - p) <= luck * one) by (nonlinear_arith)
        requires
            0 <= luck,
            0 <= p <= one,
    ;
    vstd::arithmetic::div_mod::lemma_div_pos_is_pos(luck * (one - p), one);
    vstd::arithmetic::div_mod::lemma_div_is_ordered(luck * (one - p), luck * one, one);
    vstd::arithmetic::div_mod::lemma_div_multiples_vanish(luck, one);
    assert(luck * one == one * luck) by (nonlinear_arith);
}

/// The luck of a whole run: the fold of `spec_next_luck` over the
/// estimated mine probabilities of its successive guesses, starting from
/// one full unit.
pub open spec fn luck_of(ps: Seq<int>) -> int
    decreases ps.len(),
{
    if ps.len() == 0 {
        PROB_ONE as int
    } else {
        spec_next_luck(luck_of(ps.drop_last()), ps.last())
    }
}

/// Within one run, luck is non-increasing across successive guesses, and a
/// run with no guesses keeps exactly one unit.
pub proof fn lemma_luck_run_nonincreasing(ps: Seq<int>)
    requires
        forall|i: int| 0 <= i < ps.len() ==> 0 <= #[trigger] ps[i] <= PROB_ONE,
    ensures
        0 <= luck_of(ps) <= PROB_ONE,
        ps.len() > 0 ==> luck_of(ps) <= luck_of(ps.drop_last()),
    decreases ps.len(),
{
    if ps.len() > 0 {
        lemma_luck_run_nonincreasing(ps.drop_last());
        lemma_luck_nonincreasing(luck_of(ps.drop_last()), ps.last());
    }
}

/// Applies one guess with estimated mine probability `p` to the running
/// luck value.
pub fn apply_guess_luck(luck: i64, p: i64) -> (r: i64)
    requires
        0 <= luck <= PROB_ONE,
        0 <= p <= PROB_ONE,
    ensures
        r == spec_next_luck(luck as int, p as int),
        0 <= r <= luck,
        p == 0 ==> r == luck,
{
    proof {
        lemma_luck_nonincreasing(luck as int, p as int);
    }
    luck * (PROB_ONE - p) / PROB_ONE
}

/// The frontier probability map the relaxation engine refines: an estimate
/// per frontier cell, rebuilt for every guess and discarded after it.
pub struct ProbMap {
    probs: Vec<i64>,
    frontier: Vec<usize>,
}

/// Sum of the map's estimates at the cell indices `idxs`.
pub open spec fn probs_sum(m: ProbMap, idxs: Seq<usize>) -> int
    decreases idxs.len(),
{
    if idxs.len() == 0 {
        0
    } else {
        probs_sum(m, idxs.drop_last()) + m.spec_prob(idxs.last() as int)
    }
}

impl ProbMap {
    /// Well-formedness: `probs` holds one slot per board cell, `-1` outside
    /// the frontier and an estimate in `[0, PROB_ONE]` on it, and `frontier`
    /// lists each frontier cell exactly once.
    pub closed spec fn wf(&self) -> bool {
        &&& forall|j: int|
            0 <= j < self.probs@.len() ==> -1 <= (#[trigger] self.probs@[j]) <= PROB_ONE
        &&& forall|a: int|
            0 <= a < self.frontier@.len() ==> (#[trigger] self.frontier@[a]) < self.probs@.len()
                && self.probs@[self.frontier@[a] as int] >= 0
        &&& forall|a: int, b: int|
            0 <= a < b < self.frontier@.len() ==> self.frontier@[a] != self.frontier@[b]
        &&& forall|j: int|
            0 <= j < self.probs@.len() && (#[trigger] self.probs@[j]) >= 0 ==> exists|a: int|
                0 <= a < self.frontier@.len() && self.frontier@[a] == j
    }

    /// Number of cells the map covers.
    pub closed spec fn spec_cells(&self) -> int {
        self.probs@.len() as int
    }

    /// The frontier cells, in insertion order.
    pub closed spec fn spec_frontier(&self) -> Seq<usize> {
        self.frontier@
    }

    /// Number of frontier cells.
    pub open spec fn spec_len(&self) -> int {
        self.spec_frontier().len() as int
    }

    /// Whether cell `j` is on the frontier.
    pub closed spec fn spec_in(&self, j: int) -> bool {
        0 <= j < self.probs@.len() && self.probs@[j] >= 0
    }

    /// The estimate at cell `j` (meaningful only on the frontier).
    pub closed spec fn spec_prob(&self, j: int) -> i64 {
        self.probs@[j]
    }

    /// Total estimated mass over the frontier.
    pub open spec fn spec_total(&self) -> int {
        probs_sum(*self, self.spec_frontier())
    }

    /// The facts a caller may rely on about a well-formed map.
    pub proof fn lemma_wf_facts(&self)
        requires
            self.wf(),
        ensures
            forall|a: int|
                0 <= a < self.spec_len() ==> self.spec_in(
                    (#[trigger] self.spec_frontier()[a]) as int,
                ),
            forall|a: int, b: int|
                0 <= a < b < self.spec_len() ==> self.spec_frontier()[a]
                    != self.spec_frontier()[b],
            forall|j: int|
                self.spec_in(j) ==> exists|a: int|
                    0 <= a < self.spec_len() && self.spec_frontier()[a] == j,
            forall|j: int| self.spec_in(j) ==> 0 <= self.spec_prob(j) <= PROB_ONE,
            forall|j: int| #[trigger] self.spec_in(j) ==> 0 <= j < self.spec_cells(),
            0 <= self.spec_total() <= self.spec_len() * PROB_ONE,
    {
        lemma_sum_bounds(self.probs@, self.frontier@);
        self.lemma_probs_sum_is(self.frontier@);
        assert forall|j: int| self.spec_in(j) implies exists|a: int|
            0 <= a < self.spec_len() && self.spec_frontier()[a] == j by {
            assert(self.probs@[j] >= 0);
            let a = choose|a: int| 0 <= a < self.frontier@.len() && self.frontier@[a] == j;
            assert(0 <= a < self.spec_len() && self.spec_frontier()[a] == j);
        }
    }

    /// An empty map over `n` cells.
    pub fn new(n: usize) -> (m: Self)
        ensures
            m.wf(),
            m.spec_cells() == n,
            m.spec_len() == 0,
            forall|j: int| !m.spec_in(j),
            m.spec_total() == 0,
    {
        let mut probs: Vec<i64> = Vec::new();
        while probs.len() < n
            invariant
                probs@.len() <= n,
                forall|j: int| 0 <= j < probs@.len() ==> probs@[j] == -1,
            decreases n - probs@.len(),
        {
            probs.push(-1);
        }
        Self { probs, frontier: Vec::new() }
    }

    /// Number of frontier cells.
    pub fn len(&self) -> (n: usize)
        ensures
            n == self.spec_len(),
    {
        self.frontier.len()
    }

    /// Whether cell `j` is on the frontier.
    pub fn contains(&self, j: usize) -> (r: bool)
        requires
            self.wf(),
            j < self.spec_cells(),
        ensures
            r == self.spec_in(j as int),
    {
        self.probs[j] >= 0
    }

    /// The estimate at the frontier cell `j`.
    pub fn get(&self, j: usize) -> (r: i64)
        requires
            self.wf(),
            self.spec_in(j as int),
        ensures
            r == self.spec_prob(j as int),
            0 <= r <= PROB_ONE,
    {
        self.probs[j]
    }

    /// Puts the fresh frontier cell `j` on the map with estimate `p`.
    pub fn insert(&mut self, j: usize, p: i64)
        requires
            old(self).wf(),
            j < old(self).spec_cells(),
            !old(self).spec_in(j as int),
            0 <= p <= PROB_ONE,
        ensures
            final(self).wf(),
            final(self).spec_cells() == old(self).spec_cells(),
            final(self).spec_frontier() == old(self).spec_frontier().push(j),
            final(self).spec_in(j as int),
            final(self).spec_prob(j as int) == p,
            forall|x: int|
                0 <= x < old(self).spec_cells() && x != j ==> final(self).spec_in(x) == old(self).spec_in(x) && final(self).spec_prob(x) == old(self).spec_prob(x),
            final(self).spec_total() == old(self).spec_total() + p,
    {
        self.probs.set(j, p);
        self.frontier.push(j);
        proof {
            let of = old(self).frontier@;
            let op = old(self).probs@;
            assert(self.frontier@.drop_last() =~= of);
            assert forall|a: int| 0 <= a < of.len() implies self.probs@[(#[trigger] of[a]) as int]
                == op[of[a] as int] by {
                assert(op[of[a] as int] >= 0);
            }
            lemma_sum_congruence(self.probs@, op, of);
            assert forall|x: int|
                0 <= x < self.probs@.len() && (#[trigger] self.probs@[x]) >= 0 implies exists|
                a: int,
            |
                0 <= a < self.frontier@.len() && self.frontier@[a] == x by {
                if x == j as int {
                    assert(self.frontier@[of.len() as int] == j);
                } else {
                    let a = choose|a: int| 0 <= a < of.len() && of[a] == x;
                    assert(self.frontier@[a] == x);
                }
            }
            self.lemma_probs_sum_is(self.frontier@);
            old(self).lemma_probs_sum_is(of);
        }
    }

    /// `probs_sum` is the internal sum: the two recursions coincide.
    proof fn lemma_probs_sum_is(&self, idxs: Seq<usize>)
        ensures
            probs_sum(*self, idxs) == sum_probs(self.probs@, idxs),
        decreases idxs.len(),
    {
        if idxs.len() > 0 {
            self.lemma_probs_sum_is(idxs.drop_last());
        }
    }

    /// Total estimated mass over the frontier.
    pub fn total(&self) -> (r: i64)
        requires
            self.wf(),
            self.spec_cells() <= crate::board::MAX_CELLS,
        ensures
            r == self.spec_total(),
            0 <= r <= self.spec_len() * PROB_ONE,
    {
        proof {
            self.lemma_probs_sum_is(self.frontier@);
            lemma_sum_bounds(self.probs@, self.frontier@);
            lemma_distinct_below(self.frontier@, self.probs@.len() as int);
        }
        let mut acc: i64 = 0;
        let mut a: usize = 0;
        while a < self.frontier.len()
            invariant
                self.wf(),
                a <= self.frontier@.len(),
                self.frontier@.len() <= 1_000_000,
                acc == sum_probs(self.probs@, self.frontier@.subrange(0, a as int)),
                0 <= acc <= a * PROB_ONE,
            decreases self.frontier@.len() - a,
        {
            let j = self.frontier[a];
            proof {
                let pre = self.frontier@.subrange(0, a as int);
                let post = self.frontier@.subrange(0, a + 1);
                assert(post.drop_last() =~= pre);
                assert(post.last() == self.frontier@[a as int]);
                assert(a * PROB_ONE + PROB_ONE == (a + 1) * PROB_ONE) by (nonlinear_arith);
                assert((a + 1) * PROB_ONE <= 1_000_000 * PROB_ONE) by (nonlinear_arith)
                    requires
                        a + 1 <= 1_000_000,
                ;
            }
            acc = acc + self.probs[j];
            a += 1;
        }
        proof {
            assert(self.frontier@.subrange(0, self.frontier@.len() as int) =~= self.frontier@);
        }
        acc
    }

    /// The global normalization of one relaxation pass: when the frontier's
    /// total mass exceeds the remaining budget `rem`, every frontier
    /// estimate shrinks by the ceiling share of the excess, clamped at
    /// zero. Returns that shrink, or zero when the mass already fits.
    pub fn normalize(&mut self, rem: i64) -> (shrink: i64)
        requires
            old(self).wf(),
            0 <= rem <= CORR_BOUND,
            old(self).spec_cells() <= crate::board::MAX_CELLS,
        ensures
            final(self).wf(),
            final(self).spec_cells() == old(self).spec_cells(),
            final(self).spec_frontier() == old(self).spec_frontier(),
            forall|j: int| final(self).spec_in(j) == old(self).spec_in(j),
            shrink >= 0,
            final(self).spec_total() <= old(self).spec_total(),
            shrink == 0 ==> *final(self) == *old(self) && old(self).spec_total() <= rem,
            shrink >= 1 ==> {
                &&& old(self).spec_total() > rem
                &&& old(self).spec_len() >= 1
                &&& old(self).spec_len() * (shrink - 1) < old(self).spec_total() - rem
                    <= old(self).spec_len() * shrink
                &&& forall|a: int|
                    0 <= a < old(self).spec_len() ==> final(self).spec_prob(
                        (#[trigger] old(self).spec_frontier()[a]) as int,
                    ) == clamp_unit(
                        old(self).spec_prob(old(self).spec_frontier()[a] as int) - shrink,
                    )
                &&& (forall|a: int|
                    0 <= a < old(self).spec_len() ==> old(self).spec_prob(
                        (#[trigger] old(self).spec_frontier()[a]) as int,
                    ) >= shrink) ==> final(self).spec_total() <= rem
            },
    {
        proof {
            lemma_distinct_below(self.frontier@, self.probs@.len() as int);
        }
        let t = self.total();
        if t <= rem {
            return 0;
        }
        let len = self.frontier.len();
        proof {
            if len == 0 {
                assert(self.frontier@.len() == 0);
                assert(self.spec_total() == 0);
            }
        }
        let excess = t - rem;
        let c = (excess + (len as i64) - 1) / (len as i64);
        proof {
            let n = (excess as int) + (len as int) - 1;
            let l = len as int;
            vstd::arithmetic::div_mod::lemma_fundamental_div_mod(n, l);
            vstd::arithmetic::div_mod::lemma_mod_bound(n, l);
            let q = n / l;
            let m = n % l;
            assert(c == q);
            assert(1 <= q && q <= excess as int && l * (q - 1) < excess as int && excess as int
                <= l * q) by (nonlinear_arith)
                requires
                    n == l * q + m,
                    0 <= m < l,
                    1 <= l,
                    1 <= excess as int,
                    n == (excess as int) + l - 1,
            ;
        }
        let ghost snap = *self;
        let mut a: usize = 0;
        while a < self.frontier.len()
            invariant
                self.wf(),
                a <= self.frontier@.len(),
                1 <= c <= CORR_BOUND + 1,
                self.probs@.len() == snap.probs@.len(),
                self.frontier@ == snap.frontier@,
                forall|j: int| 0 <= j < self.probs@.len() ==> self.spec_in(j) == snap.spec_in(j),
                forall|x: int|
                    0 <= x < a ==> self.probs@[(#[trigger] self.frontier@[x]) as int] == clamp_unit(
                        snap.probs@[self.frontier@[x] as int] - c,
                    ),
                forall|x: int|
                    a <= x < self.frontier@.len() ==> self.probs@[(
                    #[trigger] self.frontier@[x]) as int] == snap.probs@[self.frontier@[x] as int],
                forall|j: int|
                    0 <= j < self.probs@.len() && !snap.spec_in(j) ==> self.probs@[j]
                        == snap.probs@[j],
            decreases self.frontier@.len() - a,
        {
            let j = self.frontier[a];
            let v = self.probs[j] - c;
            let v = if v < 0 {
                0
            } else {
                v
            };
            self.probs.set(j, v);
            proof {
                assert forall|x: int|
                    0 <= x < self.probs@.len() && (#[trigger] self.probs@[x]) >= 0 implies exists|
                    b: int,
                |
                    0 <= b < self.frontier@.len() && self.frontier@[b] == x by {
                    assert(self.spec_in(x));
                    assert(snap.spec_in(x));
                    assert(snap.probs@[x] >= 0);
                    let b = choose|b: int|
                        0 <= b < snap.frontier@.len() && snap.frontier@[b] == x;
                    assert(self.frontier@[b] == x);
                }
            }
            a += 1;
        }
        proof {
            snap.lemma_probs_sum_is(snap.frontier@);
            self.lemma_probs_sum_is(self.frontier@);
            lemma_sum_pointwise_le(snap.probs@, self.probs@, self.frontier@);
            if forall|x: int|
                0 <= x < snap.spec_len() ==> snap.spec_prob(
                    (#[trigger] snap.spec_frontier()[x]) as int,
                ) >= c {
                lemma_frontier_mass_bound(
                    snap.probs@,
                    self.probs@,
                    self.frontier@,
                    rem as int,
                    c as int,
                );
            }
        }
        c
    }

    /// Adds `corr` to the estimate of the one frontier cell `j`, clamped
    /// into `[0, PROB_ONE]`.
    pub fn add_one_clamped(&mut self, j: usize, corr: i64)
        requires
            old(self).wf(),
            -CORR_BOUND <= corr <= CORR_BOUND,
            old(self).spec_in(j as int),
        ensures
            final(self).wf(),
            final(self).spec_cells() == old(self).spec_cells(),
            final(self).spec_frontier() == old(self).spec_frontier(),
            forall|x: int| final(self).spec_in(x) == old(self).spec_in(x),
            final(self).spec_prob(j as int) == clamp_unit(old(self).spec_prob(j as int) + corr),
            forall|x: int|
                0 <= x < old(self).spec_cells() && x != j ==> final(self).spec_prob(x) == old(
                    self,
                ).spec_prob(x),
    {
        let v = self.probs[j] + corr;
        let v = if v < 0 {
            0
        } else if v > PROB_ONE {
            PROB_ONE
        } else {
            v
        };
        self.probs.set(j, v);
        proof {
            assert forall|x: int|
                0 <= x < self.probs@.len() && (#[trigger] self.probs@[x]) >= 0 implies exists|
                a: int,
            |
                0 <= a < self.frontier@.len() && self.frontier@[a] == x by {
                assert(old(self).probs@[x] >= 0);
                let a = choose|a: int|
                    0 <= a < old(self).frontier@.len() && old(self).frontier@[a] == x;
                assert(self.frontier@[a] == x);
            }
        }
    }

    /// The frontier cell with the least estimate, earliest in insertion
    /// order among ties, or `None` on an empty frontier.
    pub fn min_entry(&self) -> (r: Option<(usize, i64)>)
        requires
            self.wf(),
        ensures
            match r {
                None => self.spec_len() == 0,
                Some((j, p)) => {
                    &&& self.spec_in(j as int)
                    &&& p == self.spec_prob(j as int)
                    &&& 0 <= p <= PROB_ONE
                    &&& forall|a: int|
                        0 <= a < self.spec_len() ==> p <= self.spec_prob(
                            (#[trigger] self.spec_frontier()[a]) as int,
                        )
                    &&& exists|k: int|
                        0 <= k < self.spec_len() && self.spec_frontier()[k] == j && (forall|a: int|
                            0 <= a < k ==> self.spec_prob(
                                (#[trigger] self.spec_frontier()[a]) as int,
                            ) > p)
                },
            },
    {
        if self.frontier.len() == 0 {
            return None;
        }
        let mut best_j: usize = self.frontier[0];
        let mut best_p: i64 = self.probs[best_j];
        let ghost best_k: int = 0;
        let mut a: usize = 1;
        while a < self.frontier.len()
            invariant
                self.wf(),
                1 <= a <= self.frontier@.len(),
                0 <= best_k < a,
                self.frontier@[best_k] == best_j,
                best_p == self.probs@[best_j as int],
                self.spec_in(best_j as int),
                forall|x: int|
                    0 <= x < a ==> best_p <= self.probs@[(#[trigger] self.frontier@[x]) as int],
                forall|x: int|
                    0 <= x < best_k ==> self.probs@[(#[trigger] self.frontier@[x]) as int]
                        > best_p,
            decreases self.frontier@.len() - a,
        {
            let j = self.frontier[a];
            let p = self.probs[j];
            if p < best_p {
                best_j = j;
                best_p = p;
                proof {
                    best_k = a as int;
                }
            }
            a += 1;
        }
        proof {
            assert(0 <= best_k < self.spec_len() && self.spec_frontier()[best_k] == best_j && (
            forall|x: int|
                0 <= x < best_k ==> self.spec_prob((#[trigger] self.spec_frontier()[x]) as int)
                    > best_p));
        }
        Some((best_j, best_p))
    }
}

} // verus!
