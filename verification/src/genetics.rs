//! The evolution engine: run parameters, random population generation, and
//! the per-generation simulation step.

use vstd::prelude::*;

use rayon::iter::{IntoParallelIterator, ParallelIterator};

pub mod inner;

verus! {

use crate::errors::{ConfigError, NoSolutionFound};
use crate::sudoku::{
    Board, cells_at_most, cells_in_digit_range, fitness_spec, is_square, overlay_spec,
    supported_size,
};

/// The hard cap on the population of one generation.
pub const MAX_POPULATION: usize = 100_000;

/// A probability stated as the fraction num / den, so that rates need no
/// floating point inside the engine.
#[derive(Debug, Clone, Copy, PartialEq, Eq, Structural)]
pub struct Rate {
    /// The numerator: how many draws out of `den` succeed.
    pub num: u32,
    /// The denominator of the fraction.
    pub den: u32,
}

impl Rate {
    /// A rate lies in [0, 1]: a positive denominator, and a numerator no
    /// greater than it.
    pub open spec fn wf(self) -> bool {
        1 <= self.den && self.num <= self.den
    }

    /// Builds the rate num / den.
    pub fn new(num: u32, den: u32) -> (r: Rate)
        requires
            1 <= den,
            num <= den,
        ensures
            r.num == num,
            r.den == den,
            r.wf(),
    {
        Rate { num, den }
    }
}

/// The parameters of one run, with the derived per-generation counts fixed at
/// construction.
#[derive(Debug, Clone, Copy)]
pub struct GAParams {
    /// The population bred each generation.
    pub population: usize,
    /// How many of the fittest candidates survive selection.
    pub num_survivors: usize,
    /// How many children each parent pair breeds.
    pub num_children_per_parent_pairs: usize,
    /// The probability that a child cell mutates instead of inheriting.
    pub mutation_rate: Rate,
    /// Restart the population from scratch every this many generations.
    pub restart: Option<usize>,
}

impl GAParams {
    /// How many parent pairs breed: survivors, paired off; an odd leftover
    /// survivor is dropped.
    pub open spec fn num_parent_pairs(self) -> int {
        self.num_survivors as int / 2
    }

    /// The derived counts agree with the stated population and rates.
    pub open spec fn wf(self) -> bool {
        &&& self.population <= MAX_POPULATION
        &&& self.mutation_rate.wf()
        &&& self.num_survivors <= self.population
        &&& self.num_parent_pairs() >= 1
        &&& self.num_children_per_parent_pairs == self.population as int / self.num_parent_pairs()
    }

    /// Builds the parameters of a run. The population is capped, and the
    /// selection rate must leave at least one parent pair, else the
    /// configuration is rejected.
    pub fn new(
        population: usize,
        selection_rate: Rate,
        mutation_rate: Rate,
        restart: Option<usize>,
    ) -> (r: Result<GAParams, ConfigError>)
        requires
            selection_rate.wf(),
            mutation_rate.wf(),
        ensures
            match r {
                Ok(p) => {
                    &&& population <= MAX_POPULATION
                    &&& p.population == population
                    &&& p.num_survivors == population as int * selection_rate.num
                        / selection_rate.den as int
                    &&& p.num_parent_pairs() >= 1
                    &&& p.num_children_per_parent_pairs == population as int
                        / p.num_parent_pairs()
                    &&& p.mutation_rate == mutation_rate
                    &&& p.restart == restart
                    &&& p.wf()
                },
                Err(ConfigError::PopulationTooLarge) => population > MAX_POPULATION,
                Err(ConfigError::NoParentPairs) => population <= MAX_POPULATION && (population
                    as int * selection_rate.num / selection_rate.den as int) / 2 < 1,
                Err(ConfigError::UnsupportedGridSize) => false,
            },
    {
        if population > MAX_POPULATION {
            return Err(ConfigError::PopulationTooLarge);
        }
        proof {
            let p = population as int;
            let num = selection_rate.num as int;
            assert(p * num <= 100_000int * 0xFFFF_FFFFint) by (nonlinear_arith)
                requires
                    0 <= p <= 100_000,
                    0 <= num <= 0xFFFF_FFFF,
            ;
        }
        let scaled: u64 = (population as u64) * (selection_rate.num as u64);
        let num_survivors_wide: u64 = scaled / (selection_rate.den as u64);
        proof {
            broadcast use vstd::arithmetic::div_mod::lemma_div_is_ordered;
            broadcast use vstd::arithmetic::div_mod::lemma_div_multiples_vanish;

            let p = population as int;
            let num = selection_rate.num as int;
            let den = selection_rate.den as int;
            assert(p * num <= den * p) by (nonlinear_arith)
                requires
                    num <= den,
                    0 <= p,
            ;
            assert(p * num / den <= (den * p) / den);
        }
        let num_survivors = num_survivors_wide as usize;
        let num_parent_pairs = num_survivors / 2;
        if num_parent_pairs == 0 {
            return Err(ConfigError::NoParentPairs);
        }
        let num_children_per_parent_pairs = population / num_parent_pairs;
        Ok(
            GAParams {
                population,
                num_survivors,
                num_children_per_parent_pairs,
                mutation_rate,
                restart,
            },
        )
    }
}

/// A population restart is due when an interval is configured and the
/// generation counter is a positive multiple of it.
pub open spec fn restart_due(params: GAParams, generation: usize) -> bool {
    match params.restart {
        Some(r) => r > 0 && generation > 0 && generation as int % r as int == 0,
        None => false,
    }
}

/// Every board of the population is a square grid of side n whose cells the
/// scorer can take.
pub open spec fn boards_scoreable(pop: Seq<Board>, n: nat) -> bool {
    forall|t: int|
        0 <= t < pop.len() ==> is_square(#[trigger] pop[t]@) && pop[t]@.len() == n && cells_at_most(
            pop[t]@,
            63,
        )
}

/// Every board of the population is a full square candidate grid of side n:
/// no blanks, every cell a digit in 1..=n.
pub open spec fn fresh_population(pop: Seq<Board>, count: int, n: nat) -> bool {
    &&& pop.len() == count
    &&& forall|t: int|
        0 <= t < pop.len() ==> is_square(#[trigger] pop[t]@) && pop[t]@.len() == n
            && cells_in_digit_range(pop[t]@, n)
}

/// The random number generator the engine is handed: the PCG-64-MCG generator
/// of the rand_pcg crate, injected by the caller so that runs can be seeded.
#[verifier::external_type_specification]
#[verifier::external_body]
pub struct ExPcg64Mcg(rand_pcg::Pcg64Mcg);

/// Relies on rand's Rng::random_range over the inclusive range lo..=hi, which
/// returns a value of that range (and panics only on an empty range). Nothing
/// more is promised of a random draw.
#[verifier::external_body]
pub(crate) fn rand_in_range(rng: &mut rand_pcg::Pcg64Mcg, lo: u32, hi: u32) -> (r: u32)
    requires
        lo <= hi,
    ensures
        lo <= r <= hi,
{
    rand::Rng::random_range(rng, lo..=hi)
}

/// Relies on rayon's parallel map over a vector, which applies the closure to
/// every element and collects the results in input order. The closure only
/// calls this crate's verified overlay and fitness.
#[verifier::external_body]
fn par_evaluate(base: &Board, population: Vec<Board>) -> (r: Vec<(Board, u32)>)
    requires
        is_square(base@),
        supported_size(base@.len() as int),
        cells_at_most(base@, 63),
        boards_scoreable(population@, base@.len()),
    ensures
        r@.len() == population@.len(),
        forall|i: int|
            0 <= i < r@.len() ==> (#[trigger] r@[i]).0@ == overlay_spec(base@, population@[i]@)
                && r@[i].1 == fitness_spec(overlay_spec(base@, population@[i]@)),
{
    population
        .into_par_iter()
        .map(
            |candidate: Board|
                {
                    let solution = base.overlay(&candidate);
                    let score = solution.fitness();
                    (solution, score)
                },
        )
        .collect()
}

/// Generates the initial population: `population` full boards of side n, each
/// cell drawn independently and uniformly from 1..=n.
pub fn generate_initial_population(params: &GAParams, n: usize, rng: &mut rand_pcg::Pcg64Mcg) -> (r:
    Vec<Board>)
    requires
        params.wf(),
        1 <= n <= 255,
    ensures
        fresh_population(r@, params.population as int, n as nat),
{
    let mut boards: Vec<Board> = Vec::new();
    let mut t: usize = 0;
    while t < params.population
        invariant
            1 <= n <= 255,
            0 <= t <= params.population,
            boards@.len() == t,
            forall|k: int|
                0 <= k < t ==> is_square(#[trigger] boards@[k]@) && boards@[k]@.len() == n
                    && cells_in_digit_range(boards@[k]@, n as nat),
        decreases params.population - t,
    {
        boards.push(random_board(n, rng));
        t = t + 1;
    }
    boards
}

/// One random full board of side n: every cell uniform in 1..=n.
fn random_board(n: usize, rng: &mut rand_pcg::Pcg64Mcg) -> (r: Board)
    requires
        1 <= n <= 255,
    ensures
        is_square(r@),
        r@.len() == n,
        cells_in_digit_range(r@, n as nat),
{
    let mut rows: Vec<crate::sudoku::Row> = Vec::new();
    let mut i: usize = 0;
    while i < n
        invariant
            1 <= n <= 255,
            0 <= i <= n,
            rows@.len() == i,
            forall|k: int|
                0 <= k < i ==> (#[trigger] rows@[k]@).len() == n && (forall|j: int|
                    0 <= j < n ==> 1 <= #[trigger] rows@[k]@[j] <= n),
        decreases n - i,
    {
        let mut cells: Vec<u8> = Vec::new();
        let mut j: usize = 0;
        while j < n
            invariant
                1 <= n <= 255,
                0 <= j <= n,
                cells@.len() == j,
                forall|k: int| 0 <= k < j ==> 1 <= #[trigger] cells@[k] <= n,
            decreases n - j,
        {
            let digit = rand_in_range(rng, 1, n as u32) as u8;
            cells.push(digit);
            j = j + 1;
        }
        rows.push(crate::sudoku::Row(cells));
        i = i + 1;
    }
    Board(rows)
}


/// What the driver's success outcome means: when a full candidate (cells in
/// 1..=N) overlaid onto a base puzzle whose fixed cells are digits at most N
/// scores zero, the overlaid board is a genuine solution — every row, column
/// and box a permutation of 1..=N.
pub proof fn lemma_zero_score_overlay_is_solved(base: Seq<Seq<u8>>, cand: Seq<Seq<u8>>)
    requires
        is_square(base),
        is_square(cand),
        base.len() == cand.len(),
        supported_size(base.len() as int),
        cells_at_most(base, base.len() as u8),
        cells_in_digit_range(cand, base.len()),
        fitness_spec(overlay_spec(base, cand)) == 0,
    ensures
        crate::sudoku::is_solved(overlay_spec(base, cand)),
{
    let n = base.len();
    let ov = overlay_spec(base, cand);
    assert(is_square(ov)) by {
        assert(forall|i: int| 0 <= i < n ==> (#[trigger] ov[i]).len() == n);
    }
    assert(cells_in_digit_range(ov, n)) by {
        assert(forall|i: int, j: int|
            0 <= i < ov.len() && 0 <= j < ov[i].len() ==> #[trigger] ov[i][j] == (if base[i][j]
                == 0 {
                cand[i][j]
            } else {
                base[i][j]
            }));
    }
    crate::sudoku::lemma_fitness_zero_iff_solved(ov);
}

/// The scored population one evaluation pass produces: each candidate
/// overlaid onto the base puzzle, paired with the overlaid board's fitness,
/// in the candidates' order.
pub open spec fn scored_population(
    base: Seq<Seq<u8>>,
    pop: Seq<Board>,
    scores: Seq<(Board, u32)>,
) -> bool {
    &&& scores.len() == pop.len()
    &&& forall|t: int|
        0 <= t < scores.len() ==> (#[trigger] scores[t]).0@ == overlay_spec(base, pop[t]@)
            && scores[t].1 == fitness_spec(overlay_spec(base, pop[t]@))
}

/// One generation of the simulation driver: overlays every candidate onto the
/// base puzzle and scores the results in parallel; returns the first board
/// that scores zero as the solution, or hands the scored population to the
/// evolution engine and returns the next generation to try. "No solution yet"
/// is the expected common outcome, not a failure.
pub fn run_simulation(
    params: &GAParams,
    generation: usize,
    base: &Board,
    population: Vec<Board>,
    rng: &mut rand_pcg::Pcg64Mcg,
) -> (r: Result<Board, NoSolutionFound>)
    requires
        params.wf(),
        params.num_survivors <= population@.len(),
        is_square(base@),
        supported_size(base@.len() as int),
        cells_at_most(base@, 63),
        boards_scoreable(population@, base@.len()),
    ensures
        match r {
            Ok(b) => exists|i: int|
                0 <= i < population@.len() && fitness_spec(
                    #[trigger] overlay_spec(base@, population@[i]@),
                ) == 0 && b@ == overlay_spec(base@, population@[i]@) && (forall|j: int|
                    0 <= j < i ==> fitness_spec(#[trigger] overlay_spec(base@, population@[j]@))
                        != 0),
            Err(ns) => {
                &&& forall|i: int|
                    0 <= i < population@.len() ==> fitness_spec(
                        #[trigger] overlay_spec(base@, population@[i]@),
                    ) != 0
                &&& boards_scoreable(ns.next_generation@, base@.len())
                &&& (restart_due(*params, generation) ==> fresh_population(
                    ns.next_generation@,
                    params.population as int,
                    base@.len(),
                ))
                &&& (!restart_due(*params, generation) ==> {
                    &&& ns.next_generation@.len() == params.num_parent_pairs()
                        * params.num_children_per_parent_pairs
                    &&& exists|scores: Seq<(Board, u32)>|
                        #[trigger] scored_population(base@, population@, scores) && (forall|c: int|
                            0 <= c < ns.next_generation@.len()
                                ==> crate::genetics::inner::child_cells_ok(
                                scores,
                                base@.len(),
                                params.mutation_rate,
                                (#[trigger] ns.next_generation@[c])@,
                            ))
                })
            },
        },
{
    let ghost n_spec = base@.len();
    let evaluated = par_evaluate(base, population);
    let ghost scores_view = evaluated@;
    proof {
        assert forall|t: int| 0 <= t < scores_view.len() implies is_square(
            (#[trigger] scores_view[t]).0@,
        ) && scores_view[t].0@.len() == n_spec && cells_at_most(scores_view[t].0@, 63) by {
            let ov = overlay_spec(base@, population@[t]@);
            assert(scores_view[t].0@ == ov);
            assert(forall|i: int| 0 <= i < n_spec ==> (#[trigger] ov[i]).len() == n_spec);
            assert(forall|i: int, j: int|
                0 <= i < ov.len() && 0 <= j < ov[i].len() ==> #[trigger] ov[i][j] == (if base@[i][j]
                    == 0 {
                    population@[t]@[i][j]
                } else {
                    base@[i][j]
                }));
        }
    }
    let count = evaluated.len();
    let mut idx: usize = 0;
    while idx < count
        invariant
            count == scores_view.len(),
            count == population@.len(),
            evaluated@ == scores_view,
            scored_population(base@, population@, scores_view),
            0 <= idx <= count,
            forall|j: int| 0 <= j < idx ==> (#[trigger] scores_view[j]).1 != 0,
        decreases count - idx,
    {
        if evaluated[idx].1 == 0 {
            let solution = evaluated[idx].0.clone();
            proof {
                let i = idx as int;
                assert(fitness_spec(overlay_spec(base@, population@[i]@)) == 0);
                assert(solution@ == overlay_spec(base@, population@[i]@));
                assert forall|j: int|
                    0 <= j < i implies fitness_spec(
                    #[trigger] overlay_spec(base@, population@[j]@),
                ) != 0 by {
                    assert((#[trigger] scores_view[j]).1 == fitness_spec(
                        overlay_spec(base@, population@[j]@),
                    ));
                }
            }
            return Ok(solution);
        }
        idx = idx + 1;
    }
    proof {
        assert forall|i: int|
            0 <= i < population@.len() implies fitness_spec(
            #[trigger] overlay_spec(base@, population@[i]@),
        ) != 0 by {
            assert((#[trigger] scores_view[i]).1 == fitness_spec(
                overlay_spec(base@, population@[i]@),
            ));
        }
        assert(population@.len() >= 1);
        assert(scores_view[0].0@.len() == n_spec);
    }
    let next = crate::genetics::inner::next_generation(params, generation, evaluated, rng);
    proof {
        assert(supported_size(n_spec as int));
        if restart_due(*params, generation) {
            assert forall|t: int| 0 <= t < next@.len() implies is_square((#[trigger] next@[t])@)
                && next@[t]@.len() == n_spec && cells_at_most(next@[t]@, 63) by {
                assert(cells_in_digit_range(next@[t]@, n_spec));
            }
        } else {
            assert forall|t: int| 0 <= t < next@.len() implies is_square((#[trigger] next@[t])@)
                && next@[t]@.len() == n_spec && cells_at_most(next@[t]@, 63) by {
                let child = next@[t]@;
                assert forall|i: int, j: int|
                    0 <= i < child.len() && 0 <= j < child[i].len() implies #[trigger] child[i][j]
                    <= 63 by {
                    assert(crate::genetics::inner::cell_from_scores(
                        scores_view,
                        n_spec,
                        params.mutation_rate,
                        child,
                        i,
                        j,
                    ));
                    if exists|u: int|
                        0 <= u < scores_view.len() && (#[trigger] scores_view[u]).0@[i][j]
                            == child[i][j] {
                        let u = choose|u: int|
                            0 <= u < scores_view.len() && (#[trigger] scores_view[u]).0@[i][j]
                                == child[i][j];
                        assert(cells_at_most(scores_view[u].0@, 63));
                    }
                }
            }
        }
    }
    Err(NoSolutionFound { next_generation: next })
}

} // verus!
