//! The inner evolution steps: natural selection, pairing, and crossover with
//! per-cell mutation.

use vstd::prelude::*;

use rayon::slice::ParallelSliceMut;

verus! {

use crate::genetics::{
    GAParams, Rate, fresh_population, generate_initial_population, rand_in_range, restart_due,
};
use crate::sudoku::{Board, is_square};

/// A sequence of scored boards ordered ascending by score (lower is fitter).
pub open spec fn sorted_by_score(s: Seq<(Board, u32)>) -> bool {
    forall|i: int, j: int| 0 <= i <= j < s.len() ==> (#[trigger] s[i]).1 <= (#[trigger] s[j]).1
}

/// The entries with one given score, in their order of appearance: what a
/// stable sort must keep.
pub open spec fn with_score(s: Seq<(Board, u32)>, v: u32) -> Seq<(Board, u32)> {
    s.filter(|p: (Board, u32)| p.1 == v)
}

/// `sorted` is the stable ascending-by-score sort of `orig`: the same entries,
/// ordered by score, with entries of equal score kept in their original
/// relative order.
pub open spec fn is_stable_sort_by_score(orig: Seq<(Board, u32)>, sorted: Seq<(Board, u32)>) -> bool {
    &&& sorted.len() == orig.len()
    &&& sorted.to_multiset() == orig.to_multiset()
    &&& sorted_by_score(sorted)
    &&& forall|v: u32| #[trigger] with_score(sorted, v) == with_score(orig, v)
}

/// Relies on rayon's par_sort_by_key, which sorts the entries in place by the
/// key — here the score — with a stable sort: the result is a permutation of
/// the input, ordered ascending by score, equal scores kept in order.
#[verifier::external_body]
fn par_sort_by_score(v: &mut Vec<(Board, u32)>)
    ensures
        is_stable_sort_by_score(old(v)@, final(v)@),
{
    v.par_sort_by_key(|p: &(Board, u32)| p.1);
}

/// After the stable sort behind selection, every kept entry (the first k)
/// scores no worse than every discarded one (the rest).
pub proof fn lemma_selection_partition(orig: Seq<(Board, u32)>, ss: Seq<(Board, u32)>, k: int)
    requires
        is_stable_sort_by_score(orig, ss),
        0 <= k <= ss.len(),
    ensures
        forall|i: int, j: int|
            0 <= i < k && k <= j < ss.len() ==> (#[trigger] ss[i]).1 <= (#[trigger] ss[j]).1,
{
}

/// Keeps the fittest `num_survivors` boards of the scored population: sorts
/// ascending by score (stably) and takes the front.
pub fn natural_selection(params: &GAParams, population_scores: Vec<(Board, u32)>) -> (r: Vec<Board>)
    requires
        params.wf(),
        params.num_survivors <= population_scores@.len(),
    ensures
        r@.len() == params.num_survivors,
        exists|ss: Seq<(Board, u32)>|
            #[trigger] is_stable_sort_by_score(population_scores@, ss) && forall|i: int|
                0 <= i < r@.len() ==> (#[trigger] r@[i])@ == ss[i].0@,
{
    let ghost orig = population_scores@;
    let mut sorted = population_scores;
    par_sort_by_score(&mut sorted);
    let ghost ss = sorted@;
    let mut survivors: Vec<Board> = Vec::new();
    let mut i: usize = 0;
    while i < params.num_survivors
        invariant
            params.num_survivors <= ss.len(),
            sorted@ == ss,
            0 <= i <= params.num_survivors,
            survivors@.len() == i,
            forall|k: int| 0 <= k < i ==> (#[trigger] survivors@[k])@ == ss[k].0@,
        decreases params.num_survivors - i,
    {
        survivors.push(sorted[i].0.clone());
        i = i + 1;
    }
    proof {
        assert(is_stable_sort_by_score(orig, ss));
    }
    survivors
}

/// Splits the ordered survivors into parent pairs: entries at even indices
/// pair with the following odd-index entry; an odd leftover survivor is
/// dropped.
pub fn make_parents(survivors: Vec<Board>) -> (r: Vec<(Board, Board)>)
    ensures
        r@.len() == survivors@.len() as int / 2,
        forall|i: int|
            0 <= i < r@.len() ==> (#[trigger] r@[i]).0@ == survivors@[2 * i]@ && r@[i].1@
                == survivors@[2 * i + 1]@,
{
    let pair_count = survivors.len() / 2;
    let mut pairs: Vec<(Board, Board)> = Vec::new();
    let mut i: usize = 0;
    while i < pair_count
        invariant
            pair_count == survivors@.len() as int / 2,
            pairs@.len() == i,
            0 <= i <= pair_count,
            forall|k: int|
                0 <= k < i ==> (#[trigger] pairs@[k]).0@ == survivors@[2 * k]@ && pairs@[k].1@
                    == survivors@[2 * k + 1]@,
        decreases pair_count - i,
    {
        let len = survivors.len();
        proof {
            let sl = len as int;
            assert(sl == 2 * (sl / 2) + sl % 2) by (nonlinear_arith);
            assert(2 * (i as int) + 1 < sl);
        }
        let x = survivors[2 * i].clone();
        let y = survivors[2 * i + 1].clone();
        pairs.push((x, y));
        i = i + 1;
    }
    pairs
}

/// One cell of a child against its parents: it was inherited from the same
/// cell of one of the two, or — only with a positive mutation rate — redrawn
/// as a digit in 1..=N; with mutation rate one, every cell is redrawn.
pub open spec fn child_cell_ok(
    x: Seq<Seq<u8>>,
    y: Seq<Seq<u8>>,
    mutation: Rate,
    child: Seq<Seq<u8>>,
    i: int,
    j: int,
) -> bool {
    &&& (child[i][j] == x[i][j] || child[i][j] == y[i][j] || (mutation.num > 0 && 1 <= child[i][j]
        <= x.len()))
    &&& (mutation.num == mutation.den ==> 1 <= child[i][j] <= x.len())
}

/// Uniform crossover with mutation, cell by cell, for a whole child grid.
pub open spec fn child_cells_from_parents(
    x: Seq<Seq<u8>>,
    y: Seq<Seq<u8>>,
    mutation: Rate,
    child: Seq<Seq<u8>>,
) -> bool {
    forall|i: int, j: int|
        0 <= i < child.len() && 0 <= j < child[i].len() ==> #[trigger] child_cell_ok(
            x,
            y,
            mutation,
            child,
            i,
            j,
        )
}

/// Breeds the configured number of children from one parent pair. Each child
/// cell mutates to a uniform digit in 1..=N with the configured probability,
/// and otherwise is inherited from either parent with equal probability.
pub fn make_children(
    params: &GAParams,
    parent_x: &Board,
    parent_y: &Board,
    rng: &mut rand_pcg::Pcg64Mcg,
) -> (r: Vec<Board>)
    requires
        params.wf(),
        is_square(parent_x@),
        is_square(parent_y@),
        parent_x@.len() == parent_y@.len(),
        1 <= parent_x@.len() <= 255,
    ensures
        r@.len() == params.num_children_per_parent_pairs,
        forall|c: int|
            0 <= c < r@.len() ==> is_square((#[trigger] r@[c])@) && r@[c]@.len() == parent_x@.len()
                && child_cells_from_parents(parent_x@, parent_y@, params.mutation_rate, r@[c]@),
{
    let n = parent_x.size();
    let mut children: Vec<Board> = Vec::new();
    let mut c: usize = 0;
    while c < params.num_children_per_parent_pairs
        invariant
            params.wf(),
            is_square(parent_x@),
            is_square(parent_y@),
            parent_x@.len() == parent_y@.len(),
            n == parent_x@.len(),
            1 <= n <= 255,
            0 <= c <= params.num_children_per_parent_pairs,
            children@.len() == c,
            forall|k: int|
                0 <= k < c ==> is_square((#[trigger] children@[k])@) && children@[k]@.len() == n
                    && child_cells_from_parents(
                    parent_x@,
                    parent_y@,
                    params.mutation_rate,
                    children@[k]@,
                ),
        decreases params.num_children_per_parent_pairs - c,
    {
        let mut rows: Vec<crate::sudoku::Row> = Vec::new();
        let mut i: usize = 0;
        while i < n
            invariant
                params.wf(),
                is_square(parent_x@),
                is_square(parent_y@),
                parent_x@.len() == parent_y@.len(),
                n == parent_x@.len(),
                1 <= n <= 255,
                0 <= i <= n,
                rows@.len() == i,
                forall|k: int| 0 <= k < i ==> (#[trigger] rows@[k]@).len() == n,
                forall|k: int, j: int|
                    0 <= k < i && 0 <= j < n ==> ((#[trigger] rows@[k]@[j]) == parent_x@[k][j]
                        || rows@[k]@[j] == parent_y@[k][j] || (params.mutation_rate.num > 0 && 1
                        <= rows@[k]@[j] <= n)) && (params.mutation_rate.num
                        == params.mutation_rate.den ==> 1 <= rows@[k]@[j] <= n),
            decreases n - i,
        {
            let mut cells: Vec<u8> = Vec::new();
            let mut j: usize = 0;
            while j < n
                invariant
                    params.wf(),
                    is_square(parent_x@),
                    is_square(parent_y@),
                    parent_x@.len() == parent_y@.len(),
                    n == parent_x@.len(),
                    1 <= n <= 255,
                    0 <= i < n,
                    0 <= j <= n,
                    cells@.len() == j,
                    forall|k: int|
                        0 <= k < j ==> (#[trigger] cells@[k] == parent_x@[i as int][k] || cells@[k]
                            == parent_y@[i as int][k] || (params.mutation_rate.num > 0 && 1
                            <= cells@[k] <= n)) && (params.mutation_rate.num
                            == params.mutation_rate.den ==> 1 <= cells@[k] <= n),
                decreases n - j,
            {
                let mutation = params.mutation_rate;
                let draw = rand_in_range(rng, 0, mutation.den - 1);
                let digit: u8 = if draw < mutation.num {
                    rand_in_range(rng, 1, n as u32) as u8
                } else {
                    proof {
                        assert(parent_x@[i as int] == parent_x.0@[i as int]@);
                        assert(parent_y@[i as int] == parent_y.0@[i as int]@);
                    }
                    let coin = rand_in_range(rng, 0, 1);
                    if coin == 0 {
                        parent_x.0[i].0[j]
                    } else {
                        parent_y.0[i].0[j]
                    }
                };
                cells.push(digit);
                j = j + 1;
            }
            rows.push(crate::sudoku::Row(cells));
            i = i + 1;
        }
        let child = Board(rows);
        proof {
            assert(forall|k: int| 0 <= k < n ==> (#[trigger] child@[k]) == rows@[k]@);
            assert(is_square(child@));
            assert forall|ii: int, jj: int|
                0 <= ii < child@.len() && 0 <= jj < child@[ii].len() implies #[trigger] child_cell_ok(
                parent_x@,
                parent_y@,
                params.mutation_rate,
                child@,
                ii,
                jj,
            ) by {
                assert(child@[ii] == rows@[ii]@);
                assert(rows@[ii]@[jj] == child@[ii][jj]);
            }
        }
        children.push(child);
        c = c + 1;
    }
    children
}

/// One cell of a child against the whole scored population: it came unchanged
/// from the matching cell of some scored board, or — only with a positive
/// mutation rate — is a digit in 1..=n; with mutation rate one it is always a
/// fresh digit.
pub open spec fn cell_from_scores(
    scores: Seq<(Board, u32)>,
    n: nat,
    mutation: Rate,
    child: Seq<Seq<u8>>,
    i: int,
    j: int,
) -> bool {
    &&& ((exists|t: int|
        0 <= t < scores.len() && (#[trigger] scores[t]).0@[i][j] == child[i][j]) || (mutation.num
        > 0 && 1 <= child[i][j] <= n))
    &&& (mutation.num == mutation.den ==> 1 <= child[i][j] <= n)
}

/// Every cell of the child is accounted for against the scored population:
/// inherited from some scored board or freshly drawn.
pub open spec fn child_cells_ok(
    scores: Seq<(Board, u32)>,
    n: nat,
    mutation: Rate,
    child: Seq<Seq<u8>>,
) -> bool {
    forall|i: int, j: int|
        0 <= i < child.len() && 0 <= j < child[i].len() ==> #[trigger] cell_from_scores(
            scores,
            n,
            mutation,
            child,
            i,
            j,
        )
}

/// One evolution step on a scored population: when a restart is due, a fresh
/// random population replaces everything; otherwise the fittest survive, pair
/// off, and breed the children of the next generation.
pub fn next_generation(
    params: &GAParams,
    generation: usize,
    population_scores: Vec<(Board, u32)>,
    rng: &mut rand_pcg::Pcg64Mcg,
) -> (r: Vec<Board>)
    requires
        params.wf(),
        params.num_survivors <= population_scores@.len(),
        population_scores@.len() > 0,
        1 <= population_scores@[0].0@.len() <= 255,
        forall|t: int|
            0 <= t < population_scores@.len() ==> is_square(
                (#[trigger] population_scores@[t]).0@,
            ) && population_scores@[t].0@.len() == population_scores@[0].0@.len(),
    ensures
        restart_due(*params, generation) ==> fresh_population(
            r@,
            params.population as int,
            population_scores@[0].0@.len(),
        ),
        !restart_due(*params, generation) ==> {
            &&& r@.len() == params.num_parent_pairs() * params.num_children_per_parent_pairs
            &&& forall|c: int|
                0 <= c < r@.len() ==> is_square((#[trigger] r@[c])@) && r@[c]@.len()
                    == population_scores@[0].0@.len() && child_cells_ok(
                    population_scores@,
                    population_scores@[0].0@.len(),
                    params.mutation_rate,
                    r@[c]@,
                )
        },
{
    let ghost scores_view = population_scores@;
    let ghost n_spec = population_scores@[0].0@.len();
    let n = population_scores[0].0.size();
    let due = match params.restart {
        Some(rr) => rr > 0 && generation > 0 && generation % rr == 0,
        None => false,
    };
    if due {
        return generate_initial_population(params, n, rng);
    }
    let survivors = natural_selection(params, population_scores);
    proof {
        let ss = choose|ss: Seq<(Board, u32)>|
            #[trigger] is_stable_sort_by_score(scores_view, ss) && (forall|i: int|
                0 <= i < survivors@.len() ==> (#[trigger] survivors@[i])@ == ss[i].0@);
        assert forall|k: int| 0 <= k < survivors@.len() implies exists|t: int|
            0 <= t < scores_view.len() && (#[trigger] scores_view[t]).0@ == (
        #[trigger] survivors@[k])@ by {
            ss.to_multiset_ensures();
            scores_view.to_multiset_ensures();
            assert(ss.contains(ss[k]));
            assert(scores_view.to_multiset().count(ss[k]) > 0);
            assert(scores_view.contains(ss[k]));
            let t = choose|t: int| 0 <= t < scores_view.len() && scores_view[t] == ss[k];
            assert(scores_view[t].0@ == survivors@[k]@);
        }
        assert forall|k: int| 0 <= k < survivors@.len() implies is_square(
            (#[trigger] survivors@[k])@,
        ) && survivors@[k]@.len() == n_spec by {
            let t = choose|t: int|
                0 <= t < scores_view.len() && (#[trigger] scores_view[t]).0@ == survivors@[k]@;
            assert(is_square(scores_view[t].0@));
        }
    }
    let pairs = make_parents(survivors);
    let mut children: Vec<Board> = Vec::new();
    let mut p: usize = 0;
    let pair_count = pairs.len();
    while p < pair_count
        invariant
            params.wf(),
            pair_count == pairs@.len(),
            pair_count == params.num_parent_pairs(),
            0 <= p <= pair_count,
            n == n_spec,
            1 <= n <= 255,
            forall|k: int|
                0 <= k < pairs@.len() ==> is_square((#[trigger] pairs@[k]).0@) && is_square(
                    pairs@[k].1@,
                ) && pairs@[k].0@.len() == n_spec && pairs@[k].1@.len() == n_spec,
            forall|k: int|
                0 <= k < pairs@.len() ==> (exists|t: int|
                    0 <= t < scores_view.len() && (#[trigger] scores_view[t]).0@ == (
                    #[trigger] pairs@[k]).0@) && (exists|t: int|
                    0 <= t < scores_view.len() && (#[trigger] scores_view[t]).0@ == pairs@[k].1@),
            children@.len() == p * params.num_children_per_parent_pairs,
            forall|c: int|
                0 <= c < children@.len() ==> is_square((#[trigger] children@[c])@)
                    && children@[c]@.len() == n_spec && child_cells_ok(
                    scores_view,
                    n_spec,
                    params.mutation_rate,
                    children@[c]@,
                ),
        decreases pair_count - p,
    {
        let ghost old_children = children@;
        let mut batch = make_children(params, &pairs[p].0, &pairs[p].1, rng);
        let ghost batch_view = batch@;
        children.append(&mut batch);
        proof {
            let x = pairs@[p as int].0@;
            let y = pairs@[p as int].1@;
            let tx = choose|t: int|
                0 <= t < scores_view.len() && (#[trigger] scores_view[t]).0@ == x;
            let ty = choose|t: int|
                0 <= t < scores_view.len() && (#[trigger] scores_view[t]).0@ == y;
            assert forall|c: int| 0 <= c < batch_view.len() implies child_cells_ok(
                scores_view,
                n_spec,
                params.mutation_rate,
                (#[trigger] batch_view[c])@,
            ) by {
                let child = batch_view[c]@;
                assert forall|i: int, j: int|
                    0 <= i < child.len() && 0 <= j < child[i].len() implies #[trigger] cell_from_scores(
                    scores_view,
                    n_spec,
                    params.mutation_rate,
                    child,
                    i,
                    j,
                ) by {
                    assert(child_cell_ok(x, y, params.mutation_rate, child, i, j));
                    if child[i][j] == x[i][j] {
                        assert(scores_view[tx].0@[i][j] == child[i][j]);
                    } else if child[i][j] == y[i][j] {
                        assert(scores_view[ty].0@[i][j] == child[i][j]);
                    }
                }
            }
            assert(children@ == old_children + batch_view);
            assert((p + 1) * params.num_children_per_parent_pairs == p
                * params.num_children_per_parent_pairs + params.num_children_per_parent_pairs)
                by (nonlinear_arith);
        }
        p = p + 1;
    }
    children
}

} // verus!
