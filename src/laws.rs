//! General properties of the neighbour index, of propagation and of the
//! search, stated over the model and proved.
use vstd::prelude::*;
use crate::cellset::{card, is_digit, singleton, subset};
use crate::grid::{is_neighbor, lemma_neighbor_seq, neighbor_seq, neighbor_set, unit_cell, NSQ};
use crate::model::{
    cells_ok, has_solution, lemma_propagated, lemma_solve_complete, lemma_solve_result,
    lemma_valid_fixed, lemma_valid_units, propagated, refines, solution_of, valid_solution,
};

verus! {

/// Every cell has exactly 20 neighbours, and is not its own neighbour.
pub proof fn law_neighbor_count(c: int)
    requires
        0 <= c < NSQ,
    ensures
        neighbor_set(c).len() == 20,
        !neighbor_set(c).contains(c),
        neighbor_seq(c).len() == 20,
        neighbor_seq(c).no_duplicates(),
        !neighbor_seq(c).contains(c),
{
    lemma_neighbor_seq(c);
    neighbor_seq(c).unique_seq_to_set();
    if neighbor_seq(c).contains(c) {
        assert(neighbor_seq(c).to_set().contains(c));
    }
}

/// Being neighbours is symmetric.
pub proof fn law_neighbor_symmetric(c: int, n: int)
    requires
        0 <= c < NSQ,
        0 <= n < NSQ,
    ensures
        neighbor_set(n).contains(c) <==> neighbor_set(c).contains(n),
{
    assert(is_neighbor(c, n) <==> is_neighbor(n, c));
}

/// Propagation only removes candidates: no cell gains one, and no cell's
/// count grows.
pub proof fn law_propagate_monotone(b: Seq<u32>)
    requires
        b.len() == NSQ,
    ensures
        forall|i: int| 0 <= i < NSQ ==> subset(#[trigger] propagated(b)[i], b[i]),
        forall|i: int| 0 <= i < NSQ ==> card(#[trigger] propagated(b)[i]) <= card(b[i]),
{
    lemma_propagated(b);
    assert forall|i: int| 0 <= i < NSQ implies card(#[trigger] propagated(b)[i]) <= card(b[i]) by {
        crate::cellset::lemma_subset(propagated(b)[i], b[i]);
    }
}

/// Propagating a propagated board changes nothing.
pub proof fn law_propagate_idempotent(b: Seq<u32>)
    requires
        b.len() == NSQ,
    ensures
        propagated(propagated(b)) == propagated(b),
{
    lemma_propagated(b);
}

/// A board that the search returns has no cell without a candidate: every
/// cell holds exactly one.
pub proof fn law_solve_no_empty_cell(b: Seq<u32>)
    requires
        cells_ok(b),
    ensures
        solution_of(b) matches Some(x) ==> forall|i: int| 0 <= i < NSQ ==> card(#[trigger] x[i]) == 1,
        solution_of(b) matches Some(x) ==> forall|i: int| 0 <= i < NSQ ==> card(#[trigger] x[i]) != 0,
{
    lemma_solve_result(b);
}

/// A board that the search returns holds one digit per cell, with no digit
/// twice in a row, a column or a box, and keeps every clue of the input.
pub proof fn law_solve_valid(b: Seq<u32>)
    requires
        cells_ok(b),
    ensures
        solution_of(b) matches Some(x) ==> valid_solution(x),
        solution_of(b) matches Some(x) ==> forall|i: int|
            0 <= i < NSQ ==> subset(#[trigger] x[i], b[i]),
{
    lemma_solve_result(b);
}

/// In a board that the search returns, every row, column and box (unit
/// `u`, see `unit_cell`) holds each digit exactly once.
pub proof fn law_solve_units(b: Seq<u32>, u: int, d: u32)
    requires
        cells_ok(b),
        0 <= u < 27,
        is_digit(d),
    ensures
        solution_of(b) matches Some(x) ==> exists|k: int|
            0 <= k < 9 && #[trigger] x[unit_cell(u, k)] == singleton(d),
        solution_of(b) matches Some(x) ==> forall|k1: int, k2: int|
            0 <= k1 < 9 && 0 <= k2 < 9 && #[trigger] x[unit_cell(u, k1)] == singleton(d)
                && #[trigger] x[unit_cell(u, k2)] == singleton(d) ==> k1 == k2,
{
    lemma_solve_result(b);
    if let Some(x) = solution_of(b) {
        lemma_valid_units(x, u, d);
    }
}

/// The search finds a solution exactly when the puzzle has a valid
/// completion: "no solution" means that none exists.
pub proof fn law_solve_complete(b: Seq<u32>)
    requires
        cells_ok(b),
    ensures
        solution_of(b) is Some <==> has_solution(b),
{
    lemma_solve_result(b);
    if has_solution(b) {
        let x = choose|x: Seq<u32>| valid_solution(x) && refines(x, b);
        lemma_solve_complete(b, x);
    }
    if let Some(x) = solution_of(b) {
        assert(valid_solution(x) && refines(x, b));
    }
}

/// The search is a function of the board: equal boards give equal outcomes.
pub proof fn law_solve_deterministic(b1: Seq<u32>, b2: Seq<u32>)
    requires
        b1 == b2,
    ensures
        solution_of(b1) == solution_of(b2),
{
}

/// A complete, valid board is its own solution.
pub proof fn law_solved_input_unchanged(b: Seq<u32>)
    requires
        valid_solution(b),
    ensures
        solution_of(b) == Some(b),
{
    lemma_valid_fixed(b);
}

} // verus!
