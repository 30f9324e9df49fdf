//! The mathematical model of a board (a sequence of 81 candidate sets) and
//! of the two algorithms on it: fixed-point propagation and backtracking
//! search.
use vstd::prelude::*;
use crate::cellset::{
    card, is_set, lemma_card_bounds, lemma_card_one, lemma_remove, lemma_singleton,
    is_digit, lemma_singleton_inj, lemma_subset, singleton, subset, value,
};
use vstd::relations::injective_on;
use vstd::set_lib::{lemma_int_range, lemma_map_size, lemma_subset_equality, set_int_range};
use crate::grid::{is_neighbor, lemma_nbr_at, lemma_nbr_complete, lemma_unit, nbr, unit_cell, NSQ};

verus! {

/// A board of 81 candidate sets.
pub open spec fn cells_ok(b: Seq<u32>) -> bool {
    &&& b.len() == NSQ
    &&& forall|i: int| 0 <= i < NSQ ==> is_set(#[trigger] b[i])
}

/// Every cell holds exactly one candidate.
pub open spec fn all_solved(b: Seq<u32>) -> bool {
    forall|i: int| 0 <= i < NSQ ==> card(#[trigger] b[i]) == 1
}

/// No cell is left without a candidate.
pub open spec fn consistent(b: Seq<u32>) -> bool {
    forall|i: int| 0 <= i < NSQ ==> card(#[trigger] b[i]) != 0
}

/// What cell `j` forbids its neighbours: its value when solved, else nothing.
pub open spec fn known(b: Seq<u32>, j: int) -> u32 {
    if card(b[j]) == 1 {
        b[j]
    } else {
        0
    }
}

/// Union of what the first `k` neighbours of `cell` forbid.
pub open spec fn non_cands_upto(b: Seq<u32>, cell: int, k: int) -> u32
    decreases k,
{
    if k <= 0 {
        0
    } else {
        non_cands_upto(b, cell, k - 1) | known(b, nbr(cell, k - 1))
    }
}

/// The values of the solved neighbours of `cell`.
pub open spec fn non_cands(b: Seq<u32>, cell: int) -> u32 {
    non_cands_upto(b, cell, 20)
}

/// The candidates of `cell` that no solved neighbour rules out.
pub open spec fn narrowed(b: Seq<u32>, cell: int) -> u32 {
    b[cell] & !non_cands(b, cell)
}

/// The board after narrowing cells `0..i` in turn.
pub open spec fn pass_upto(b: Seq<u32>, i: int) -> Seq<u32>
    decreases i,
{
    if i <= 0 {
        b
    } else {
        let t = pass_upto(b, i - 1);
        t.update(i - 1, narrowed(t, i - 1))
    }
}

/// One pass of propagation over all cells, in index order.
pub open spec fn pass(b: Seq<u32>) -> Seq<u32> {
    pass_upto(b, NSQ as int)
}

/// Sum of the first `n` entries.
pub open spec fn sum_upto(b: Seq<u32>, n: int) -> int
    decreases n,
{
    if n <= 0 {
        0
    } else {
        sum_upto(b, n - 1) + b[n - 1]
    }
}

/// Sum of all entries: a pass that changes a board makes it smaller.
pub open spec fn total(b: Seq<u32>) -> int {
    sum_upto(b, b.len() as int)
}

/// Passes repeated until one changes nothing.
pub open spec fn propagated(b: Seq<u32>) -> Seq<u32>
    decreases total(b),
{
    if b.len() != NSQ || pass(b) == b {
        b
    } else {
        proof {
            lemma_pass_total(b);
        }
        propagated(pass(b))
    }
}

/// A cell is most promising: unsolved, with the fewest candidates of all
/// unsolved cells, and the first such cell.
pub open spec fn is_most_promising(b: Seq<u32>, c: int) -> bool {
    &&& 0 <= c < NSQ
    &&& card(b[c]) != 1
    &&& forall|j: int|
        0 <= j < NSQ && card(#[trigger] b[j]) != 1 ==> {
            &&& j < c ==> card(b[c]) < card(b[j])
            &&& c < j ==> card(b[c]) <= card(b[j])
        }
}

/// The most promising cell of a board that has an unsolved cell.
pub open spec fn most_promising_cell(b: Seq<u32>) -> int {
    choose|c: int| is_most_promising(b, c)
}

/// There is at most one most promising cell, so `most_promising_cell`
/// names it.
pub proof fn lemma_most_promising_unique(b: Seq<u32>, c: int)
    requires
        is_most_promising(b, c),
    ensures
        most_promising_cell(b) == c,
{
    let c2 = most_promising_cell(b);
    assert(is_most_promising(b, c2));
    assert(card(b[c]) != 1 && card(b[c2]) != 1);
}

/// The search on a propagated board `p`, branching on cell `c`: the first
/// solution found when `c` is fixed to each of its candidate digits from
/// `d + 1` upwards, if any.
pub open spec fn try_digits(p: Seq<u32>, c: int, d: int) -> Option<Seq<u32>>
    decreases total(p), 9 - d,
{
    if !(0 <= d < 9) || !(0 <= c < p.len()) || card(p[c]) < 2 {
        None
    } else if subset(singleton((d + 1) as u32), p[c]) {
        let child = p.update(c, singleton((d + 1) as u32));
        proof {
            lemma_branch_total(p, c, d);
        }
        match solution_of(child) {
            Some(x) => Some(x),
            None => try_digits(p, c, d + 1),
        }
    } else {
        try_digits(p, c, d + 1)
    }
}

/// The outcome of the search: propagate, then stop with the board if it
/// is solved, with nothing if a cell has no candidate, and otherwise
/// branch on the most promising cell.
pub open spec fn solution_of(b: Seq<u32>) -> Option<Seq<u32>>
    decreases total(b), 10int,
{
    if b.len() != NSQ {
        None
    } else {
        let p = propagated(b);
        proof {
            lemma_propagated(b);
        }
        if all_solved(p) {
            Some(p)
        } else if !consistent(p) {
            None
        } else {
            try_digits(p, most_promising_cell(p), 0)
        }
    }
}

/// Fixing a multi-candidate cell to one of its candidates lowers the sum.
pub proof fn lemma_branch_total(p: Seq<u32>, c: int, d: int)
    requires
        0 <= d < 9,
        0 <= c < p.len(),
        card(p[c]) >= 2,
        subset(singleton((d + 1) as u32), p[c]),
    ensures
        0 <= total(p.update(c, singleton((d + 1) as u32))) < total(p),
{
    let x = singleton((d + 1) as u32);
    let q = p.update(c, x);
    crate::cellset::lemma_singleton((d + 1) as u32);
    lemma_subset(x, p[c]);
    assert(q[c] < p[c]);
    lemma_sum_le(p, q, p.len() as int);
}

/// Propagation keeps the length, removes candidates only, lowers the sum
/// or keeps it, and ends at a board that a pass leaves unchanged.
pub proof fn lemma_propagated(b: Seq<u32>)
    requires
        b.len() == NSQ,
    ensures
        propagated(b).len() == NSQ,
        0 <= total(propagated(b)) <= total(b),
        pass(propagated(b)) == propagated(b),
        forall|j: int| 0 <= j < NSQ ==> subset(#[trigger] propagated(b)[j], b[j]),
    decreases total(b),
{
    lemma_pass_total(b);
    if pass(b) == b {
        assert forall|j: int| 0 <= j < NSQ implies subset(#[trigger] propagated(b)[j], b[j]) by {
            lemma_remove(b[j], 0);
        }
        lemma_sum_le(b, b, NSQ as int);
    } else {
        let p = pass(b);
        lemma_propagated(p);
        assert forall|j: int| 0 <= j < NSQ implies subset(#[trigger] propagated(b)[j], b[j]) by {
            lemma_subset(propagated(p)[j], p[j]);
        }
    }
}

/// Sums of two sequences where one is pointwise below the other.
pub proof fn lemma_sum_le(s: Seq<u32>, t: Seq<u32>, n: int)
    requires
        0 <= n <= s.len(),
        s.len() == t.len(),
        forall|i: int| 0 <= i < n ==> t[i] <= s[i],
    ensures
        0 <= sum_upto(t, n) <= sum_upto(s, n),
        (exists|i: int| 0 <= i < n && t[i] < s[i]) ==> sum_upto(t, n) < sum_upto(s, n),
    decreases n,
{
    if n > 0 {
        lemma_sum_le(s, t, n - 1);
    }
}

/// Narrowing cells one at a time changes each cell at most once, at its
/// own step, and only by removing candidates.
pub proof fn lemma_pass_upto(b: Seq<u32>, i: int)
    requires
        0 <= i <= b.len(),
    ensures
        pass_upto(b, i).len() == b.len(),
        forall|j: int| i <= j < b.len() ==> #[trigger] pass_upto(b, i)[j] == b[j],
        forall|j: int|
            0 <= j < i ==> #[trigger] pass_upto(b, i)[j] == narrowed(pass_upto(b, j), j),
        forall|j: int| 0 <= j < b.len() ==> subset(#[trigger] pass_upto(b, i)[j], b[j]),
    decreases i,
{
    if i > 0 {
        lemma_pass_upto(b, i - 1);
        let t = pass_upto(b, i - 1);
        lemma_remove(t[i - 1], non_cands(t, i - 1));
    } else {
        assert forall|j: int| 0 <= j < b.len() implies subset(#[trigger] pass_upto(b, i)[j], b[j]) by {
            lemma_remove(b[j], 0);
        }
    }
}

/// A pass that changes the board lowers its sum.
pub proof fn lemma_pass_total(b: Seq<u32>)
    requires
        b.len() == NSQ,
    ensures
        pass(b).len() == NSQ,
        0 <= total(pass(b)) <= total(b),
        pass(b) != b ==> total(pass(b)) < total(b),
        forall|j: int| 0 <= j < NSQ ==> subset(#[trigger] pass(b)[j], b[j]),
{
    lemma_pass_upto(b, NSQ as int);
    let p = pass(b);
    assert forall|j: int| 0 <= j < NSQ implies p[j] <= b[j] && (p[j] != b[j] ==> p[j] < b[j]) by {
        lemma_subset(p[j], b[j]);
    }
    if p != b {
        assert(!(p =~= b));
        let j = choose|j: int| 0 <= j < NSQ && p[j] != b[j];
        assert(p[j] < b[j]);
    }
    lemma_sum_le(b, p, NSQ as int);
}

/// A board that every narrowing leaves unchanged is left unchanged by a
/// pass, and the other way round.
pub proof fn lemma_pass_fixed(b: Seq<u32>)
    requires
        b.len() == NSQ,
    ensures
        pass(b) == b <==> forall|i: int| 0 <= i < NSQ ==> #[trigger] narrowed(b, i) == b[i],
{
    lemma_pass_upto(b, NSQ as int);
    if pass(b) == b {
        lemma_pass_prefix_fixed(b, NSQ as int);
    }
    if forall|i: int| 0 <= i < NSQ ==> #[trigger] narrowed(b, i) == b[i] {
        lemma_pass_steps_fixed(b, NSQ as int);
    }
}

proof fn lemma_pass_prefix_fixed(b: Seq<u32>, i: int)
    requires
        b.len() == NSQ,
        pass(b) == b,
        0 <= i <= NSQ,
    ensures
        pass_upto(b, i) == b,
        forall|j: int| 0 <= j < i ==> #[trigger] narrowed(b, j) == b[j],
    decreases i,
{
    lemma_pass_upto(b, NSQ as int);
    if i > 0 {
        lemma_pass_prefix_fixed(b, i - 1);
        assert(pass(b)[i - 1] == narrowed(pass_upto(b, i - 1), i - 1));
        assert(pass_upto(b, i) =~= b);
    }
}

proof fn lemma_pass_steps_fixed(b: Seq<u32>, i: int)
    requires
        b.len() == NSQ,
        forall|j: int| 0 <= j < NSQ ==> #[trigger] narrowed(b, j) == b[j],
        0 <= i <= NSQ,
    ensures
        pass_upto(b, i) == b,
    decreases i,
{
    if i > 0 {
        lemma_pass_steps_fixed(b, i - 1);
        assert(narrowed(b, i - 1) == b[i - 1]);
        assert(pass_upto(b, i) =~= b);
    }
}

/// What a neighbour forbids is among the non-candidates.
pub proof fn lemma_non_cands_contains(b: Seq<u32>, cell: int, n: int, k: int)
    requires
        0 <= k < n,
    ensures
        subset(known(b, nbr(cell, k)), non_cands_upto(b, cell, n)),
    decreases n,
{
    let y = known(b, nbr(cell, k));
    let a = non_cands_upto(b, cell, n - 1);
    let z = known(b, nbr(cell, n - 1));
    if k < n - 1 {
        lemma_non_cands_contains(b, cell, n - 1, k);
        assert(y & a == y ==> y & (a | z) == y) by (bit_vector);
    } else {
        assert(z & (a | z) == z) by (bit_vector);
    }
}

/// Non-candidates that no neighbour shares with `x` are disjoint from `x`.
pub proof fn lemma_non_cands_disjoint(b: Seq<u32>, cell: int, n: int, x: u32)
    requires
        forall|k: int| 0 <= k < n ==> #[trigger] known(b, nbr(cell, k)) & x == 0,
    ensures
        non_cands_upto(b, cell, n) & x == 0,
    decreases n,
{
    if n > 0 {
        lemma_non_cands_disjoint(b, cell, n - 1, x);
        let a = non_cands_upto(b, cell, n - 1);
        let z = known(b, nbr(cell, n - 1));
        assert(a & x == 0 && z & x == 0 ==> (a | z) & x == 0) by (bit_vector);
    } else {
        assert(0u32 & x == 0) by (bit_vector);
    }
}

/// A board in which every cell holds a single digit and no two neighbours
/// hold the same one.
pub open spec fn valid_solution(x: Seq<u32>) -> bool {
    &&& cells_ok(x)
    &&& all_solved(x)
    &&& forall|i: int, j: int|
        0 <= i < NSQ && 0 <= j < NSQ && is_neighbor(i, j) ==> #[trigger] x[i] != #[trigger] x[j]
}

/// A solved board that a pass leaves unchanged has no two neighbours with
/// the same digit.
pub proof fn lemma_fixed_solved_valid(x: Seq<u32>)
    requires
        cells_ok(x),
        all_solved(x),
        pass(x) == x,
    ensures
        valid_solution(x),
{
    lemma_pass_fixed(x);
    assert forall|i: int, j: int|
        0 <= i < NSQ && 0 <= j < NSQ && is_neighbor(i, j) implies #[trigger] x[i] != #[trigger] x[j] by {
        let k = lemma_nbr_complete(i, j);
        lemma_non_cands_contains(x, i, 20, k);
        assert(narrowed(x, i) == x[i]);
        assert(card(x[i]) == 1);
        lemma_card_bounds(x[i]);
        let a = x[i];
        let nc = non_cands(x, i);
        assert(a & !nc == a && a & nc == a ==> a == 0) by (bit_vector);
    }
}

/// A valid solution is left unchanged by propagation.
pub proof fn lemma_valid_fixed(x: Seq<u32>)
    requires
        valid_solution(x),
    ensures
        pass(x) == x,
        propagated(x) == x,
{
    assert forall|i: int| 0 <= i < NSQ implies #[trigger] narrowed(x, i) == x[i] by {
        assert forall|k: int| 0 <= k < 20 implies #[trigger] known(x, nbr(i, k)) & x[i] == 0 by {
            lemma_nbr_at(i, k);
            let j = nbr(i, k);
            lemma_card_one(x[i]);
            lemma_card_one(x[j]);
            lemma_singleton_inj(value(x[i]), value(x[j]));
            assert(x[i] != x[j]);
            let a = x[j];
            let y = x[i];
            assert(y & a == 0 ==> a & y == 0) by (bit_vector);
        }
        lemma_non_cands_disjoint(x, i, 20, x[i]);
        let nc = non_cands(x, i);
        let a = x[i];
        assert(nc & a == 0 ==> a & !nc == a) by (bit_vector);
    }
    lemma_pass_fixed(x);
}

/// What the search returns is a valid solution that keeps every candidate
/// choice within the board it started from.
pub proof fn lemma_solve_result(b: Seq<u32>)
    requires
        cells_ok(b),
    ensures
        solution_of(b) matches Some(x) ==> {
            &&& valid_solution(x)
            &&& pass(x) == x
            &&& forall|i: int| 0 <= i < NSQ ==> subset(#[trigger] x[i], b[i])
        },
    decreases total(b), 10int,
{
    lemma_propagated(b);
    let p = propagated(b);
    assert forall|i: int| 0 <= i < NSQ implies is_set(#[trigger] p[i]) by {
        lemma_subset(p[i], b[i]);
    }
    if all_solved(p) {
        lemma_fixed_solved_valid(p);
    } else if consistent(p) {
        lemma_try_result(p, most_promising_cell(p), 0);
        if let Some(x) = solution_of(b) {
            assert forall|i: int| 0 <= i < NSQ implies subset(#[trigger] x[i], b[i]) by {
                lemma_subset(x[i], p[i]);
                lemma_subset(p[i], b[i]);
            }
        }
    }
}

/// What the search below a branching cell returns is a valid solution
/// within the board it branched from.
pub proof fn lemma_try_result(p: Seq<u32>, c: int, d: int)
    requires
        cells_ok(p),
    ensures
        try_digits(p, c, d) matches Some(x) ==> {
            &&& valid_solution(x)
            &&& pass(x) == x
            &&& forall|i: int| 0 <= i < NSQ ==> subset(#[trigger] x[i], p[i])
        },
    decreases total(p), 9 - d,
{
    if !(0 <= d < 9) || !(0 <= c < p.len()) || card(p[c]) < 2 {
    } else {
        let s = singleton((d + 1) as u32);
        if subset(s, p[c]) {
            let child = p.update(c, s);
            lemma_branch_total(p, c, d);
            lemma_singleton((d + 1) as u32);
            assert(cells_ok(child));
            lemma_solve_result(child);
            lemma_try_result(p, c, d + 1);
            if let Some(x) = solution_of(child) {
                assert forall|i: int| 0 <= i < NSQ implies subset(#[trigger] x[i], p[i]) by {
                    lemma_subset(x[i], child[i]);
                    if i != c {
                        lemma_remove(p[i], 0);
                    }
                }
            }
        } else {
            lemma_try_result(p, c, d + 1);
        }
    }
}

/// In a valid solution every row, column and box holds each digit
/// exactly once.
pub proof fn lemma_valid_units(x: Seq<u32>, u: int, d: u32)
    requires
        valid_solution(x),
        0 <= u < 27,
        is_digit(d),
    ensures
        exists|k: int| 0 <= k < 9 && #[trigger] x[unit_cell(u, k)] == singleton(d),
        forall|k1: int, k2: int|
            0 <= k1 < 9 && 0 <= k2 < 9 && #[trigger] x[unit_cell(u, k1)] == singleton(d)
                && #[trigger] x[unit_cell(u, k2)] == singleton(d) ==> k1 == k2,
{
    let f = |k: int| value(x[unit_cell(u, k)]) as int;
    let dom = set_int_range(0, 9);
    let digits = set_int_range(1, 10);
    assert forall|k: int| 0 <= k < 9 implies is_digit(value(#[trigger] x[unit_cell(u, k)]))
        && x[unit_cell(u, k)] == singleton(value(x[unit_cell(u, k)])) by {
        lemma_unit(u, k, k);
        lemma_card_one(x[unit_cell(u, k)]);
    }
    assert forall|k1: int, k2: int|
        0 <= k1 < 9 && 0 <= k2 < 9 && k1 != k2 implies #[trigger] x[unit_cell(u, k1)] != #[trigger] x[unit_cell(u, k2)] by {
        lemma_unit(u, k1, k2);
    }
    assert(injective_on(f, dom)) by {
        assert forall|k1: int, k2: int| dom.contains(k1) && dom.contains(k2) && #[trigger] f(k1) == #[trigger] f(k2)
            implies k1 == k2 by {
            if k1 != k2 {
                assert(x[unit_cell(u, k1)] != x[unit_cell(u, k2)]);
            }
        }
    }
    lemma_int_range(0, 9);
    lemma_int_range(1, 10);
    lemma_map_size(dom, dom.map(f), f);
    assert(dom.map(f).subset_of(digits));
    lemma_subset_equality(dom.map(f), digits);
    assert(digits.contains(d as int));
    assert(dom.map(f).contains(d as int));
    let k = choose|k: int| dom.contains(k) && f(k) == d as int;
    assert(x[unit_cell(u, k)] == singleton(d));
    assert forall|k1: int, k2: int|
        0 <= k1 < 9 && 0 <= k2 < 9 && #[trigger] x[unit_cell(u, k1)] == singleton(d)
            && #[trigger] x[unit_cell(u, k2)] == singleton(d) implies k1 == k2 by {
        if k1 != k2 {
            lemma_unit(u, k1, k2);
        }
    }
}

/// Every cell of `x` keeps to the candidates of `b`.
pub open spec fn refines(x: Seq<u32>, b: Seq<u32>) -> bool {
    forall|i: int| 0 <= i < NSQ ==> subset(#[trigger] x[i], b[i])
}

/// The puzzle `b` has a valid completion.
pub open spec fn has_solution(b: Seq<u32>) -> bool {
    exists|x: Seq<u32>| valid_solution(x) && refines(x, b)
}

/// Narrowing a cell never removes the digit that a solution puts there.
proof fn lemma_narrowed_keeps_solution(t: Seq<u32>, x: Seq<u32>, i: int)
    requires
        cells_ok(t),
        valid_solution(x),
        refines(x, t),
        0 <= i < NSQ,
    ensures
        subset(x[i], narrowed(t, i)),
{
    assert forall|k: int| 0 <= k < 20 implies #[trigger] known(t, nbr(i, k)) & x[i] == 0 by {
        lemma_nbr_at(i, k);
        let j = nbr(i, k);
        let xi = x[i];
        let xj = x[j];
        let tj = t[j];
        lemma_card_one(xi);
        lemma_card_one(xj);
        lemma_card_bounds(xj);
        lemma_singleton_inj(value(xi), value(xj));
        assert(xi & xj == 0);
        if card(tj) == 1 {
            assert(xj & tj == xj && xj != 0 && tj <= 0x1FF && card(tj) == 1 ==> xj == tj) by (bit_vector);
            assert(xi & xj == 0 ==> xj & xi == 0) by (bit_vector);
        } else {
            assert(0u32 & xi == 0) by (bit_vector);
        }
    }
    lemma_non_cands_disjoint(t, i, 20, x[i]);
    let nc = non_cands(t, i);
    let a = x[i];
    let ti = t[i];
    assert(a & ti == a && nc & a == 0 ==> a & (ti & !nc) == a) by (bit_vector);
}

proof fn lemma_pass_upto_keeps_solution(b: Seq<u32>, x: Seq<u32>, i: int)
    requires
        cells_ok(b),
        valid_solution(x),
        refines(x, b),
        0 <= i <= NSQ,
    ensures
        refines(x, pass_upto(b, i)),
    decreases i,
{
    if i > 0 {
        lemma_pass_upto_keeps_solution(b, x, i - 1);
        let t = pass_upto(b, i - 1);
        lemma_pass_upto(b, i - 1);
        assert forall|j: int| 0 <= j < NSQ implies is_set(#[trigger] t[j]) by {
            lemma_subset(t[j], b[j]);
        }
        lemma_narrowed_keeps_solution(t, x, i - 1);
    }
}

/// Propagation never removes a solution's digit.
pub proof fn lemma_propagated_keeps_solution(b: Seq<u32>, x: Seq<u32>)
    requires
        cells_ok(b),
        valid_solution(x),
        refines(x, b),
    ensures
        refines(x, propagated(b)),
    decreases total(b),
{
    if pass(b) != b {
        lemma_pass_total(b);
        lemma_pass_upto_keeps_solution(b, x, NSQ as int);
        assert forall|j: int| 0 <= j < NSQ implies is_set(#[trigger] pass(b)[j]) by {
            lemma_subset(pass(b)[j], b[j]);
        }
        lemma_propagated_keeps_solution(pass(b), x);
    }
}

/// Where the puzzle has a solution, the search finds one.
pub proof fn lemma_solve_complete(b: Seq<u32>, x: Seq<u32>)
    requires
        cells_ok(b),
        valid_solution(x),
        refines(x, b),
    ensures
        solution_of(b) is Some,
    decreases total(b), 10int,
{
    lemma_propagated(b);
    lemma_propagated_keeps_solution(b, x);
    let p = propagated(b);
    assert forall|i: int| 0 <= i < NSQ implies is_set(#[trigger] p[i]) by {
        lemma_subset(p[i], b[i]);
    }
    if !all_solved(p) {
        assert(consistent(p)) by {
            assert forall|i: int| 0 <= i < NSQ implies card(#[trigger] p[i]) != 0 by {
                lemma_card_bounds(p[i]);
                lemma_card_bounds(x[i]);
                lemma_subset(x[i], p[i]);
            }
        }
        let c = most_promising_cell(p);
        let w = choose|c: int| 0 <= c < NSQ && card(p[c]) != 1;
        lemma_most_promising_exists(p, w);
        lemma_card_bounds(p[c]);
        lemma_card_one(x[c]);
        lemma_try_complete(p, c, 0, x);
    }
}

/// A board with an unsolved cell has a most promising cell.
proof fn lemma_most_promising_exists(b: Seq<u32>, w: int)
    requires
        b.len() == NSQ,
        0 <= w < NSQ,
        card(b[w]) != 1,
    ensures
        is_most_promising(b, most_promising_cell(b)),
{
    let m = lemma_first_min(b, w, NSQ as int);
    assert(is_most_promising(b, m));
}

/// The first unsolved cell of fewest candidates among cells `0..n`.
proof fn lemma_first_min(b: Seq<u32>, w: int, n: int) -> (m: int)
    requires
        b.len() == NSQ,
        0 <= w < n <= NSQ,
        card(b[w]) != 1,
    ensures
        0 <= m < n,
        card(b[m]) != 1,
        forall|j: int|
            0 <= j < n && card(#[trigger] b[j]) != 1 ==> {
                &&& j < m ==> card(b[m]) < card(b[j])
                &&& m < j ==> card(b[m]) <= card(b[j])
            },
    decreases n,
{
    if n == w + 1 && forall|j: int| 0 <= j < w ==> card(#[trigger] b[j]) == 1 {
        w
    } else if n == w + 1 {
        let v = choose|j: int| 0 <= j < w && card(#[trigger] b[j]) != 1;
        let m = lemma_first_min(b, v, w);
        if card(b[w]) < card(b[m]) { w } else { m }
    } else {
        let m = lemma_first_min(b, w, n - 1);
        if card(b[n - 1]) != 1 && card(b[n - 1]) < card(b[m]) { n - 1 } else { m }
    }
}

/// Branching on cell `c` from digit `d + 1` up finds a solution when one
/// puts a digit above `d` in `c`.
proof fn lemma_try_complete(p: Seq<u32>, c: int, d: int, x: Seq<u32>)
    requires
        cells_ok(p),
        valid_solution(x),
        refines(x, p),
        0 <= c < NSQ,
        card(p[c]) >= 2,
        0 <= d,
        is_digit(value(x[c])),
        x[c] == singleton(value(x[c])),
        d < value(x[c]),
    ensures
        try_digits(p, c, d) is Some,
    decreases total(p), 9 - d,
{
    let e = value(x[c]);
    let s = singleton((d + 1) as u32);
    lemma_singleton((d + 1) as u32);
    if subset(s, p[c]) {
        let child = p.update(c, s);
        lemma_branch_total(p, c, d);
        if e == d + 1 {
            assert forall|i: int| 0 <= i < NSQ implies subset(#[trigger] x[i], child[i]) by {
                if i == c {
                    lemma_remove(s, 0);
                }
            }
            assert(cells_ok(child));
            lemma_solve_complete(child, x);
        } else if solution_of(child) is None {
            lemma_try_complete(p, c, d + 1, x);
        }
    } else {
        if e == d + 1 {
            assert(subset(x[c], p[c]));
        }
        lemma_try_complete(p, c, d + 1, x);
    }
}

} // verus!
