//! The board: 81 candidate sets and a shared neighbour index, with parsing,
//! queries, propagation, the branching heuristic, search and rendering.
use vstd::prelude::*;
use crate::cellset::{
    card, count, is_set, lemma_card_bounds, lemma_card_one, lemma_singleton, lemma_subset,
    set_to_num, singleton, subset, value, EMPTY_SET, FULL_SET,
};
use crate::grid::{lemma_neighbor_seq, nbr, NeighborIndex, NSQ};
use crate::model::{
    all_solved, cells_ok, consistent, is_most_promising, lemma_branch_total, lemma_pass_total,
    lemma_pass_upto, lemma_propagated, most_promising_cell, non_cands, non_cands_upto,
    lemma_most_promising_unique, pass, pass_upto, propagated, solution_of, total, try_digits,
    has_solution, lemma_solve_complete, lemma_solve_result, refines, valid_solution,
};

verus! {

/// Why a line of text is not a puzzle.
#[derive(Debug, Clone, Copy, PartialEq, Eq, Structural)]
pub enum ParseError {
    /// The line does not hold 81 characters.
    InvalidLength { expected: usize, actual: usize },
    /// The line holds a character other than `.` and `1` to `9`.
    InvalidChar { ch: char },
}

/// The candidate set that a character of a puzzle line stands for.
pub open spec fn parse_cell(ch: char) -> Option<u32> {
    if ch == '.' {
        Some(FULL_SET)
    } else if 49 <= ch as u32 <= 57 {
        Some(singleton((ch as u32 - 48) as u32))
    } else {
        None
    }
}

/// The character that shows a digit.
pub open spec fn digit_char(d: u32) -> char {
    if d == 1 {
        '1'
    } else if d == 2 {
        '2'
    } else if d == 3 {
        '3'
    } else if d == 4 {
        '4'
    } else if d == 5 {
        '5'
    } else if d == 6 {
        '6'
    } else if d == 7 {
        '7'
    } else if d == 8 {
        '8'
    } else {
        '9'
    }
}

/// The character that shows a cell: its digit when solved, else `.`.
pub open spec fn cell_char(s: u32) -> char {
    if card(s) == 1 {
        digit_char(value(s))
    } else {
        '.'
    }
}

/// The textual form of a board.
pub open spec fn render(b: Seq<u32>) -> Seq<char> {
    Seq::new(b.len(), |i: int| cell_char(b[i]))
}

/// A Sudoku board: one candidate set per cell, and the neighbour index that
/// every board of a search shares.
pub struct SudokuBoard<'a> {
    cells: Vec<u32>,
    neighbors: &'a NeighborIndex,
}

impl<'a> View for SudokuBoard<'a> {
    type V = Seq<u32>;

    closed spec fn view(&self) -> Seq<u32> {
        self.cells@
    }
}

/// The union of the values of the solved neighbours of `cell`.
fn non_candidates_of(cells: &Vec<u32>, neighbors: &NeighborIndex, cell: usize) -> (r: u32)
    requires
        cells@.len() == NSQ,
        neighbors.wf(),
        cell < NSQ,
    ensures
        r == non_cands(cells@, cell as int),
{
    let nb = neighbors.neighbors(cell);
    proof {
        lemma_neighbor_seq(cell as int);
        neighbors.lemma_wf();
    }
    let mut set: u32 = EMPTY_SET;
    for k in 0..20usize
        invariant
            cells@.len() == NSQ,
            cell < NSQ,
            neighbors.wf(),
            nb@ == neighbors.at(cell as int),
            nb@.len() == 20,
            forall|k: int| 0 <= k < 20 ==> (#[trigger] nb@[k]) as int == nbr(cell as int, k),
            forall|k: int| 0 <= k < 20 ==> 0 <= #[trigger] nbr(cell as int, k) < 81,
            set == non_cands_upto(cells@, cell as int, k as int),
    {
        let n = nb[k];
        assert(0 <= nbr(cell as int, k as int) < 81);
        if count(cells[n]) == 1 {
            set = set | cells[n];
        } else {
            assert(set | 0 == set) by (bit_vector);
        }
    }
    set
}

impl<'a> SudokuBoard<'a> {
    /// The board holds 81 candidate sets and a well-formed neighbour index.
    pub closed spec fn wf(&self) -> bool {
        &&& cells_ok(self.cells@)
        &&& self.neighbors.wf()
    }

    /// A well-formed board holds 81 candidate sets of digits 1 to 9, and a
    /// well-formed neighbour index.
    pub proof fn lemma_wf(&self)
        requires
            self.wf(),
        ensures
            cells_ok(self@),
            self@.len() == NSQ,
            self.index().wf(),
    {
    }

    /// The neighbour index that the board uses.
    pub closed spec fn index(&self) -> NeighborIndex {
        *self.neighbors
    }

    /// Create a new board from a line of text: a digit from 1 to 9 stands
    /// for itself, a dot for a blank cell, and anything else is an error.
    pub fn from_str(digits: &str, neighbors: &'a NeighborIndex) -> (r: Result<Self, ParseError>)
        requires
            neighbors.wf(),
        ensures
            digits@.len() != NSQ ==> r == Err::<Self, ParseError>(
                ParseError::InvalidLength { expected: NSQ, actual: digits@.len() as usize },
            ),
            digits@.len() == NSQ ==> match r {
                Ok(b) => {
                    &&& b.wf()
                    &&& b.index() == *neighbors
                    &&& forall|i: int| 0 <= i < NSQ ==> parse_cell(#[trigger] digits@[i]) == Some(b@[i])
                },
                Err(e) => exists|i: int|
                    0 <= i < NSQ && parse_cell(#[trigger] digits@[i]) is None && e == (ParseError::InvalidChar { ch: digits@[i] })
                        && forall|j: int| 0 <= j < i ==> parse_cell(#[trigger] digits@[j]) is Some,
            },
    {
        let n = digits.unicode_len();
        if n != NSQ {
            return Err(ParseError::InvalidLength { expected: NSQ, actual: n });
        }
        let mut cells: Vec<u32> = Vec::new();
        for i in 0..NSQ
            invariant
                digits@.len() == NSQ,
                cells@.len() == i,
                forall|j: int| 0 <= j < i ==> parse_cell(#[trigger] digits@[j]) == Some(cells@[j]),
                forall|j: int| 0 <= j < i ==> is_set(#[trigger] cells@[j]),
        {
            let d = digits.get_char(i);
            let v = d as u32;
            if d == '.' {
                cells.push(FULL_SET);
            } else if 49 <= v && v <= 57 {
                proof {
                    lemma_singleton((v - 48) as u32);
                }
                cells.push(1u32 << (v - 49));
            } else {
                return Err(ParseError::InvalidChar { ch: d });
            }
        }
        Ok(SudokuBoard { cells, neighbors })
    }

    /// The candidates of `cell`.
    pub fn candidates(&self, cell: usize) -> (r: u32)
        requires
            self.wf(),
            cell < NSQ,
        ensures
            r == self@[cell as int],
    {
        self.cells[cell]
    }

    /// A cell is solved if its set of candidates is a singleton.
    pub fn cell_solved(&self, cell: usize) -> (r: bool)
        requires
            self.wf(),
            cell < NSQ,
        ensures
            r == (card(self@[cell as int]) == 1),
    {
        count(self.cells[cell]) == 1
    }

    /// A cell is solvable if it has a candidate left.
    pub fn cell_solvable(&self, cell: usize) -> (r: bool)
        requires
            self.wf(),
            cell < NSQ,
        ensures
            r == (card(self@[cell as int]) != 0),
    {
        proof {
            lemma_card_bounds(self@[cell as int]);
        }
        self.cells[cell] != EMPTY_SET
    }

    /// The board is solved if all cells are solved.
    pub fn solved(&self) -> (r: bool)
        requires
            self.wf(),
        ensures
            r == all_solved(self@),
    {
        for i in 0..NSQ
            invariant
                self.wf(),
                forall|j: int| 0 <= j < i ==> card(#[trigger] self@[j]) == 1,
        {
            if !self.cell_solved(i) {
                return false;
            }
        }
        true
    }

    /// The board is solvable if no cell is left without a candidate.
    pub fn solvable(&self) -> (r: bool)
        requires
            self.wf(),
        ensures
            r == consistent(self@),
    {
        for i in 0..NSQ
            invariant
                self.wf(),
                forall|j: int| 0 <= j < i ==> card(#[trigger] self@[j]) != 0,
        {
            if !self.cell_solvable(i) {
                return false;
            }
        }
        true
    }

    /// The non-candidates of a cell are the values of its solved
    /// neighbours.
    pub fn non_candidates(&self, cell: usize) -> (r: u32)
        requires
            self.wf(),
            cell < NSQ,
        ensures
            r == non_cands(self@, cell as int),
    {
        non_candidates_of(&self.cells, self.neighbors, cell)
    }

    /// Remove non-candidates from the cells of the board until a fixed
    /// point is reached, i.e., until a full pass removes nothing.
    pub fn propagate(&self) -> (r: Self)
        requires
            self.wf(),
        ensures
            r.wf(),
            r.index() == self.index(),
            r@ == propagated(self@),
            forall|i: int| 0 <= i < NSQ ==> subset(#[trigger] r@[i], self@[i]),
            forall|i: int| 0 <= i < NSQ ==> card(#[trigger] r@[i]) <= card(self@[i]),
            pass(r@) == r@,
    {
        proof {
            lemma_propagated(self@);
            assert forall|i: int| 0 <= i < NSQ implies card(#[trigger] propagated(self@)[i]) <= card(self@[i]) by {
                lemma_subset(propagated(self@)[i], self@[i]);
            }
        }
        let mut cells: Vec<u32> = Vec::new();
        for i in 0..NSQ
            invariant
                self.wf(),
                cells@ == self@.subrange(0, i as int),
        {
            cells.push(self.cells[i]);
        }
        assert(cells@ =~= self@);
        loop
            invariant
                cells_ok(cells@),
                self.neighbors.wf(),
                propagated(cells@) == propagated(self@),
            ensures
                cells_ok(cells@),
                cells@ == propagated(self@),
            decreases total(cells@),
        {
            let ghost start = cells@;
            let mut candidates_changed = false;
            proof {
                lemma_pass_upto(start, 0);
            }
            for i in 0..NSQ
                invariant
                    cells_ok(start),
                    self.neighbors.wf(),
                    cells@ == pass_upto(start, i as int),
                    candidates_changed <==> exists|j: int| 0 <= j < i && cells@[j] != start[j],
            {
                proof {
                    lemma_pass_upto(start, i as int);
                    lemma_pass_upto(start, i + 1);
                }
                let q = cells[i] & !non_candidates_of(&cells, self.neighbors, i);
                if q != cells[i] {
                    candidates_changed = true;
                }
                proof {
                    if !candidates_changed {
                        assert forall|j: int| 0 <= j < i + 1 implies cells@.update(i as int, q)[j] == start[j] by {
                            if j < i {
                                assert(cells@[j] == start[j]);
                            }
                        }
                    } else {
                        if q == cells@[i as int] {
                            let j = choose|j: int| 0 <= j < i && cells@[j] != start[j];
                            assert(cells@.update(i as int, q)[j] != start[j]);
                        } else {
                            assert(cells@.update(i as int, q)[i as int] != start[i as int]);
                        }
                    }
                }
                cells.set(i, q);
            }
            proof {
                lemma_pass_upto(start, NSQ as int);
                lemma_pass_total(start);
                assert forall|j: int| 0 <= j < NSQ implies is_set(#[trigger] cells@[j]) by {
                    lemma_subset(cells@[j], start[j]);
                }
            }
            if !candidates_changed {
                assert(cells@ =~= start);
                break;
            }
        }
        SudokuBoard { cells, neighbors: self.neighbors }
    }

    /// Find the unsolved cell with the fewest candidates, the first such
    /// cell on ties: branching on it keeps the search tree narrow.
    pub fn most_promising(&self) -> (r: Option<usize>)
        requires
            self.wf(),
        ensures
            r is None <==> all_solved(self@),
            r matches Some(c) ==> is_most_promising(self@, c as int),
    {
        let mut min_len: u32 = 10;
        let mut min_index: usize = NSQ;
        for i in 0..NSQ
            invariant
                self.wf(),
                min_index == NSQ ==> min_len == 10 && forall|j: int| 0 <= j < i ==> card(#[trigger] self@[j]) == 1,
                min_index < NSQ ==> {
                    &&& min_index < i
                    &&& card(self@[min_index as int]) != 1
                    &&& min_len == card(self@[min_index as int])
                    &&& forall|j: int| 0 <= j < i && card(#[trigger] self@[j]) != 1 ==> {
                        &&& j < min_index ==> min_len < card(self@[j])
                        &&& min_index < j ==> min_len <= card(self@[j])
                    }
                },
                min_index <= NSQ,
        {
            proof {
                lemma_card_bounds(self@[i as int]);
            }
            if !self.cell_solved(i) {
                let len = count(self.cells[i]);
                if len < min_len {
                    min_index = i;
                    min_len = len;
                }
            }
        }
        if min_index == NSQ {
            None
        } else {
            Some(min_index)
        }
    }

    /// Solve the board:
    /// 1. propagate the constraints;
    /// 2. if the board is solved, return it;
    /// 3. if a cell has no candidate left, there is no solution;
    /// 4. else fix the most promising cell to each of its candidates in
    ///    turn, in ascending order, and return the first solution found.
    pub fn solve(&self) -> (r: Option<Self>)
        requires
            self.wf(),
        ensures
            match r {
                Some(x) => x.wf() && x.index() == self.index() && solution_of(self@) == Some(x@),
                None => solution_of(self@) is None,
            },
            r is Some <==> has_solution(self@),
            r matches Some(x) ==> valid_solution(x@) && refines(x@, self@),
        decreases total(self@),
    {
        proof {
            lemma_solve_result(self@);
            if has_solution(self@) {
                let x = choose|x: Seq<u32>| valid_solution(x) && refines(x, self@);
                lemma_solve_complete(self@, x);
            }
        }
        let mut newboard = self.propagate();
        proof {
            lemma_propagated(self@);
        }
        if newboard.solved() {
            return Some(newboard);
        }
        if !newboard.solvable() {
            return None;
        }
        let ghost p = newboard@;
        match newboard.most_promising() {
            None => None,
            Some(cell) => {
                let cell_candidates = newboard.cells[cell];
                proof {
                    lemma_most_promising_unique(p, cell as int);
                    lemma_card_bounds(p[cell as int]);
                }
                for c in 0..9u32
                    invariant
                        self.wf(),
                        newboard.wf(),
                        newboard.index() == self.index(),
                        cell < NSQ,
                        p == propagated(self@),
                        cells_ok(p),
                        total(p) <= total(self@),
                        card(p[cell as int]) >= 2,
                        !all_solved(p),
                        consistent(p),
                        solution_of(self@) is Some <==> has_solution(self@),
                        solution_of(self@) matches Some(x) ==> valid_solution(x) && refines(x, self@),
                        cell_candidates == p[cell as int],
                        most_promising_cell(p) == cell,
                        newboard@.len() == NSQ,
                        forall|j: int| 0 <= j < NSQ && j != cell ==> newboard@[j] == p[j],
                        try_digits(p, cell as int, 0) == try_digits(p, cell as int, c as int),
                {
                    let single: u32 = 1u32 << c;
                    if single & cell_candidates == single {
                        proof {
                            lemma_singleton((c + 1) as u32);
                            lemma_branch_total(p, cell as int, c as int);
                        }
                        newboard.cells.set(cell, single);
                        assert(newboard@ =~= p.update(cell as int, singleton((c + 1) as u32)));
                        match newboard.solve() {
                            Some(solved_board) => {
                                return Some(solved_board);
                            },
                            None => {},
                        }
                    }
                }
                None
            },
        }
    }

    /// Convert the board to its line of text: the digit of each solved
    /// cell, and a dot for each other cell.
    pub fn to_str(&self) -> (r: String)
        requires
            self.wf(),
        ensures
            r@ == render(self@),
    {
        let mut output = String::new();
        for i in 0..NSQ
            invariant
                self.wf(),
                output@ == render(self@).subrange(0, i as int),
        {
            if self.cell_solved(i) {
                let d = set_to_num(self.cells[i]);
                proof {
                    lemma_card_one(self@[i as int]);
                    lemma_singleton(value(self@[i as int]));
                    crate::cellset::lemma_bit_len_unique(self@[i as int], d, value(self@[i as int]));
                }
                output.append(digit_str(d));
            } else {
                output.append(".");
                proof {
                    reveal_strlit(".");
                }
            }
            assert(output@ =~= render(self@).subrange(0, i + 1));
        }
        assert(output@ =~= render(self@));
        output
    }
}

/// The one-character text of a digit.
fn digit_str(d: u32) -> (r: &'static str)
    requires
        1 <= d <= 9,
    ensures
        r@ == seq![digit_char(d)],
{
    let r = if d == 1 {
        "1"
    } else if d == 2 {
        "2"
    } else if d == 3 {
        "3"
    } else if d == 4 {
        "4"
    } else if d == 5 {
        "5"
    } else if d == 6 {
        "6"
    } else if d == 7 {
        "7"
    } else if d == 8 {
        "8"
    } else {
        "9"
    };
    proof {
        reveal_strlit("1");
        reveal_strlit("2");
        reveal_strlit("3");
        reveal_strlit("4");
        reveal_strlit("5");
        reveal_strlit("6");
        reveal_strlit("7");
        reveal_strlit("8");
        reveal_strlit("9");
    }
    assert(r@ =~= seq![digit_char(d)]);
    r
}

} // verus!
