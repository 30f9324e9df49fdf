//! Geometry of the 9×9 grid: rows, columns, boxes and the neighbour index.
use vstd::prelude::*;

verus! {

/// Number of cells on the board.
pub const NSQ: usize = 81;

/// Row of a cell, as a mathematical integer.
pub open spec fn row_of(cell: int) -> int {
    cell / 9
}

/// Column of a cell, as a mathematical integer.
pub open spec fn col_of(cell: int) -> int {
    cell % 9
}

/// Index of the upper-left cell of the 3×3 box holding `cell`.
pub open spec fn box_of(cell: int) -> int {
    9 * (row_of(cell) - row_of(cell) % 3) + (col_of(cell) - col_of(cell) % 3)
}

/// Two distinct cells that share a row, a column or a box.
pub open spec fn is_neighbor(a: int, b: int) -> bool {
    &&& a != b
    &&& {
        ||| row_of(a) == row_of(b)
        ||| col_of(a) == col_of(b)
        ||| box_of(a) == box_of(b)
    }
}

/// All neighbours of `cell` on the board.
pub open spec fn neighbor_set(cell: int) -> Set<int> {
    Set::new(|j: int| 0 <= j < 81 && is_neighbor(cell, j))
}

/// The `i`-th value of `0..n` that differs from `x` (for `x < n`).
pub open spec fn skip(i: int, x: int) -> int {
    if i < x {
        i
    } else {
        i + 1
    }
}

/// Row of the `k`-th neighbour of `cell`.
pub open spec fn listed_row(cell: int, k: int) -> int {
    let r = row_of(cell);
    if k < 8 {
        r
    } else if k < 16 {
        skip(k - 8, r)
    } else {
        r - r % 3 + skip((k - 16) / 2, r % 3)
    }
}

/// Column of the `k`-th neighbour of `cell`.
pub open spec fn listed_col(cell: int, k: int) -> int {
    let c = col_of(cell);
    if k < 8 {
        skip(k, c)
    } else if k < 16 {
        c
    } else {
        c - c % 3 + skip((k - 16) % 2, c % 3)
    }
}

/// The `k`-th entry of a listing of the neighbours of `cell` by kind:
/// first the eight other cells of its row, then the eight other cells of
/// its column, then the four cells of its box that share neither.  It
/// serves to count the neighbours.
pub open spec fn listed(cell: int, k: int) -> int {
    9 * listed_row(cell, k) + listed_col(cell, k)
}

/// The neighbours of `cell` listed by kind.
pub open spec fn listing(cell: int) -> Seq<int> {
    Seq::new(20, |k: int| listed(cell, k))
}

pub proof fn lemma_row_col(r: int, c: int)
    requires
        0 <= r < 9,
        0 <= c < 9,
    ensures
        row_of(9 * r + c) == r,
        col_of(9 * r + c) == c,
{
}

pub proof fn lemma_same_box(a: int, b: int)
    requires
        0 <= a < 81,
        0 <= b < 81,
    ensures
        box_of(a) == box_of(b) <==> (row_of(a) / 3 == row_of(b) / 3 && col_of(a) / 3 == col_of(b) / 3),
{
}

/// Facts about the `k`-th listed neighbour of `cell`: it lies on the board, it
/// is a neighbour, and its row and column are `listed_row` and `listed_col`.
proof fn lemma_listed_at(cell: int, k: int)
    requires
        0 <= cell < 81,
        0 <= k < 20,
    ensures
        0 <= listed_row(cell, k) < 9,
        0 <= listed_col(cell, k) < 9,
        0 <= listed(cell, k) < 81,
        row_of(listed(cell, k)) == listed_row(cell, k),
        col_of(listed(cell, k)) == listed_col(cell, k),
        is_neighbor(cell, listed(cell, k)),
{
    lemma_row_col(listed_row(cell, k), listed_col(cell, k));
    lemma_same_box(cell, listed(cell, k));
}

/// Distinct positions of the neighbour sequence hold distinct cells.
proof fn lemma_listed_distinct(cell: int, k1: int, k2: int)
    requires
        0 <= cell < 81,
        0 <= k1 < 20,
        0 <= k2 < 20,
        k1 != k2,
    ensures
        listed(cell, k1) != listed(cell, k2),
{
    lemma_listed_at(cell, k1);
    lemma_listed_at(cell, k2);
}

/// Every neighbour of `cell` is listed.
proof fn lemma_listed_complete(cell: int, j: int) -> (k: int)
    requires
        0 <= cell < 81,
        0 <= j < 81,
        is_neighbor(cell, j),
    ensures
        0 <= k < 20,
        listed(cell, k) == j,
{
    let r = row_of(cell);
    let c = col_of(cell);
    let rj = row_of(j);
    let cj = col_of(j);
    lemma_same_box(cell, j);
    let k = if rj == r {
        if cj < c { cj } else { cj - 1 }
    } else if cj == c {
        8 + if rj < r { rj } else { rj - 1 }
    } else {
        let a = if rj % 3 < r % 3 { rj % 3 } else { rj % 3 - 1 };
        let b = if cj % 3 < c % 3 { cj % 3 } else { cj % 3 - 1 };
        16 + 2 * a + b
    };
    lemma_listed_at(cell, k);
    lemma_row_col(rj, cj);
    k
}

/// The listing has no repeated entry and holds exactly the cell's
/// neighbours: a cell has 20 neighbours.
proof fn lemma_listing(cell: int)
    requires
        0 <= cell < 81,
    ensures
        listing(cell).len() == 20,
        listing(cell).no_duplicates(),
        listing(cell).to_set() == neighbor_set(cell),
        neighbor_set(cell).len() == 20,
{
    let s = listing(cell);
    assert forall|k: int| 0 <= k < 20 implies 0 <= #[trigger] listed(cell, k) < 81
        && is_neighbor(cell, listed(cell, k)) by {
        lemma_listed_at(cell, k);
    }
    assert forall|k1: int, k2: int| 0 <= k1 < s.len() && 0 <= k2 < s.len() && k1 != k2
        implies s[k1] != s[k2] by {
        lemma_listed_distinct(cell, k1, k2);
    }
    assert forall|j: int| #[trigger] s.to_set().contains(j) <==> neighbor_set(cell).contains(j) by {
        if 0 <= j < 81 && is_neighbor(cell, j) {
            let k = lemma_listed_complete(cell, j);
            assert(s[k] == j);
        }
    }
    assert(s.to_set() =~= neighbor_set(cell));
    s.unique_seq_to_set();
}

/// The neighbours of `cell` below `n`, in ascending order.
pub open spec fn nbrs_below(cell: int, n: int) -> Seq<int>
    decreases n,
{
    if n <= 0 {
        Seq::empty()
    } else if is_neighbor(cell, n - 1) {
        nbrs_below(cell, n - 1).push(n - 1)
    } else {
        nbrs_below(cell, n - 1)
    }
}

/// The neighbours of `cell` in ascending order.
pub open spec fn neighbor_seq(cell: int) -> Seq<int> {
    nbrs_below(cell, NSQ as int)
}

/// The `k`-th neighbour of `cell` in ascending order.
pub open spec fn nbr(cell: int, k: int) -> int {
    neighbor_seq(cell)[k]
}

proof fn lemma_nbrs_below(cell: int, n: int)
    requires
        0 <= n,
    ensures
        forall|k: int| 0 <= k < nbrs_below(cell, n).len() ==> 0 <= #[trigger] nbrs_below(cell, n)[k] < n
            && is_neighbor(cell, nbrs_below(cell, n)[k]),
        forall|k1: int, k2: int| 0 <= k1 < k2 < nbrs_below(cell, n).len()
            ==> #[trigger] nbrs_below(cell, n)[k1] < #[trigger] nbrs_below(cell, n)[k2],
        forall|j: int| 0 <= j < n && is_neighbor(cell, j) ==> #[trigger] nbrs_below(cell, n).contains(j),
    decreases n,
{
    if n > 0 {
        lemma_nbrs_below(cell, n - 1);
        let s = nbrs_below(cell, n - 1);
        if is_neighbor(cell, n - 1) {
            let t = s.push(n - 1);
            assert(t[s.len() as int] == n - 1);
            assert forall|j: int| 0 <= j < n && is_neighbor(cell, j) implies #[trigger] t.contains(j) by {
                if j < n - 1 {
                    assert(s.contains(j));
                    let k = choose|k: int| 0 <= k < s.len() && s[k] == j;
                    assert(t[k] == j);
                }
            }
        }
    }
}

/// The neighbour sequence of a cell is strictly ascending and holds
/// exactly the cell's 20 neighbours.
pub proof fn lemma_neighbor_seq(cell: int)
    requires
        0 <= cell < 81,
    ensures
        neighbor_seq(cell).len() == 20,
        neighbor_seq(cell).no_duplicates(),
        neighbor_seq(cell).to_set() == neighbor_set(cell),
        forall|k: int| 0 <= k < 20 ==> 0 <= #[trigger] nbr(cell, k) < 81 && is_neighbor(cell, nbr(cell, k)),
        forall|k: int| 0 <= k < 19 ==> #[trigger] nbr(cell, k) < nbr(cell, k + 1),
{
    let s = neighbor_seq(cell);
    lemma_nbrs_below(cell, NSQ as int);
    lemma_listing(cell);
    assert forall|j: int| #[trigger] s.to_set().contains(j) <==> neighbor_set(cell).contains(j) by {
        if s.contains(j) {
            let k = choose|k: int| 0 <= k < s.len() && s[k] == j;
            assert(0 <= s[k] < 81);
        }
    }
    assert(s.to_set() =~= neighbor_set(cell));
    assert forall|k1: int, k2: int| 0 <= k1 < s.len() && 0 <= k2 < s.len() && k1 != k2
        implies s[k1] != s[k2] by {
        if k1 < k2 {
            assert(s[k1] < s[k2]);
        } else {
            assert(s[k2] < s[k1]);
        }
    }
    s.unique_seq_to_set();
    assert forall|k: int| 0 <= k < 19 implies #[trigger] nbr(cell, k) < nbr(cell, k + 1) by {
        assert(s[k] < s[k + 1]);
    }
}

/// Facts about the `k`-th neighbour of `cell`: it lies on the board and is
/// a neighbour.
pub proof fn lemma_nbr_at(cell: int, k: int)
    requires
        0 <= cell < 81,
        0 <= k < 20,
    ensures
        0 <= nbr(cell, k) < 81,
        is_neighbor(cell, nbr(cell, k)),
{
    lemma_neighbor_seq(cell);
}

/// Every neighbour of `cell` occurs in its neighbour sequence.
pub proof fn lemma_nbr_complete(cell: int, j: int) -> (k: int)
    requires
        0 <= cell < 81,
        0 <= j < 81,
        is_neighbor(cell, j),
    ensures
        0 <= k < 20,
        nbr(cell, k) == j,
{
    lemma_neighbor_seq(cell);
    assert(neighbor_set(cell).contains(j));
    assert(neighbor_seq(cell).to_set().contains(j));
    choose|k: int| 0 <= k < 20 && neighbor_seq(cell)[k] == j
}

/// The `k`-th cell of unit `u`: units 0 to 8 are the rows, 9 to 17 the
/// columns and 18 to 26 the boxes, each read in row-major order.
pub open spec fn unit_cell(u: int, k: int) -> int {
    if u < 9 {
        9 * u + k
    } else if u < 18 {
        9 * k + (u - 9)
    } else {
        9 * (3 * ((u - 18) / 3) + k / 3) + (3 * ((u - 18) % 3) + k % 3)
    }
}

/// The cells of a unit lie on the board, and any two of them are
/// neighbours.
pub proof fn lemma_unit(u: int, k1: int, k2: int)
    requires
        0 <= u < 27,
        0 <= k1 < 9,
        0 <= k2 < 9,
    ensures
        0 <= unit_cell(u, k1) < 81,
        k1 != k2 ==> is_neighbor(unit_cell(u, k1), unit_cell(u, k2)),
{
    let a = unit_cell(u, k1);
    let b = unit_cell(u, k2);
    if u < 9 {
        lemma_row_col(u, k1);
        lemma_row_col(u, k2);
    } else if u < 18 {
        lemma_row_col(k1, u - 9);
        lemma_row_col(k2, u - 9);
    } else {
        let v = u - 18;
        lemma_row_col(3 * (v / 3) + k1 / 3, 3 * (v % 3) + k1 % 3);
        lemma_row_col(3 * (v / 3) + k2 / 3, 3 * (v % 3) + k2 % 3);
        lemma_same_box(a, b);
    }
}

/// Return the 0-based row index of `cell`.
pub fn row(cell: usize) -> (r: usize)
    ensures
        r == row_of(cell as int),
{
    cell / 9
}

/// Return the 0-based column index of `cell`.
pub fn col(cell: usize) -> (r: usize)
    ensures
        r == col_of(cell as int),
{
    cell % 9
}

/// Return the 0-based index of the upper-left cell of `cell`'s box.
pub fn group(cell: usize) -> (r: usize)
    ensures
        r == box_of(cell as int),
{
    let r = row(cell);
    let c = col(cell);
    9 * (r - r % 3) + (c - c % 3)
}

/// The neighbours of a cell as plain indices, in the order of
/// `neighbor_seq`.
pub open spec fn neighbors_view(v: Seq<usize>) -> Seq<int> {
    v.map_values(|x: usize| x as int)
}

/// Return the neighbours (indices) of `cell` in ascending order: the
/// other cells on the same row, on the same column and in the same box.
/// `cell` is not a neighbour of itself.
pub fn neighbors_of(cell: usize) -> (r: Vec<usize>)
    requires
        cell < NSQ,
    ensures
        neighbors_view(r@) == neighbor_seq(cell as int),
        r@.len() == 20,
        forall|k: int| 0 <= k < 20 ==> #[trigger] r@[k] as int == nbr(cell as int, k),
        forall|k: int| 0 <= k < 19 ==> #[trigger] r@[k] < r@[k + 1],
        forall|j: usize| #[trigger] r@.contains(j) <==> (j < NSQ && is_neighbor(cell as int, j as int)),
{
    let r = row(cell);
    let c = col(cell);
    let g = group(cell);
    let mut all_neighbors: Vec<usize> = Vec::new();
    for j in 0..NSQ
        invariant
            r == row_of(cell as int),
            c == col_of(cell as int),
            g == box_of(cell as int),
            cell < NSQ,
            neighbors_view(all_neighbors@) == nbrs_below(cell as int, j as int),
    {
        if j != cell && (row(j) == r || col(j) == c || group(j) == g) {
            assert(neighbors_view(all_neighbors@.push(j)) =~= neighbors_view(all_neighbors@).push(j as int));
            all_neighbors.push(j);
        }
    }
    proof {
        lemma_neighbor_seq(cell as int);
        let v = neighbors_view(all_neighbors@);
        assert(v.len() == all_neighbors@.len());
        assert forall|k: int| 0 <= k < 20 implies #[trigger] all_neighbors@[k] as int == nbr(cell as int, k) by {
            assert(v[k] == all_neighbors@[k] as int);
        }
        assert forall|k: int| 0 <= k < 19 implies #[trigger] all_neighbors@[k] < all_neighbors@[k + 1] by {
            assert(v[k] == all_neighbors@[k] as int);
            assert(v[k + 1] == all_neighbors@[k + 1] as int);
        }
        assert forall|j: usize| #[trigger] all_neighbors@.contains(j) <==> (j < NSQ && is_neighbor(cell as int, j as int)) by {
            if all_neighbors@.contains(j) {
                let k = choose|k: int| 0 <= k < all_neighbors@.len() && all_neighbors@[k] == j;
                assert(v[k] == j as int);
                assert(neighbor_seq(cell as int).to_set().contains(j as int));
            }
            if j < NSQ && is_neighbor(cell as int, j as int) {
                let k = lemma_nbr_complete(cell as int, j as int);
                assert(all_neighbors@[k] == j);
            }
        }
    }
    all_neighbors
}

/// The constraint graph of the board: for each cell, its 20 neighbours.
/// Built once and shared, read-only, by every board.
pub struct NeighborIndex {
    table: Vec<Vec<usize>>,
}

impl NeighborIndex {
    /// The neighbour sequence that the index holds for `cell`.
    pub closed spec fn at(&self, cell: int) -> Seq<usize> {
        self.table@[cell]@
    }

    /// The index holds, for every cell, its neighbour sequence.
    pub closed spec fn wf(&self) -> bool {
        &&& self.table@.len() == NSQ
        &&& forall|i: int| 0 <= i < NSQ ==> neighbors_view(#[trigger] self.at(i)) == neighbor_seq(i)
    }

    /// The entries of a well-formed index, one by one.
    pub proof fn lemma_wf(&self)
        requires
            self.wf(),
        ensures
            forall|i: int, k: int|
                0 <= i < NSQ && 0 <= k < 20 ==> (#[trigger] self.at(i)[k]) as int == nbr(i, k),
            forall|i: int| 0 <= i < NSQ ==> (#[trigger] self.at(i)).len() == 20,
    {
        assert forall|i: int, k: int| 0 <= i < NSQ && 0 <= k < 20 implies
            (#[trigger] self.at(i)[k]) as int == nbr(i, k) by {
            lemma_neighbor_seq(i);
            assert(neighbors_view(self.at(i)).len() == neighbor_seq(i).len());
            assert(neighbors_view(self.at(i))[k] == neighbor_seq(i)[k]);
        }
        assert forall|i: int| 0 <= i < NSQ implies (#[trigger] self.at(i)).len() == 20 by {
            lemma_neighbor_seq(i);
            assert(neighbors_view(self.at(i)).len() == neighbor_seq(i).len());
        }
    }

    /// Compute the neighbours of every cell.
    pub fn build() -> (r: NeighborIndex)
        ensures
            r.wf(),
    {
        let mut table: Vec<Vec<usize>> = Vec::new();
        for i in 0..NSQ
            invariant
                table@.len() == i,
                forall|j: int| 0 <= j < i ==> neighbors_view(#[trigger] table@[j]@) == neighbor_seq(j),
        {
            table.push(neighbors_of(i));
        }
        NeighborIndex { table }
    }

    /// The neighbours of `cell`.
    pub fn neighbors(&self, cell: usize) -> (r: &Vec<usize>)
        requires
            self.wf(),
            cell < NSQ,
        ensures
            r@ == self.at(cell as int),
            neighbors_view(r@) == neighbor_seq(cell as int),
    {
        assert(neighbors_view(self.at(cell as int)) == neighbor_seq(cell as int));
        &self.table[cell]
    }
}

} // verus!
