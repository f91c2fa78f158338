//! Adjacency matrices, held by the `sprs` crate.

use crate::topology::{between, in_range, names, toward, toward_term, Adjacency, Graph};
use crate::total::{lemma_total_point, lemma_total_zero};
use vstd::prelude::*;

verus! {

/// A sparse matrix of edge weights in compressed row storage.
///
/// The entry in row `r` and column `c` is the weight of the edge from vertex
/// `r` to vertex `c`; where no entry is stored there is no edge. The matrix
/// grows with the entries put into it.
#[verifier::external_body]
pub struct SparseMatrix {
    inner: sprs::CsMat<i64>,
}

/// No entries at all.
pub open spec fn no_entries() -> Map<(usize, usize), i64> {
    Map::empty()
}

/// The entries that a matrix stores, by row and column.
pub uninterp spec fn stored(m: SparseMatrix) -> Map<(usize, usize), i64>;

/// The number of rows of a matrix.
pub uninterp spec fn row_count(m: SparseMatrix) -> nat;

/// The number of columns of a matrix.
pub uninterp spec fn column_count(m: SparseMatrix) -> nat;

/// `sprs::CsMat::empty` in row storage with no columns: the matrix stores
/// nothing and has no rows and no columns.
#[verifier::external_body]
fn csmat_empty() -> (m: SparseMatrix)
    ensures
        stored(m) == no_entries(),
        row_count(m) == 0,
        column_count(m) == 0,
{
    SparseMatrix { inner: sprs::CsMat::empty(sprs::CSR, 0) }
}

/// `sprs::CsMat::insert`: the entry is stored, in place of the one that was
/// there, and the matrix grows just enough to have it. The array of row
/// offsets has to be able to hold two more elements than the row's number, and
/// to grow to twice that.
#[verifier::external_body]
fn csmat_insert(m: &mut SparseMatrix, row: usize, col: usize, value: i64)
    requires
        16 * (row + 2) <= isize::MAX,
        col < usize::MAX,
    ensures
        stored(*final(m)) == stored(*old(m)).insert((row, col), value),
        row_count(*final(m)) == if row < row_count(*old(m)) {
            row_count(*old(m))
        } else {
            row as nat + 1
        },
        column_count(*final(m)) == if col < column_count(*old(m)) {
            column_count(*old(m))
        } else {
            col as nat + 1
        },
{
    m.inner.insert(row, col, value);
}

/// `sprs::CsMat::get`: the stored entry, if there is one.
#[verifier::external_body]
fn csmat_get(m: &SparseMatrix, row: usize, col: usize) -> (value: Option<i64>)
    ensures
        value == if stored(*m).contains_key((row, col)) {
            Some(stored(*m)[(row, col)])
        } else {
            None
        },
{
    m.inner.get(row, col).copied()
}

/// `sprs::CsMat::rows`: the number of rows.
#[verifier::external_body]
fn csmat_rows(m: &SparseMatrix) -> (n: usize)
    ensures
        n == row_count(*m),
{
    m.inner.rows()
}

/// `sprs::CsMat::cols`: the number of columns.
#[verifier::external_body]
fn csmat_cols(m: &SparseMatrix) -> (n: usize)
    ensures
        n == column_count(*m),
{
    m.inner.cols()
}

/// `sprs::CsMat::outer_view`, read to the end: the entries of a row with their
/// columns, in ascending order of the columns.
#[verifier::external_body]
fn csmat_row(m: &SparseMatrix, row: usize) -> (entries: Vec<(usize, i64)>)
    requires
        row < row_count(*m),
    ensures
        is_row_of(stored(*m), row, entries@),
        forall|k: int| 0 <= k < entries@.len() ==> (#[trigger] entries@[k]).0 < column_count(*m),
{
    m.inner.outer_view(row).unwrap().iter().map(|(c, w)| (c, *w)).collect()
}

/// The list holds the stored entries of a row, in ascending order of the
/// columns.
pub open spec fn is_row_of(
    entries: Map<(usize, usize), i64>,
    row: usize,
    list: Seq<(usize, i64)>,
) -> bool {
    &&& forall|i: int, j: int|
        0 <= i < j < list.len() ==> (#[trigger] list[i]).0 < (#[trigger] list[j]).0
    &&& forall|k: int|
        0 <= k < list.len() ==> entries.contains_key((row, (#[trigger] list[k]).0))
            && entries[(row, list[k].0)] == list[k].1
    &&& forall|c: usize| #[trigger]
        entries.contains_key((row, c)) ==> exists|k: int|
            0 <= k < list.len() && (#[trigger] list[k]).0 == c
}

/// The lists are the rows of a matrix with as many rows.
pub open spec fn are_rows_of(entries: Map<(usize, usize), i64>, rows: Adjacency) -> bool {
    forall|r: int|
        0 <= r < rows.len() ==> is_row_of(entries, r as usize, #[trigger] rows[r])
}

impl View for SparseMatrix {
    type V = Map<(usize, usize), i64>;

    open spec fn view(&self) -> Map<(usize, usize), i64> {
        stored(*self)
    }
}

impl SparseMatrix {
    /// A matrix without rows and columns.
    pub fn new() -> (m: SparseMatrix)
        ensures
            m@ == no_entries(),
            row_count(m) == 0,
            column_count(m) == 0,
    {
        csmat_empty()
    }

    /// Puts an entry into the matrix, in place of the one that was there. The
    /// matrix grows if it has to.
    pub fn insert(&mut self, row: usize, col: usize, value: i64)
        requires
            16 * (row + 2) <= isize::MAX,
            col < usize::MAX,
        ensures
            final(self)@ == old(self)@.insert((row, col), value),
            row_count(*final(self)) == if row < row_count(*old(self)) {
                row_count(*old(self))
            } else {
                row as nat + 1
            },
            column_count(*final(self)) == if col < column_count(*old(self)) {
                column_count(*old(self))
            } else {
                col as nat + 1
            },
    {
        csmat_insert(self, row, col, value);
    }

    /// The entry in a row and column, if one is stored there.
    pub fn get(&self, row: usize, col: usize) -> (value: Option<i64>)
        ensures
            value == if self@.contains_key((row, col)) {
                Some(self@[(row, col)])
            } else {
                None
            },
    {
        csmat_get(self, row, col)
    }

    /// The number of rows.
    pub fn rows(&self) -> (n: usize)
        ensures
            n == row_count(*self),
    {
        csmat_rows(self)
    }

    /// The number of columns.
    pub fn cols(&self) -> (n: usize)
        ensures
            n == column_count(*self),
    {
        csmat_cols(self)
    }
}

impl Graph {
    /// Makes a graph of an adjacency matrix, unless the matrix is not square.
    ///
    /// The neighbors of each vertex are listed in ascending order.
    pub fn from_matrix(m: &SparseMatrix) -> (result: Option<Graph>)
        ensures
            result is Some <==> row_count(*m) == column_count(*m),
            result matches Some(graph) ==> graph@.len() == row_count(*m) && are_rows_of(
                m@,
                graph@,
            ) && in_range(graph@),
    {
        let n: usize = csmat_rows(m);
        if csmat_cols(m) != n {
            return None;
        }
        let mut rows: Vec<Vec<(usize, i64)>> = Vec::new();
        while rows.len() < n
            invariant
                n == row_count(*m),
                n == column_count(*m),
                rows@.len() <= n,
                forall|r: int|
                    0 <= r < rows@.len() ==> is_row_of(m@, r as usize, (#[trigger] rows@[r])@),
                forall|r: int, k: int|
                    0 <= r < rows@.len() && 0 <= k < rows@[r]@.len() ==> (
                    #[trigger] rows@[r]@[k]).0 < n,
            decreases n - rows@.len(),
        {
            let r: usize = rows.len();
            let row: Vec<(usize, i64)> = csmat_row(m, r);
            let ghost before = rows@;
            rows.push(row);
            assert forall|x: int| 0 <= x < rows@.len() implies is_row_of(
                m@,
                x as usize,
                (#[trigger] rows@[x])@,
            ) by {
                if x < before.len() {
                    assert(rows@[x] == before[x]);
                }
            }
            assert forall|x: int, k: int|
                0 <= x < rows@.len() && 0 <= k < rows@[x]@.len() implies (
            #[trigger] rows@[x]@[k]).0 < n by {
                if x < before.len() {
                    assert(rows@[x] == before[x]);
                    assert(before[x]@[k].0 < n);
                }
            }
        }
        let ghost lists = Seq::new(rows@.len(), |v: int| rows@[v]@);
        assert(in_range(lists)) by {
            assert forall|v: int, k: int|
                0 <= v < lists.len() && 0 <= k < lists[v].len() implies (
            #[trigger] lists[v][k]).0 < lists.len() by {
                assert(lists[v][k] == rows@[v]@[k]);
            }
        }
        let result: Option<Graph> = Graph::new(rows);
        assert forall|r: int| 0 <= r < lists.len() implies is_row_of(
            m@,
            r as usize,
            #[trigger] lists[r],
        ) by {
            assert(is_row_of(m@, r as usize, rows@[r]@));
        }
        result
    }
}

/// The weight of the edges from one vertex of a matrix to another is the entry
/// for them, or zero if there is none.
pub proof fn lemma_between_is_entry(
    entries: Map<(usize, usize), i64>,
    list: Seq<(usize, i64)>,
    row: usize,
    c: usize,
)
    requires
        is_row_of(entries, row, list),
    ensures
        toward(list, c as int) == if entries.contains_key((row, c)) {
            entries[(row, c)] as int
        } else {
            0
        },
{
    let n = list.len() as int;
    let f = toward_term(list, c as int);
    if entries.contains_key((row, c)) {
        let k = choose|k: int| 0 <= k < list.len() && (#[trigger] list[k]).0 == c;
        assert forall|i: int| 0 <= i < n && i != k implies #[trigger] f(i) == 0 by {
            if i < k {
                assert(list[i].0 < list[k].0);
            } else {
                assert(list[k].0 < list[i].0);
            }
        }
        lemma_total_point(n, k, f);
    } else {
        assert forall|i: int| 0 <= i < n implies #[trigger] f(i) == 0 by {
            assert(entries.contains_key((row, list[i].0)));
        }
        lemma_total_zero(n, f);
    }
}

/// A graph made of a matrix has an edge exactly where the matrix has an entry,
/// of the weight that the entry gives.
pub proof fn law_graph_has_the_entries(
    entries: Map<(usize, usize), i64>,
    rows: Adjacency,
    r: usize,
    c: usize,
)
    requires
        are_rows_of(entries, rows),
        r < rows.len(),
    ensures
        names(rows[r as int], c as int) <==> entries.contains_key((r, c)),
        between(rows, r as int, c as int) == if entries.contains_key((r, c)) {
            entries[(r, c)] as int
        } else {
            0
        },
{
    let list = rows[r as int];
    assert(is_row_of(entries, r, list));
    lemma_between_is_entry(entries, list, r, c);
    if names(list, c as int) {
        let k = choose|k: int| 0 <= k < list.len() && (#[trigger] list[k]).0 == c;
        assert(entries.contains_key((r, list[k].0)));
    }
}

} // verus!
