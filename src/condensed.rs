use vstd::prelude::*;

verus! {

/// The position of the pair `(row, column)`, `row < column < n`, in a
/// condensed matrix of `n` observations: rows of the upper triangle laid out
/// one after the other, without the diagonal.
pub open spec fn condensed_index(n: int, row: int, column: int) -> int {
    row * n - row * (row + 1) / 2 + column - row - 1
}

/// The length of a condensed matrix of `n` observations.
pub open spec fn condensed_len(n: int) -> int {
    n * (n - 1) / 2
}

/// The product of two consecutive naturals is even.
pub proof fn lemma_consecutive_even(k: int)
    requires
        k >= 0,
    ensures
        (k * (k + 1)) % 2 == 0,
    decreases k,
{
    if k > 0 {
        lemma_consecutive_even(k - 1);
        assert(k * (k + 1) == (k - 1) * k + 2 * k) by (nonlinear_arith);
    }
}

/// Every pair maps inside the matrix, and distinct pairs to distinct slots.
pub proof fn lemma_condensed_index(n: int, row: int, column: int)
    requires
        0 <= row < column < n,
    ensures
        0 <= condensed_index(n, row, column) < condensed_len(n),
        condensed_index(n, row, column) == (2 * n - row - 3) * row / 2 + column - 1,
{
    let k = row * (row + 1);
    lemma_consecutive_even(row);
    assert(row * n - k / 2 == (2 * n - row - 3) * row / 2 + row) by (nonlinear_arith)
        requires k == row * (row + 1), k % 2 == 0, 0 <= row < n;
    assert(row * n - k / 2 + n - row - 1 <= n * (n - 1) / 2) by (nonlinear_arith)
        requires k == row * (row + 1), k % 2 == 0, 0 <= row < n;
    assert(row * n - k / 2 >= 0) by (nonlinear_arith)
        requires k == row * (row + 1), k % 2 == 0, 0 <= row < n;
}

/// Distinct pairs have distinct slots.
pub proof fn lemma_condensed_index_injective(n: int, r1: int, c1: int, r2: int, c2: int)
    requires
        0 <= r1 < c1 < n,
        0 <= r2 < c2 < n,
        condensed_index(n, r1, c1) == condensed_index(n, r2, c2),
    ensures
        r1 == r2 && c1 == c2,
{
    if r1 != r2 {
        let (a, ca, b, cb) = if r1 < r2 { (r1, c1, r2, c2) } else { (r2, c2, r1, c1) };
        // The last slot of row `a` comes before the first slot of row `b`.
        let ka = a * (a + 1);
        let kb = b * (b + 1);
        lemma_consecutive_even(a);
        lemma_consecutive_even(b);
        assert(a * n - ka / 2 + n - a - 1 <= b * n - kb / 2) by (nonlinear_arith)
            requires ka == a * (a + 1), kb == b * (b + 1), ka % 2 == 0, kb % 2 == 0, 0 <= a < b < n;
        assert(condensed_index(n, a, ca) < condensed_index(n, b, cb));
    }
}

/// A matrix whose index computations fit a `usize` relates at most
/// `2^32` observations.
pub proof fn lemma_observations_bound(n: int)
    requires
        0 <= n,
        n * (n - 1) <= usize::MAX,
    ensures
        n <= 0x1_0000_0000,
{
    if n > 0x1_0000_0000 {
        assert(n * (n - 1) >= 0x1_0000_0001 * 0x1_0000_0000) by (nonlinear_arith)
            requires n > 0x1_0000_0000;
    }
}

/// A condensed pairwise reflexive dissimilarity matrix with two-dimensional
/// indexing: the upper triangle of an `N x N` matrix, without the diagonal.
///
/// The row index must always be less than the column index.
#[derive(Debug)]
pub struct CondensedMatrix {
    data: Vec<u64>,
    observations: usize,
}

impl CondensedMatrix {
    /// The flat contents of the matrix.
    pub closed spec fn data(&self) -> Seq<u64> {
        self.data@
    }

    /// The number of observations that the matrix relates.
    pub closed spec fn n(&self) -> nat {
        self.observations as nat
    }

    /// The length of the flat contents matches the number of observations,
    /// and every index computation fits a `usize`.
    pub closed spec fn wf(&self) -> bool {
        &&& self.data@.len() == condensed_len(self.observations as int)
        &&& self.observations * (self.observations - 1) <= usize::MAX
    }

    /// The dissimilarity between observations `i < j`.
    pub open spec fn at(&self, i: int, j: int) -> u64 {
        self.data()[condensed_index(self.n() as int, i, j)]
    }

    /// The dissimilarity between distinct observations `i` and `j`, in
    /// either order.
    pub open spec fn sym(&self, i: int, j: int) -> u64 {
        if i < j {
            self.at(i, j)
        } else {
            self.at(j, i)
        }
    }

    /// The matrix relates at most `2^32` observations.
    pub proof fn lemma_bound(&self)
        requires
            self.wf(),
        ensures
            self.n() <= 0x1_0000_0000,
    {
        lemma_observations_bound(self.observations as int);
    }

    /// The dissimilarity between distinct observations `i` and `j`.
    pub fn get_sym(&self, i: usize, j: usize) -> (r: u64)
        requires
            self.wf(),
            i != j,
            i < self.n(),
            j < self.n(),
        ensures
            r == self.sym(i as int, j as int),
    {
        if i < j {
            self.get(i, j)
        } else {
            self.get(j, i)
        }
    }

    /// Overwrite the dissimilarity between distinct observations `i` and
    /// `j`; every other pair keeps its value.
    pub fn set_sym(&mut self, i: usize, j: usize, value: u64)
        requires
            old(self).wf(),
            i != j,
            i < old(self).n(),
            j < old(self).n(),
        ensures
            final(self).wf(),
            final(self).n() == old(self).n(),
            final(self).sym(i as int, j as int) == value,
            forall|p: int, q: int| 0 <= p < q < old(self).n()
                && !(p == i && q == j) && !(p == j && q == i)
                ==> #[trigger] final(self).at(p, q) == old(self).at(p, q),
    {
        let (lo, hi) = if i < j { (i, j) } else { (j, i) };
        self.set(lo, hi, value);
        proof {
            let n = self.n() as int;
            assert forall|p: int, q: int| 0 <= p < q < n
                && !(p == i && q == j) && !(p == j && q == i)
                implies #[trigger] self.at(p, q) == old(self).at(p, q) by {
                lemma_condensed_index(n, p, q);
                lemma_condensed_index(n, lo as int, hi as int);
                if condensed_index(n, p, q) == condensed_index(n, lo as int, hi as int) {
                    lemma_condensed_index_injective(n, p, q, lo as int, hi as int);
                }
                assert(self.data()[condensed_index(n, p, q)] == old(self).data()[condensed_index(n, p, q)]);
            }
            lemma_condensed_index(n, lo as int, hi as int);
        }
    }

    /// Create a new indexable condensed pairwise matrix from the contiguous
    /// rows of the upper triangle.
    ///
    /// When `observations <= 1`, the data must be empty and the matrix has
    /// no observations.
    pub fn new(data: Vec<u64>, observations: usize) -> (r: CondensedMatrix)
        requires
            observations * (observations - 1) <= usize::MAX,
            data@.len() == condensed_len(observations as int),
        ensures
            r.wf(),
            r.data() == data@,
            r.n() == if observations <= 1 { 0 } else { observations as nat },
    {
        if data.len() == 0 {
            assert(observations <= 1) by (nonlinear_arith)
                requires observations * (observations - 1) / 2 == 0;
            CondensedMatrix { data, observations: 0 }
        } else {
            assert(observations >= 2) by (nonlinear_arith)
                requires data@.len() == observations * (observations - 1) / 2, data@.len() > 0;
            CondensedMatrix { data, observations }
        }
    }

    /// Return the number of observations that make up this matrix.
    pub fn observations(&self) -> (r: usize)
        ensures
            r == self.n(),
    {
        self.observations
    }

    /// Give back the flat contents.
    pub fn into_data(self) -> (r: Vec<u64>)
        ensures
            r@ == self.data(),
            self.wf() ==> r@.len() == condensed_len(self.n() as int),
    {
        self.data
    }

    /// Convert the given row and column 2-dimensional index into an index
    /// into the condensed matrix.
    fn matrix_to_condensed_idx(&self, row: usize, column: usize) -> (r: usize)
        requires
            self.wf(),
            row < column < self.n(),
        ensures
            r == condensed_index(self.n() as int, row as int, column as int),
            r < self.data().len(),
    {
        proof {
            lemma_condensed_index(self.n() as int, row as int, column as int);
            let n = self.observations as int;
            assert((2 * n - row - 3) * row <= n * (n - 1)) by (nonlinear_arith)
                requires 0 <= row < column < n;
            assert((2 * n - row - 3) * row >= 0) by (nonlinear_arith)
                requires 0 <= row < column < n;
            assert(2 * n <= usize::MAX) by (nonlinear_arith)
                requires n * (n - 1) <= usize::MAX, 0 <= row < column < n;
        }
        ((2 * self.observations - row - 3) * row / 2) + column - 1
    }

    /// The dissimilarity between observations `row < column`.
    pub fn get(&self, row: usize, column: usize) -> (r: u64)
        requires
            self.wf(),
            row < column < self.n(),
        ensures
            r == self.at(row as int, column as int),
    {
        let i = self.matrix_to_condensed_idx(row, column);
        self.data[i]
    }

    /// Overwrite the dissimilarity between observations `row < column`.
    pub fn set(&mut self, row: usize, column: usize, value: u64)
        requires
            old(self).wf(),
            row < column < old(self).n(),
        ensures
            final(self).wf(),
            final(self).n() == old(self).n(),
            final(self).data() == old(self).data().update(
                condensed_index(old(self).n() as int, row as int, column as int), value),
    {
        let i = self.matrix_to_condensed_idx(row, column);
        self.data.set(i, value);
    }
}

} // verus!
