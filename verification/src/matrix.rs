//! Square matrices as grids of entries.
//!
//! What is here never computes with an entry: it lays entries out, reads
//! and writes them, turns a matrix about its diagonal and cuts a row and a
//! column out of it. The arithmetic of determinants and products is built
//! on these from outside, over whatever the entries are.

use vstd::prelude::*;

verus! {

/// An `N` by `N` grid of entries, stored row after row.
#[derive(Debug)]
pub struct Matrix<T, const N: usize> {
    data: [[T; N]; N],
}

impl<T: Copy, const N: usize> Clone for Matrix<T, N> {
    fn clone(&self) -> (m: Self)
        ensures
            m == *self,
    {
        *self
    }
}

impl<T: Copy, const N: usize> Copy for Matrix<T, N> {

}

impl<T: Copy + Default, const N: usize> Default for Matrix<T, N> {
    /// The matrix with the default value of an entry in every place.
    fn default() -> (m: Self)
        ensures
            exists|value: T|
                call_ensures(T::default, (), value) && m@ == Seq::new(
                    N as nat,
                    |r: int| Seq::new(N as nat, |c: int| value),
                ),
    {
        Self::filled(T::default())
    }
}

impl<T, const N: usize> View for Matrix<T, N> {
    type V = Seq<Seq<T>>;

    /// The rows from top to bottom, each from left to right.
    open spec fn view(&self) -> Seq<Seq<T>> {
        Seq::new(N as nat, |r: int| Seq::new(N as nat, |c: int| self.entry(r, c)))
    }
}

impl<T, const N: usize> Matrix<T, N> {
    /// The entry in row `r` and column `c`.
    pub closed spec fn entry(&self, r: int, c: int) -> T {
        self.data@[r]@[c]
    }
}

/// The index in a matrix of the row or column that lands at index `i` once
/// row or column `removed` is cut out.
pub open spec fn skipping(i: int, removed: int) -> int {
    if i < removed {
        i
    } else {
        i + 1
    }
}

/// `small` is `big` without row `row` and column `col`.
pub open spec fn is_submatrix<T>(small: Seq<Seq<T>>, big: Seq<Seq<T>>, row: int, col: int) -> bool {
    &&& small.len() + 1 == big.len()
    &&& forall|i: int|
        0 <= i < small.len() ==> {
            &&& (#[trigger] small[i]).len() + 1 == big.len()
            &&& forall|j: int|
                0 <= j < small.len() ==> #[trigger] small[i][j] == big[skipping(i, row)][skipping(
                    j,
                    col,
                )]
        }
}

/// `turned` is `m` with rows and columns exchanged.
pub open spec fn is_transpose<T>(turned: Seq<Seq<T>>, m: Seq<Seq<T>>) -> bool {
    &&& turned.len() == m.len()
    &&& forall|r: int|
        0 <= r < m.len() ==> {
            &&& (#[trigger] turned[r]).len() == m.len()
            &&& forall|c: int| 0 <= c < m.len() ==> #[trigger] turned[r][c] == m[c][r]
        }
}

fn skip_over(i: usize, removed: usize) -> (k: usize)
    requires
        i < usize::MAX,
    ensures
        k == skipping(i as int, removed as int),
{
    if i < removed {
        i
    } else {
        i + 1
    }
}

impl<T: Copy, const N: usize> Matrix<T, N> {
    /// The matrix with `value` in every place.
    pub fn filled(value: T) -> (m: Self)
        ensures
            m@ == Seq::new(N as nat, |r: int| Seq::new(N as nat, |c: int| value)),
    {
        let m = Self { data: [[value; N]; N] };
        proof {
            let want = Seq::new(N as nat, |r: int| Seq::new(N as nat, |c: int| value));
            assert forall|r: int| 0 <= r < N implies #[trigger] m@[r] == want[r] by {
                assert(m@[r] =~= want[r]);
            }
            assert(m@ =~= want);
        }
        m
    }

    /// The entry in row `r` and column `c`.
    pub fn get(&self, r: usize, c: usize) -> (v: T)
        requires
            r < N,
            c < N,
        ensures
            v == self@[r as int][c as int],
    {
        self.data[r][c]
    }

    /// Puts `v` in row `r` and column `c`; every other entry stays.
    pub fn set(&mut self, r: usize, c: usize, v: T)
        requires
            r < N,
            c < N,
        ensures
            final(self)@ == old(self)@.update(r as int, old(self)@[r as int].update(c as int, v)),
    {
        self.data[r][c] = v;
        proof {
            let want = old(self)@.update(r as int, old(self)@[r as int].update(c as int, v));
            assert forall|i: int| 0 <= i < N implies #[trigger] self@[i] == want[i] by {
                assert(self@[i] =~= want[i]);
            }
            assert(self@ =~= want);
        }
    }

    /// The matrix with rows and columns exchanged.
    pub fn transpose(self) -> (t: Self)
        ensures
            is_transpose(t@, self@),
    {
        let mut t = self;
        let mut r: usize = 0;
        while r < N
            invariant
                r <= N,
                t@.len() == N,
                forall|i: int| 0 <= i < N ==> (#[trigger] t@[i]).len() == N,
                forall|i: int, j: int|
                    0 <= i < r && 0 <= j < N ==> #[trigger] t@[i][j] == self@[j][i],
            decreases N - r,
        {
            let mut c: usize = 0;
            while c < N
                invariant
                    r < N,
                    c <= N,
                    t@.len() == N,
                    forall|i: int| 0 <= i < N ==> (#[trigger] t@[i]).len() == N,
                    forall|i: int, j: int|
                        0 <= i < r && 0 <= j < N ==> #[trigger] t@[i][j] == self@[j][i],
                    forall|j: int| 0 <= j < c ==> #[trigger] t@[r as int][j] == self@[j][r as int],
                decreases N - c,
            {
                let v: T = self.get(c, r);
                t.set(r, c, v);
                c += 1;
            }
            r += 1;
        }
        t
    }
}

impl<T: Copy> Matrix<T, 2> {
    /// The matrix whose rows are `data[0..2]` and `data[2..4]`.
    pub fn new(data: [T; 4]) -> (m: Self)
        ensures
            forall|r: int, c: int| 0 <= r < 2 && 0 <= c < 2 ==> m@[r][c] == data@[2 * r + c],
    {
        Self { data: [[data[0], data[1]], [data[2], data[3]]] }
    }
}

impl<T: Copy> Matrix<T, 3> {
    /// The matrix whose rows are `data[0..3]`, `data[3..6]` and `data[6..9]`.
    pub fn new(data: [T; 9]) -> (m: Self)
        ensures
            forall|r: int, c: int| 0 <= r < 3 && 0 <= c < 3 ==> m@[r][c] == data@[3 * r + c],
    {
        Self {
            data: [
                [data[0], data[1], data[2]],
                [data[3], data[4], data[5]],
                [data[6], data[7], data[8]],
            ],
        }
    }

    /// The matrix that is left when row `row` and column `col` are cut out.
    pub fn submatrix(&self, row: usize, col: usize) -> (m: Matrix<T, 2>)
        requires
            row < 3,
            col < 3,
        ensures
            is_submatrix(m@, self@, row as int, col as int),
    {
        let r0: usize = skip_over(0, row);
        let r1: usize = skip_over(1, row);
        let c0: usize = skip_over(0, col);
        let c1: usize = skip_over(1, col);
        let m = Matrix::<T, 2>::new(
            [self.get(r0, c0), self.get(r0, c1), self.get(r1, c0), self.get(r1, c1)],
        );
        m
    }
}

impl<T: Copy> Matrix<T, 4> {
    /// The matrix whose rows are `data[0..4]`, `data[4..8]`, `data[8..12]`
    /// and `data[12..16]`.
    pub fn new(data: [T; 16]) -> (m: Self)
        ensures
            forall|r: int, c: int| 0 <= r < 4 && 0 <= c < 4 ==> m@[r][c] == data@[4 * r + c],
    {
        Self {
            data: [
                [data[0], data[1], data[2], data[3]],
                [data[4], data[5], data[6], data[7]],
                [data[8], data[9], data[10], data[11]],
                [data[12], data[13], data[14], data[15]],
            ],
        }
    }

    /// The matrix that is left when row `row` and column `col` are cut out.
    pub fn submatrix(&self, row: usize, col: usize) -> (m: Matrix<T, 3>)
        requires
            row < 4,
            col < 4,
        ensures
            is_submatrix(m@, self@, row as int, col as int),
    {
        let r0: usize = skip_over(0, row);
        let r1: usize = skip_over(1, row);
        let r2: usize = skip_over(2, row);
        let c0: usize = skip_over(0, col);
        let c1: usize = skip_over(1, col);
        let c2: usize = skip_over(2, col);
        let m = Matrix::<T, 3>::new(
            [
                self.get(r0, c0),
                self.get(r0, c1),
                self.get(r0, c2),
                self.get(r1, c0),
                self.get(r1, c1),
                self.get(r1, c2),
                self.get(r2, c0),
                self.get(r2, c1),
                self.get(r2, c2),
            ],
        );
        m
    }
}

/// Turning a matrix twice gives the matrix back.
pub proof fn lemma_transpose_twice<T>(m: Seq<Seq<T>>, once: Seq<Seq<T>>, twice: Seq<Seq<T>>)
    requires
        forall|r: int| 0 <= r < m.len() ==> (#[trigger] m[r]).len() == m.len(),
        is_transpose(once, m),
        is_transpose(twice, once),
    ensures
        twice == m,
{
    assert forall|r: int| 0 <= r < m.len() implies #[trigger] twice[r] == m[r] by {
        assert forall|c: int| 0 <= c < m.len() implies #[trigger] twice[r][c] == m[r][c] by {
            assert(twice[r][c] == once[c][r]);
        }
        assert(twice[r] =~= m[r]);
    }
    assert(twice =~= m);
}

/// Cutting row `row` and column `col` out of a turned matrix gives the
/// same as turning what is left when column `row` and row `col` are cut
/// out of the matrix itself.
pub proof fn lemma_submatrix_of_transpose<T>(
    m: Seq<Seq<T>>,
    turned: Seq<Seq<T>>,
    cut: Seq<Seq<T>>,
    cut_turned: Seq<Seq<T>>,
    row: int,
    col: int,
)
    requires
        0 <= row < m.len(),
        0 <= col < m.len(),
        is_transpose(turned, m),
        is_submatrix(cut, m, col, row),
        is_submatrix(cut_turned, turned, row, col),
    ensures
        is_transpose(cut_turned, cut),
{
    assert forall|r: int| 0 <= r < cut.len() implies {
        &&& (#[trigger] cut_turned[r]).len() == cut.len()
        &&& forall|c: int| 0 <= c < cut.len() ==> #[trigger] cut_turned[r][c] == cut[c][r]
    } by {
        assert forall|c: int| 0 <= c < cut.len() implies #[trigger] cut_turned[r][c]
            == cut[c][r] by {
            assert(cut_turned[r][c] == turned[skipping(r, row)][skipping(c, col)]);
            assert(cut[c][r] == m[skipping(c, col)][skipping(r, row)]);
            assert(turned[skipping(r, row)][skipping(c, col)] == m[skipping(c, col)][skipping(
                r,
                row,
            )]);
        }
    }
}

} // verus!
