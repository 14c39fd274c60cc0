use vstd::prelude::*;

verus! {

/// A 2 by 2 matrix, given by its rows.
#[derive(Clone, Copy, Debug, PartialEq)]
pub struct Matrix2<T> {
    pub rows: [[T; 2]; 2],
}

/// A 3 by 3 matrix, given by its rows.
#[derive(Clone, Copy, Debug, PartialEq)]
pub struct Matrix3<T> {
    pub rows: [[T; 3]; 3],
}

/// A 4 by 4 matrix, given by its rows.
#[derive(Clone, Copy, Debug, PartialEq)]
pub struct Matrix4<T> {
    pub rows: [[T; 4]; 4],
}

/// The row (or column) of a matrix that ends up at place `i` once row (or
/// column) `removed` has been taken out.
pub open spec fn kept(i: int, removed: int) -> int {
    if i < removed {
        i
    } else {
        i + 1
    }
}

fn kept_index(i: usize, removed: usize) -> (k: usize)
    requires
        i < 3,
    ensures
        k == kept(i as int, removed as int),
{
    if i < removed {
        i
    } else {
        i + 1
    }
}

/// Whether the cofactor at row `row` and column `col` is the minor with its
/// sign changed: it is so at every other place, the corner at row 0 and
/// column 0 keeping its sign.
pub fn cofactor_negates(row: usize, col: usize) -> (negates: bool)
    ensures
        negates == ((row + col) % 2 == 1),
{
    (row % 2 == 0) != (col % 2 == 0)
}

impl<T: Copy> Matrix2<T> {
    /// The entry in row `row` and column `col`.
    pub open spec fn at(&self, row: int, col: int) -> T {
        self.rows[row][col]
    }

    pub fn from_rows(rows: [[T; 2]; 2]) -> (m: Matrix2<T>)
        ensures
            m.rows == rows,
    {
        Matrix2 { rows }
    }
}

impl<T: Copy> Matrix3<T> {
    /// The entry in row `row` and column `col`.
    pub open spec fn at(&self, row: int, col: int) -> T {
        self.rows[row][col]
    }

    pub fn from_rows(rows: [[T; 3]; 3]) -> (m: Matrix3<T>)
        ensures
            m.rows == rows,
    {
        Matrix3 { rows }
    }

    /// The matrix without row `row` and column `col`: the other entries keep
    /// their order.
    pub fn submatrix(&self, row: usize, col: usize) -> (m: Matrix2<T>)
        requires
            row < 3,
            col < 3,
        ensures
            forall|r: int, c: int|
                0 <= r < 2 && 0 <= c < 2 ==> #[trigger] m.at(r, c) == self.at(
                    kept(r, row as int),
                    kept(c, col as int),
                ),
    {
        let r0 = kept_index(0, row);
        let r1 = kept_index(1, row);
        let c0 = kept_index(0, col);
        let c1 = kept_index(1, col);
        Matrix2 {
            rows: [[self.rows[r0][c0], self.rows[r0][c1]], [self.rows[r1][c0], self.rows[r1][c1]]],
        }
    }
}

impl<T: Copy> Matrix4<T> {
    /// The entry in row `row` and column `col`.
    pub open spec fn at(&self, row: int, col: int) -> T {
        self.rows[row][col]
    }

    pub fn from_rows(rows: [[T; 4]; 4]) -> (m: Matrix4<T>)
        ensures
            m.rows == rows,
    {
        Matrix4 { rows }
    }

    /// The matrix with rows and columns exchanged.
    pub fn transpose(&self) -> (m: Matrix4<T>)
        ensures
            is_transpose(*self, m),
    {
        Matrix4 {
            rows: [
                [self.rows[0][0], self.rows[1][0], self.rows[2][0], self.rows[3][0]],
                [self.rows[0][1], self.rows[1][1], self.rows[2][1], self.rows[3][1]],
                [self.rows[0][2], self.rows[1][2], self.rows[2][2], self.rows[3][2]],
                [self.rows[0][3], self.rows[1][3], self.rows[2][3], self.rows[3][3]],
            ],
        }
    }

    /// The matrix without row `row` and column `col`: the other entries keep
    /// their order.
    pub fn submatrix(&self, row: usize, col: usize) -> (m: Matrix3<T>)
        requires
            row < 4,
            col < 4,
        ensures
            forall|r: int, c: int|
                0 <= r < 3 && 0 <= c < 3 ==> #[trigger] m.at(r, c) == self.at(
                    kept(r, row as int),
                    kept(c, col as int),
                ),
    {
        let r0 = kept_index(0, row);
        let r1 = kept_index(1, row);
        let r2 = kept_index(2, row);
        let c0 = kept_index(0, col);
        let c1 = kept_index(1, col);
        let c2 = kept_index(2, col);
        Matrix3 {
            rows: [
                [self.rows[r0][c0], self.rows[r0][c1], self.rows[r0][c2]],
                [self.rows[r1][c0], self.rows[r1][c1], self.rows[r1][c2]],
                [self.rows[r2][c0], self.rows[r2][c1], self.rows[r2][c2]],
            ],
        }
    }
}

/// Whether `b` is `a` with rows and columns exchanged.
pub open spec fn is_transpose<T: Copy>(a: Matrix4<T>, b: Matrix4<T>) -> bool {
    forall|r: int, c: int| 0 <= r < 4 && 0 <= c < 4 ==> #[trigger] b.at(r, c) == a.at(c, r)
}

/// To exchange rows and columns twice gives the matrix back.
pub proof fn lemma_transpose_twice<T: Copy>(a: Matrix4<T>, b: Matrix4<T>, c: Matrix4<T>)
    requires
        is_transpose(a, b),
        is_transpose(b, c),
    ensures
        c == a,
{
    assert forall|r: int| 0 <= r < 4 implies c.rows[r] == a.rows[r] by {
        assert forall|k: int| 0 <= k < 4 implies c.rows[r][k] == a.rows[r][k] by {
            assert(c.at(r, k) == b.at(k, r));
            assert(b.at(k, r) == a.at(r, k));
        }
        assert(c.rows[r] =~= a.rows[r]);
    }
    assert(c.rows =~= a.rows);
}

} // verus!
