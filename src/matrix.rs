//! The matrix capability shared by row vectors and key matrices.
use vstd::prelude::*;
use crate::modular::normalize;

verus! {

/// Why a matrix operation was refused.
#[derive(Clone, Copy, Debug, PartialEq, Eq, Structural)]
pub enum MatrixError {
    /// The left operand's width differs from the right operand's height.
    DimensionMismatch,
    /// A row or column index lies outside the matrix.
    InvalidIndex,
    /// The operation is not defined for this kind of matrix.
    Unsupported,
    /// The determinant has no multiplicative inverse modulo the modulus.
    NoInverse,
}

/// Number of columns of a matrix given by its rows.
pub open spec fn width_of(e: Seq<Seq<i32>>) -> int {
    if e.len() == 0 {
        0
    } else {
        e[0].len() as int
    }
}

/// Whether `(row, col)` addresses an entry of the matrix.
pub open spec fn in_bounds(e: Seq<Seq<i32>>, row: int, col: int) -> bool {
    0 <= row < e.len() && 0 <= col < width_of(e)
}

/// `sum_{j < k} row[j] * b[j][c]`, before any reduction.
pub open spec fn dot(row: Seq<i32>, b: Seq<Seq<i32>>, c: int, k: int) -> int
    decreases k,
{
    if k <= 0 {
        0
    } else {
        dot(row, b, c, k - 1) + row[k - 1] * b[k - 1][c]
    }
}

pub open spec fn fits_i32(x: int) -> bool {
    i32::MIN <= x <= i32::MAX
}

/// Every product term and every partial sum of `a * b` fits in an `i32`.
pub open spec fn product_fits(a: Seq<Seq<i32>>, b: Seq<Seq<i32>>) -> bool {
    forall|r: int, c: int, k: int|
        0 <= r < a.len() && 0 <= c < width_of(b) && 0 <= k < a[r].len() ==> {
            &&& fits_i32(#[trigger] dot(a[r], b, c, k + 1))
            &&& fits_i32(a[r][k] * b[k][c])
        }
}

/// The matrix product `a * b`, entry `(r, c)` being `sum_k a[r][k] * b[k][c]`, unreduced.
pub open spec fn product(a: Seq<Seq<i32>>, b: Seq<Seq<i32>>) -> Seq<Seq<i32>> {
    Seq::new(a.len(), |r: int| Seq::new(width_of(b) as nat, |c: int| dot(a[r], b, c, a[r].len() as int) as i32))
}

/// Every entry replaced by its canonical residue modulo `m`.
pub open spec fn reduce_entries(e: Seq<Seq<i32>>, m: int) -> Seq<Seq<i32>> {
    Seq::new(e.len(), |r: int| Seq::new(e[r].len(), |c: int| normalize(e[r][c] as int, m) as i32))
}

/// The determinant of a 2×2 matrix, reduced modulo `m`.
pub open spec fn determinant_of(e: Seq<Seq<i32>>, m: int) -> int {
    normalize(e[0][0] * e[1][1] - e[0][1] * e[1][0], m)
}

/// `y` is a multiplicative inverse of `x` modulo `m`.
pub open spec fn is_inverse(x: int, y: int, m: int) -> bool {
    normalize(x * y, m) == 1
}

/// The first `y` in `[i, m)` that inverts `x` modulo `m`, or `m` when none does.
pub open spec fn first_inverse_from(x: int, m: int, i: int) -> int
    decreases m - i,
{
    if i >= m {
        m
    } else if is_inverse(x, i, m) {
        i
    } else {
        first_inverse_from(x, m, i + 1)
    }
}

/// The least inverse of `x` in `[0, m)`, or `m` when `x` is not invertible.
pub open spec fn least_inverse(x: int, m: int) -> int {
    first_inverse_from(x, m, 0)
}

pub open spec fn has_inverse(x: int, m: int) -> bool {
    exists|y: int| 0 <= y < m && is_inverse(x, y, m)
}

/// The scan from `i` ends in `[i, m]`, on an inverse when it ends before `m`, and before `m`
/// when an inverse lies in `[i, m)`.
pub proof fn lemma_first_inverse_from(x: int, m: int, i: int)
    requires
        0 <= i <= m,
    ensures
        i <= first_inverse_from(x, m, i) <= m,
        first_inverse_from(x, m, i) < m ==> is_inverse(x, first_inverse_from(x, m, i), m),
        (exists|y: int| i <= y < m && is_inverse(x, y, m)) ==> first_inverse_from(x, m, i) < m,
    decreases m - i,
{
    if i < m && !is_inverse(x, i, m) {
        lemma_first_inverse_from(x, m, i + 1);
        if exists|y: int| i <= y < m && is_inverse(x, y, m) {
            let y = choose|y: int| i <= y < m && is_inverse(x, y, m);
            assert(i + 1 <= y);
        }
    }
}

/// The least inverse lies in `[0, m)` and inverts `x` exactly when `x` has an inverse.
pub proof fn lemma_least_inverse(x: int, m: int)
    requires
        m >= 0,
    ensures
        0 <= least_inverse(x, m) <= m,
        has_inverse(x, m) <==> least_inverse(x, m) < m,
        has_inverse(x, m) ==> is_inverse(x, least_inverse(x, m), m),
{
    lemma_first_inverse_from(x, m, 0);
}

/// The adjugate of a 2×2 matrix scaled by `s`, every entry reduced modulo `m`.
pub open spec fn scaled_adjugate(e: Seq<Seq<i32>>, s: int, m: int) -> Seq<Seq<i32>> {
    seq![
        seq![normalize(e[1][1] * s, m) as i32, normalize(-e[0][1] * s, m) as i32],
        seq![normalize(-e[1][0] * s, m) as i32, normalize(e[0][0] * s, m) as i32],
    ]
}

/// Read access to a matrix over the integers.
pub trait MatrixRead: Sized {
    /// The entries, row by row.
    spec fn entries(&self) -> Seq<Seq<i32>>;

    /// The entry at `(row, col)`.
    fn at(&self, row: usize, col: usize) -> (r: Result<i32, MatrixError>)
        ensures
            r == if in_bounds(self.entries(), row as int, col as int) {
                Ok::<i32, MatrixError>(self.entries()[row as int][col as int])
            } else {
                Err::<i32, MatrixError>(MatrixError::InvalidIndex)
            },
    ;

    /// Number of columns.
    fn width(&self) -> (r: usize)
        ensures
            r == width_of(self.entries()),
    ;

    /// Number of rows.
    fn height(&self) -> (r: usize)
        ensures
            r == self.entries().len(),
    ;

}

/// A matrix over the integers, with the operations of a Hill cipher.
pub trait Matrix: MatrixRead {

    /// The modulus the matrix works under; a row vector carries none and reports 0.
    spec fn modulus(&self) -> int;

    /// Whether `mul` is defined with this matrix on the left.
    spec fn supports_product(&self) -> bool;

    /// Whether `det`, `det_inverse` and `inversed` are defined on this matrix.
    spec fn has_determinant(&self) -> bool;

    /// Replaces `self` by `self * other`, without reducing the entries.
    fn mul<T: MatrixRead>(&mut self, other: &T) -> (r: Result<(), MatrixError>)
        requires
            old(self).supports_product() && width_of(old(self).entries()) == other.entries().len()
                ==> product_fits(old(self).entries(), other.entries()),
        ensures
            !old(self).supports_product() ==> r == Err::<(), MatrixError>(MatrixError::Unsupported),
            old(self).supports_product() && width_of(old(self).entries()) != other.entries().len()
                ==> r == Err::<(), MatrixError>(MatrixError::DimensionMismatch),
            old(self).supports_product() && width_of(old(self).entries()) == other.entries().len()
                ==> r == Ok::<(), MatrixError>(()),
            r is Ok ==> final(self).entries() == product(old(self).entries(), other.entries()),
            r is Ok ==> final(self).modulus() == old(self).modulus(),
            r is Err ==> *final(self) == *old(self),
    ;

    /// Replaces every entry by its canonical residue modulo `m`.
    fn mod_by(&mut self, m: i32)
        requires
            m > 0,
        ensures
            final(self).entries() == reduce_entries(old(self).entries(), m as int),
            final(self).modulus() == old(self).modulus(),
            final(self).supports_product() == old(self).supports_product(),
            final(self).has_determinant() == old(self).has_determinant(),
    ;

    /// Overwrites the entry at `(row, col)` with `value`.
    fn set(&mut self, row: usize, col: usize, value: i32) -> (r: Result<(), MatrixError>)
        ensures
            in_bounds(old(self).entries(), row as int, col as int) ==> {
                &&& r == Ok::<(), MatrixError>(())
                &&& final(self).entries() == old(self).entries().update(
                    row as int,
                    old(self).entries()[row as int].update(col as int, value),
                )
                &&& final(self).modulus() == old(self).modulus()
                &&& final(self).supports_product() == old(self).supports_product()
                &&& final(self).has_determinant() == old(self).has_determinant()
            },
            !in_bounds(old(self).entries(), row as int, col as int) ==> r == Err::<(), MatrixError>(
                MatrixError::InvalidIndex,
            ) && *final(self) == *old(self),
    ;

    /// The determinant reduced modulo the matrix's modulus.
    fn det(&self) -> (r: Result<i32, MatrixError>)
        requires
            self.has_determinant() ==> self.modulus() > 0,
        ensures
            r == if self.has_determinant() {
                Ok::<i32, MatrixError>(determinant_of(self.entries(), self.modulus()) as i32)
            } else {
                Err::<i32, MatrixError>(MatrixError::Unsupported)
            },
    ;

    /// The least inverse of the determinant in `[0, modulus)`.
    fn det_inverse(&self) -> (r: Result<i32, MatrixError>)
        requires
            self.has_determinant() ==> self.modulus() > 0,
        ensures
            r == if !self.has_determinant() {
                Err::<i32, MatrixError>(MatrixError::Unsupported)
            } else if has_inverse(determinant_of(self.entries(), self.modulus()), self.modulus()) {
                Ok::<i32, MatrixError>(
                    least_inverse(determinant_of(self.entries(), self.modulus()), self.modulus()) as i32,
                )
            } else {
                Err::<i32, MatrixError>(MatrixError::NoInverse)
            },
    ;

    /// The inverse modulo the matrix's modulus, as a new matrix.
    fn inversed(&self) -> (r: Result<Self, MatrixError>)
        requires
            self.has_determinant() ==> self.modulus() > 0,
        ensures
            !self.has_determinant() ==> r is Err && r->Err_0 == MatrixError::Unsupported,
            self.has_determinant() ==> (r is Ok <==> has_inverse(
                determinant_of(self.entries(), self.modulus()),
                self.modulus(),
            )),
            self.has_determinant() && r is Err ==> r->Err_0 == MatrixError::NoInverse,
            r is Ok ==> r->Ok_0.entries() == scaled_adjugate(
                self.entries(),
                least_inverse(determinant_of(self.entries(), self.modulus()), self.modulus()),
                self.modulus(),
            ),
            r is Ok ==> r->Ok_0.modulus() == self.modulus(),
            r is Ok ==> r->Ok_0.supports_product() == self.supports_product(),
            r is Ok ==> r->Ok_0.has_determinant(),
    ;

    /// Whether the matrix has as many rows as columns.
    fn square(&self) -> (r: bool)
        ensures
            r == (width_of(self.entries()) == self.entries().len()),
    {
        self.width() == self.height()
    }
}

} // verus!
