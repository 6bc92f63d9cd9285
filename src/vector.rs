//! A `Vec<i32>` read as a 1×N row vector.
use vstd::prelude::*;
use crate::matrix::{
    Matrix, MatrixError, MatrixRead, dot, fits_i32, product, product_fits, reduce_entries, width_of,
};
use crate::modular::{Mod, normalize};

verus! {

impl MatrixRead for Vec<i32> {
    open spec fn entries(&self) -> Seq<Seq<i32>> {
        seq![self@]
    }

    fn at(&self, row: usize, col: usize) -> (r: Result<i32, MatrixError>) {
        if row != 0 || col >= self.len() {
            return Err(MatrixError::InvalidIndex);
        }
        Ok(self[col])
    }

    fn width(&self) -> (r: usize) {
        self.len()
    }

    fn height(&self) -> (r: usize) {
        1
    }
}

impl Matrix for Vec<i32> {
    open spec fn modulus(&self) -> int {
        0
    }

    open spec fn supports_product(&self) -> bool {
        true
    }

    open spec fn has_determinant(&self) -> bool {
        false
    }

    fn mul<T: MatrixRead>(&mut self, o: &T) -> (r: Result<(), MatrixError>) {
        if self.width() != o.height() {
            return Err(MatrixError::DimensionMismatch);
        }
        let ghost b = o.entries();
        let w = o.width();
        let mut result: Vec<i32> = Vec::new();
        let mut i: usize = 0;
        while i < w
            invariant
                w == width_of(b),
                b == o.entries(),
                self.len() == b.len(),
                product_fits(self.entries(), b),
                i <= w,
                result.len() == i,
                forall|c: int| 0 <= c < i ==> result[c] == dot(self@, b, c, self.len() as int),
            decreases w - i,
        {
            let mut acc: i32 = 0;
            let mut j: usize = 0;
            while j < self.len()
                invariant
                    w == width_of(b),
                    b == o.entries(),
                    self.len() == b.len(),
                    product_fits(self.entries(), b),
                    i < w,
                    j <= self.len(),
                    acc == dot(self@, b, i as int, j as int),
                decreases self.len() - j,
            {
                assert(self.entries()[0] == self@);
                assert(fits_i32(dot(self@, b, i as int, j + 1)));
                assert(fits_i32(self@[j as int] * b[j as int][i as int]));
                // (j, i) lies inside `other`, so the entry is always there
                if let Ok(x) = o.at(j, i) {
                    acc = acc + self[j] * x;
                }
                j = j + 1;
            }
            result.push(acc);
            i = i + 1;
        }
        let ghost before = self.entries();
        *self = result;
        assert(self.entries() =~~= product(before, b));
        Ok(())
    }

    fn mod_by(&mut self, m: i32) {
        let ghost before = self@;
        let mut i: usize = 0;
        while i < self.len()
            invariant
                m > 0,
                self.len() == before.len(),
                i <= self.len(),
                forall|k: int| 0 <= k < i ==> self@[k] == normalize(before[k] as int, m as int) as i32,
                forall|k: int| i <= k < self.len() ==> self@[k] == before[k],
            decreases self.len() - i,
        {
            let x = self[i].mod_by(m);
            self[i] = x;
            i = i + 1;
        }
        assert(self.entries() =~~= reduce_entries(seq![before], m as int));
    }

    fn set(&mut self, row: usize, col: usize, value: i32) -> (r: Result<(), MatrixError>) {
        if row != 0 || col >= self.len() {
            return Err(MatrixError::InvalidIndex);
        }
        self[col] = value;
        Ok(())
    }

    fn det(&self) -> (r: Result<i32, MatrixError>) {
        Err(MatrixError::Unsupported)
    }

    fn det_inverse(&self) -> (r: Result<i32, MatrixError>) {
        Err(MatrixError::Unsupported)
    }

    fn inversed(&self) -> (r: Result<Self, MatrixError>) {
        Err(MatrixError::Unsupported)
    }
}

} // verus!
