//! The two field representations of the pipeline: the real-valued
//! escape-time field and its 8-bit quantized form, both dense
//! column-major arrays, and the row-major render step.

use vstd::prelude::*;

verus! {

use vstd::arithmetic::div_mod::lemma_fundamental_div_mod;
use crate::camera::Dims;

/// A dense 2-D array of fixed-point values, column-major: cell `(x, y)`
/// lives at offset `x + y * dims.x`.
pub struct ScalarField {
    pub dims: Dims,
    pub data: Vec<i64>,
}

impl ScalarField {
    pub open spec fn wf(self) -> bool {
        self.data@.len() == self.dims.x as int * self.dims.y as int
    }

    pub open spec fn at_spec(self, x: int, y: int) -> i64 {
        self.data@[x + y * self.dims.x as int]
    }
}

/// A dense 2-D array of bytes with the same layout as `ScalarField`.
pub struct QuantizedField {
    pub dims: Dims,
    pub data: Vec<u8>,
}

/// Row-major flattening: output index `x * ny + y` holds the cell at
/// column-major offset `x + y * nx`.
pub open spec fn render_spec(nx: int, ny: int, s: Seq<u8>) -> Seq<u8> {
    Seq::new((nx * ny) as nat, |k: int| s[k / ny + (k % ny) * nx])
}

impl QuantizedField {
    pub open spec fn wf(self) -> bool {
        self.data@.len() == self.dims.x as int * self.dims.y as int
    }

    pub open spec fn at_spec(self, x: int, y: int) -> u8 {
        self.data@[x + y * self.dims.x as int]
    }

    /// Flatten the field into a row-major byte buffer of length
    /// `dims.x * dims.y`.
    pub fn render(&self) -> (r: Vec<u8>)
        requires
            self.wf(),
        ensures
            r@.len() == self.dims.x as int * self.dims.y as int,
            forall|x: int, y: int|
                0 <= x < self.dims.x as int && 0 <= y < self.dims.y as int ==> r@[x
                    * self.dims.y as int + y] == self.at_spec(x, y),
            r@ == render_spec(self.dims.x as int, self.dims.y as int, self.data@),
    {
        let nx = self.dims.x;
        let ny = self.dims.y;
        let total = self.data.len();
        let mut out: Vec<u8> = Vec::new();
        let mut x: usize = 0;
        while x < nx
            invariant
                self.wf(),
                nx == self.dims.x,
                ny == self.dims.y,
                total as int == nx as int * ny as int,
                0 <= x <= nx,
                out@.len() == x as int * ny as int,
                forall|a: int, b: int|
                    0 <= a < x as int && 0 <= b < ny as int ==> out@[a * ny as int + b]
                        == self.at_spec(a, b),
            decreases nx as int - x as int,
        {
            let mut y: usize = 0;
            while y < ny
                invariant
                    self.wf(),
                    nx == self.dims.x,
                    ny == self.dims.y,
                    total as int == nx as int * ny as int,
                    0 <= x < nx,
                    0 <= y <= ny,
                    out@.len() == x as int * ny as int + y as int,
                    forall|a: int, b: int|
                        0 <= a < x as int && 0 <= b < ny as int ==> out@[a * ny as int + b]
                            == self.at_spec(a, b),
                    forall|b: int|
                        0 <= b < y as int ==> out@[x as int * ny as int + b] == self.at_spec(
                            x as int,
                            b,
                        ),
                decreases ny as int - y as int,
            {
                proof {
                    assert(y as int * nx as int + (x as int) < nx as int * ny as int)
                        by (nonlinear_arith)
                        requires
                            0 <= (x as int) < nx as int,
                            0 <= (y as int) < ny as int,
                    ;
                }
                let v = self.data[x + y * nx];
                let ghost prev = out@;
                out.push(v);
                proof {
                    assert forall|a: int, b: int|
                        0 <= a < x as int && 0 <= b < ny as int implies out@[a * ny as int + b]
                        == self.at_spec(a, b) by {
                        assert(a * ny as int + b < x as int * ny as int) by (nonlinear_arith)
                            requires
                                0 <= a < x as int,
                                0 <= b < ny as int,
                        ;
                        assert(out@[a * ny as int + b] == prev[a * ny as int + b]);
                    }
                }
                y += 1;
            }
            proof {
                assert(x as int * ny as int + ny as int == (x as int + 1) * ny as int)
                    by (nonlinear_arith);
            }
            x += 1;
        }
        proof {
            let nxi = nx as int;
            let nyi = ny as int;
            assert forall|k: int| 0 <= k < nxi * nyi implies out@[k] == self.data@[k / nyi + (k
                % nyi) * nxi] by {
                lemma_fundamental_div_mod(k, nyi);
                let a = k / nyi;
                let b = k % nyi;
                assert(0 <= a < nxi) by (nonlinear_arith)
                    requires
                        0 <= k < nxi * nyi,
                        nyi >= 1,
                        k == nyi * a + b,
                        0 <= b < nyi,
                ;
                assert(out@[a * nyi + b] == self.at_spec(a, b));
            }
            assert(out@ =~= render_spec(nx as int, ny as int, self.data@));
        }
        out
    }
}

} // verus!
