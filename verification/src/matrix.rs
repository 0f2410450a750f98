//! A dense row-major matrix of field elements.
use vstd::prelude::*;
use crate::field::all_fe;

verus! {

/// A row-major matrix: row `r`, column `c` is `values[r * width + c]`.
#[derive(Clone, Debug)]
pub struct RowMajorMatrix {
    pub values: Vec<u32>,
    pub width: usize,
}

impl RowMajorMatrix {
    /// The matrix is well formed: a positive width that divides the number
    /// of values, and every entry a field element.
    pub open spec fn wf(&self) -> bool {
        &&& self.width > 0
        &&& self.values@.len() as int % self.width as int == 0
        &&& all_fe(self.values@)
    }

    pub open spec fn spec_height(&self) -> nat {
        (self.values@.len() as int / self.width as int) as nat
    }

    /// The entry at row `r`, column `c`.
    pub open spec fn entry(&self, r: int, c: int) -> u32 {
        self.values@[r * self.width + c]
    }

    /// The column `c`, top to bottom.
    pub open spec fn column(&self, c: int) -> Seq<u32> {
        Seq::new(self.spec_height(), |r: int| self.entry(r, c))
    }

    pub fn new(values: Vec<u32>, width: usize) -> (m: Self)
        ensures
            m.values@ == values@,
            m.width == width,
    {
        RowMajorMatrix { values, width }
    }

    pub fn width(&self) -> (w: usize)
        ensures
            w == self.width,
    {
        self.width
    }

    pub fn height(&self) -> (h: usize)
        requires
            self.width > 0,
        ensures
            h == self.spec_height(),
    {
        self.values.len() / self.width
    }

    /// The entry at (`r`, `c`), if in range.
    pub fn get(&self, r: usize, c: usize) -> (v: Option<u32>)
        requires
            self.wf(),
        ensures
            r < self.spec_height() && c < self.width ==> v == Some(self.entry(r as int, c as int)),
            !(r < self.spec_height() && c < self.width) ==> v is None,
    {
        let h = self.values.len() / self.width;
        if r < h && c < self.width {
            proof {
                lemma_index_in_bounds(r as int, c as int, self.width as int, h as int);
                lemma_height_times_width(self.values@.len() as int, self.width as int);
            }
            Some(self.values[r * self.width + c])
        } else {
            None
        }
    }
}

/// A length divisible by the width is the height times the width.
pub proof fn lemma_height_times_width(len: int, w: int)
    requires
        w > 0,
        len >= 0,
        len % w == 0,
    ensures
        (len / w) * w == len,
{
    vstd::arithmetic::div_mod::lemma_fundamental_div_mod(len, w);
    assert(w * (len / w) == (len / w) * w) by (nonlinear_arith);
}

pub proof fn lemma_index_in_bounds(r: int, c: int, w: int, h: int)
    requires
        0 <= r < h,
        0 <= c < w,
    ensures
        0 <= r * w + c < h * w,
        r * w + c <= (h - 1) * w + (w - 1),
{
    assert(r * w <= (h - 1) * w) by (nonlinear_arith)
        requires
            0 <= r <= h - 1,
            0 <= w,
    ;
    assert((h - 1) * w + w == h * w) by (nonlinear_arith);
    assert(0 <= r * w) by (nonlinear_arith)
        requires
            0 <= r,
            0 <= w,
    ;
}

} // verus!
