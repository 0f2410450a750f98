//! The storage abstraction for traces: rows by index, with a width and a
//! height, decoupling the trace's representation from the evaluation
//! logic.
use vstd::prelude::*;

verus! {

/// Read access to a trace of rows.
pub trait TraceProvider {
    /// The rows of the trace.
    spec fn spec_rows(&self) -> Seq<Seq<u32>>;

    /// Row `index`.
    fn row(&self, index: usize) -> (r: &[u32])
        requires
            index < self.spec_rows().len(),
        ensures
            r@ == self.spec_rows()[index as int],
    ;

    /// The length of the first row (0 for an empty trace).
    fn width(&self) -> (w: usize)
        ensures
            w == (if self.spec_rows().len() == 0 {
                0
            } else {
                self.spec_rows()[0].len()
            }),
    ;

    /// The number of rows.
    fn height(&self) -> (h: usize)
        ensures
            h == self.spec_rows().len(),
    ;
}

/// A trace held as a slice of row vectors.
pub struct VecTraceProvider<'a> {
    pub trace: &'a [Vec<u32>],
}

impl<'a> VecTraceProvider<'a> {
    pub fn new(trace: &'a [Vec<u32>]) -> (p: Self)
        ensures
            p.trace@ == trace@,
    {
        VecTraceProvider { trace }
    }
}

impl<'a> TraceProvider for VecTraceProvider<'a> {
    open spec fn spec_rows(&self) -> Seq<Seq<u32>> {
        self.trace@.map_values(|r: Vec<u32>| r@)
    }

    fn row(&self, index: usize) -> (r: &[u32]) {
        self.trace[index].as_slice()
    }

    fn width(&self) -> (w: usize) {
        if self.trace.len() == 0 {
            0
        } else {
            self.trace[0].len()
        }
    }

    fn height(&self) -> (h: usize) {
        self.trace.len()
    }
}

} // verus!
