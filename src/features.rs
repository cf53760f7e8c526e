//! The analysis features of a sample and the shape they must have.
use vstd::prelude::*;

verus! {

/// Per-frame analysis streams of one sample, 5 ms per frame: the base
/// frequency (repeated on every frame), the F0 track, the spectral envelope
/// and the band aperiodicity. `T` is the sample type.
pub struct Features<T> {
    pub base: Vec<T>,
    pub f0: Vec<T>,
    pub mgc: Vec<Vec<T>>,
    pub bap: Vec<Vec<T>>,
}

/// Whether every row of `rows` has the length of the first.
pub open spec fn same_widths<T>(rows: Seq<Vec<T>>) -> bool {
    forall|i: int| 0 <= i < rows.len() ==> (#[trigger] rows[i])@.len() == rows[0]@.len()
}

impl<T> Features<T> {
    /// One value of each stream per frame, and envelopes of one width and
    /// aperiodicities of one width.
    pub open spec fn wf(&self) -> bool {
        &&& self.base@.len() == self.f0@.len()
        &&& self.mgc@.len() == self.f0@.len()
        &&& self.bap@.len() == self.f0@.len()
        &&& same_widths(self.mgc@)
        &&& same_widths(self.bap@)
    }

    /// Whether the streams are aligned frame for frame.
    pub fn aligned(&self) -> (r: bool)
        ensures
            r == self.wf(),
    {
        let n = self.f0.len();
        if self.base.len() != n || self.mgc.len() != n || self.bap.len() != n {
            return false;
        }
        rows_of_one_width(&self.mgc) && rows_of_one_width(&self.bap)
    }

    /// Collects the streams of one sample; `None` when they are not aligned.
    pub fn new(base: Vec<T>, f0: Vec<T>, mgc: Vec<Vec<T>>, bap: Vec<Vec<T>>) -> (r: Option<Features<T>>)
        ensures
            match r {
                Some(f) => f.wf() && f.base@ == base@ && f.f0@ == f0@ && f.mgc@ == mgc@ && f.bap@
                    == bap@,
                None => !(Features { base, f0, mgc, bap }).wf(),
            },
    {
        let f = Features { base, f0, mgc, bap };
        if f.aligned() {
            Some(f)
        } else {
            None
        }
    }
}

fn rows_of_one_width<T>(rows: &Vec<Vec<T>>) -> (r: bool)
    ensures
        r == same_widths(rows@),
{
    if rows.len() == 0 {
        return true;
    }
    let w = rows[0].len();
    let mut i: usize = 0;
    while i < rows.len()
        invariant
            rows@.len() > 0,
            w == rows@[0]@.len(),
            i <= rows@.len(),
            forall|j: int| 0 <= j < i ==> (#[trigger] rows@[j])@.len() == w,
        decreases rows@.len() - i,
    {
        if rows[i].len() != w {
            return false;
        }
        i = i + 1;
    }
    true
}

} // verus!
