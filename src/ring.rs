use vstd::prelude::*;

verus! {

/// A fixed number of frames, one per row of an `ndarray` matrix of samples.
#[verifier::external_body]
pub struct FrameRing {
    cells: ndarray::Array2<u8>,
}

/// The rows of a ring, in order, each a frame of samples.
pub uninterp spec fn ring_rows(r: FrameRing) -> Seq<Seq<u8>>;

impl FrameRing {
    /// Relies on `ndarray::Array2::zeros`: a `rows` by `cols` matrix of
    /// zeros. It panics when the product of the nonzero axis lengths
    /// overflows `isize`, so both lengths are kept nonzero here.
    #[verifier::external_body]
    pub(crate) fn zeros(rows: usize, cols: usize) -> (r: FrameRing)
        requires
            rows > 0,
            cols > 0,
            rows * cols <= isize::MAX,
        ensures
            ring_rows(r) == Seq::new(rows as nat, |k: int| Seq::new(cols as nat, |p: int| 0u8)),
    {
        FrameRing { cells: ndarray::Array2::zeros((rows, cols)) }
    }

    /// Relies on indexing an `ndarray::Array2` by `[row, column]`: the
    /// element in that place. It panics out of bounds.
    #[verifier::external_body]
    pub(crate) fn get(&self, k: usize, p: usize) -> (r: u8)
        requires
            k < ring_rows(*self).len(),
            p < ring_rows(*self)[k as int].len(),
        ensures
            r == ring_rows(*self)[k as int][p as int],
    {
        self.cells[[k, p]]
    }

    /// Relies on `ndarray::ArrayBase::index_axis_mut` along the row axis and
    /// `assign`: row `k` becomes a copy of `frame`, the others stay. The first
    /// panics on a row out of bounds, the second on a length that differs.
    #[verifier::external_body]
    pub(crate) fn assign_row(&mut self, k: usize, frame: &Vec<u8>)
        requires
            k < ring_rows(*old(self)).len(),
            frame@.len() == ring_rows(*old(self))[k as int].len(),
        ensures
            ring_rows(*final(self)) == ring_rows(*old(self)).update(k as int, frame@),
    {
        self.cells
            .index_axis_mut(ndarray::Axis(0), k)
            .assign(&ndarray::aview1(frame.as_slice()));
    }
}

} // verus!
