use vstd::prelude::*;

verus! {

/// How far a sample must rise above its temporal mean to count as change.
pub const CUTOFF: u128 = 25;

/// Value written into each flagged cell of the mask (a display weight).
pub const MASK_WEIGHT: u8 = 10;

/// `original - sum / window > CUTOFF`, multiplied through by `window > 0`.
pub open spec fn exceeds(original: int, sum: int, window: int) -> bool {
    window * original > sum + CUTOFF * window
}

/// Place of channel `c` of pixel `(y, x)` in an interleaved RGB image
/// `width` pixels wide.
pub open spec fn rgb_cell(width: int, y: int, x: int, c: int) -> int {
    (y * width + x) * 3 + c
}

/// The frame just observed, beside the temporal mean it is judged against.
///
/// The mean of sample `p` is `mean_sum[p] / window`.
pub struct InterestResult {
    pub original: Vec<u8>,
    pub mean_sum: Vec<u128>,
    pub window: usize,
}

/// The fraction `hits / total` of samples flagged as change.
pub struct Score {
    pub hits: usize,
    pub total: usize,
}

impl InterestResult {
    pub open spec fn wf(&self) -> bool {
        &&& self.window > 0
        &&& self.original@.len() == self.mean_sum@.len()
    }

    /// Whether sample `p` rose above its mean by more than the cutoff.
    pub open spec fn flagged(&self, p: int) -> bool {
        exceeds(self.original@[p] as int, self.mean_sum@[p] as int, self.window as int)
    }

    /// The change mask: the weight where a sample is flagged, zero elsewhere.
    pub open spec fn mask(&self) -> Seq<u8> {
        Seq::new(self.original@.len(), |p: int| if self.flagged(p) { MASK_WEIGHT } else { 0u8 })
    }

    /// Number of flagged samples among the first `n`.
    pub open spec fn hits_upto(&self, n: int) -> nat
        decreases n,
    {
        if n <= 0 {
            0
        } else {
            self.hits_upto(n - 1) + if self.flagged(n - 1) { 1nat } else { 0nat }
        }
    }

    /// Number of flagged samples in the whole frame.
    pub open spec fn hits(&self) -> nat {
        self.hits_upto(self.original@.len() as int)
    }

    /// Decides for one sample, without overflow, whether it is flagged.
    fn flag_at(&self, p: usize) -> (r: bool)
        requires
            self.wf(),
            p < self.original@.len(),
        ensures
            r == self.flagged(p as int),
    {
        let o = self.original[p] as u128;
        let w = self.window as u128;
        let s = self.mean_sum[p];
        assert(w * o <= w * 255) by (nonlinear_arith)
            requires
                o <= 255,
        ;
        let scaled = w * o;
        scaled > s && scaled - s > CUTOFF * w
    }

    /// The change mask: `MASK_WEIGHT` where `original - mean > CUTOFF`
    /// (strictly), `0` elsewhere, darkening included.
    pub fn threshold(&self) -> (r: Vec<u8>)
        requires
            self.wf(),
        ensures
            r@ == self.mask(),
    {
        let n = self.original.len();
        let mut out: Vec<u8> = Vec::new();
        let mut p: usize = 0;
        while p < n
            invariant
                self.wf(),
                n == self.original@.len(),
                p <= n,
                out@.len() == p,
                forall|q: int| 0 <= q < p ==> out@[q] == self.mask()[q],
            decreases n - p,
        {
            if self.flag_at(p) {
                out.push(MASK_WEIGHT);
            } else {
                out.push(0);
            }
            p += 1;
        }
        assert(out@ =~= self.mask());
        out
    }

    /// The change mask reordered from (channel, row, column) to
    /// (row, column, channel), the layout of an interleaved RGB image:
    /// cell `q` is the mask cell of channel `q % 3` at pixel `q / 3`.
    pub fn interleaved_mask(&self, width: usize, height: usize) -> (r: Vec<u8>)
        requires
            self.wf(),
            self.original@.len() == 3 * height * width,
        ensures
            r@.len() == 3 * height * width,
            forall|q: int|
                0 <= q < r@.len() ==> #[trigger] r@[q] == self.mask()[(q % 3) * (height * width)
                    + q / 3],
            forall|y: int, x: int, c: int|
                0 <= y < height && 0 <= x < width && 0 <= c < 3 ==> r@[#[trigger] rgb_cell(
                    width as int,
                    y,
                    x,
                    c,
                )] == self.mask()[c * (height * width) + y * width + x],
    {
        let n = self.original.len();
        assert(3 * height * width == 3 * (height * width)) by (nonlinear_arith);
        let hw = height * width;
        let mut out: Vec<u8> = Vec::new();
        let mut p: usize = 0;
        while p < hw
            invariant
                self.wf(),
                self.original@.len() == 3 * hw,
                n == 3 * hw,
                p <= hw,
                out@.len() == 3 * p,
                forall|q: int|
                    0 <= q < out@.len() ==> #[trigger] out@[q] == self.mask()[(q % 3) * hw + q
                        / 3],
            decreases hw - p,
        {
            let ghost before = out@;
            let planes: [usize; 3] = [p, hw + p, 2 * hw + p];
            let mut c: usize = 0;
            while c < 3
                invariant
                    self.wf(),
                    self.original@.len() == 3 * hw,
                    p < hw,
                    c <= 3,
                    planes@.len() == 3,
                    planes@[0] == p,
                    planes@[1] == hw + p,
                    planes@[2] == 2 * hw + p,
                    out@.len() == 3 * p + c,
                    forall|q: int|
                        0 <= q < out@.len() ==> #[trigger] out@[q] == self.mask()[(q % 3) * hw + q
                            / 3],
                decreases 3 - c,
            {
                let i = planes[c];
                proof {
                    if c == 0 {
                        assert(c * hw == 0);
                    } else if c == 1 {
                        assert(c * hw == hw);
                    } else {
                        assert(c * hw == 2 * hw) by (nonlinear_arith)
                            requires
                                c == 2,
                        ;
                    }
                }
                assert(i == c * hw + p);
                if self.flag_at(i) {
                    out.push(MASK_WEIGHT);
                } else {
                    out.push(0);
                }
                assert((3 * p + c) % 3 == c && (3 * p + c) / 3 == p);
                c += 1;
            }
            p += 1;
        }
        assert forall|y: int, x: int, c: int|
            0 <= y < height && 0 <= x < width && 0 <= c < 3 implies out@[rgb_cell(
                width as int,
                y,
                x,
                c,
            )]
            == self.mask()[c * (height * width) + y * width + x] by {
            let q = (y * width + x) * 3 + c;
            assert(0 <= y * width + x < height * width) by (nonlinear_arith)
                requires
                    0 <= y < height,
                    0 <= x < width,
            ;
            assert(q % 3 == c && q / 3 == y * width + x);
        }
        out
    }

    /// The fraction of samples flagged as change, as `hits / total` with
    /// `total` the number of samples.
    pub fn overall(&self) -> (r: Score)
        requires
            self.wf(),
        ensures
            r.hits == self.hits(),
            r.total == self.original@.len(),
    {
        let n = self.original.len();
        let mut hits: usize = 0;
        let mut p: usize = 0;
        while p < n
            invariant
                self.wf(),
                n == self.original@.len(),
                p <= n,
                hits == self.hits_upto(p as int),
                hits <= p,
            decreases n - p,
        {
            if self.flag_at(p) {
                hits += 1;
            }
            p += 1;
        }
        Score { hits, total: n }
    }
}

} // verus!
