use vstd::prelude::*;

use crate::interest::InterestResult;
use crate::laws::lemma_first_frame_is_mean;
use crate::ring::{ring_rows, FrameRing};

verus! {

/// Number of samples in a `height` by `width` frame with three channels.
pub open spec fn frame_len(width: nat, height: nat) -> nat {
    3 * height * width
}

/// `window` frames of `len` zero samples: the buffer before any frame is seen.
pub open spec fn zero_slots(window: nat, len: nat) -> Seq<Seq<u8>> {
    Seq::new(window, |k: int| Seq::new(len, |p: int| 0u8))
}

/// The buffer after `frame` arrives as frame number `count` (from zero):
/// the first frame fills every slot, each later one replaces slot
/// `count % window`.
pub open spec fn feed(slots: Seq<Seq<u8>>, count: nat, frame: Seq<u8>) -> Seq<Seq<u8>> {
    if count == 0 {
        Seq::new(slots.len(), |k: int| frame)
    } else {
        slots.update((count % slots.len()) as int, frame)
    }
}

/// The buffer after the frames of `frames`, in order, are fed to `init`.
pub open spec fn slots_after(init: Seq<Seq<u8>>, frames: Seq<Seq<u8>>) -> Seq<Seq<u8>>
    decreases frames.len(),
{
    if frames.len() == 0 {
        init
    } else {
        feed(slots_after(init, frames.drop_last()), (frames.len() - 1) as nat, frames.last())
    }
}

/// Sum of sample `p` over the first `k` slots.
pub open spec fn column_sum(slots: Seq<Seq<u8>>, k: int, p: int) -> int
    decreases k,
{
    if k <= 0 {
        0
    } else {
        column_sum(slots, k - 1, p) + slots[k - 1][p] as int
    }
}

/// Per-sample sums over every slot, for frames of `len` samples.
pub open spec fn window_sums(slots: Seq<Seq<u8>>, len: nat) -> Seq<int> {
    Seq::new(len, |p: int| column_sum(slots, slots.len() as int, p))
}

/// What a model holds: its fixed dimensions, the number of frames seen, and
/// the frames in its ring buffer.
pub struct ModelState {
    pub width: nat,
    pub height: nat,
    pub window: nat,
    pub count: nat,
    pub slots: Seq<Seq<u8>>,
}

/// A rolling temporal mean over the last `window` frames.
pub struct InterestModel {
    height: usize,
    width: usize,
    frame_len: usize,
    buffer: FrameRing,
    count: usize,
    window: usize,
}

impl View for InterestModel {
    type V = ModelState;

    closed spec fn view(&self) -> ModelState {
        ModelState {
            width: self.width as nat,
            height: self.height as nat,
            window: self.window as nat,
            count: self.count as nat,
            slots: ring_rows(self.buffer),
        }
    }
}

impl InterestModel {
    /// The buffer holds `window` frames of the model's size.
    pub closed spec fn wf(&self) -> bool {
        &&& self.window > 0
        &&& self.width > 0
        &&& self.height > 0
        &&& self.frame_len == frame_len(self.width as nat, self.height as nat)
        &&& ring_rows(self.buffer).len() == self.window
        &&& forall|k: int|
            0 <= k < self.window ==> (#[trigger] ring_rows(self.buffer)[k]).len() == self.frame_len
    }

    /// A model for `height` by `width` frames that averages the last `window`
    /// of them; its buffer starts out zero.
    pub fn new(width: usize, height: usize, window: usize) -> (r: InterestModel)
        requires
            width > 0,
            height > 0,
            window > 0,
            frame_len(width as nat, height as nat) * window <= isize::MAX,
        ensures
            r.wf(),
            r@ == (ModelState {
                width: width as nat,
                height: height as nat,
                window: window as nat,
                count: 0,
                slots: zero_slots(window as nat, frame_len(width as nat, height as nat)),
            }),
    {
        assert(3 * height * width <= 3 * height * width * window) by (nonlinear_arith)
            requires
                window >= 1,
        ;
        assert(3 * height <= 3 * height * width) by (nonlinear_arith)
            requires
                width >= 1,
        ;
        let n = 3 * height * width;
        assert(window * n <= isize::MAX) by (nonlinear_arith)
            requires
                n == 3 * height * width,
                3 * height * width * window <= isize::MAX,
        ;
        let buffer = FrameRing::zeros(window, n);
        let r = InterestModel { height, width, frame_len: n, buffer, count: 0, window };
        assert(r@.slots =~= zero_slots(window as nat, n as nat));
        r
    }

    /// Takes in the next frame and reports it beside the mean of the window.
    ///
    /// The first frame fills every slot of the buffer, so that the mean starts
    /// out equal to it; each later frame replaces the slot `count % window`.
    pub fn estimate_interest(&mut self, frame: &Vec<u8>) -> (r: InterestResult)
        requires
            old(self).wf(),
            frame@.len() == frame_len(old(self)@.width, old(self)@.height),
            old(self)@.count < usize::MAX,
        ensures
            final(self).wf(),
            final(self)@ == (ModelState {
                count: old(self)@.count + 1,
                slots: feed(old(self)@.slots, old(self)@.count, frame@),
                ..old(self)@
            }),
            r.wf(),
            r.window == old(self)@.window,
            r.original@ == frame@,
            r.mean_sum@.len() == frame@.len(),
            forall|p: int|
                0 <= p < frame@.len() ==> #[trigger] r.mean_sum@[p] as int == window_sums(
                    final(self)@.slots,
                    frame@.len(),
                )[p],
            old(self)@.count == 0 ==> forall|p: int|
                0 <= p < frame@.len() ==> #[trigger] r.mean_sum@[p] as int == old(self)@.window
                    * frame@[p],
    {
        let ghost old_slots = self@.slots;
        if self.count == 0 {
            let mut k: usize = 0;
            while k < self.window
                invariant
                    self.wf(),
                    self.window == old(self).window,
                    self.width == old(self).width,
                    self.height == old(self).height,
                    self.count == old(self).count,
                    frame@.len() == self.frame_len,
                    k <= self.window,
                    forall|j: int| 0 <= j < k ==> #[trigger] ring_rows(self.buffer)[j] == frame@,
                decreases self.window - k,
            {
                self.buffer.assign_row(k, frame);
                k += 1;
            }
            assert(self@.slots =~= feed(old_slots, 0, frame@));
        } else {
            let slot = self.count % self.window;
            self.buffer.assign_row(slot, frame);
            assert(self@.slots =~= feed(old_slots, self.count as nat, frame@));
        }
        self.count += 1;
        let mean_sum = self.sums();
        proof {
            if old(self).count == 0 {
                lemma_first_frame_is_mean(old_slots, frame@);
            }
        }
        InterestResult { original: copy_frame(frame), mean_sum, window: self.window }
    }

    /// Number of frames seen so far.
    pub fn count(&self) -> (r: usize)
        ensures
            r == self@.count,
    {
        self.count
    }

    /// Width of the frames the model takes.
    pub fn width(&self) -> (r: usize)
        ensures
            r == self@.width,
    {
        self.width
    }

    /// Height of the frames the model takes.
    pub fn height(&self) -> (r: usize)
        ensures
            r == self@.height,
    {
        self.height
    }

    /// Number of frames the mean is taken over.
    pub fn window(&self) -> (r: usize)
        ensures
            r == self@.window,
    {
        self.window
    }

    /// Per-sample sums over the whole buffer.
    fn sums(&self) -> (r: Vec<u128>)
        requires
            self.wf(),
        ensures
            r@.len() == self.frame_len,
            forall|p: int|
                0 <= p < self.frame_len ==> #[trigger] r@[p] as int == window_sums(
                    self@.slots,
                    self.frame_len as nat,
                )[p],
    {
        let n = self.frame_len;
        let mut out: Vec<u128> = Vec::new();
        let mut p: usize = 0;
        while p < n
            invariant
                self.wf(),
                n == self.frame_len,
                p <= n,
                out@.len() == p,
                forall|q: int|
                    0 <= q < p ==> #[trigger] out@[q] as int == column_sum(
                        self@.slots,
                        self.window as int,
                        q,
                    ),
            decreases n - p,
        {
            let mut s: u128 = 0;
            let mut k: usize = 0;
            while k < self.window
                invariant
                    self.wf(),
                    n == self.frame_len,
                    p < n,
                    k <= self.window,
                    s as int == column_sum(self@.slots, k as int, p as int),
                    s <= 255 * k,
                decreases self.window - k,
            {
                assert(ring_rows(self.buffer)[k as int].len() == n);
                s = s + self.buffer.get(k, p) as u128;
                k += 1;
            }
            out.push(s);
            p += 1;
        }
        out
    }
}

/// A copy of a frame, so that the buffer shares nothing with the caller.
fn copy_frame(frame: &Vec<u8>) -> (r: Vec<u8>)
    ensures
        r@ == frame@,
{
    let mut out: Vec<u8> = Vec::new();
    let mut p: usize = 0;
    while p < frame.len()
        invariant
            p <= frame@.len(),
            out@ == frame@.subrange(0, p as int),
        decreases frame@.len() - p,
    {
        out.push(frame[p]);
        p += 1;
        assert(out@ =~= frame@.subrange(0, p as int));
    }
    assert(out@ =~= frame@);
    out
}

} // verus!
