use vstd::arithmetic::div_mod::{
    lemma_fundamental_div_mod,
    lemma_fundamental_div_mod_converse_mod,
    lemma_mod_bound,
};
use vstd::prelude::*;

use crate::interest::{exceeds, InterestResult, Score, CUTOFF, MASK_WEIGHT};
use crate::model::{column_sum, feed, slots_after, window_sums};

verus! {

/// Feeding one more frame to the buffer left by a stream is the buffer left
/// by the longer stream: the state reached by successive calls from a new
/// model is `slots_after` of its zero buffer and the frames given.
pub proof fn lemma_feed_extends(init: Seq<Seq<u8>>, frames: Seq<Seq<u8>>, frame: Seq<u8>)
    ensures
        slots_after(init, frames.push(frame)) == feed(
            slots_after(init, frames),
            frames.len(),
            frame,
        ),
{
    assert(frames.push(frame).drop_last() =~= frames);
}

/// Number of nonzero cells of a mask.
pub open spec fn count_nonzero(m: Seq<u8>) -> nat
    decreases m.len(),
{
    if m.len() == 0 {
        0
    } else {
        count_nonzero(m.drop_last()) + if m.last() != 0 { 1nat } else { 0nat }
    }
}

/// Index, among `n >= 1` frames fed to a buffer of `w` slots, of the frame
/// that slot `k` holds: the last one written to it, or the first frame.
pub open spec fn source(n: int, w: int, k: int) -> int {
    let i = (n - 1) - ((n - 1 - k) % w);
    if i >= 1 {
        i
    } else {
        0
    }
}

proof fn lemma_column_sum_constant(slots: Seq<Seq<u8>>, f: Seq<u8>, k: int, p: int)
    requires
        0 <= k <= slots.len(),
        forall|j: int| 0 <= j < slots.len() ==> #[trigger] slots[j] == f,
    ensures
        column_sum(slots, k, p) == k * (f[p] as int),
    decreases k,
{
    if k > 0 {
        lemma_column_sum_constant(slots, f, k - 1, p);
        assert(slots[k - 1] == f);
        assert((k - 1) * (f[p] as int) + (f[p] as int) == k * (f[p] as int)) by (nonlinear_arith);
    } else {
        assert(0 * (f[p] as int) == 0);
    }
}

/// Every slot of the buffer holds `f`, so each window sum is `window * f[p]`:
/// the mean is `f` itself.
proof fn lemma_sums_of_uniform(slots: Seq<Seq<u8>>, f: Seq<u8>)
    requires
        forall|j: int| 0 <= j < slots.len() ==> #[trigger] slots[j] == f,
    ensures
        forall|p: int|
            0 <= p < f.len() ==> #[trigger] window_sums(slots, f.len())[p] == slots.len() * f[p],
{
    assert forall|p: int| 0 <= p < f.len() implies #[trigger] window_sums(slots, f.len())[p]
        == slots.len() * f[p] by {
        lemma_column_sum_constant(slots, f, slots.len() as int, p);
    }
}

/// After the first frame the mean equals that frame exactly, whatever the
/// buffer held before and whatever the window: every sum is `window` times
/// the frame's sample.
pub proof fn lemma_first_frame_is_mean(init: Seq<Seq<u8>>, frame: Seq<u8>)
    requires
        init.len() >= 1,
    ensures
        forall|p: int|
            0 <= p < frame.len() ==> #[trigger] window_sums(feed(init, 0, frame), frame.len())[p]
                == init.len() * frame[p],
{
    lemma_sums_of_uniform(feed(init, 0, frame), frame);
}

proof fn lemma_slots_all(init: Seq<Seq<u8>>, frames: Seq<Seq<u8>>, f: Seq<u8>)
    requires
        init.len() >= 1,
        frames.len() >= 1,
        forall|i: int| 0 <= i < frames.len() ==> #[trigger] frames[i] == f,
    ensures
        slots_after(init, frames).len() == init.len(),
        forall|k: int|
            0 <= k < init.len() ==> #[trigger] slots_after(init, frames)[k] == f,
    decreases frames.len(),
{
    let prev = frames.drop_last();
    assert(frames.last() == f);
    lemma_mod_bound(frames.len() - 1, init.len() as int);
    if frames.len() > 1 {
        assert forall|i: int| 0 <= i < prev.len() implies #[trigger] prev[i] == f by {
            assert(prev[i] == frames[i]);
        }
        lemma_slots_all(init, prev, f);
    } else {
        assert(slots_after(init, prev) == init);
    }
}

/// No sample is flagged in a frame that equals its mean.
proof fn lemma_no_hits(r: InterestResult, n: int)
    requires
        0 <= n <= r.original@.len(),
        forall|p: int| 0 <= p < r.original@.len() ==> !#[trigger] r.flagged(p),
    ensures
        r.hits_upto(n) == 0,
    decreases n,
{
    if n > 0 {
        lemma_no_hits(r, n - 1);
    }
}

/// A stream of identical frames keeps the mean equal to that frame at every
/// count, and the result for any of them flags nothing, so its score is zero.
pub proof fn lemma_constant_stream(
    init: Seq<Seq<u8>>,
    frames: Seq<Seq<u8>>,
    f: Seq<u8>,
    r: InterestResult,
)
    requires
        init.len() >= 1,
        frames.len() >= 1,
        forall|i: int| 0 <= i < frames.len() ==> #[trigger] frames[i] == f,
        r.wf(),
        r.window == init.len(),
        r.original@ == f,
        forall|p: int|
            0 <= p < f.len() ==> #[trigger] r.mean_sum@[p] as int == window_sums(
                slots_after(init, frames),
                f.len(),
            )[p],
    ensures
        forall|p: int|
            0 <= p < f.len() ==> #[trigger] window_sums(slots_after(init, frames), f.len())[p]
                == init.len() * f[p],
        r.hits() == 0,
        r.mask() == Seq::new(f.len(), |p: int| 0u8),
{
    let slots = slots_after(init, frames);
    lemma_slots_all(init, frames, f);
    lemma_sums_of_uniform(slots, f);
    assert forall|p: int| 0 <= p < r.original@.len() implies !#[trigger] r.flagged(p) by {
        assert(r.mean_sum@[p] as int == init.len() * f[p]);
    }
    lemma_no_hits(r, f.len() as int);
    assert(r.mask() =~= Seq::new(f.len(), |p: int| 0u8));
}

/// `a % w` steps down by one with `a`, unless `a` is a multiple of `w`; and
/// `a` is such a multiple exactly when `a + k` leaves remainder `k`.
proof fn lemma_mod_step(a: int, k: int, w: int)
    requires
        w > 0,
        0 <= k < w,
    ensures
        (a % w == 0) == ((a + k) % w == k),
        a % w != 0 ==> (a - 1) % w == a % w - 1,
{
    lemma_fundamental_div_mod(a, w);
    lemma_mod_bound(a, w);
    let q = a / w;
    let r = a % w;
    assert(a == q * w + r) by (nonlinear_arith)
        requires
            a == w * (a / w) + a % w,
            q == a / w,
            r == a % w,
    ;
    if r == 0 {
        lemma_fundamental_div_mod_converse_mod(a + k, w, q, k);
    } else {
        lemma_fundamental_div_mod_converse_mod(a - 1, w, q, r - 1);
        lemma_fundamental_div_mod(a + k, w);
        lemma_mod_bound(a + k, w);
        if (a + k) % w == k {
            let q2 = (a + k) / w;
            assert(a + k == q2 * w + k) by (nonlinear_arith)
                requires
                    a + k == w * ((a + k) / w) + (a + k) % w,
                    q2 == (a + k) / w,
                    (a + k) % w == k,
            ;
            lemma_fundamental_div_mod_converse_mod(a, w, q2, 0);
        }
    }
}

/// Slot `k` holds the frame with index `source(n, w, k)`.
proof fn lemma_slots_closed_form(init: Seq<Seq<u8>>, frames: Seq<Seq<u8>>)
    requires
        init.len() >= 1,
        frames.len() >= 1,
    ensures
        slots_after(init, frames).len() == init.len(),
        forall|k: int|
            0 <= k < init.len() ==> {
                let s = source(frames.len() as int, init.len() as int, k);
                &&& 0 <= s < frames.len()
                &&& #[trigger] slots_after(init, frames)[k] == frames[s]
            },
    decreases frames.len(),
{
    let n = frames.len() as int;
    let w = init.len() as int;
    if n == 1 {
        assert(slots_after(init, frames.drop_last()) == init);
        assert forall|k: int| 0 <= k < w implies source(n, w, k) == 0 by {
            lemma_mod_bound(0 - k, w);
        }
    } else {
        let prev = frames.drop_last();
        lemma_slots_closed_form(init, prev);
        lemma_mod_bound(n - 1, w);
        assert forall|k: int| 0 <= k < w implies {
            let s = source(n, w, k);
            &&& 0 <= s < n
            &&& #[trigger] slots_after(init, frames)[k] == frames[s]
        } by {
            lemma_mod_step(n - 1 - k, k, w);
            lemma_mod_bound(n - 1 - k, w);
            lemma_mod_bound(n - 2 - k, w);
            if k == (n - 1) % w {
                assert(source(n, w, k) == n - 1);
            } else {
                assert(source(n, w, k) == source(n - 1, w, k));
                assert(prev[source(n - 1, w, k)] == frames[source(n - 1, w, k)]);
            }
        }
    }
}

/// Once at least `window` frames have been fed, the buffer (and so the mean)
/// depends only on the last `window` of them: two streams of equal length
/// that agree there leave the same buffer and the same sums.
pub proof fn lemma_window_forgets(init: Seq<Seq<u8>>, a: Seq<Seq<u8>>, b: Seq<Seq<u8>>)
    requires
        init.len() >= 1,
        a.len() == b.len(),
        a.len() >= init.len(),
        forall|i: int| a.len() - init.len() <= i < a.len() ==> #[trigger] a[i] == b[i],
    ensures
        slots_after(init, a) == slots_after(init, b),
        forall|len: nat| window_sums(slots_after(init, a), len) == window_sums(slots_after(init, b), len),
{
    let n = a.len() as int;
    let w = init.len() as int;
    lemma_slots_closed_form(init, a);
    lemma_slots_closed_form(init, b);
    assert forall|k: int| 0 <= k < w implies slots_after(init, a)[k] == slots_after(init, b)[k] by {
        lemma_mod_bound(n - 1 - k, w);
        let s = source(n, w, k);
        assert(n - w <= s < n);
        assert(a[s] == b[s]);
    }
    assert(slots_after(init, a) =~= slots_after(init, b));
}

/// Sum of sample `p` over frames `lo .. hi` of a stream.
pub open spec fn recent_sum(frames: Seq<Seq<u8>>, lo: int, hi: int, p: int) -> int
    decreases hi - lo,
{
    if hi <= lo {
        0
    } else {
        recent_sum(frames, lo, hi - 1, p) + frames[hi - 1][p] as int
    }
}

proof fn lemma_recent_sum_front(frames: Seq<Seq<u8>>, lo: int, hi: int, p: int)
    requires
        lo < hi,
    ensures
        recent_sum(frames, lo, hi, p) == frames[lo][p] as int + recent_sum(frames, lo + 1, hi, p),
    decreases hi - lo,
{
    if hi - 1 > lo {
        lemma_recent_sum_front(frames, lo, hi - 1, p);
        assert(recent_sum(frames, lo + 1, hi, p) == recent_sum(frames, lo + 1, hi - 1, p)
            + frames[hi - 1][p] as int);
    } else {
        assert(recent_sum(frames, lo, lo, p) == 0);
        assert(recent_sum(frames, lo + 1, hi, p) == 0);
    }
}

proof fn lemma_recent_sum_agree(a: Seq<Seq<u8>>, b: Seq<Seq<u8>>, lo: int, hi: int, p: int)
    requires
        forall|i: int| lo <= i < hi ==> #[trigger] a[i] == b[i],
    ensures
        recent_sum(a, lo, hi, p) == recent_sum(b, lo, hi, p),
    decreases hi - lo,
{
    if hi > lo {
        lemma_recent_sum_agree(a, b, lo, hi - 1, p);
        assert(a[hi - 1] == b[hi - 1]);
    }
}

proof fn lemma_column_sum_update(s: Seq<Seq<u8>>, j: int, f: Seq<u8>, k: int, p: int)
    requires
        0 <= j < s.len(),
        0 <= k <= s.len(),
    ensures
        column_sum(s.update(j, f), k, p) == column_sum(s, k, p) + if j < k {
            f[p] as int - s[j][p] as int
        } else {
            0
        },
    decreases k,
{
    if k > 0 {
        lemma_column_sum_update(s, j, f, k - 1, p);
    }
}

proof fn lemma_column_sum_in_order(slots: Seq<Seq<u8>>, frames: Seq<Seq<u8>>, k: int, p: int)
    requires
        0 <= k <= slots.len(),
        k <= frames.len(),
        forall|j: int| 0 <= j < k ==> #[trigger] slots[j] == frames[j],
    ensures
        column_sum(slots, k, p) == recent_sum(frames, 0, k, p),
    decreases k,
{
    if k > 0 {
        lemma_column_sum_in_order(slots, frames, k - 1, p);
        assert(slots[k - 1] == frames[k - 1]);
    }
}

/// Once at least `window` frames have been fed, each window sum is the sum
/// of the last `window` frames, so the mean is their average.
pub proof fn lemma_sums_are_recent(init: Seq<Seq<u8>>, frames: Seq<Seq<u8>>)
    requires
        init.len() >= 1,
        frames.len() >= init.len(),
    ensures
        forall|p: int|
            #[trigger] column_sum(slots_after(init, frames), init.len() as int, p) == recent_sum(
                frames,
                frames.len() - init.len(),
                frames.len() as int,
                p,
            ),
        forall|len: nat, p: int|
            0 <= p < len ==> #[trigger] window_sums(slots_after(init, frames), len)[p] == recent_sum(
                frames,
                frames.len() - init.len(),
                frames.len() as int,
                p,
            ),
    decreases frames.len(),
{
    let n = frames.len() as int;
    let w = init.len() as int;
    let slots = slots_after(init, frames);
    lemma_slots_closed_form(init, frames);
    if n == w {
        assert forall|k: int| 0 <= k < w implies #[trigger] slots[k] == frames[k] by {
            lemma_fundamental_div_mod_converse_mod(w - 1 - k, w, 0, w - 1 - k);
            assert(source(n, w, k) == k);
        }
        assert forall|p: int|
            #[trigger] column_sum(slots, w, p) == recent_sum(frames, n - w, n, p) by {
            lemma_column_sum_in_order(slots, frames, w, p);
        }
    } else {
        let prev = frames.drop_last();
        lemma_sums_are_recent(init, prev);
        lemma_slots_closed_form(init, prev);
        let prev_slots = slots_after(init, prev);
        let j = (n - 1) % w;
        lemma_mod_bound(n - 1, w);
        assert(slots == prev_slots.update(j, frames[n - 1]));
        // the slot written now held the frame that leaves the window
        let a = n - 1 - j;
        lemma_mod_step(a, j, w);
        lemma_fundamental_div_mod(a, w);
        let q = a / w;
        assert(a - 1 == (q - 1) * w + (w - 1)) by (nonlinear_arith)
            requires
                a == w * (a / w) + 0,
                q == a / w,
        ;
        lemma_fundamental_div_mod_converse_mod(a - 1, w, q - 1, w - 1);
        assert(source(n - 1, w, j) == n - 1 - w);
        assert(prev_slots[j] == frames[n - 1 - w]);
        assert forall|p: int|
            #[trigger] column_sum(slots, w, p) == recent_sum(frames, n - w, n, p) by {
            lemma_column_sum_update(prev_slots, j, frames[n - 1], w, p);
            assert(column_sum(prev_slots, w, p) == recent_sum(prev, n - 1 - w, n - 1, p));
            assert forall|i: int| n - 1 - w <= i < n - 1 implies #[trigger] prev[i] == frames[i] by {}
            lemma_recent_sum_agree(prev, frames, n - 1 - w, n - 1, p);
            lemma_recent_sum_front(frames, n - 1 - w, n - 1, p);
        }
    }
}

proof fn lemma_recent_sum_one_differs(
    frames: Seq<Seq<u8>>,
    f: Seq<u8>,
    g: Seq<u8>,
    k: int,
    lo: int,
    hi: int,
    p: int,
)
    requires
        lo <= hi,
        frames[k] == g,
        forall|i: int| lo <= i < hi && i != k ==> #[trigger] frames[i] == f,
    ensures
        recent_sum(frames, lo, hi, p) == (hi - lo) * (f[p] as int) + if lo <= k < hi {
            g[p] as int - f[p] as int
        } else {
            0
        },
    decreases hi - lo,
{
    if hi > lo {
        lemma_recent_sum_one_differs(frames, f, g, k, lo, hi - 1, p);
        if hi - 1 != k {
            assert(frames[hi - 1] == f);
        }
        assert((hi - 1 - lo) * (f[p] as int) + f[p] as int == (hi - lo) * (f[p] as int))
            by (nonlinear_arith);
    } else {
        assert((hi - lo) * (f[p] as int) == 0) by (nonlinear_arith)
            requires
                hi == lo,
        ;
    }
}

/// A single frame `g` among frames `f` stays in the mean for exactly
/// `window` calls: once at least `window` frames have been fed, each sum is
/// `window * f[p]`, moved by `g[p] - f[p]` while `g` is among the last
/// `window` frames and not at all after.
pub proof fn lemma_impulse_leaves_after_window(
    init: Seq<Seq<u8>>,
    frames: Seq<Seq<u8>>,
    f: Seq<u8>,
    g: Seq<u8>,
    k: int,
)
    requires
        init.len() >= 1,
        frames.len() >= init.len(),
        0 <= k < frames.len(),
        frames[k] == g,
        forall|i: int| 0 <= i < frames.len() && i != k ==> #[trigger] frames[i] == f,
    ensures
        forall|p: int|
            0 <= p < f.len() ==> #[trigger] window_sums(slots_after(init, frames), f.len())[p] == init.len()
                * (f[p] as int) + if k >= frames.len() - init.len() {
                g[p] as int - f[p] as int
            } else {
                0
            },
{
    let n = frames.len() as int;
    let w = init.len() as int;
    lemma_sums_are_recent(init, frames);
    assert forall|p: int| 0 <= p < f.len() implies #[trigger] window_sums(
        slots_after(init, frames),
        f.len(),
    )[p] == w * (f[p] as int) + if k >= n - w {
        g[p] as int - f[p] as int
    } else {
        0
    } by {
        lemma_recent_sum_one_differs(frames, f, g, k, n - w, n, p);
    }
}

/// A cell of the mask is set exactly where the sample exceeds its mean by
/// more than the cutoff: a rise of exactly the cutoff, and any darkening,
/// leave it clear.
pub proof fn lemma_brightening_only(r: InterestResult, p: int)
    requires
        r.wf(),
        0 <= p < r.original@.len(),
    ensures
        (r.mask()[p] != 0) == (r.window * r.original@[p] > r.mean_sum@[p] + CUTOFF * r.window),
        r.window * r.original@[p] == r.mean_sum@[p] + CUTOFF * r.window ==> r.mask()[p] == 0,
        r.mean_sum@[p] >= r.window * r.original@[p] ==> r.mask()[p] == 0,
{
}

proof fn lemma_hits_count_prefix(r: InterestResult, n: int)
    requires
        r.wf(),
        0 <= n <= r.original@.len(),
    ensures
        r.hits_upto(n) == count_nonzero(r.mask().subrange(0, n)),
    decreases n,
{
    if n > 0 {
        lemma_hits_count_prefix(r, n - 1);
        assert(r.mask().subrange(0, n).drop_last() =~= r.mask().subrange(0, n - 1));
    }
}

/// The score's `hits` is the number of nonzero cells of the mask, and its
/// `total` the number of cells.
pub proof fn lemma_score_counts_mask(r: InterestResult)
    requires
        r.wf(),
    ensures
        r.hits() == count_nonzero(r.mask()),
        r.mask().len() == r.original@.len(),
{
    lemma_hits_count_prefix(r, r.original@.len() as int);
    assert(r.mask().subrange(0, r.original@.len() as int) =~= r.mask());
}

/// Scoring is pure: two masks, or two scores, computed from the same result
/// are equal.
pub proof fn lemma_scoring_is_pure(r: InterestResult, m1: Seq<u8>, m2: Seq<u8>, s1: Score, s2: Score)
    requires
        r.wf(),
        m1 == r.mask(),
        m2 == r.mask(),
        s1.hits == r.hits(),
        s1.total == r.original@.len(),
        s2.hits == r.hits(),
        s2.total == r.original@.len(),
    ensures
        m1 == m2,
        s1 == s2,
{
}

} // verus!
