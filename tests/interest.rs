use interest::interest::{InterestResult, Score, CUTOFF, MASK_WEIGHT};
use interest::model::InterestModel;

fn mean_of(r: &InterestResult) -> Vec<f64> {
    r.mean_sum.iter().map(|s| *s as f64 / r.window as f64).collect()
}

fn fraction(s: &Score) -> f64 {
    s.hits as f64 / s.total as f64
}

fn uniform(width: usize, height: usize, value: u8) -> Vec<u8> {
    vec![value; 3 * width * height]
}

#[test]
fn first_frame_is_the_mean_for_any_window() {
    for window in 1..6usize {
        let mut model = InterestModel::new(3, 2, window);
        let frame: Vec<u8> = (0..18u8).map(|v| v * 13).collect();
        let r = model.estimate_interest(&frame);
        assert_eq!(r.window, window);
        assert_eq!(r.original, frame);
        let mean = mean_of(&r);
        assert_eq!(mean.len(), frame.len());
        for (m, f) in mean.iter().zip(frame.iter()) {
            assert_eq!(*m, *f as f64);
        }
        assert_eq!(r.overall().hits, 0);
    }
}

#[test]
fn constant_stream_keeps_mean_and_scores_zero() {
    let mut model = InterestModel::new(2, 3, 3);
    let frame: Vec<u8> = (0..18u8).map(|v| 200 - v * 7).collect();
    for _ in 0..10 {
        let r = model.estimate_interest(&frame);
        let mean = mean_of(&r);
        for (m, f) in mean.iter().zip(frame.iter()) {
            assert_eq!(*m, *f as f64);
        }
        let s = r.overall();
        assert_eq!(s.hits, 0);
        assert_eq!(fraction(&s), 0.0);
        assert!(r.threshold().iter().all(|c| *c == 0));
    }
}

#[test]
fn impulse_leaves_mean_exactly_window_calls_later() {
    let window = 4usize;
    let mut model = InterestModel::new(2, 2, window);
    let base = uniform(2, 2, 10);
    let impulse = uniform(2, 2, 250);
    for _ in 0..window {
        model.estimate_interest(&base);
    }
    let r = model.estimate_interest(&impulse);
    assert_eq!(mean_of(&r)[0], (10.0 * 3.0 + 250.0) / 4.0);
    for step in 1..window {
        let r = model.estimate_interest(&base);
        assert_ne!(mean_of(&r)[0], 10.0, "impulse gone after {} calls", step);
    }
    let r = model.estimate_interest(&base);
    assert!(mean_of(&r).iter().all(|m| *m == 10.0));
    assert_eq!(r.overall().hits, 0);
}

#[test]
fn threshold_is_strict_and_ignores_darkening() {
    let r = InterestResult {
        original: vec![126, 125, 0, 255],
        mean_sum: vec![100, 100, 100, 100],
        window: 1,
    };
    assert_eq!(CUTOFF, 25);
    assert_eq!(r.threshold(), vec![MASK_WEIGHT, 0, 0, MASK_WEIGHT]);
    assert_eq!(MASK_WEIGHT, 10);
}

#[test]
fn threshold_compares_against_fractional_mean() {
    // mean 100.5: 125 rises by 24.5, 126 by 25.5
    let r = InterestResult {
        original: vec![125, 126],
        mean_sum: vec![201, 201],
        window: 2,
    };
    assert_eq!(r.threshold(), vec![0, 10]);
}

#[test]
fn overall_is_fraction_of_flagged_samples() {
    // a 2 by 2 single-channel frame with two samples above the cutoff
    let r = InterestResult {
        original: vec![200, 10, 200, 10],
        mean_sum: vec![100, 100, 100, 100],
        window: 1,
    };
    let s = r.overall();
    assert_eq!(s.hits, 2);
    assert_eq!(s.total, 4);
    assert_eq!(fraction(&s), 0.5);
    let nonzero = r.threshold().iter().filter(|c| **c != 0).count();
    assert_eq!(nonzero, s.hits);
}

#[test]
fn two_frame_scenario() {
    let mut model = InterestModel::new(2, 2, 2);
    let zeros = uniform(2, 2, 0);
    let full = uniform(2, 2, 255);
    let r1 = model.estimate_interest(&zeros);
    assert!(mean_of(&r1).iter().all(|m| *m == 0.0));
    assert_eq!(fraction(&r1.overall()), 0.0);
    let r2 = model.estimate_interest(&full);
    let mean = mean_of(&r2);
    assert_eq!(mean.len(), 12);
    assert!(mean.iter().all(|m| *m == 127.5));
    assert!(r2.threshold().iter().all(|c| *c == 10));
    assert_eq!(fraction(&r2.overall()), 1.0);
}

#[test]
fn scoring_twice_gives_the_same() {
    let r = InterestResult {
        original: vec![90, 30, 200, 0, 61, 60],
        mean_sum: vec![70, 70, 70, 70, 70, 70],
        window: 2,
    };
    let m1 = r.threshold();
    let s1 = r.overall();
    let m2 = r.threshold();
    let s2 = r.overall();
    assert_eq!(m1, m2);
    assert_eq!((s1.hits, s1.total), (s2.hits, s2.total));
    assert_eq!(s1.hits, 3);
}

#[test]
fn ring_replaces_slots_in_order() {
    let mut model = InterestModel::new(1, 1, 3);
    let r = model.estimate_interest(&vec![30, 30, 30]);
    assert_eq!(r.mean_sum, vec![90, 90, 90]);
    let r = model.estimate_interest(&vec![60, 0, 3]);
    assert_eq!(r.mean_sum, vec![120, 60, 63]);
    let r = model.estimate_interest(&vec![0, 0, 0]);
    assert_eq!(r.mean_sum, vec![90, 30, 33]);
    // the fourth frame replaces slot 0, which still held the first frame
    let r = model.estimate_interest(&vec![9, 9, 9]);
    assert_eq!(r.mean_sum, vec![69, 9, 12]);
    // the fifth replaces the second frame
    let r = model.estimate_interest(&vec![1, 1, 1]);
    assert_eq!(r.mean_sum, vec![10, 10, 10]);
}

#[test]
fn mean_has_the_shape_of_a_frame() {
    let mut model = InterestModel::new(5, 4, 7);
    let frame = uniform(5, 4, 42);
    let r = model.estimate_interest(&frame);
    assert_eq!(r.mean_sum.len(), 3 * 5 * 4);
    assert_eq!(r.threshold().len(), 3 * 5 * 4);
    assert_eq!(r.overall().total, 60);
}

#[test]
fn interleaved_mask_puts_channels_last() {
    // width 2, height 1: planes R = [a, b], G = [c, d], B = [e, f]
    let r = InterestResult {
        original: vec![200, 0, 0, 200, 200, 200],
        mean_sum: vec![0, 0, 0, 0, 0, 0],
        window: 1,
    };
    assert_eq!(r.threshold(), vec![10, 0, 0, 10, 10, 10]);
    assert_eq!(r.interleaved_mask(2, 1), vec![10, 0, 10, 0, 10, 10]);
}

#[test]
fn sums_cover_exactly_the_last_window_frames() {
    let mut model = InterestModel::new(1, 1, 3);
    let mut last = Vec::new();
    for v in 1..=7u8 {
        last = model.estimate_interest(&vec![v * 10, v, 0]).mean_sum;
    }
    assert_eq!(last, vec![50 + 60 + 70, 5 + 6 + 7, 0]);
}
