use soundtouch::correlation::{correlate, is_below, seek_best_offset};
use soundtouch::overlap::blend_sample;
use soundtouch::ratio::Ratio;
use soundtouch::stretch::{StretchParams, TimeStretcher};
use soundtouch::transposer::{RateTransposer, TransposeParams};
use soundtouch::SampleFifo;

fn noise(n: usize, seed: u32) -> Vec<i16> {
    let mut x: u32 = seed;
    let mut out = Vec::with_capacity(n);
    for _ in 0..n {
        x = x.wrapping_mul(1664525).wrapping_add(1013904223);
        out.push(((x >> 16) as i32 - 32768) as i16);
    }
    out
}

#[test]
fn ratio_new_accepts_only_positive_terms_in_range() {
    assert!(Ratio::new(0, 1).is_none());
    assert!(Ratio::new(1, 0).is_none());
    assert!(Ratio::new(1048577, 1).is_none());
    assert_eq!(Ratio::new(3, 2), Some(Ratio { num: 3, den: 2 }));
    assert_eq!(Ratio::new(1048576, 1048576), Some(Ratio { num: 1048576, den: 1048576 }));
}

#[test]
fn ratio_from_percent() {
    assert_eq!(Ratio::from_percent(-50), Some(Ratio { num: 50, den: 100 }));
    assert_eq!(Ratio::from_percent(100), Some(Ratio { num: 200, den: 100 }));
    assert_eq!(Ratio::from_percent(0), Some(Ratio { num: 100, den: 100 }));
    assert_eq!(Ratio::from_percent(-100), None);
    assert_eq!(Ratio::from_percent(-101), None);
    assert_eq!(Ratio::from_percent(1048477), None);
}

#[test]
fn ratio_product_and_quotient() {
    let a = Ratio { num: 3, den: 2 };
    let b = Ratio { num: 5, den: 7 };
    assert_eq!(a.product(&b), Ratio { num: 15, den: 14 });
    assert_eq!(a.quotient(&b), Ratio { num: 21, den: 10 });
    assert!(Ratio::one().is_one());
    assert!(Ratio { num: 4, den: 4 }.is_one());
    assert!(!a.is_one());
}

#[test]
fn blend_is_the_weighted_mean_rounded_down() {
    assert_eq!(blend_sample(100, 200, 1, 4), 125);
    assert_eq!(blend_sample(100, 200, 0, 4), 100);
    assert_eq!(blend_sample(100, 200, 3, 4), 175);
    assert_eq!(blend_sample(-100, -201, 1, 2), -151);
    assert_eq!(blend_sample(-1, 0, 1, 2), -1);
    assert_eq!(blend_sample(32767, 32767, 5, 9), 32767);
    assert_eq!(blend_sample(-32768, -32768, 5, 9), -32768);
    assert_eq!(blend_sample(-32768, 32767, 1, 2), -1);
}

#[test]
fn correlate_sums_products_and_squares() {
    let a: [i16; 3] = [1, -2, 3];
    let b: [i16; 5] = [9, 4, 5, -6, 7];
    assert_eq!(correlate(&a, &b, 1, 3), (4 - 10 - 18, 16 + 25 + 36));
    assert_eq!(correlate(&a, &b, 0, 0), (0, 0));
}

#[test]
fn scores_are_ordered_as_correlation_over_root_of_energy() {
    // 6 / sqrt(9) = 2 lies below 5 / sqrt(4) = 2.5.
    assert!(is_below(6, 9, 5, 4));
    assert!(!is_below(5, 4, 6, 9));
    // Equal scores: neither lies below the other.
    assert!(!is_below(2, 1, 4, 4));
    assert!(!is_below(4, 4, 2, 1));
    // A negative correlation lies below silence, which lies below a positive one.
    assert!(is_below(-3, 5, 0, 0));
    assert!(is_below(0, 0, 3, 5));
    assert!(is_below(-3, 1, -3, 4));
}

#[test]
fn search_finds_the_copy_of_the_reference() {
    let refr: [i16; 4] = [100, -300, 200, 50];
    let mut input: Vec<i16> = vec![7, -3, 12, 0, 5, 9];
    input.extend_from_slice(&refr);
    input.extend_from_slice(&[1, 2, 3, 4, 5, 6]);
    assert_eq!(seek_best_offset(&refr, &input, 1, 4, 10), 6);
    // In frames of two samples the copy stands at frame three.
    assert_eq!(seek_best_offset(&refr, &input, 2, 4, 5), 3);
}

#[test]
fn search_keeps_the_first_of_equal_candidates() {
    let refr: [i16; 2] = [10, 20];
    let input: [i16; 8] = [10, 20, 10, 20, 10, 20, 10, 20];
    assert_eq!(seek_best_offset(&refr, &input, 2, 2, 4), 0);
    // A louder copy scores the same and does not win.
    let louder: [i16; 6] = [10, 20, 100, 200, 0, 0];
    assert_eq!(seek_best_offset(&refr, &louder, 2, 2, 3), 0);
}

fn small_stretch(tempo: Ratio) -> StretchParams {
    StretchParams { channels: 1, sequence: 8, window: 4, overlap: 2, stride: 1, tempo }
}

#[test]
fn stretcher_refuses_parameters_that_do_not_fit() {
    let ok = small_stretch(Ratio { num: 1, den: 1 });
    assert!(TimeStretcher::new(ok).is_some());
    assert!(TimeStretcher::new(StretchParams { overlap: 0, ..ok }).is_none());
    // The overlap must be shorter than the sequence.
    assert!(TimeStretcher::new(StretchParams { sequence: 2, ..ok }).is_none());
    assert!(TimeStretcher::new(StretchParams { sequence: 3, ..ok }).is_some());
    assert!(TimeStretcher::new(StretchParams { window: 1, ..ok }).is_none());
    assert!(TimeStretcher::new(StretchParams { channels: 0, ..ok }).is_none());
    assert!(TimeStretcher::new(StretchParams { stride: 0, ..ok }).is_none());
    assert!(TimeStretcher::new(StretchParams { tempo: Ratio { num: 0, den: 1 }, ..ok }).is_none());
}

#[test]
fn stretcher_at_tempo_one_hands_the_input_on() {
    let mut st = TimeStretcher::new(small_stretch(Ratio { num: 1, den: 1 })).unwrap();
    let mut input = SampleFifo::new(1).unwrap();
    let mut output = SampleFifo::new(1).unwrap();
    let data = noise(100, 1);
    assert!(input.put(&data));
    st.process(&mut input, &mut output);
    let got = output.contents().to_vec();
    // Sequences of eight frames, for as long as thirteen frames wait: a
    // sequence at the last of four places and an overlap of two behind it.
    assert_eq!(got.len() % 8, 0);
    assert_eq!(got.len(), 88);
    assert_eq!(&got[..], &data[..88]);
    assert_eq!(input.available(), 12);
    st.flush(&mut input, &mut output);
    let all = output.contents().to_vec();
    assert_eq!(&all[..100], &data[..]);
    assert!(all[100..].iter().all(|x| *x == 0));
    // Thirteen sequences of eight frames: the last holds four frames of the
    // stream, and the overlap behind it is dropped.
    assert_eq!(all.len(), 104);
    assert_eq!(input.available(), 0);
    assert!(!st.is_started());
}

#[test]
fn stretcher_output_follows_the_tempo() {
    for (num, den) in [(3u64, 2u64), (2, 1), (1, 2), (2, 3), (7, 5)] {
        let mut st = TimeStretcher::new(small_stretch(Ratio { num, den })).unwrap();
        let mut input = SampleFifo::new(1).unwrap();
        let mut output = SampleFifo::new(1).unwrap();
        let data = noise(6000, 7);
        assert!(input.put(&data));
        st.process(&mut input, &mut output);
        st.flush(&mut input, &mut output);
        let got = output.available() as u64;
        assert!(6000 * den <= got * num, "tempo {}/{}: {}", num, den, got);
        assert!(got * num < 6000 * den + 8 * num, "tempo {}/{}: {}", num, den, got);
    }
}

#[test]
fn stretcher_does_not_care_how_the_input_is_cut() {
    let params = small_stretch(Ratio { num: 3, den: 2 });
    let data = noise(500, 3);
    let mut whole = TimeStretcher::new(params).unwrap();
    let mut in1 = SampleFifo::new(1).unwrap();
    let mut out1 = SampleFifo::new(1).unwrap();
    assert!(in1.put(&data));
    whole.process(&mut in1, &mut out1);
    let mut cut = TimeStretcher::new(params).unwrap();
    let mut in2 = SampleFifo::new(1).unwrap();
    let mut out2 = SampleFifo::new(1).unwrap();
    for piece in data.chunks(7) {
        assert!(in2.put(piece));
        cut.process(&mut in2, &mut out2);
    }
    assert_eq!(out1.contents(), out2.contents());
    assert_eq!(in1.contents(), in2.contents());
}

#[test]
fn transposer_puts_frames_between_the_frames() {
    let params = TransposeParams { channels: 1, step: Ratio { num: 1, den: 2 } };
    let mut tr = RateTransposer::new(params).unwrap();
    let mut input = SampleFifo::new(1).unwrap();
    let mut output = SampleFifo::new(1).unwrap();
    assert!(input.put(&[0, 100, 200, -100]));
    tr.process(&mut input, &mut output);
    assert_eq!(output.contents(), &[0, 50, 100, 150, 200, 50]);
    assert_eq!(input.contents(), &[-100]);
    tr.flush(&mut input, &mut output);
    assert_eq!(output.contents(), &[0, 50, 100, 150, 200, 50, -100, -50]);
    assert_eq!(input.available(), 0);
    assert!(tr.is_at_head());
}

#[test]
fn transposer_leaves_frames_out_at_a_step_above_one() {
    let params = TransposeParams { channels: 2, step: Ratio { num: 3, den: 2 } };
    let mut tr = RateTransposer::new(params).unwrap();
    let mut input = SampleFifo::new(2).unwrap();
    let mut output = SampleFifo::new(2).unwrap();
    assert!(input.put(&[0, 1000, 10, 1010, 20, 1020, 30, 1030, 40, 1040]));
    tr.process(&mut input, &mut output);
    // Cursor at 0, 1.5 and 3: the frames 0, between 1 and 2, and 3.
    assert_eq!(output.contents(), &[0, 1000, 15, 1015, 30, 1030]);
    assert_eq!(input.contents(), &[40, 1040]);
}

#[test]
fn transposer_does_not_care_how_the_input_is_cut() {
    let params = TransposeParams { channels: 2, step: Ratio { num: 5, den: 7 } };
    let data = noise(400, 11);
    let mut whole = RateTransposer::new(params).unwrap();
    let mut in1 = SampleFifo::new(2).unwrap();
    let mut out1 = SampleFifo::new(2).unwrap();
    assert!(in1.put(&data));
    whole.process(&mut in1, &mut out1);
    let mut cut = RateTransposer::new(params).unwrap();
    let mut in2 = SampleFifo::new(2).unwrap();
    let mut out2 = SampleFifo::new(2).unwrap();
    for piece in data.chunks(6) {
        assert!(in2.put(piece));
        cut.process(&mut in2, &mut out2);
    }
    assert_eq!(out1.contents(), out2.contents());
    assert_eq!(in1.contents(), in2.contents());
}

#[test]
fn transposer_refuses_parameters_out_of_order() {
    assert!(RateTransposer::new(TransposeParams { channels: 0, step: Ratio { num: 1, den: 1 } })
        .is_none());
    assert!(RateTransposer::new(TransposeParams { channels: 1, step: Ratio { num: 0, den: 1 } })
        .is_none());
    assert!(RateTransposer::new(TransposeParams { channels: 17, step: Ratio { num: 1, den: 1 } })
        .is_none());
}
