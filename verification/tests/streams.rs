use soundtouch::bpm_detect::BPMDetect;
use soundtouch::correlation::{correlate, seek_best_offset};
use soundtouch::decimate::Decimator;
use soundtouch::envelope::EnvelopeFollower;
use soundtouch::stretch::{StretchParams, TimeStretcher};
use soundtouch::transposer::{RateTransposer, TransposeParams};
use soundtouch::{Ratio, SampleFifo, Setting, SoundTouch};

fn noise(n: usize, seed: u32) -> Vec<i16> {
    let mut x: u32 = seed;
    let mut out = Vec::with_capacity(n);
    for _ in 0..n {
        x = x.wrapping_mul(1664525).wrapping_add(1013904223);
        out.push(((x >> 16) as i32 - 32768) as i16);
    }
    out
}

fn pipeline(channels: u32, rate: u32, tempo: Ratio, speed: Ratio, pitch: Ratio) -> SoundTouch {
    let mut st = SoundTouch::new();
    st.set_channels(channels).unwrap();
    st.set_sample_rate(rate).unwrap();
    st.set_tempo(tempo).unwrap();
    st.set_rate(speed).unwrap();
    st.set_pitch(pitch).unwrap();
    st
}

fn take(st: &mut SoundTouch, channels: usize, frames: usize) -> Vec<i16> {
    let mut buf = vec![0i16; frames * channels];
    let n = st.receive_samples(&mut buf, frames);
    buf.truncate(n * channels);
    buf
}

fn drain(st: &mut SoundTouch, channels: usize) -> Vec<i16> {
    let mut out = Vec::new();
    loop {
        let part = take(st, channels, 300);
        if part.is_empty() {
            break;
        }
        out.extend(part);
    }
    out
}

const ONE: Ratio = Ratio { num: 1, den: 1 };

#[test]
fn first_in_first_out_whenever_the_output_is_read() {
    let a = noise(2 * 2500, 31);
    let b = noise(2 * 1700, 32);
    let tempo = Ratio { num: 6, den: 5 };
    let pitch = Ratio { num: 9, den: 8 };
    let mut once = pipeline(2, 8000, tempo, ONE, pitch);
    let mut all = a.clone();
    all.extend_from_slice(&b);
    once.put_samples(&all, all.len() / 2).unwrap();
    let want = drain(&mut once, 2);
    for n in [0usize, 1, 100, 5000] {
        let mut cut = pipeline(2, 8000, tempo, ONE, pitch);
        cut.put_samples(&a, a.len() / 2).unwrap();
        let mut got = take(&mut cut, 2, n);
        cut.put_samples(&b, b.len() / 2).unwrap();
        got.extend(drain(&mut cut, 2));
        assert_eq!(got, want, "after receiving {} frames", n);
        assert_eq!(cut.num_unprocessed_samples(), once.num_unprocessed_samples());
    }
    assert!(want.len() > 2 * 2000);
}

#[test]
fn asking_again_brings_nothing_new() {
    let mut st = pipeline(1, 8000, Ratio { num: 2, den: 3 }, Ratio { num: 5, den: 4 }, ONE);
    st.put_samples(&noise(3000, 8), 3000).unwrap();
    let ready = st.num_samples();
    assert!(ready > 0);
    assert_eq!(st.num_samples(), ready);
    assert_eq!(st.is_empty(), 0);
    let waiting = st.num_unprocessed_samples();
    let got = drain(&mut st, 1);
    assert_eq!(got.len(), ready as usize);
    assert_eq!(st.num_samples(), 0);
    assert_eq!(take(&mut st, 1, 10).len(), 0);
    assert_eq!(st.num_unprocessed_samples(), waiting);
}

#[test]
fn passing_through_keeps_every_sample_and_adds_none() {
    for channels in [1usize, 2, 5] {
        let mut st = pipeline(channels as u32, 44100, ONE, ONE, ONE);
        let data = noise(channels * 777, 3);
        st.put_samples(&data, 777).unwrap();
        st.flush();
        assert_eq!(drain(&mut st, channels), data);
        assert_eq!(st.num_unprocessed_samples(), 0);
    }
    // Ratios that stand for one without being written as one over one.
    let mut st = pipeline(1, 8000, Ratio { num: 7, den: 7 }, Ratio { num: 3, den: 3 }, ONE);
    let data = noise(400, 4);
    st.put_samples(&data, 400).unwrap();
    st.flush();
    assert_eq!(drain(&mut st, 1), data);
}

#[test]
fn the_tempo_sets_the_length() {
    for (num, den) in [(11u64, 10u64), (3, 2), (5, 2), (9, 10), (1, 3)] {
        for frames in [1usize, 500, 12345] {
            let mut st = pipeline(1, 8000, Ratio { num, den }, ONE, ONE);
            st.put_samples(&noise(frames, 77), frames).unwrap();
            st.flush();
            let out = drain(&mut st, 1).len() as u64;
            let n = frames as u64;
            // A sequence of 40 ms at 8000 frames a second.
            let slack = 320u64;
            assert!(n * den <= out * num, "{}/{} {}: {}", num, den, n, out);
            assert!(out * num < n * den + slack * num, "{}/{} {}: {}", num, den, n, out);
            assert_eq!(st.get_input_output_sample_ratio(), Ratio { num: den, den: num });
        }
    }
}

#[test]
fn stretcher_reports_the_frames_it_sent() {
    let params = StretchParams {
        channels: 2,
        sequence: 10,
        window: 5,
        overlap: 3,
        stride: 1,
        tempo: Ratio { num: 4, den: 3 },
    };
    let mut st = TimeStretcher::new(params).unwrap();
    let mut input = SampleFifo::new(2).unwrap();
    let mut output = SampleFifo::new(2).unwrap();
    input.put(&noise(2 * 13, 5));
    // Less than a sequence at every place of the window: nothing comes out.
    assert_eq!(st.process(&mut input, &mut output), 0);
    assert_eq!(output.available(), 0);
    assert_eq!(input.available(), 13);
    input.put(&noise(2 * 100, 6));
    let n = st.process(&mut input, &mut output);
    assert_eq!(n, output.available());
    assert_eq!(n % 10, 0);
    assert!(n >= 70);
    assert_eq!(st.process(&mut input, &mut output), 0);
    assert_eq!(st.get_params(), params);
}

#[test]
fn transposer_reports_the_frames_it_sent() {
    let params = TransposeParams { channels: 1, step: Ratio { num: 2, den: 3 } };
    let mut tr = RateTransposer::new(params).unwrap();
    let mut input = SampleFifo::new(1).unwrap();
    let mut output = SampleFifo::new(1).unwrap();
    input.put(&[5]);
    assert_eq!(tr.process(&mut input, &mut output), 0);
    input.put(&[8, 11, 14]);
    // The cursor stands at 0, 2/3, 4/3, 2 and 8/3; the last needs a fifth frame.
    assert_eq!(tr.process(&mut input, &mut output), 5);
    assert_eq!(output.contents(), &[5, 7, 9, 11, 13]);
    assert_eq!(tr.process(&mut input, &mut output), 0);
    assert_eq!(tr.get_params(), params);
}

#[test]
fn stretcher_at_tempo_one_adds_only_silence_at_the_end() {
    for stride in [1usize, 4] {
        let params = StretchParams {
            channels: 2,
            sequence: 12,
            window: 9,
            overlap: 4,
            stride,
            tempo: Ratio { num: 5, den: 5 },
        };
        let mut st = TimeStretcher::new(params).unwrap();
        let mut input = SampleFifo::new(2).unwrap();
        let mut output = SampleFifo::new(2).unwrap();
        let data = noise(2 * 333, 12);
        for piece in data.chunks(2 * 50) {
            input.put(piece);
            st.process(&mut input, &mut output);
        }
        st.flush(&mut input, &mut output);
        let got = output.contents().to_vec();
        assert_eq!(&got[..data.len()], &data[..]);
        assert!(got[data.len()..].iter().all(|x| *x == 0));
        // Less than a sequence of silence is added.
        assert!(got.len() - data.len() < 2 * 12);
        // Twenty-eight sequences of twelve frames.
        assert_eq!(got.len(), 2 * (28 * 12));
    }
}

#[test]
fn search_finds_no_worse_than_any_place() {
    let refr = noise(12, 40);
    let input = noise(80, 41);
    for ch in [1usize, 2, 3] {
        let window = (80 - 12) / ch + 1;
        let best = seek_best_offset(&refr, &input, ch, 12, window);
        let score = |o: usize| {
            let (c, e) = correlate(&refr, &input, o * ch, 12);
            if e == 0 { 0.0 } else { c as f64 / (e as f64).sqrt() }
        };
        for o in 0..window {
            assert!(score(o) <= score(best) + 1e-9, "place {} beats {}", o, best);
            if o < best {
                assert!(score(o) < score(best));
            }
        }
    }
}

#[test]
fn decimator_does_not_care_how_the_stream_is_cut() {
    let data = noise(3 * 200, 50);
    let mut whole = Decimator::new(7, 3).unwrap();
    let mut one = Vec::new();
    whole.decimate(&mut one, &data, 200);
    let mut cut = Decimator::new(7, 3).unwrap();
    let mut many = Vec::new();
    for piece in data.chunks(3 * 11) {
        cut.decimate(&mut many, piece, 11);
    }
    assert_eq!(one, many);
    assert_eq!(one.len(), 200 / 7);
}

#[test]
fn envelope_is_never_below_nothing() {
    let mut f = EnvelopeFollower::new();
    let mut xs = noise(2000, 60);
    f.calc_envelope(&mut xs);
    assert!(xs.iter().all(|x| *x >= 0));
    f.clear();
    assert_eq!(f.follow(0), 0);
}

#[test]
fn detector_reads_the_stream_not_its_blocks() {
    let mut data = vec![0i16; 2 * 8000 * 6];
    for f in (0..8000 * 6).step_by(3200) {
        for k in 0..40 {
            if f + k < 8000 * 6 {
                data[2 * (f + k)] = 20000 - 400 * k as i16;
                data[2 * (f + k) + 1] = -15000;
            }
        }
    }
    let mut whole = BPMDetect::new(2, 8000).ok().unwrap();
    whole.input_samples(&data);
    let want = whole.get_bpm();
    assert!(want >= 149000 && want <= 151000, "{}", want);
    for size in [2usize, 2 * 100, 2 * 4999] {
        let mut cut = BPMDetect::new(2, 8000).ok().unwrap();
        for piece in data.chunks(size) {
            cut.input_samples(piece);
        }
        assert_eq!(cut.beats(), whole.beats());
        assert_eq!(cut.get_bpm(), want);
    }
}

#[test]
fn a_setting_that_is_refused_leaves_the_stream_alone() {
    let mut st = pipeline(1, 8000, Ratio { num: 3, den: 2 }, ONE, ONE);
    st.put_samples(&noise(5000, 2), 5000).unwrap();
    let ready = st.num_samples();
    assert!(st.set_setting(Setting::InitialLatency, 1).is_err());
    assert!(st.set_setting(Setting::OverlapMs, 0).is_err());
    assert!(st.set_tempo(Ratio { num: 0, den: 1 }).is_err());
    assert_eq!(st.num_samples(), ready);
}

#[test]
fn transposer_at_a_step_of_one_hands_the_frames_on() {
    let params = TransposeParams { channels: 2, step: Ratio { num: 3, den: 3 } };
    let mut tr = RateTransposer::new(params).unwrap();
    let mut input = SampleFifo::new(2).unwrap();
    let mut output = SampleFifo::new(2).unwrap();
    let data = noise(2 * 50, 70);
    input.put(&data[..40]);
    assert_eq!(tr.process(&mut input, &mut output), 19);
    input.put(&data[40..]);
    assert_eq!(tr.process(&mut input, &mut output), 30);
    // The last frame waits for the frame behind it.
    assert_eq!(output.contents(), &data[..98]);
    assert_eq!(input.contents(), &data[98..]);
    tr.flush(&mut input, &mut output);
    assert_eq!(output.contents(), &data[..]);
}

#[test]
fn a_decimator_sends_a_block_for_every_so_many_frames() {
    let mut d = Decimator::new(4, 1).unwrap();
    let mut out = Vec::new();
    assert_eq!(d.decimate(&mut out, &[1, 2, 3], 3), 0);
    assert_eq!(d.decimate(&mut out, &[4, 5, 6, 7, 8, 9, 10], 7), 2);
    assert_eq!(out, vec![2, 6]);
    d.clear();
    assert_eq!(d.decimate(&mut out, &[8, 8, 8, 8], 4), 1);
    assert_eq!(out, vec![2, 6, 8]);
}
