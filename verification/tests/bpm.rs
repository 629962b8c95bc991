use soundtouch::bpm_detect::{BPMDetect, Beat};
use soundtouch::decimate::Decimator;
use soundtouch::envelope::EnvelopeFollower;
use soundtouch::xcorr::Correlogram;
use soundtouch::Error;

fn clicks(rate: usize, channels: usize, seconds: usize, every: usize, height: i16) -> Vec<i16> {
    let mut out = vec![0i16; rate * seconds * channels];
    let mut f = 0;
    while f < rate * seconds {
        for c in 0..channels {
            out[f * channels + c] = height;
        }
        f += every;
    }
    out
}

#[test]
fn detector_refuses_streams_it_cannot_take() {
    assert!(matches!(BPMDetect::new(0, 44100), Err(Error::OutOfRange)));
    assert!(matches!(BPMDetect::new(17, 44100), Err(Error::OutOfRange)));
    assert!(matches!(BPMDetect::new(2, 0), Err(Error::OutOfRange)));
    assert!(matches!(BPMDetect::new(2, 1000001), Err(Error::OutOfRange)));
    let d = BPMDetect::new(2, 44100).ok().unwrap();
    assert_eq!(d.num_channels(), 2);
    assert_eq!(d.sample_rate(), 44100);
    let e = BPMDetect::default();
    assert_eq!(e.num_channels(), 2);
    assert_eq!(e.sample_rate(), 44100);
}

#[test]
fn clicks_at_120_a_minute_read_as_120() {
    let mut d = BPMDetect::new(1, 44100).ok().unwrap();
    let data = clicks(44100, 1, 10, 22050, 32767);
    for piece in data.chunks(4096) {
        d.input_samples(piece);
    }
    let bpm = d.get_bpm();
    assert!(bpm >= 119000 && bpm <= 121000, "{}", bpm);
    assert_eq!(bpm, 119986);
    // Reading twice changes nothing.
    assert_eq!(d.get_bpm(), 119986);
    let beats = d.beats();
    assert_eq!(beats.len(), 20);
    for (i, b) in beats.iter().enumerate() {
        let truth = (i * 22050) as i64;
        let off = (b.position as i64 - truth).abs();
        assert!(off < 88, "beat {} at {} instead of {}", i, b.position, truth);
    }
    assert_eq!(beats[1], Beat { position: 22000, strength: 91 });
}

#[test]
fn clicks_at_90_a_minute_in_stereo_read_as_90() {
    let mut d = BPMDetect::new(2, 48000).ok().unwrap();
    let data = clicks(48000, 2, 10, 32000, 30000);
    d.input_samples(&data);
    let bpm = d.get_bpm();
    assert!(bpm >= 89000 && bpm <= 91000, "{}", bpm);
    assert_eq!(bpm, 90026);
}

#[test]
fn clicks_at_60_and_at_180_a_minute() {
    let mut slow = BPMDetect::new(1, 44100).ok().unwrap();
    slow.input_samples(&clicks(44100, 1, 12, 44100, 32767));
    let bpm = slow.get_bpm();
    assert!(bpm >= 59000 && bpm <= 61000, "{}", bpm);
    let mut fast = BPMDetect::new(1, 44100).ok().unwrap();
    fast.input_samples(&clicks(44100, 1, 12, 14700, 32767));
    let bpm = fast.get_bpm();
    assert!(bpm >= 179000 && bpm <= 181000, "{}", bpm);
}

#[test]
fn silence_has_no_beat() {
    for seconds in [0usize, 1, 3, 20] {
        let mut d = BPMDetect::new(2, 8000).ok().unwrap();
        let data = vec![0i16; 8000 * 2 * seconds];
        for piece in data.chunks(5000) {
            d.input_samples(piece);
        }
        assert_eq!(d.get_bpm(), 0);
        assert_eq!(d.query_size(0), 0);
        assert!(d.beats().is_empty());
    }
}

#[test]
fn the_cut_of_the_stream_does_not_change_the_reading() {
    let data = clicks(8000, 2, 8, 3000, 20000);
    let mut whole = BPMDetect::new(2, 8000).ok().unwrap();
    whole.input_samples(&data);
    let mut cut = BPMDetect::new(2, 8000).ok().unwrap();
    for piece in data.chunks(2 * 777) {
        cut.input_samples(piece);
    }
    assert_eq!(whole.beats(), cut.beats());
    assert_eq!(whole.get_bpm(), cut.get_bpm());
    assert!(whole.get_bpm() > 0);
}

#[test]
fn beats_are_copied_as_far_as_there_is_room() {
    let mut d = BPMDetect::new(1, 8000).ok().unwrap();
    d.input_samples(&clicks(8000, 1, 6, 4000, 32767));
    let all = d.beats();
    assert_eq!(all.len(), 12);
    assert_eq!(d.query_size(3), 12);
    let mut pos = [7u64; 5];
    let mut val = [7i16; 8];
    assert_eq!(d.get_beats(&mut pos, &mut val, 4), 4);
    for i in 0..4 {
        assert_eq!(pos[i], all[i].position);
        assert_eq!(val[i], all[i].strength);
    }
    assert_eq!(pos[4], 7);
    assert_eq!(val[4], 7);
    assert_eq!(d.get_beats(&mut pos, &mut val, 100), 5);
    assert_eq!(pos[4], all[4].position);
    assert_eq!(val[5], 7);
    assert_eq!(d.get_beats(&mut pos, &mut val, 0), 0);
    assert_eq!(d.get_beats(&mut pos, &mut val, -3), 0);
    assert_eq!(all[1].position, 4000);
}

#[test]
fn decimator_takes_the_mean_of_each_block() {
    let mut d = Decimator::new(3, 2).unwrap();
    let mut out = Vec::new();
    let src: [i16; 14] = [6, 0, 6, 0, 6, 0, -1, -1, -1, -1, -1, -2, 100, 100];
    assert_eq!(d.decimate(&mut out, &src, 7), 2);
    // (6 * 3) / 6 = 3; (-7) / 6 rounded down = -2.
    assert_eq!(out, vec![3, -2]);
    // The seventh frame waits in the block; two more fill it.
    assert_eq!(d.decimate(&mut out, &[20, 20, 60, 60], 5), 1);
    assert_eq!(out, vec![3, -2, 60]);
    assert!(Decimator::new(0, 2).is_none());
    assert!(Decimator::new(3, 0).is_none());
    assert!(Decimator::new(3, 17).is_none());
}

#[test]
fn envelope_of_a_single_peak() {
    let mut f = EnvelopeFollower::new();
    let mut xs: [i16; 7] = [0, -400, 0, 0, 0, 0, 0];
    f.calc_envelope(&mut xs);
    // The mean of four magnitudes is 100 for four samples; the running mean
    // takes 100 / 64 = 1 off each after the first.
    assert_eq!(xs, [0, 99, 97, 96, 94, 0, 0]);
    let mut g = EnvelopeFollower::new();
    assert_eq!(g.follow(-32768), 8064);
}

#[test]
fn correlogram_adds_up_the_products() {
    let mut c = Correlogram::new(1, 3).unwrap();
    let buf: [i16; 6] = [1, 2, 3, 4, 5, 6];
    c.update(&buf, 100);
    // Three samples have partners at every lag below three.
    assert_eq!(c.lags(), 3);
    assert_eq!(c.start(), 1);
    // A window is six samples long: a pair one lag apart lies in five
    // windows, a pair two lags apart in four.
    assert_eq!(c.sums(), &[0, 5 * (2 + 6 + 12), 4 * (3 + 8 + 15)]);
    c.remove_bias();
    assert_eq!(c.sums(), &[0, 0, 4]);
    // The highest sum stands at lag 2; the parabola through it and its
    // neighbours has its top at lag 2.5: 200 beats a second at 500 samples
    // a second.
    assert_eq!(c.tempo(500, 1), 12_000_000);
    assert_eq!(c.tempo(44100, 88), 12_027_272);
    assert!(Correlogram::new(4, 3).is_none());
    assert!(Correlogram::new(0, 4097).is_none());
}

#[test]
fn steps_of_the_detector_can_be_taken_one_by_one() {
    let data = clicks(8000, 1, 6, 4000, 32767);
    let mut whole = BPMDetect::new(1, 8000).ok().unwrap();
    whole.input_samples(&data);
    let mut steps = BPMDetect::new(1, 8000).ok().unwrap();
    let mut dec = Vec::new();
    let n = steps.decimate(&mut dec, &data, data.len());
    assert_eq!(n, 3000);
    assert_eq!(dec.len(), 3000);
    assert_eq!(dec[250], 32767 / 16);
    steps.calc_envelope(&mut dec);
    // Nothing is kept by these two steps, so nothing is found or read yet.
    steps.update_beat_pos(5000);
    steps.update_x_corr(5000);
    steps.remove_bias();
    assert_eq!(steps.query_size(0), 0);
    assert_eq!(steps.get_bpm(), 0);
    assert!(whole.get_bpm() > 0);
}

#[test]
fn the_envelope_only_grows_until_the_detector_is_reset() {
    let data = clicks(8000, 1, 4, 4000, 32767);
    let mut d = BPMDetect::new(1, 8000).ok().unwrap();
    let mut before: Vec<i16> = Vec::new();
    for piece in data.chunks(2500) {
        d.input_samples(piece);
        let now = d.envelope().to_vec();
        assert!(now.len() >= before.len());
        assert_eq!(&now[..before.len()], &before[..]);
        before = now;
    }
    assert_eq!(before.len(), 8000 * 4 / 16);
    assert!(before.iter().all(|x| *x >= 0));
    assert!(!d.beats().is_empty());
    d.reset();
    assert!(d.envelope().is_empty());
    assert!(d.beats().is_empty());
    assert_eq!(d.get_bpm(), 0);
    assert_eq!(d.num_channels(), 1);
    assert_eq!(d.sample_rate(), 8000);
    // After a reset the detector hears a stream as a new one does.
    d.input_samples(&data);
    let mut fresh = BPMDetect::new(1, 8000).ok().unwrap();
    fresh.input_samples(&data);
    assert_eq!(d.beats(), fresh.beats());
    assert_eq!(d.get_bpm(), fresh.get_bpm());
}

#[test]
fn the_highest_sum_decides_the_reading() {
    // One sample with partners of 7 at lag 2 and of 10 at lag 4. A window
    // is ten samples long, so the sums are 8 * 70 and 6 * 100.
    let mut c = Correlogram::new(1, 5).unwrap();
    let buf: [i16; 6] = [10, 0, 7, 0, 10, 0];
    assert_eq!(c.update(&buf, 100), 1);
    assert_eq!(c.sums(), &[0, 0, 560, 0, 600]);
    c.remove_bias();
    assert_eq!(c.sums(), &[0, 0, 560, 0, 600]);
    // The sum at lag 2 is nearly as high, but the reading is taken at the
    // highest: lag 4, which the parabola moves half a lag on.
    assert_eq!(c.tempo(500, 1), 60000 * 500 * 2 / 9);
    // Among equals the first decides.
    let mut d = Correlogram::new(1, 5).unwrap();
    d.update(&[10, 0, 0, 10, 0, 0, 0, 0, 0], 1);
    d.update(&[20, 0, 0, 0, 0, 0], 1);
    assert_eq!(d.sums(), &[0, 0, 0, 700, 0]);
    assert_eq!(d.tempo(500, 1), 60000 * 500 / 3);
}

#[test]
fn clicks_at_120_a_minute_at_many_sample_rates() {
    for rate in [8000usize, 11025, 16000, 22050, 32000, 44100, 48000, 96000] {
        for channels in [1usize, 2] {
            let every = rate / 2;
            let mut d = BPMDetect::new(channels as u32, rate as u32).ok().unwrap();
            let data = clicks(rate, channels, 10, every, 32767);
            for piece in data.chunks(channels * 5000) {
                d.input_samples(piece);
            }
            let bpm = d.get_bpm();
            assert!(bpm >= 119000 && bpm <= 121000, "{} Hz: {}", rate, bpm);
            // Every beat lies within one block of the decimation of its click,
            // and the beats come in the order of the stream.
            let block = (rate / 500) as i64;
            let beats = d.beats();
            assert_eq!(beats.len(), 20);
            for (i, b) in beats.iter().enumerate() {
                let truth = (i * every) as i64;
                assert!((b.position as i64 - truth).abs() < block, "{} Hz beat {}", rate, i);
                assert!((b.position as usize) < rate * 10);
                if i > 0 {
                    assert!(beats[i - 1].position <= b.position);
                }
            }
        }
    }
}
