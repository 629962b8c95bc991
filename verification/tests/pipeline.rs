use soundtouch::{Controls, Error, Ratio, Setting, SoundTouch};

fn noise(n: usize, seed: u32) -> Vec<i16> {
    let mut x: u32 = seed;
    let mut out = Vec::with_capacity(n);
    for _ in 0..n {
        x = x.wrapping_mul(1664525).wrapping_add(1013904223);
        out.push(((x >> 16) as i32 - 32768) as i16);
    }
    out
}

fn tone(frames: usize, channels: usize, period: usize) -> Vec<i16> {
    let mut out = Vec::with_capacity(frames * channels);
    for f in 0..frames {
        let phase = (f % period) as i32;
        let half = (period / 2) as i32;
        let v = if phase < half { phase * 20000 / half - 10000 } else { 30000 - phase * 20000 / half };
        for c in 0..channels {
            out.push((v / (c as i32 + 1)) as i16);
        }
    }
    out
}

fn drain(st: &mut SoundTouch, channels: usize) -> Vec<i16> {
    let mut out = Vec::new();
    let mut buf = vec![0i16; 512 * channels];
    loop {
        let n = st.receive_samples(&mut buf, 512);
        if n == 0 {
            break;
        }
        out.extend_from_slice(&buf[..n * channels]);
    }
    out
}

fn configured(channels: u32, rate: u32) -> SoundTouch {
    let mut st = SoundTouch::new();
    assert_eq!(st.set_channels(channels), Ok(()));
    assert_eq!(st.set_sample_rate(rate), Ok(()));
    st
}

#[test]
fn put_is_refused_until_the_stream_is_described() {
    let mut st = SoundTouch::new();
    assert_eq!(st.put_samples(&[1, 2, 3, 4], 2), Err(Error::NotConfigured));
    assert_eq!(st.set_channels(2), Ok(()));
    assert_eq!(st.put_samples(&[1, 2, 3, 4], 2), Err(Error::NotConfigured));
    assert_eq!(st.set_sample_rate(8000), Ok(()));
    assert_eq!(st.put_samples(&[1, 2, 3, 4], 2), Ok(()));
    assert_eq!(st.num_unprocessed_samples(), 2);
    assert_eq!(st.generate_audio(&[1, 2]).map(|v| v.len()), Ok(6));
    let mut fresh = SoundTouch::new();
    assert_eq!(fresh.generate_audio(&[1, 2]), Err(Error::NotConfigured));
}

#[test]
fn put_is_refused_where_the_buffer_is_too_short() {
    let mut st = configured(2, 8000);
    assert_eq!(st.put_samples(&[1, 2, 3], 2), Err(Error::ShortBuffer));
    assert_eq!(st.num_unprocessed_samples(), 0);
    assert_eq!(st.put_samples(&[1, 2, 3], 1), Ok(()));
    assert_eq!(st.num_unprocessed_samples(), 1);
}

#[test]
fn values_out_of_range_are_refused_and_change_nothing() {
    let mut st = configured(2, 44100);
    let before = st.controls();
    assert_eq!(st.set_channels(0), Err(Error::OutOfRange));
    assert_eq!(st.set_channels(17), Err(Error::OutOfRange));
    assert_eq!(st.set_sample_rate(0), Err(Error::OutOfRange));
    assert_eq!(st.set_sample_rate(1000001), Err(Error::OutOfRange));
    assert_eq!(st.set_tempo(Ratio { num: 0, den: 1 }), Err(Error::OutOfRange));
    assert_eq!(st.set_pitch(Ratio { num: 1, den: 0 }), Err(Error::OutOfRange));
    assert_eq!(st.set_rate(Ratio { num: 1048577, den: 1 }), Err(Error::OutOfRange));
    assert_eq!(st.set_tempo_change(-100), Err(Error::OutOfRange));
    assert_eq!(st.set_rate_change(-150), Err(Error::OutOfRange));
    assert_eq!(st.set_pitch_semitones(13), Err(Error::OutOfRange));
    assert_eq!(st.set_pitch_semitones(-13), Err(Error::OutOfRange));
    assert_eq!(st.set_setting(Setting::AaFilterLength, 7), Err(Error::OutOfRange));
    assert_eq!(st.set_setting(Setting::AaFilterLength, 129), Err(Error::OutOfRange));
    assert_eq!(st.set_setting(Setting::SequenceMs, 0), Err(Error::OutOfRange));
    assert_eq!(st.set_setting(Setting::SeekwindowMs, 1001), Err(Error::OutOfRange));
    assert_eq!(st.set_setting(Setting::OverlapMs, -1), Err(Error::OutOfRange));
    assert_eq!(st.set_setting(Setting::NominalInputSequence, 5), Err(Error::ReadOnly));
    assert_eq!(st.set_setting(Setting::NominalOutputSequence, 5), Err(Error::ReadOnly));
    assert_eq!(st.set_setting(Setting::InitialLatency, 5), Err(Error::ReadOnly));
    assert_eq!(st.controls(), before);
}

#[test]
fn settings_read_back_what_was_set() {
    let mut st = configured(2, 44100);
    assert_eq!(st.get_setting(Setting::UseAaFilter), 1);
    assert_eq!(st.get_setting(Setting::AaFilterLength), 32);
    assert_eq!(st.get_setting(Setting::UseQuickseek), 0);
    assert_eq!(st.get_setting(Setting::SequenceMs), 40);
    assert_eq!(st.get_setting(Setting::SeekwindowMs), 15);
    assert_eq!(st.get_setting(Setting::OverlapMs), 8);
    assert_eq!(st.set_setting(Setting::UseAaFilter, 0), Ok(()));
    assert_eq!(st.set_setting(Setting::AaFilterLength, 64), Ok(()));
    assert_eq!(st.set_setting(Setting::UseQuickseek, 7), Ok(()));
    assert_eq!(st.set_setting(Setting::SequenceMs, 50), Ok(()));
    assert_eq!(st.set_setting(Setting::SeekwindowMs, 20), Ok(()));
    assert_eq!(st.set_setting(Setting::OverlapMs, 10), Ok(()));
    assert_eq!(st.get_setting(Setting::UseAaFilter), 0);
    assert_eq!(st.get_setting(Setting::AaFilterLength), 64);
    assert_eq!(st.get_setting(Setting::UseQuickseek), 1);
    assert_eq!(st.get_setting(Setting::SequenceMs), 50);
    assert_eq!(st.get_setting(Setting::SeekwindowMs), 20);
    assert_eq!(st.get_setting(Setting::OverlapMs), 10);
    assert_eq!(st.num_channels(), 2);
}

#[test]
fn derived_settings_follow_the_formulas() {
    let mut st = configured(2, 44100);
    // Overlap 8 ms = 352 frames, sequence 40 ms = 1764, window 15 ms = 661.
    assert_eq!(st.get_setting(Setting::NominalOutputSequence), 1764);
    assert_eq!(st.get_setting(Setting::NominalInputSequence), 1764);
    assert_eq!(st.get_setting(Setting::InitialLatency), 1764 + 352 + 661 - 1);
    assert_eq!(st.set_tempo(Ratio { num: 3, den: 2 }), Ok(()));
    assert_eq!(st.get_setting(Setting::NominalInputSequence), 2646);
    assert_eq!(st.set_rate(Ratio { num: 1, den: 2 }), Ok(()));
    assert_eq!(st.get_setting(Setting::NominalInputSequence), 1323);
    assert_eq!(st.get_setting(Setting::InitialLatency), 1388);
    assert_eq!(st.get_setting(Setting::NominalOutputSequence), 1764);
}

#[test]
fn setting_numbers_go_both_ways() {
    for code in 0u8..9 {
        let s = Setting::from_code(code).unwrap();
        assert_eq!(s.code(), code);
    }
    assert_eq!(Setting::from_code(9), None);
    assert_eq!(Setting::UseAaFilter.code(), 0);
    assert_eq!(Setting::OverlapMs.code(), 5);
    assert_eq!(Setting::InitialLatency.code(), 8);
}

#[test]
fn semitones_are_steps_of_an_octave() {
    let mut st = configured(1, 8000);
    assert_eq!(st.set_pitch_semitones(12), Ok(()));
    assert_eq!(st.controls().pitch, Ratio { num: 131072, den: 65536 });
    assert_eq!(st.set_pitch_semitones(0), Ok(()));
    assert_eq!(st.controls().pitch, Ratio { num: 65536, den: 65536 });
    assert_eq!(st.set_pitch_semitones(-12), Ok(()));
    assert_eq!(st.controls().pitch, Ratio { num: 65536, den: 131072 });
    assert_eq!(st.set_pitch_semitones(7), Ok(()));
    assert_eq!(st.controls().pitch, Ratio { num: 98193, den: 65536 });
    assert_eq!(st.set_pitch_semitones(-5), Ok(()));
    assert_eq!(st.controls().pitch, Ratio { num: 98193, den: 131072 });
    for n in -12..=12 {
        assert_eq!(st.set_pitch_semitones(n), Ok(()));
        let p = st.controls().pitch;
        let got = p.num as f64 / p.den as f64;
        let want = 2f64.powf(n as f64 / 12.0);
        assert!((got - want).abs() < 0.00001, "{} semitones: {} vs {}", n, got, want);
    }
}

#[test]
fn percent_changes_set_the_ratio() {
    let mut st = configured(1, 8000);
    assert_eq!(st.set_tempo_change(50), Ok(()));
    assert_eq!(st.controls().tempo, Ratio { num: 150, den: 100 });
    assert_eq!(st.set_rate_change(-25), Ok(()));
    assert_eq!(st.controls().rate, Ratio { num: 75, den: 100 });
}

#[test]
fn untouched_ratios_pass_the_stream_through() {
    let mut st = configured(2, 44100);
    let data = noise(2 * 5000, 5);
    assert_eq!(st.put_samples(&data, 5000), Ok(()));
    assert_eq!(st.num_samples(), 5000);
    let got = drain(&mut st, 2);
    assert_eq!(got, data);
    st.flush();
    assert_eq!(st.is_empty(), 1);
    assert!(st.is_drained());
}

#[test]
fn receive_hands_out_no_more_than_asked_for_or_ready() {
    let mut st = configured(2, 44100);
    let data = noise(2 * 10, 9);
    assert_eq!(st.put_samples(&data, 10), Ok(()));
    let mut buf = [0i16; 64];
    assert_eq!(st.receive_samples(&mut buf, 3), 3);
    assert_eq!(&buf[..6], &data[..6]);
    assert_eq!(buf[6], 0);
    // Room for two frames only.
    let mut small = [0i16; 5];
    assert_eq!(st.receive_samples(&mut small, 4), 2);
    assert_eq!(&small[..4], &data[6..10]);
    assert_eq!(small[4], 0);
    assert_eq!(st.receive_samples_no_in(1), 1);
    assert_eq!(st.receive_samples(&mut buf, 100), 4);
    assert_eq!(&buf[..8], &data[12..20]);
    assert_eq!(st.receive_samples(&mut buf, 100), 0);
    assert_eq!(st.receive_samples(&mut buf, 100), 0);
    assert_eq!(st.receive_samples_no_in(100), 0);
    assert_eq!(st.is_empty(), 1);
    assert_eq!(st.num_samples(), 0);
}

#[test]
fn tempo_changes_the_length_of_the_stream() {
    for (num, den) in [(3u64, 2u64), (2, 1), (1, 2), (4, 5)] {
        let mut st = configured(1, 8000);
        assert_eq!(st.set_tempo(Ratio { num, den }), Ok(()));
        let data = tone(40000, 1, 57);
        assert_eq!(st.put_samples(&data, 40000), Ok(()));
        let mut got = drain(&mut st, 1);
        st.flush();
        got.extend(drain(&mut st, 1));
        // A sequence of 40 ms at 8000 frames a second.
        let slack = 8000 * 40 / 1000;
        let len = got.len() as u64;
        assert!(40000 * den <= len * num, "tempo {}/{}: {}", num, den, len);
        assert!(len * num < 40000 * den + slack * num, "tempo {}/{}: {}", num, den, len);
        let ratio = st.get_input_output_sample_ratio();
        assert_eq!(ratio, Ratio { num: den, den: num });
    }
}

#[test]
fn rate_changes_the_length_of_the_stream() {
    for (num, den) in [(3u64, 2u64), (2, 1), (1, 2), (4, 5)] {
        let mut st = configured(2, 8000);
        assert_eq!(st.set_rate(Ratio { num, den }), Ok(()));
        let data = tone(9000, 2, 40);
        assert_eq!(st.put_samples(&data, 9000), Ok(()));
        let mut got = drain(&mut st, 2);
        st.flush();
        got.extend(drain(&mut st, 2));
        let frames = (got.len() / 2) as u64;
        // One output frame for each step of the cursor that lies in the stream.
        assert_eq!(frames, (9000 * den + num - 1) / num);
        assert_eq!(st.get_input_output_sample_ratio(), Ratio { num: den, den: num });
    }
}

#[test]
fn pitch_keeps_the_length_of_the_stream() {
    let mut st = configured(1, 8000);
    assert_eq!(st.set_pitch(Ratio { num: 5, den: 4 }), Ok(()));
    let data = tone(40000, 1, 64);
    assert_eq!(st.put_samples(&data, 40000), Ok(()));
    let mut got = drain(&mut st, 1);
    st.flush();
    got.extend(drain(&mut st, 1));
    let len = got.len() as i64;
    assert!(len >= 40000, "{}", len);
    assert!(len <= 40000 + 400, "{}", len);
    assert_eq!(st.get_input_output_sample_ratio(), Ratio { num: 1, den: 1 });
}

#[test]
fn the_cut_of_the_input_does_not_change_the_output() {
    let data = noise(2 * 6000, 21);
    let mut whole = configured(2, 8000);
    assert_eq!(whole.set_tempo(Ratio { num: 5, den: 4 }), Ok(()));
    assert_eq!(whole.set_rate(Ratio { num: 9, den: 10 }), Ok(()));
    assert_eq!(whole.put_samples(&data, 6000), Ok(()));
    let one = drain(&mut whole, 2);
    let mut cut = configured(2, 8000);
    assert_eq!(cut.set_tempo(Ratio { num: 5, den: 4 }), Ok(()));
    assert_eq!(cut.set_rate(Ratio { num: 9, den: 10 }), Ok(()));
    let mut many = Vec::new();
    for piece in data.chunks(2 * 333) {
        assert_eq!(cut.put_samples(piece, piece.len() / 2), Ok(()));
        many.extend(drain(&mut cut, 2));
    }
    assert_eq!(one, many);
    assert!(!one.is_empty());
}

#[test]
fn clear_drops_the_samples_and_keeps_the_settings() {
    let mut st = configured(2, 8000);
    assert_eq!(st.set_tempo(Ratio { num: 3, den: 2 }), Ok(()));
    let data = noise(2 * 3000, 4);
    assert_eq!(st.put_samples(&data, 3000), Ok(()));
    assert!(st.num_samples() > 0);
    let before = st.controls();
    st.clear();
    assert_eq!(st.is_empty(), 1);
    assert_eq!(st.num_unprocessed_samples(), 0);
    assert_eq!(st.controls(), before);
    assert!(!st.is_drained());
}

#[test]
fn a_new_pipeline_has_the_default_settings() {
    let st = SoundTouch::new();
    let c = st.controls();
    assert_eq!(
        c,
        Controls {
            channels: 0,
            sample_rate: 0,
            tempo: Ratio { num: 1, den: 1 },
            pitch: Ratio { num: 1, den: 1 },
            rate: Ratio { num: 1, den: 1 },
            use_aa_filter: true,
            aa_filter_length: 32,
            use_quickseek: false,
            sequence_ms: 40,
            seekwindow_ms: 15,
            overlap_ms: 8,
        }
    );
    let d = SoundTouch::default();
    assert_eq!(d.controls(), c);
    assert_eq!(SoundTouch::get_version_id(), 100);
    assert_eq!(SoundTouch::get_version_string(), "0.1.0");
}

#[test]
fn generate_audio_returns_what_is_ready_and_ends_the_stream() {
    let mut st = configured(2, 8000);
    assert_eq!(st.set_tempo(Ratio { num: 3, den: 2 }), Ok(()));
    let data = tone(8000, 2, 50);
    let out = st.generate_audio(&data).unwrap();
    assert_eq!(out.len() % 2, 0);
    assert!(out.len() / 2 <= 8000 * 2 / 3);
    assert!(out.len() / 2 >= 8000 * 2 / 3 - 1000);
    assert!(st.is_drained());
    // What the end of the stream brought out is still inside.
    let rest = drain(&mut st, 2);
    let total = (out.len() + rest.len()) / 2;
    assert!(total >= 8000 * 2 / 3);
    assert!(total <= 8000 * 2 / 3 + 400);
}

#[test]
fn quick_seek_tries_every_fourth_place() {
    let data = tone(8000, 1, 45);
    let mut slow = configured(1, 8000);
    assert_eq!(slow.set_tempo(Ratio { num: 3, den: 2 }), Ok(()));
    let full = slow.generate_audio(&data).unwrap();
    let mut quick = configured(1, 8000);
    assert_eq!(quick.set_tempo(Ratio { num: 3, den: 2 }), Ok(()));
    assert_eq!(quick.set_setting(Setting::UseQuickseek, 1), Ok(()));
    let fast = quick.generate_audio(&data).unwrap();
    assert_eq!(full.len(), fast.len());
}

#[test]
fn octaves_lie_on_the_line_between_the_semitones() {
    let mut st = configured(1, 8000);
    assert_eq!(st.set_pitch_octaves(1000), Ok(()));
    assert_eq!(st.controls().pitch, Ratio { num: 262144, den: 131072 });
    assert_eq!(st.set_pitch_octaves(0), Ok(()));
    assert_eq!(st.controls().pitch, Ratio { num: 131072, den: 131072 });
    assert_eq!(st.set_pitch_octaves(-1000), Ok(()));
    assert_eq!(st.controls().pitch, Ratio { num: 65536, den: 131072 });
    // A quarter of an octave is three semitones.
    assert_eq!(st.set_pitch_octaves(250), Ok(()));
    assert_eq!(st.controls().pitch, Ratio { num: 2 * 77936, den: 131072 });
    // A twenty-fourth of an octave lies halfway between two semitones.
    assert_eq!(st.set_pitch_octaves(-958), Ok(()));
    assert_eq!(st.controls().pitch, Ratio { num: (65536 * 496 + 69433 * 504) / 1000, den: 131072 });
    assert_eq!(st.set_pitch_octaves(1001), Err(Error::OutOfRange));
    assert_eq!(st.set_pitch_octaves(-1001), Err(Error::OutOfRange));
    for milli in (-1000..=1000).step_by(37) {
        assert_eq!(st.set_pitch_octaves(milli), Ok(()));
        let p = st.controls().pitch;
        let got = p.num as f64 / p.den as f64;
        let want = 2f64.powf(milli as f64 / 1000.0);
        assert!((got / want - 1.0).abs() < 0.0005, "{}: {} vs {}", milli, got, want);
    }
}

#[test]
fn the_end_of_a_stream_adds_less_than_a_sequence() {
    // One frame at half the tempo: two frames are owed, and one sequence of
    // forty frames comes out, with nothing behind it.
    let mut st = configured(1, 1000);
    assert_eq!(st.set_tempo(Ratio { num: 1, den: 2 }), Ok(()));
    assert_eq!(st.get_setting(Setting::NominalOutputSequence), 40);
    assert_eq!(st.put_samples(&[1234], 1), Ok(()));
    assert_eq!(st.num_samples(), 0);
    st.flush();
    assert_eq!(st.num_samples(), 40);
    let got = drain(&mut st, 1);
    assert_eq!(got[0], 1234);
    assert!(got[1..].iter().all(|x| *x == 0));
    // Nothing waits inside: to end the stream again adds nothing.
    st.flush();
    assert_eq!(st.num_samples(), 0);
}

#[test]
fn the_end_of_a_stream_after_frames_were_received() {
    for (num, den) in [(3u64, 2u64), (1, 2), (4, 5), (7, 3)] {
        let mut st = configured(2, 8000);
        assert_eq!(st.set_tempo(Ratio { num, den }), Ok(()));
        let data = tone(30000, 2, 31);
        let mut received = 0u64;
        for piece in data.chunks(2 * 4321) {
            assert_eq!(st.put_samples(piece, piece.len() / 2), Ok(()));
            received += (drain(&mut st, 2).len() / 2) as u64;
        }
        let waiting = st.num_unprocessed_samples() as u64;
        let before = st.num_samples() as u64;
        assert_eq!(before, 0);
        st.flush();
        let added = st.num_samples() as u64;
        // Less than the frames owed for what waited and one sequence.
        assert!(added * num < waiting * den + 320 * num, "{}/{}: {}", num, den, added);
        // The whole stream has the length that the tempo sets.
        let all = received + added;
        assert!(30000 * den <= all * num, "{}/{}: {}", num, den, all);
        assert!(all * num < 30000 * den + 320 * num, "{}/{}: {}", num, den, all);
    }
}
