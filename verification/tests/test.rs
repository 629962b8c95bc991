use soundtouch::{Ratio, SoundTouch};

fn change_tempo(samples: &[i16], sample_rate: u32, channels: u32, rate: Ratio) -> Vec<i16> {
    let mut soundtouch = SoundTouch::new();
    soundtouch.set_tempo(rate).unwrap();
    soundtouch.set_sample_rate(sample_rate).unwrap();
    soundtouch.set_channels(channels).unwrap();
    soundtouch.generate_audio(samples).unwrap()
}

#[test]
fn test() {
    // Two seconds of a stereo sweep stand in for a recording.
    let rate: u32 = 22050;
    let mut samples: Vec<i16> = Vec::new();
    let mut phase: u32 = 0;
    for f in 0..(2 * rate) {
        phase = (phase + 200 + f / 64) % 4096;
        let v = (phase as i32 - 2048) * 8;
        samples.push(v as i16);
        samples.push((v / 2) as i16);
    }
    let out = change_tempo(&samples, rate, 2, Ratio { num: 3, den: 2 });
    assert!(!out.is_empty());
    assert_eq!(out.len() % 2, 0);
    assert!(out.len() <= samples.len() * 2 / 3);
}
