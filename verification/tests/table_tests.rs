use sampsyn::signal::{into_mono, normalize, SCALE};
use sampsyn::table::create_wavetable;

fn stereo_of_mono(mono: &[i32]) -> Vec<i16> {
    let mut out = Vec::new();
    for &v in mono {
        out.push(v as i16);
        out.push(v as i16);
    }
    out
}

#[test]
fn downmix_averages_pairs_and_drops_trailing() {
    let mono = into_mono(&vec![1000i16, 2000, 3000]);
    assert_eq!(mono, vec![1500]);
    let mono = into_mono(&vec![-3i16, -4, 10, 20]);
    assert_eq!(mono, vec![-3, 15]);
    let mono = into_mono(&vec![]);
    assert_eq!(mono, Vec::<i32>::new());
}

#[test]
fn normalize_scales_peak_to_unit() {
    let out = normalize(vec![100, -200]);
    assert_eq!(out, vec![100 * 32768 / 200, -SCALE]);
    let out = normalize(vec![0, 0, 0]);
    assert_eq!(out, vec![0, 0, 0]);
}

#[test]
fn first_frame_starts_at_zero_with_full_length() {
    // 16 mono samples at 40 Hz sample rate, fundamental 10 Hz: frame length 4.
    let mono: Vec<i32> = vec![1000, 500, -250, 125, 60, 30, 15, 8, 4, 2, 1, 0, 0, 0, 0, 0];
    let table = create_wavetable(stereo_of_mono(&mono), 40, 10_000).unwrap();
    assert_eq!(table.frame_length, 4);
    assert_eq!(table.frames[0].offset, 0);
    assert_eq!(table.frames[0].samples.len(), 4);
}

#[test]
fn frame_offsets_double_and_increase() {
    let mono: Vec<i32> = vec![1000, 500, -250, 125, 60, 30, 15, 8, 4, 2, 1, 0, 0, 0, 0, 0];
    let table = create_wavetable(stereo_of_mono(&mono), 40, 10_000).unwrap();
    // frames while offset + 4 < 16: offsets 0, 4, 8.
    assert_eq!(table.frames.len(), 3);
    let offsets: Vec<usize> = table.frames.iter().map(|f| f.offset).collect();
    assert_eq!(offsets, vec![0, 4, 8]);
    for w in offsets.windows(2) {
        assert!(w[0] < w[1]);
    }
    for f in &table.frames {
        assert_eq!(f.samples.len(), 4);
    }
}

#[test]
fn peak_maps_to_unit_amplitude() {
    let mono: Vec<i32> = vec![1000, 500, -250, 125, 60, 30, 15, 8, 4, 2, 1, 0, 0, 0, 0, 0];
    let table = create_wavetable(stereo_of_mono(&mono), 40, 10_000).unwrap();
    let max = table
        .frames
        .iter()
        .flat_map(|f| f.samples.iter())
        .map(|s| s.abs())
        .max()
        .unwrap();
    assert_eq!(max, SCALE);
    // The peak sample itself lands in the first frame.
    assert_eq!(table.frames[0].samples[0], SCALE);
    // A half-amplitude sample scales exactly.
    assert_eq!(table.frames[0].samples[1], 500 * 32768 / 1000);
}

#[test]
fn silent_recording_gives_all_zero_table() {
    // 2 seconds of silent stereo at 44100 Hz, fundamental 100 Hz.
    let stereo = vec![0i16; 2 * 44100 * 2];
    let table = create_wavetable(stereo, 44100, 100_000).unwrap();
    assert_eq!(table.frame_length, 441);
    // Offsets 441 * 2^k while offset + 441 < 88200: 441 .. 441*128, plus frame 0.
    assert_eq!(table.frames.len(), 9);
    assert!(table.frames.len() >= 1);
    for f in &table.frames {
        assert_eq!(f.samples.len(), 441);
        for &s in f.samples.iter() {
            assert_eq!(s, 0);
        }
    }
}

#[test]
fn too_short_input_is_rejected() {
    // Fundamental 10 Hz at 40 Hz needs 4 mono samples; give 3.
    let stereo = stereo_of_mono(&[1, 2, 3]);
    assert!(create_wavetable(stereo, 40, 10_000).is_none());
}

#[test]
fn zero_rate_or_pitch_is_rejected() {
    let stereo = stereo_of_mono(&[1, 2, 3, 4]);
    assert!(create_wavetable(stereo.clone(), 0, 10_000).is_none());
    assert!(create_wavetable(stereo, 40, 0).is_none());
}
