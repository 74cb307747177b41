use sampsyn::codec::{parse_wavetable_from_buffer, serialize_wavetable};
use sampsyn::table::{create_wavetable, Frame, WaveTable};

fn stereo_of_mono(mono: &[i32]) -> Vec<i16> {
    let mut out = Vec::new();
    for &v in mono {
        out.push(v as i16);
        out.push(v as i16);
    }
    out
}

fn assert_tables_equal(a: &WaveTable, b: &WaveTable) {
    assert_eq!(a.fundamental_mhz, b.fundamental_mhz);
    assert_eq!(a.source_sample_rate, b.source_sample_rate);
    assert_eq!(a.frame_length, b.frame_length);
    assert_eq!(a.frames.len(), b.frames.len());
    for (fa, fb) in a.frames.iter().zip(b.frames.iter()) {
        assert_eq!(fa.offset, fb.offset);
        assert_eq!(fa.samples, fb.samples);
    }
}

#[test]
fn round_trip_reproduces_the_table_exactly() {
    let mono: Vec<i32> = (0..64).map(|i| (i * 31) % 53 - 26).collect();
    let table = create_wavetable(stereo_of_mono(&mono), 80, 10_000).unwrap();
    assert!(table.frames.len() > 1);
    let bytes = serialize_wavetable(&table);
    let back = parse_wavetable_from_buffer(&bytes).unwrap();
    assert_tables_equal(&table, &back);
}

#[test]
fn round_trip_of_a_frameless_table() {
    let table = WaveTable {
        fundamental_mhz: 440_000,
        source_sample_rate: 44_100,
        frame_length: 100,
        frames: Vec::new(),
    };
    let bytes = serialize_wavetable(&table);
    assert_eq!(bytes.len(), 24);
    let back = parse_wavetable_from_buffer(&bytes).unwrap();
    assert_tables_equal(&table, &back);
}

#[test]
fn round_trip_keeps_extreme_sample_values() {
    let table = WaveTable {
        fundamental_mhz: 1,
        source_sample_rate: 1,
        frame_length: 3,
        frames: vec![
            Frame { offset: 0, samples: vec![-32768, 0, 32768] },
            Frame { offset: 7, samples: vec![1, -1, 17] },
        ],
    };
    let bytes = serialize_wavetable(&table);
    let back = parse_wavetable_from_buffer(&bytes).unwrap();
    assert_tables_equal(&table, &back);
}

#[test]
fn corrupt_buffers_are_rejected() {
    let mono: Vec<i32> = (0..16).map(|i| i - 8).collect();
    let table = create_wavetable(stereo_of_mono(&mono), 40, 10_000).unwrap();
    let bytes = serialize_wavetable(&table);

    // Too short for a header.
    assert!(parse_wavetable_from_buffer(&bytes[..23]).is_none());
    // A trailing byte makes the length inconsistent.
    let mut longer = bytes.clone();
    longer.push(0);
    assert!(parse_wavetable_from_buffer(&longer).is_none());
    // A zero frame length is not well formed.
    let mut zero_fl = bytes.clone();
    for i in 8..16 {
        zero_fl[i] = 0;
    }
    assert!(parse_wavetable_from_buffer(&zero_fl).is_none());
    // An out-of-range sample word is rejected.
    let mut bad_sample = bytes.clone();
    let sample_pos = 24 + 8;
    bad_sample[sample_pos + 2] = 0xff;
    assert!(parse_wavetable_from_buffer(&bad_sample).is_none());
    // Frames whose offsets do not increase are rejected.
    let intact = parse_wavetable_from_buffer(&bytes).unwrap();
    assert!(intact.frames.len() >= 2);
    let w = 8 + 4 * intact.frame_length;
    let mut unsorted = bytes.clone();
    for i in 0..8 {
        unsorted[24 + w + i] = 0;
    }
    assert!(parse_wavetable_from_buffer(&unsorted).is_none());
}
