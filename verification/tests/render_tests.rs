use sampsyn::render::{initial_state, wavetable_act, wavetable_act_state};
use sampsyn::table::{create_wavetable, Frame, WaveTable};

fn stereo_of_mono(mono: &[i32]) -> Vec<i16> {
    let mut out = Vec::new();
    for &v in mono {
        out.push(v as i16);
        out.push(v as i16);
    }
    out
}

/// A single-frame table: 100 samples per frame, sample rate 1000 Hz,
/// fundamental 10 Hz, template values rising then falling.
fn single_frame_table() -> WaveTable {
    let mut mono: Vec<i32> = Vec::new();
    for i in 0..200 {
        mono.push(if i < 100 { i } else { 200 - i });
    }
    let table = create_wavetable(stereo_of_mono(&mono), 1000, 10_000).unwrap();
    assert_eq!(table.frame_length, 100);
    assert_eq!(table.frames.len(), 1);
    table
}

#[test]
fn render_returns_exactly_the_requested_length() {
    let table = single_frame_table();
    for len in [0usize, 1, 7, 100, 1000] {
        assert_eq!(wavetable_act(&table, 12_345, 0, 48_000, len).len(), len);
    }
}

#[test]
fn empty_table_renders_empty() {
    let table = WaveTable {
        fundamental_mhz: 10_000,
        source_sample_rate: 1000,
        frame_length: 100,
        frames: Vec::new(),
    };
    assert_eq!(wavetable_act(&table, 10_000, 0, 1000, 50), Vec::<i32>::new());
}

#[test]
fn identity_playback_reproduces_the_template() {
    let table = single_frame_table();
    let out = wavetable_act(&table, 10_000, 0, 1000, 100);
    assert_eq!(out, table.frames[0].samples);
    // A second cycle wraps around to the same values.
    let out2 = wavetable_act(&table, 10_000, 0, 1000, 250);
    for i in 0..250 {
        assert_eq!(out2[i], table.frames[0].samples[i % 100]);
    }
}

#[test]
fn octave_up_plays_every_second_sample() {
    let table = single_frame_table();
    let out = wavetable_act(&table, 20_000, 0, 1000, 150);
    for i in 0..150 {
        assert_eq!(out[i], table.frames[0].samples[(2 * i) % 100]);
    }
}

#[test]
fn single_frame_never_blends() {
    // Playback far past the single frame's timestamp stays on its template.
    let table = single_frame_table();
    let at_start = wavetable_act(&table, 10_000, 0, 1000, 100);
    let much_later = wavetable_act(&table, 10_000, 5000, 1000, 100);
    assert_eq!(at_start, much_later);
}

#[test]
fn start_beyond_last_frame_plays_it_alone() {
    let mono: Vec<i32> = (0..64).map(|i| (i * 13) % 37 - 18).collect();
    let table = create_wavetable(stereo_of_mono(&mono), 80, 10_000).unwrap();
    assert_eq!(table.frame_length, 8);
    assert!(table.frames.len() > 1);
    let last = table.frames.last().unwrap();
    // Start two full signal lengths past the end, at the source rate and pitch.
    let start = 1024u64;
    let out = wavetable_act(&table, 10_000, start, 80, 16);
    for i in 0..16 {
        assert_eq!(out[i], last.samples[((start as usize) + i) % 8]);
    }
}

#[test]
fn silent_table_renders_zeros_for_any_arguments() {
    let stereo = vec![0i16; 2 * 44100 * 2];
    let table = create_wavetable(stereo, 44100, 100_000).unwrap();
    for (hz, start, sr, len) in [
        (100_000u32, 0u64, 44100u32, 1000usize),
        (123_456, 77, 48_000, 333),
        (1, 1_000_000, 8000, 10),
    ] {
        let out = wavetable_act(&table, hz, start, sr, len);
        assert_eq!(out.len(), len);
        assert!(out.iter().all(|&s| s == 0));
    }
}

#[test]
fn streaming_state_matches_batch_render() {
    let mono: Vec<i32> = (0..64).map(|i| (i * 29) % 61 - 30).collect();
    let table = create_wavetable(stereo_of_mono(&mono), 80, 10_000).unwrap();
    assert!(table.frames.len() > 1);
    let batch = wavetable_act(&table, 15_000, 0, 120, 200);
    let mut state = initial_state(&table, 0, 120);
    let mut streamed = Vec::new();
    for _ in 0..200 {
        streamed.push(wavetable_act_state(&table, &mut state, 15_000, 120));
    }
    assert_eq!(batch, streamed);
}

#[test]
fn cross_fade_blends_between_bracketing_frames() {
    // Two frames with distinct constant content after normalization.
    let table = WaveTable {
        fundamental_mhz: 10_000,
        source_sample_rate: 40,
        frame_length: 4,
        frames: vec![
            Frame { offset: 0, samples: vec![0, 0, 0, 0] },
            Frame { offset: 4, samples: vec![32768, 32768, 32768, 32768] },
        ],
    };
    // At the source rate and pitch, time u/40 runs from frame 0 (t=0) to
    // frame 1 (t=0.1): the blend at sample u is u/4 of the way across.
    let out = wavetable_act(&table, 10_000, 0, 40, 5);
    assert_eq!(out, vec![0, 8192, 16384, 24576, 32768]);
}

#[test]
fn extreme_pitch_ratios_wrap_without_failing() {
    // Phase advances far more than a whole frame per output sample.
    let table = single_frame_table();
    let out = wavetable_act(&table, 50_000_000, 0, 1000, 64);
    assert_eq!(out.len(), 64);
    for &s in &out {
        assert!(-32768 <= s && s <= 32768);
    }
    // Rate 5000: each output sample advances 5000 template samples, wrapping
    // to position (5000 * i) % 100 == 0 every time.
    assert!(out.iter().all(|&s| s == table.frames[0].samples[0]));
}

#[test]
fn fractional_phase_interpolates_between_neighbours() {
    // Output at twice the source rate: every odd sample sits halfway
    // between two template samples.
    let table = single_frame_table();
    let s = &table.frames[0].samples;
    let out = wavetable_act(&table, 10_000, 0, 2000, 200);
    for i in 0..100 {
        assert_eq!(out[2 * i], s[i]);
        let lo = s[i];
        let hi = s[(i + 1) % 100];
        let d = hi - lo;
        let expect = if d >= 0 { lo + d / 2 } else { lo - (-d) / 2 };
        assert_eq!(out[2 * i + 1], expect);
    }
}

#[test]
fn initial_state_sits_at_the_bracket_of_start() {
    let mono: Vec<i32> = (0..64).map(|i| (i * 13) % 37 - 18).collect();
    let table = create_wavetable(stereo_of_mono(&mono), 80, 10_000).unwrap();
    // Offsets 0, 8, 16, 32 at 80 Hz: timestamps 0, 0.1, 0.2, 0.4 seconds.
    assert_eq!(table.frames.len(), 4);
    let n = table.frames.len();
    // Start at 0: no timestamp lies before it.
    let st = initial_state(&table, 0, 80);
    assert_eq!((st.a, st.b, st.pos), (0, 0, 0));
    // Start at 0.15 s (output sample 12 at 80 Hz): between frames 1 and 2.
    let st = initial_state(&table, 12, 80);
    assert_eq!((st.a, st.b, st.pos), (1, 2, 12));
    // Start past every timestamp: the last frame alone.
    let st = initial_state(&table, 1024, 80);
    assert_eq!((st.a, st.b, st.pos), (n - 1, n - 1, 1024));
}

#[test]
fn streaming_cursor_only_moves_forward() {
    let mono: Vec<i32> = (0..64).map(|i| (i * 29) % 61 - 30).collect();
    let table = create_wavetable(stereo_of_mono(&mono), 80, 10_000).unwrap();
    let mut state = initial_state(&table, 0, 120);
    let mut prev = (state.a, state.b);
    for _ in 0..200 {
        wavetable_act_state(&table, &mut state, 15_000, 120);
        assert!(state.a >= prev.0 && state.b >= prev.1);
        prev = (state.a, state.b);
    }
    // 200 samples at 120 Hz pass the last timestamp (0.4 s): the cursor has
    // scanned forward to the final bracket.
    assert_eq!((state.a, state.b), (table.frames.len() - 2, table.frames.len() - 1));
    assert_eq!(state.pos, 200);
}
