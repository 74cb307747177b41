use vstd::prelude::*;
use crate::signal::{
    SCALE, abs_val, downmix, normalized, peak, prepared, scaled, into_mono, normalize,
    lemma_peak_ge_abs, lemma_peak_witness, lemma_scaled_props,
};

verus! {

/// One captured snapshot of the waveform. `offset` is where the window was
/// cut from the prepared signal, in source samples; the timestamp in seconds
/// is `offset / source_sample_rate`. `samples` is one cycle of the waveform
/// in fixed point (`SCALE` stands for an amplitude of 1.0).
pub struct Frame {
    pub offset: usize,
    pub samples: Vec<i32>,
}

/// An immutable captured timbre: the fundamental pitch of the recording in
/// millihertz, the sample rate it was captured at, the samples per frame,
/// and the chronologically ordered frames.
pub struct WaveTable {
    pub fundamental_mhz: u32,
    pub source_sample_rate: u32,
    pub frame_length: usize,
    pub frames: Vec<Frame>,
}

/// 2 to the power `k`.
pub open spec fn two_pow(k: nat) -> nat
    decreases k,
{
    if k == 0 {
        1nat
    } else {
        2 * two_pow((k - 1) as nat)
    }
}

/// `p / q` rounded to the nearest integer, halves away from zero
/// (for nonnegative `p` and positive `q`).
pub open spec fn round_div(p: int, q: int) -> int {
    (2 * p + q) / (2 * q)
}

/// The frame length a table is built with: `source_sample_rate` divided by
/// the fundamental in hertz, rounded to the nearest integer and clamped to
/// at least 1.
pub open spec fn frame_len_spec(sr: int, fund_mhz: int) -> int {
    let r = round_div(1000 * sr, fund_mhz);
    if r < 1 {
        1
    } else {
        r
    }
}

/// The invariant of every WaveTable: positive rates and frame length, every
/// frame holding exactly `frame_length` samples, all samples within one unit
/// of amplitude, and frames in strictly increasing chronological order.
pub open spec fn table_wf(t: WaveTable) -> bool {
    &&& t.fundamental_mhz >= 1
    &&& t.source_sample_rate >= 1
    &&& t.frame_length >= 1
    &&& forall|k: int|
        0 <= k < t.frames@.len() ==> (#[trigger] t.frames@[k]).samples@.len() == t.frame_length
    &&& forall|k: int, j: int|
        0 <= k < t.frames@.len() && 0 <= j < t.frame_length ==> -SCALE
            <= #[trigger] t.frames@[k].samples@[j] <= SCALE
    &&& forall|k: int|
        0 <= k < t.frames@.len() - 1 ==> (#[trigger] t.frames@[k]).offset < t.frames@[
            k + 1
        ].offset
}

/// Offsets grow with the index in a well-formed table.
pub proof fn lemma_offsets_increase(t: WaveTable, k1: int, k2: int)
    requires
        table_wf(t),
        0 <= k1 <= k2 < t.frames@.len(),
    ensures
        t.frames@[k1].offset <= t.frames@[k2].offset,
    decreases k2 - k1,
{
    if k1 < k2 {
        lemma_offsets_increase(t, k1, k2 - 1);
        assert(t.frames@[k2 - 1].offset < t.frames@[k2].offset);
    }
}

/// A prepared signal keeps every sample within one unit of amplitude.
pub proof fn lemma_normalized_bounds(s: Seq<i32>)
    requires
        forall|i: int| 0 <= i < s.len() ==> -32768 <= #[trigger] s[i] <= 32767,
    ensures
        normalized(s).len() == s.len(),
        forall|i: int| 0 <= i < s.len() ==> -SCALE <= #[trigger] normalized(s)[i] <= SCALE,
{
    let p = peak(s);
    if p == 0 {
        assert forall|i: int| 0 <= i < s.len() implies -SCALE <= #[trigger] normalized(s)[i]
            <= SCALE by {
            assert(normalized(s)[i] == s[i]);
        }
    } else {
        assert forall|i: int| 0 <= i < s.len() implies -SCALE <= #[trigger] normalized(s)[i]
            <= SCALE by {
            lemma_peak_ge_abs(s, i);
            lemma_peak_witness(s);
            let w = choose|w: int| 0 <= w < s.len() && abs_val(s[w] as int) == p;
            assert(abs_val(s[w] as int) <= 32768);
            lemma_scaled_props(s[i] as int, p);
            assert(normalized(s)[i] == scaled(s[i] as int, p) as i32);
        }
    }
}

/// Copy `len` samples of `src` starting at `start`.
fn copy_window(src: &Vec<i32>, start: usize, len: usize) -> (out: Vec<i32>)
    requires
        start + len <= src@.len(),
    ensures
        out@.len() == len,
        forall|j: int| 0 <= j < len ==> #[trigger] out@[j] == src@[start + j],
{
    let n = src.len();
    let mut out: Vec<i32> = Vec::new();
    let mut j: usize = 0;
    while j < len
        invariant
            out@.len() == j,
            j <= len,
            forall|j2: int| 0 <= j2 < j ==> #[trigger] out@[j2] == src@[start + j2],
        decreases len - j,
    {
        let v = src[start + j];
        out.push(v);
        j = j + 1;
    }
    out
}

/// Build a WaveTable from a raw interleaved stereo recording captured at
/// `sr` samples per second with fundamental pitch `fundamental_mhz`
/// (millihertz). The recording is downmixed to mono and peak-normalized,
/// the first frame is cut at offset 0, and further frames at doubling
/// offsets while a whole window still fits. An input too short for one
/// frame, or a zero rate or pitch, is rejected.
#[verifier::rlimit(80)]
pub fn create_wavetable(stereo: Vec<i16>, sr: u32, fundamental_mhz: u32) -> (res: Option<
    WaveTable,
>)
    ensures
        match res {
            None => sr == 0 || fundamental_mhz == 0 || frame_len_spec(
                sr as int,
                fundamental_mhz as int,
            ) > usize::MAX || stereo@.len() / 2 < frame_len_spec(
                sr as int,
                fundamental_mhz as int,
            ),
            Some(t) => {
                let sig = prepared(stereo@);
                let fl = frame_len_spec(sr as int, fundamental_mhz as int);
                let n = t.frames@.len() as int;
                &&& sr >= 1 && fundamental_mhz >= 1
                &&& stereo@.len() / 2 >= fl
                &&& sig.len() == stereo@.len() / 2
                &&& t.fundamental_mhz == fundamental_mhz
                &&& t.source_sample_rate == sr
                &&& t.frame_length == fl
                &&& table_wf(t)
                &&& n >= 1
                &&& t.frames@[0].offset == 0
                &&& forall|k: int|
                    1 <= k < n ==> (#[trigger] t.frames@[k]).offset == fl * two_pow(
                        (k - 1) as nat,
                    )
                &&& forall|k: int| 1 <= k < n ==> (#[trigger] t.frames@[k]).offset + fl < sig.len()
                &&& fl * two_pow((n - 1) as nat) + fl >= sig.len()
                &&& forall|k: int, j: int|
                    0 <= k < n && 0 <= j < fl ==> #[trigger] t.frames@[k].samples@[j] == sig[
                        t.frames@[k].offset + j
                    ]
                &&& (peak(downmix(stereo@)) == 0 ==> forall|k: int, j: int|
                    0 <= k < n && 0 <= j < fl ==> #[trigger] t.frames@[k].samples@[j] == 0)
                &&& (forall|k: int, j: int|
                    0 <= k < n && 0 <= j < fl && peak(downmix(stereo@)) > 0 && abs_val(
                        downmix(stereo@)[t.frames@[k].offset + j] as int,
                    ) == peak(downmix(stereo@)) ==> abs_val(
                        #[trigger] t.frames@[k].samples@[j] as int,
                    ) == SCALE as int)
            },
        },
{
    let mono = into_mono(&stereo);
    let signal = normalize(mono);
    proof {
        lemma_normalized_bounds(downmix(stereo@));
    }
    if sr == 0 || fundamental_mhz == 0 {
        return None;
    }
    let num: u64 = 2000u64 * (sr as u64) + (fundamental_mhz as u64);
    let den: u64 = 2u64 * (fundamental_mhz as u64);
    let mut fl64: u64 = num / den;
    if fl64 == 0 {
        fl64 = 1;
    }
    assert(fl64 == frame_len_spec(sr as int, fundamental_mhz as int));
    if fl64 > usize::MAX as u64 {
        return None;
    }
    let fl = fl64 as usize;
    if signal.len() < fl {
        return None;
    }
    let ghost sig = prepared(stereo@);
    let first = copy_window(&signal, 0, fl);
    let mut frames: Vec<Frame> = Vec::new();
    frames.push(Frame { offset: 0, samples: first });
    let mut t: u128 = fl as u128;
    let ln: u128 = signal.len() as u128;
    proof {
        assert(two_pow(0nat) == 1);
        assert((fl as int) * two_pow(0nat) == fl as int) by (nonlinear_arith)
            requires
                two_pow(0nat) == 1,
        ;
    }
    while t + (fl as u128) < ln
        invariant
            1 <= frames@.len(),
            t == (fl as int) * two_pow((frames@.len() - 1) as nat),
            t >= fl,
            frames@.len() >= 2 ==> t == 2 * frames@.last().offset,
            frames@.len() == 1 ==> frames@.last().offset == 0,
            frames@[0].offset == 0,
            forall|k: int|
                1 <= k < frames@.len() ==> (#[trigger] frames@[k]).offset == (fl as int) * two_pow(
                    (k - 1) as nat,
                ),
            forall|k: int| 1 <= k < frames@.len() ==> (#[trigger] frames@[k]).offset + fl < ln,
            forall|k: int|
                0 <= k < frames@.len() - 1 ==> (#[trigger] frames@[k]).offset < frames@[
                    k + 1
                ].offset,
            forall|k: int|
                0 <= k < frames@.len() ==> (#[trigger] frames@[k]).samples@.len() == fl,
            forall|k: int, j: int|
                0 <= k < frames@.len() && 0 <= j < fl ==> #[trigger] frames@[k].samples@[j] == sig[
                    frames@[k].offset + j
                ],
        decreases 2 * ln - t,
    {
        let start = t as usize;
        let w = copy_window(&signal, start, fl);
        let ghost old_frames = frames@;
        frames.push(Frame { offset: start, samples: w });
        proof {
            let n = frames@.len() - 1;
            assert(frames@[n as int].offset == t);
            if n >= 2 {
                assert(t == 2 * old_frames.last().offset);
                assert(old_frames.last().offset >= 1);
                assert(old_frames.last().offset < t);
            }
            assert(two_pow(n as nat) == 2 * two_pow((n - 1) as nat));
            assert((fl as int) * (2 * two_pow((n - 1) as nat)) == 2 * ((fl as int) * two_pow(
                (n - 1) as nat,
            ))) by (nonlinear_arith);
        }
        t = t * 2;
    }
    let table = WaveTable {
        fundamental_mhz,
        source_sample_rate: sr,
        frame_length: fl,
        frames,
    };
    proof {
        let dm = downmix(stereo@);
        if peak(dm) > 0 {
            assert forall|k: int, j: int|
                0 <= k < table.frames@.len() && 0 <= j < fl && abs_val(
                    dm[table.frames@[k].offset + j] as int,
                ) == peak(dm) implies abs_val(#[trigger] table.frames@[k].samples@[j] as int)
                == SCALE as int by {
                let p = table.frames@[k].offset + j;
                lemma_peak_ge_abs(dm, p);
                lemma_peak_witness(dm);
                let ww = choose|ww: int| 0 <= ww < dm.len() && abs_val(dm[ww] as int) == peak(dm);
                lemma_scaled_props(dm[p] as int, peak(dm));
                assert(normalized(dm)[p] == scaled(dm[p] as int, peak(dm)) as i32);
            }
        }
        if peak(downmix(stereo@)) == 0 {
            assert(sig =~= downmix(stereo@));
            assert forall|k: int, j: int|
                0 <= k < table.frames@.len() && 0 <= j < fl implies #[trigger] table.frames@[
                k
            ].samples@[j] == 0 by {
                lemma_peak_ge_abs(downmix(stereo@), table.frames@[k].offset + j);
            }
        }
    }
    Some(table)
}

} // verus!
