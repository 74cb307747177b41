use vstd::prelude::*;
use crate::signal::SCALE;
use crate::table::{WaveTable, table_wf, lemma_offsets_increase};
use vstd::arithmetic::mul::{
    lemma_mul_inequality, lemma_mul_nonnegative, lemma_mul_is_commutative,
    lemma_mul_is_distributive_sub_other_way, lemma_mul_upper_bound,
};
use vstd::arithmetic::div_mod::{lemma_div_is_ordered, lemma_div_multiples_vanish};

verus! {

/// One linear interpolation step `base + d * (num / den)`, with the
/// fractional scaling truncated toward zero.
pub open spec fn lerp_step(base: int, d: int, num: int, den: int) -> int {
    if d >= 0 {
        base + (d * num) / den
    } else {
        base - ((-d) * num) / den
    }
}

/// Numerator of the phase position of output sample `u`: the position in
/// source samples is `u * source_sample_rate * target_mhz` over
/// `out_rate * fundamental_mhz`, which resamples for both the pitch shift
/// and the sample-rate conversion.
pub open spec fn phase_num(t: WaveTable, tgt: int, u: int) -> int {
    u * t.source_sample_rate * tgt
}

/// Denominator of the phase position of an output sample.
pub open spec fn phase_den(t: WaveTable, sro: int) -> int {
    sro * t.fundamental_mhz
}

/// The value of frame `k` read at phase `num / den`: the integer part
/// selects two neighbouring template samples with circular wraparound, the
/// remainder interpolates linearly between them.
pub open spec fn frame_val(t: WaveTable, k: int, num: int, den: int) -> int {
    let fl = t.frame_length as int;
    let s = t.frames@[k].samples@;
    let fp = num / den;
    let rem = num % den;
    let lo = fp % fl;
    let hi = if rem == 0 {
        lo
    } else {
        (lo + 1) % fl
    };
    lerp_step(s[lo] as int, s[hi] - s[lo], rem, den)
}

/// Does output sample `u` (at rate `sro`) lie at or before frame `k`'s
/// timestamp? Timestamps are compared exactly by cross-multiplication:
/// `u / sro <= offset_k / source_sample_rate`.
pub open spec fn at_or_before(t: WaveTable, sro: int, u: int, k: int) -> bool {
    u * t.source_sample_rate <= t.frames@[k].offset * sro
}

/// The smallest frame index `>= j` whose timestamp is at or after output
/// sample `u`; the frame count if there is none.
pub open spec fn bracket_from(t: WaveTable, sro: int, u: int, j: int) -> int
    decreases t.frames@.len() - j,
{
    if j >= t.frames@.len() {
        j
    } else if at_or_before(t, sro, u, j) {
        j
    } else {
        bracket_from(t, sro, u, j + 1)
    }
}

/// The smallest frame index whose timestamp is at or after output sample
/// `u`; the frame count if there is none.
pub open spec fn bracket_idx(t: WaveTable, sro: int, u: int) -> int {
    bracket_from(t, sro, u, 0)
}

/// Numerator of the cross-fade weight: how far `u` lies past frame `a`'s
/// timestamp, over the common denominator `sro * source_sample_rate`.
pub open spec fn blend_num(t: WaveTable, sro: int, u: int, a: int) -> int {
    u * t.source_sample_rate - t.frames@[a].offset * sro
}

/// Denominator of the cross-fade weight: the time span between the two
/// bracketing frames, over the same common denominator.
pub open spec fn blend_den(t: WaveTable, sro: int, a: int, b: int) -> int {
    sro * (t.frames@[b].offset - t.frames@[a].offset)
}

/// The cross-faded value of output sample `u` between bracketing frames
/// `a` and `b`: both frames are read at the same phase, and the weight
/// `(u/sro - ts_a) / (ts_b - ts_a)`, clamped to [0, 1], blends them.
pub open spec fn xfade_val(t: WaveTable, tgt: int, sro: int, u: int, a: int, b: int) -> int {
    let num = phase_num(t, tgt, u);
    let den = phase_den(t, sro);
    let av = frame_val(t, a, num, den);
    let bv = frame_val(t, b, num, den);
    let x = blend_num(t, sro, u, a);
    let bd = blend_den(t, sro, a, b);
    let xc = if x < 0 {
        0
    } else if x > bd {
        bd
    } else {
        x
    };
    lerp_step(av, bv - av, xc, bd)
}

/// The value of one output sample: the engine's defining formula. A single
/// frame plays back as a constant template; past the last timestamp the
/// last frame plays alone; before the first timestamp the first frame plays
/// alone; otherwise the two frames bracketing `u` are cross-faded.
pub open spec fn sample_value(t: WaveTable, tgt: int, sro: int, u: int) -> int {
    let n = t.frames@.len() as int;
    let num = phase_num(t, tgt, u);
    let den = phase_den(t, sro);
    if n == 1 {
        frame_val(t, 0, num, den)
    } else {
        let j = bracket_idx(t, sro, u);
        if j >= n {
            frame_val(t, n - 1, num, den)
        } else if j == 0 {
            frame_val(t, 0, num, den)
        } else {
            xfade_val(t, tgt, sro, u, j - 1, j)
        }
    }
}

/// The forward-scanning cursor invariant: `a` and `b` are neighbouring (or
/// equal edge) indices, frame `a` lies strictly before `u` whenever the pair
/// is a proper bracket, and an equal pair sits at an edge of the table.
pub open spec fn cursor_ok(t: WaveTable, sro: int, u: int, a: int, b: int) -> bool {
    let n = t.frames@.len() as int;
    &&& 0 <= a <= b < n
    &&& b <= a + 1
    &&& a < b ==> !at_or_before(t, sro, u, a)
    &&& a == b ==> a == 0 || a == n - 1
    &&& (a == b && n > 1 && a == n - 1) ==> !at_or_before(t, sro, u, a)
}

/// The cursor after advancing for sample `u`: additionally, `u` does not lie
/// past frame `b` unless `b` is already the last frame.
pub open spec fn cursor_resolved(t: WaveTable, sro: int, u: int, a: int, b: int) -> bool {
    &&& cursor_ok(t, sro, u, a, b)
    &&& a < b ==> (at_or_before(t, sro, u, b) || b == t.frames@.len() - 1)
    &&& (a == b && a == 0 && t.frames@.len() > 1) ==> at_or_before(t, sro, u, 0)
}

/// A cursor valid for sample `u` stays valid for any later sample: playback
/// time only moves forward.
pub proof fn lemma_cursor_monotone(t: WaveTable, sro: int, u1: int, u2: int, a: int, b: int)
    requires
        table_wf(t),
        sro >= 1,
        0 <= u1 <= u2,
        cursor_ok(t, sro, u1, a, b),
    ensures
        cursor_ok(t, sro, u2, a, b),
{
    lemma_mul_inequality(u1, u2, t.source_sample_rate as int);
}

/// Characterizes the bracket search: if every frame before `j` lies strictly
/// before `u` and frame `j` (if any) does not, the search from `k` finds `j`.
proof fn lemma_bracket_from_is(t: WaveTable, sro: int, u: int, k: int, j: int)
    requires
        0 <= k <= j <= t.frames@.len(),
        forall|j2: int| k <= j2 < j ==> !at_or_before(t, sro, u, j2),
        j == t.frames@.len() || at_or_before(t, sro, u, j),
    ensures
        bracket_from(t, sro, u, k) == j,
    decreases j - k,
{
    if k < j {
        lemma_bracket_from_is(t, sro, u, k + 1, j);
    }
}

/// In a well-formed table, a sample lying strictly past frame `k` lies
/// strictly past every earlier frame as well.
proof fn lemma_past_earlier(t: WaveTable, sro: int, u: int, k: int)
    requires
        table_wf(t),
        sro >= 1,
        0 <= k < t.frames@.len(),
        !at_or_before(t, sro, u, k),
    ensures
        forall|j: int| 0 <= j <= k ==> !at_or_before(t, sro, u, j),
{
    assert forall|j: int| 0 <= j <= k implies !at_or_before(t, sro, u, j) by {
        lemma_offsets_increase(t, j, k);
        lemma_mul_inequality(
            t.frames@[j].offset as int,
            t.frames@[k].offset as int,
            sro,
        );
    }
}

/// Scaling a nonnegative difference `d` by a fraction `x / den` with
/// `x <= den`, truncated, keeps the result between 0 and `d`, and a whole
/// fraction gives exactly `d`.
proof fn lemma_frac_scale(d: int, x: int, den: int)
    requires
        0 <= d,
        0 <= x <= den,
        1 <= den,
    ensures
        0 <= (d * x) / den <= d,
        x == den ==> (d * x) / den == d,
{
    assert(d * x <= d * den) by (nonlinear_arith)
        requires
            0 <= x <= den,
            0 <= d,
    ;
    lemma_div_is_ordered(d * x, d * den, den);
    assert((d * den) / den == d) by {
        lemma_mul_is_commutative(d, den);
        lemma_div_multiples_vanish(d, den);
    }
    lemma_mul_nonnegative(d, x);
    vstd::arithmetic::div_mod::lemma_div_pos_is_pos(d * x, den);
}

/// Reads one frame at the given phase. `num` and `den` are the phase
/// fraction; the result interpolates between two neighbouring template
/// samples with circular wraparound.
fn frame_value(t: &WaveTable, k: usize, num: u128, den: u64) -> (v: i32)
    requires
        table_wf(*t),
        k < t.frames@.len(),
        den >= 1,
    ensures
        v == frame_val(*t, k as int, num as int, den as int),
        -SCALE <= v <= SCALE,
{
    let fl = t.frame_length;
    let fp = num / (den as u128);
    let rem = num % (den as u128);
    let lo = (fp % (fl as u128)) as usize;
    assert(lo < fl);
    let hi = if rem == 0 {
        lo
    } else {
        proof {
            if lo + 1 < fl {
                vstd::arithmetic::div_mod::lemma_small_mod((lo + 1) as nat, fl as nat);
            } else {
                vstd::arithmetic::div_mod::lemma_mod_self_0(fl as int);
            }
        }
        if lo + 1 == fl {
            0
        } else {
            lo + 1
        }
    };
    assert(hi < fl);
    let s = &t.frames[k].samples;
    let sl = s[lo];
    let sh = s[hi];
    proof {
        assert(rem < den);
    }
    let v = if sh >= sl {
        let d = (sh - sl) as u64;
        proof {
            lemma_mul_upper_bound(d as int, 65536, rem as int, u64::MAX as int);
        }
        let add = ((d as u128) * rem) / (den as u128);
        proof {
            lemma_frac_scale(d as int, rem as int, den as int);
        }
        sl + (add as i32)
    } else {
        let d = (sl - sh) as u64;
        proof {
            lemma_mul_upper_bound(d as int, 65536, rem as int, u64::MAX as int);
        }
        let sub = ((d as u128) * rem) / (den as u128);
        proof {
            lemma_frac_scale(d as int, rem as int, den as int);
        }
        sl - (sub as i32)
    };
    v
}

/// Advance the bracket cursor forward until sample `u` no longer lies past
/// frame `b`, or `b` is the last frame: the monotone forward scan.
fn advance_cursor(t: &WaveTable, a0: usize, b0: usize, u: u128, sro: u32) -> (r: (usize, usize))
    requires
        table_wf(*t),
        t.frames@.len() >= 1,
        sro >= 1,
        u * t.source_sample_rate <= u128::MAX,
        cursor_ok(*t, sro as int, u as int, a0 as int, b0 as int),
    ensures
        cursor_resolved(*t, sro as int, u as int, r.0 as int, r.1 as int),
{
    let n = t.frames.len();
    let mut a = a0;
    let mut b = b0;
    #[verifier::loop_isolation(true)]
    loop
        invariant
            table_wf(*t),
            sro >= 1,
            n == t.frames@.len(),
            n >= 1,
            u as int * t.source_sample_rate as int <= u128::MAX as int,
            cursor_ok(*t, sro as int, u as int, a as int, b as int),
        ensures
            cursor_resolved(*t, sro as int, u as int, a as int, b as int),
        decreases t.frames@.len() - b,
    {
        if b >= n - 1 {
            break ;
        }
        let lhs = u * (t.source_sample_rate as u128);
        proof {
            lemma_mul_upper_bound(
                t.frames@[b as int].offset as int,
                u64::MAX as int,
                sro as int,
                u32::MAX as int,
            );
        }
        let rhs = (t.frames[b].offset as u128) * (sro as u128);
        if lhs <= rhs {
            break ;
        }
        a = b;
        b = b + 1;
    }
    (a, b)
}

/// One output sample read through a resolved cursor: the two bracketing
/// frames are read at the sample's phase and cross-faded; an equal pair
/// plays its single frame unblended.
#[verifier::rlimit(80)]
fn cursor_sample(t: &WaveTable, a: usize, b: usize, u: u128, tgt: u32, sro: u32) -> (v: i32)
    requires
        table_wf(*t),
        t.frames@.len() >= 1,
        tgt >= 1,
        sro >= 1,
        cursor_resolved(*t, sro as int, u as int, a as int, b as int),
        u * t.source_sample_rate * tgt <= u128::MAX,
    ensures
        v == sample_value(*t, tgt as int, sro as int, u as int),
        -SCALE <= v <= SCALE,
{
    let ghost n = t.frames@.len() as int;
    proof {
        lemma_mul_upper_bound(
            sro as int,
            u32::MAX as int,
            t.fundamental_mhz as int,
            u32::MAX as int,
        );
        assert(sro as int * t.fundamental_mhz as int >= 1) by (nonlinear_arith)
            requires
                sro >= 1,
                t.fundamental_mhz >= 1,
        ;
        lemma_mul_nonnegative(u as int, t.source_sample_rate as int);
        assert(u as int * t.source_sample_rate as int <= u as int * t.source_sample_rate as int
            * tgt as int) by (nonlinear_arith)
            requires
                tgt >= 1,
                u as int * t.source_sample_rate as int >= 0,
        ;
    }
    let den: u64 = (sro as u64) * (t.fundamental_mhz as u64);
    let num: u128 = u * (t.source_sample_rate as u128) * (tgt as u128);
    if a == b {
        let v = frame_value(t, a, num, den);
        proof {
            if n > 1 {
                if a as int == 0 {
                    lemma_bracket_from_is(*t, sro as int, u as int, 0, 0);
                } else {
                    lemma_past_earlier(*t, sro as int, u as int, n - 1);
                    lemma_bracket_from_is(*t, sro as int, u as int, 0, n);
                }
            }
        }
        v
    } else {
        let av = frame_value(t, a, num, den);
        let bv = frame_value(t, b, num, den);
        let off_a = t.frames[a].offset;
        let off_b = t.frames[b].offset;
        proof {
            assert(off_a < off_b);
            lemma_mul_upper_bound(off_a as int, u64::MAX as int, sro as int, u32::MAX as int);
            lemma_mul_upper_bound(
                (off_b - off_a) as int,
                u64::MAX as int,
                sro as int,
                u32::MAX as int,
            );
            lemma_mul_is_commutative(off_b - off_a, sro as int);
            assert((off_b - off_a) as int * sro as int >= 1) by (nonlinear_arith)
                requires
                    off_b - off_a >= 1,
                    sro >= 1,
            ;
            lemma_mul_is_distributive_sub_other_way(sro as int, off_b as int, off_a as int);
        }
        let lhs = u * (t.source_sample_rate as u128);
        let xa = (off_a as u128) * (sro as u128);
        let x = lhs - xa;
        let bd = ((off_b - off_a) as u128) * (sro as u128);
        let xc = if x > bd {
            bd
        } else {
            x
        };
        let v = if bv >= av {
            let d = (bv - av) as u64;
            proof {
                lemma_mul_upper_bound(d as int, 65536, xc as int, bd as int);
                lemma_frac_scale(d as int, xc as int, bd as int);
            }
            let add = ((d as u128) * xc) / bd;
            av + (add as i32)
        } else {
            let d = (av - bv) as u64;
            proof {
                lemma_mul_upper_bound(d as int, 65536, xc as int, bd as int);
                lemma_frac_scale(d as int, xc as int, bd as int);
            }
            let sub = ((d as u128) * xc) / bd;
            av - (sub as i32)
        };
        proof {
            lemma_past_earlier(*t, sro as int, u as int, a as int);
            if at_or_before(*t, sro as int, u as int, b as int) {
                lemma_bracket_from_is(*t, sro as int, u as int, 0, b as int);
                assert(v == xfade_val(*t, tgt as int, sro as int, u as int, a as int, b as int));
            } else {
                lemma_past_earlier(*t, sro as int, u as int, b as int);
                lemma_bracket_from_is(*t, sro as int, u as int, 0, n);
                assert(x > bd);
                assert(xc == bd);
                assert(v == bv);
            }
        }
        v
    }
}

/// The bracket the engine starts from: the two frames around output sample
/// `start`, the last frame alone when `start` lies past every timestamp,
/// and the single frame of a one-frame table.
fn initial_bracket(t: &WaveTable, start: u64, sro: u32) -> (r: (usize, usize))
    requires
        table_wf(*t),
        t.frames@.len() >= 1,
        sro >= 1,
    ensures
        cursor_ok(*t, sro as int, start as int, r.0 as int, r.1 as int),
        ({
            let n = t.frames@.len() as int;
            let j = bracket_idx(*t, sro as int, start as int);
            &&& (j == 0 ==> r.0 == 0 && r.1 == 0)
            &&& (0 < j < n ==> r.0 == j - 1 && r.1 == j)
            &&& (j >= n ==> r.0 == n - 1 && r.1 == n - 1)
        }),
{
    let n = t.frames.len();
    if n == 1 {
        proof {
            if at_or_before(*t, sro as int, start as int, 0) {
                lemma_bracket_from_is(*t, sro as int, start as int, 0, 0);
            } else {
                lemma_bracket_from_is(*t, sro as int, start as int, 0, 1);
            }
        }
        return (0, 0);
    }
    proof {
        lemma_mul_upper_bound(
            start as int,
            u64::MAX as int,
            t.source_sample_rate as int,
            u32::MAX as int,
        );
    }
    let lhs = (start as u128) * (t.source_sample_rate as u128);
    let mut j: usize = 0;
    #[verifier::loop_isolation(true)]
    loop
        invariant
            table_wf(*t),
            sro >= 1,
            n == t.frames@.len(),
            n >= 1,
            lhs == start as int * t.source_sample_rate as int,
            j <= n,
            forall|j2: int| 0 <= j2 < j ==> !at_or_before(*t, sro as int, start as int, j2),
        ensures
            j <= n,
            forall|j2: int| 0 <= j2 < j ==> !at_or_before(*t, sro as int, start as int, j2),
            j < n ==> at_or_before(*t, sro as int, start as int, j as int),
        decreases n - j,
    {
        if j >= n {
            break ;
        }
        proof {
            lemma_mul_upper_bound(
                t.frames@[j as int].offset as int,
                u64::MAX as int,
                sro as int,
                u32::MAX as int,
            );
        }
        let rhs = (t.frames[j].offset as u128) * (sro as u128);
        if lhs <= rhs {
            break ;
        }
        j = j + 1;
    }
    proof {
        lemma_bracket_from_is(*t, sro as int, start as int, 0, j as int);
    }
    if j == n {
        (n - 1, n - 1)
    } else if j == 0 {
        (0, 0)
    } else {
        (j - 1, j)
    }
}

/// Resynthesis: render `len` output samples at sample rate `out_sr`, pitched
/// to `target_mhz` millihertz, starting at output sample `start_pos` (the
/// start time in seconds is `start_pos / out_sr`). Produces exactly `len`
/// samples, each given by the engine formula `sample_value` at its position,
/// or an empty buffer for a table without frames.
pub fn wavetable_act(
    table: &WaveTable,
    target_mhz: u32,
    start_pos: u64,
    out_sr: u32,
    len: usize,
) -> (res: Vec<i32>)
    requires
        table_wf(*table),
        target_mhz >= 1,
        out_sr >= 1,
        (start_pos + len) * table.source_sample_rate * target_mhz <= u128::MAX,
    ensures
        res@.len() == if table.frames@.len() == 0 {
            0int
        } else {
            len as int
        },
        forall|i: int|
            0 <= i < res@.len() ==> #[trigger] res@[i] == sample_value(
                *table,
                target_mhz as int,
                out_sr as int,
                start_pos + i,
            ),
        forall|i: int| 0 <= i < res@.len() ==> -SCALE <= #[trigger] res@[i] <= SCALE,
{
    let mut res: Vec<i32> = Vec::new();
    if table.frames.len() == 0 {
        return res;
    }
    let ib = initial_bracket(table, start_pos, out_sr);
    let mut a = ib.0;
    let mut b = ib.1;
    let mut i: usize = 0;
    while i < len
        invariant
            res@.len() == i,
            i <= len,
            cursor_ok(*table, out_sr as int, start_pos + i, a as int, b as int),
            forall|i2: int|
                0 <= i2 < i ==> #[trigger] res@[i2] == sample_value(
                    *table,
                    target_mhz as int,
                    out_sr as int,
                    start_pos + i2,
                ),
            forall|i2: int| 0 <= i2 < i ==> -SCALE <= #[trigger] res@[i2] <= SCALE,
        decreases len - i,
    {
        let u: u128 = (start_pos as u128) + (i as u128);
        proof {
            let sr = table.source_sample_rate as int;
            let cap = start_pos as int + len as int;
            lemma_mul_inequality(u as int, cap, sr);
            lemma_mul_nonnegative(cap, sr);
            assert(cap * sr <= cap * sr * target_mhz) by (nonlinear_arith)
                requires
                    cap * sr >= 0,
                    target_mhz >= 1,
            ;
            lemma_mul_inequality(u as int * sr, cap * sr, target_mhz as int);
        }
        let ab = advance_cursor(table, a, b, u, out_sr);
        a = ab.0;
        b = ab.1;
        let v = cursor_sample(table, a, b, u, target_mhz, out_sr);
        res.push(v);
        proof {
            lemma_cursor_monotone(
                *table,
                out_sr as int,
                u as int,
                u as int + 1,
                a as int,
                b as int,
            );
        }
        i = i + 1;
    }
    res
}

/// The caller-owned cursor of the streaming engine: the bracket indices and
/// the absolute position, in output samples, of the next sample to render.
/// One caller threads it through successive calls in order; it must not be
/// shared across concurrent callers.
pub struct WaveTableState {
    pub a: usize,
    pub b: usize,
    pub pos: u64,
}

/// The streaming cursor is a valid bracket for its own next position.
pub open spec fn state_wf(t: WaveTable, sro: int, st: WaveTableState) -> bool {
    cursor_ok(t, sro, st.pos as int, st.a as int, st.b as int)
}

/// Start streaming at output sample `start` (the start time in seconds is
/// `start / out_sr`): the cursor begins at the bracket around `start` —
/// the frames just before and at the first timestamp not before `start`,
/// the last frame alone when `start` lies past every timestamp, and the
/// first frame alone when no timestamp lies before `start`.
pub fn initial_state(table: &WaveTable, start: u64, out_sr: u32) -> (st: WaveTableState)
    requires
        table_wf(*table),
        table.frames@.len() >= 1,
        out_sr >= 1,
    ensures
        state_wf(*table, out_sr as int, st),
        st.pos == start,
        ({
            let n = table.frames@.len() as int;
            let j = bracket_idx(*table, out_sr as int, start as int);
            &&& (j == 0 ==> st.a == 0 && st.b == 0)
            &&& (0 < j < n ==> st.a == j - 1 && st.b == j)
            &&& (j >= n ==> st.a == n - 1 && st.b == n - 1)
        }),
{
    let ib = initial_bracket(table, start, out_sr);
    WaveTableState { a: ib.0, b: ib.1, pos: start }
}

/// Render the one output sample at the cursor's position and advance the
/// cursor by one sample. The rendered value is the same engine formula that
/// `wavetable_act` produces at that position, and the cursor comes out
/// resolved at that position: the forward scan never replays history.
pub fn wavetable_act_state(
    table: &WaveTable,
    state: &mut WaveTableState,
    target_mhz: u32,
    out_sr: u32,
) -> (v: i32)
    requires
        table_wf(*table),
        table.frames@.len() >= 1,
        target_mhz >= 1,
        out_sr >= 1,
        state_wf(*table, out_sr as int, *old(state)),
        old(state).pos < u64::MAX,
        (old(state).pos + 1) * table.source_sample_rate * target_mhz <= u128::MAX,
    ensures
        final(state).pos == old(state).pos + 1,
        state_wf(*table, out_sr as int, *final(state)),
        cursor_resolved(
            *table,
            out_sr as int,
            old(state).pos as int,
            final(state).a as int,
            final(state).b as int,
        ),
        v == sample_value(*table, target_mhz as int, out_sr as int, old(state).pos as int),
        -SCALE <= v <= SCALE,
{
    let u: u128 = state.pos as u128;
    proof {
        let sr = table.source_sample_rate as int;
        let cap = old(state).pos as int + 1;
        lemma_mul_inequality(u as int, cap, sr);
        lemma_mul_nonnegative(cap, sr);
        assert(cap * sr <= cap * sr * target_mhz) by (nonlinear_arith)
            requires
                cap * sr >= 0,
                target_mhz >= 1,
        ;
        lemma_mul_inequality(u as int * sr, cap * sr, target_mhz as int);
    }
    let ab = advance_cursor(table, state.a, state.b, u, out_sr);
    state.a = ab.0;
    state.b = ab.1;
    let v = cursor_sample(table, state.a, state.b, u, target_mhz, out_sr);
    proof {
        lemma_cursor_monotone(
            *table,
            out_sr as int,
            u as int,
            u as int + 1,
            state.a as int,
            state.b as int,
        );
    }
    state.pos = state.pos + 1;
    v
}

/// A single-frame table never blends two distinct frames: every rendered
/// sample reads the one frame alone, whatever the pitch, rate and position.
pub proof fn lemma_single_frame_no_blend(t: WaveTable, tgt: int, sro: int, u: int)
    requires
        table_wf(t),
        t.frames@.len() == 1,
    ensures
        sample_value(t, tgt, sro, u) == frame_val(t, 0, phase_num(t, tgt, u), phase_den(t, sro)),
{
}

/// Harmonic playback: at the source sample rate, with a target pitch `m`
/// times the fundamental, a single-frame table plays its template at `m`
/// steps per output sample, wrapping circularly and never interpolating
/// between template samples.
pub proof fn lemma_harmonic_playback(t: WaveTable, m: int, u: int)
    requires
        table_wf(t),
        t.frames@.len() == 1,
        m >= 0,
        u >= 0,
    ensures
        sample_value(t, m * t.fundamental_mhz, t.source_sample_rate as int, u) == t.frames@[
            0
        ].samples@[(m * u) % (t.frame_length as int)],
{
    let fl = t.frame_length as int;
    let sr = t.source_sample_rate as int;
    let fund = t.fundamental_mhz as int;
    let den = sr * fund;
    let num = phase_num(t, m * fund, u);
    assert(sr * fund >= 1) by (nonlinear_arith)
        requires
            sr >= 1,
            fund >= 1,
    ;
    assert(u * sr * (m * fund) == (m * u) * (sr * fund)) by (nonlinear_arith);
    assert(num == (m * u) * den);
    vstd::arithmetic::div_mod::lemma_div_multiples_vanish(m * u, den);
    vstd::arithmetic::div_mod::lemma_mod_multiples_basic(m * u, den);
    lemma_mul_nonnegative(m, u);
    assert(num / den == m * u);
    assert(num % den == 0);
    vstd::arithmetic::div_mod::lemma_mod_bound(m * u, fl);
    let lo = (m * u) % fl;
    let s = t.frames@[0].samples@;
    assert(frame_val(t, 0, num, den) == lerp_step(s[lo] as int, 0, 0, den));
    assert((0int * 0int) / den == 0int) by (nonlinear_arith)
        requires
            den >= 1,
    ;
}

/// Identity playback: with the target pitch equal to the fundamental and
/// the output rate equal to the source rate, a single-frame table
/// reproduces its template sample for sample, wrapping circularly.
pub proof fn lemma_identity_playback(t: WaveTable, u: int)
    requires
        table_wf(t),
        t.frames@.len() == 1,
        u >= 0,
    ensures
        sample_value(t, t.fundamental_mhz as int, t.source_sample_rate as int, u) == t.frames@[
            0
        ].samples@[u % (t.frame_length as int)],
{
    lemma_harmonic_playback(t, 1, u);
    assert(1 * t.fundamental_mhz as int == t.fundamental_mhz as int) by (nonlinear_arith);
    assert(1 * u == u) by (nonlinear_arith);
}

/// Octave-up playback: with a target pitch of twice the fundamental at the
/// source sample rate, a single-frame table plays every second template
/// sample, wrapping circularly.
pub proof fn lemma_octave_up(t: WaveTable, u: int)
    requires
        table_wf(t),
        t.frames@.len() == 1,
        u >= 0,
    ensures
        sample_value(t, 2 * t.fundamental_mhz, t.source_sample_rate as int, u) == t.frames@[
            0
        ].samples@[(2 * u) % (t.frame_length as int)],
{
    lemma_harmonic_playback(t, 2, u);
}

} // verus!
