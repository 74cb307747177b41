use vstd::prelude::*;
use vstd::arithmetic::div_mod::{lemma_div_is_ordered, lemma_div_multiples_vanish};

verus! {

/// Fixed-point unit amplitude: a sample value of `SCALE` stands for 1.0,
/// `-SCALE` for -1.0.
pub const SCALE: i32 = 32768;

/// Absolute value of a mathematical integer.
pub open spec fn abs_val(v: int) -> int {
    if v >= 0 {
        v
    } else {
        -v
    }
}

/// Average of one stereo pair, truncated toward zero as Rust's integer
/// division truncates.
pub open spec fn pair_avg(a: int, b: int) -> int {
    if a + b >= 0 {
        (a + b) / 2
    } else {
        -((-(a + b)) / 2)
    }
}

/// The downmixed mono signal: each element averages one pair of interleaved
/// stereo samples; a trailing unpaired sample is dropped.
pub open spec fn downmix(s: Seq<i16>) -> Seq<i32> {
    Seq::new(s.len() / 2, |i: int| pair_avg(s[2 * i] as int, s[2 * i + 1] as int) as i32)
}

/// The largest absolute sample value of a signal; 0 for the empty signal.
pub open spec fn peak(s: Seq<i32>) -> int
    decreases s.len(),
{
    if s.len() == 0 {
        0
    } else {
        let p = peak(s.drop_last());
        let a = abs_val(s.last() as int);
        if a > p {
            a
        } else {
            p
        }
    }
}

/// One sample scaled so that an absolute value of `m` maps to `SCALE`,
/// truncated toward zero.
pub open spec fn scaled(v: int, m: int) -> int {
    if v >= 0 {
        (v * SCALE) / m
    } else {
        -(((-v) * SCALE) / m)
    }
}

/// Peak normalization: every sample is scaled so that the peak maps to
/// `SCALE`. A silent signal (zero peak) is returned unchanged.
pub open spec fn normalized(s: Seq<i32>) -> Seq<i32> {
    if peak(s) == 0 {
        s
    } else {
        Seq::new(s.len(), |i: int| scaled(s[i] as int, peak(s)) as i32)
    }
}

/// The prepared signal: downmix to mono, then peak-normalize.
pub open spec fn prepared(s: Seq<i16>) -> Seq<i32> {
    normalized(downmix(s))
}

/// The peak bounds every sample's absolute value and is itself nonnegative.
pub proof fn lemma_peak_ge_abs(s: Seq<i32>, i: int)
    requires
        0 <= i < s.len(),
    ensures
        abs_val(s[i] as int) <= peak(s),
        peak(s) >= 0,
    decreases s.len(),
{
    if i == s.len() - 1 {
        if s.len() > 1 {
            lemma_peak_ge_abs(s.drop_last(), 0);
        }
    } else {
        lemma_peak_ge_abs(s.drop_last(), i);
        assert(s.drop_last()[i] == s[i]);
    }
}

/// A nonempty signal attains its peak at some index.
pub proof fn lemma_peak_witness(s: Seq<i32>)
    requires
        s.len() > 0,
    ensures
        exists|i: int| 0 <= i < s.len() && abs_val(s[i] as int) == peak(s),
    decreases s.len(),
{
    let a = abs_val(s.last() as int);
    assert(s.last() == s[s.len() - 1]);
    if s.len() == 1 {
        assert(s.drop_last().len() == 0);
        assert(peak(s.drop_last()) == 0);
        assert(a >= 0);
        assert(abs_val(s[s.len() - 1] as int) == peak(s));
    } else if a > peak(s.drop_last()) {
        assert(abs_val(s[s.len() - 1] as int) == peak(s));
    } else {
        lemma_peak_witness(s.drop_last());
        let j = choose|j: int|
            0 <= j < s.drop_last().len() && abs_val(s.drop_last()[j] as int) == peak(
                s.drop_last(),
            );
        assert(abs_val(s[j] as int) == peak(s));
    }
}

/// How truncating scaling behaves: results stay within `SCALE`, and the
/// peak value (and only it) maps to exactly `SCALE` in absolute value.
pub proof fn lemma_scaled_props(v: int, m: int)
    requires
        1 <= m <= SCALE,
        abs_val(v) <= m,
    ensures
        abs_val(scaled(v, m)) <= SCALE,
        abs_val(v) == m ==> abs_val(scaled(v, m)) == SCALE,
        abs_val(v) < m ==> abs_val(scaled(v, m)) < SCALE,
        v == 0 ==> scaled(v, m) == 0,
{
    let a = abs_val(v);
    lemma_div_multiples_vanish(SCALE as int, m);
    assert(m * SCALE == SCALE * m) by (nonlinear_arith);
    assert((m * SCALE) / m == SCALE);
    assert(a * SCALE <= m * SCALE) by (nonlinear_arith)
        requires
            0 <= a <= m,
    ;
    lemma_div_is_ordered(a * SCALE, m * SCALE, m);
    assert((a * SCALE) / m >= 0) by (nonlinear_arith)
        requires
            a >= 0,
            m >= 1,
    ;
    if a < m {
        assert(a * SCALE <= (m - 1) * SCALE) by (nonlinear_arith)
            requires
                0 <= a <= m - 1,
        ;
        assert((m - 1) * SCALE == m * SCALE - SCALE) by (nonlinear_arith);
        lemma_div_is_ordered(a * SCALE, m * SCALE - SCALE, m);
        assert((m * SCALE - SCALE) / m < SCALE) by {
            lemma_div_multiples_vanish(SCALE - 1, m);
            assert(m * (SCALE - 1) == m * SCALE - m) by (nonlinear_arith);
            lemma_div_is_ordered(m * SCALE - SCALE, m * SCALE - m, m);
        }
    }
}

/// Downmix a raw interleaved stereo recording into a mono signal: each pair
/// of samples is averaged; a trailing unpaired sample is dropped.
pub fn into_mono(stereo: &Vec<i16>) -> (mono: Vec<i32>)
    ensures
        mono@ == downmix(stereo@),
{
    let pairs = stereo.len() / 2;
    let mut mono: Vec<i32> = Vec::new();
    let mut i: usize = 0;
    while i < pairs
        invariant
            pairs == stereo@.len() / 2,
            i <= pairs,
            mono@.len() == i,
            forall|j: int| 0 <= j < i ==> mono@[j] == downmix(stereo@)[j],
        decreases pairs - i,
    {
        assert(2 * i + 1 < stereo@.len()) by {
            assert(2 * (stereo@.len() / 2) <= stereo@.len());
        }
        let l = stereo[2 * i];
        let r = stereo[2 * i + 1];
        let y: i32 = (l as i32) + (r as i32);
        let q: i32 = if y >= 0 {
            ((y as u32) / 2) as i32
        } else {
            -((((-y) as u32) / 2) as i32)
        };
        assert(q == pair_avg(l as int, r as int));
        mono.push(q);
        i = i + 1;
    }
    assert(mono@ =~= downmix(stereo@));
    mono
}

/// Peak-normalize a mono signal: every sample is scaled so that the largest
/// absolute value becomes `SCALE`. A silent signal is returned unchanged;
/// no division by zero can occur.
pub fn normalize(mono: Vec<i32>) -> (out: Vec<i32>)
    requires
        forall|i: int| 0 <= i < mono@.len() ==> -32768 <= #[trigger] mono@[i] <= 32767,
    ensures
        out@ == normalized(mono@),
{
    let n = mono.len();
    let mut m: u32 = 0;
    let mut i: usize = 0;
    while i < n
        invariant
            n == mono@.len(),
            i <= n,
            forall|j: int| 0 <= j < n ==> -32768 <= #[trigger] mono@[j] <= 32767,
            m == peak(mono@.take(i as int)),
            m <= 32768,
        decreases n - i,
    {
        let v = mono[i];
        let a: u32 = if v >= 0 {
            v as u32
        } else {
            (-v) as u32
        };
        assert(a == abs_val(mono@[i as int] as int));
        assert(mono@.take(i as int + 1).drop_last() =~= mono@.take(i as int));
        assert(mono@.take(i as int + 1).last() == mono@[i as int]);
        if a > m {
            m = a;
        }
        i = i + 1;
    }
    assert(mono@.take(n as int) =~= mono@);
    if m == 0 {
        return mono;
    }
    let mut out: Vec<i32> = Vec::new();
    let mut i: usize = 0;
    while i < n
        invariant
            n == mono@.len(),
            i <= n,
            1 <= m <= 32768,
            m == peak(mono@),
            forall|j: int| 0 <= j < n ==> -32768 <= #[trigger] mono@[j] <= 32767,
            out@.len() == i,
            forall|j: int| 0 <= j < i ==> out@[j] == normalized(mono@)[j],
        decreases n - i,
    {
        let v = mono[i];
        proof {
            lemma_peak_ge_abs(mono@, i as int);
            lemma_scaled_props(v as int, m as int);
        }
        let q: i32 = if v >= 0 {
            (((v as u64) * 32768) / (m as u64)) as i32
        } else {
            -((((-v) as u64 * 32768) / (m as u64)) as i32)
        };
        assert(q == scaled(v as int, m as int));
        out.push(q);
        i = i + 1;
    }
    assert(out@ =~= normalized(mono@));
    out
}

} // verus!
