use vstd::prelude::*;
use crate::signal::SCALE;
use crate::table::{Frame, WaveTable, table_wf};

verus! {

/// A `u32` as four little-endian bytes.
pub open spec fn le32(v: u32) -> Seq<u8> {
    seq![
        (v & 0xff) as u8,
        ((v >> 8) & 0xff) as u8,
        ((v >> 16) & 0xff) as u8,
        ((v >> 24) & 0xff) as u8,
    ]
}

/// A `u64` as eight little-endian bytes.
pub open spec fn le64(v: u64) -> Seq<u8> {
    seq![
        (v & 0xff) as u8,
        ((v >> 8) & 0xff) as u8,
        ((v >> 16) & 0xff) as u8,
        ((v >> 24) & 0xff) as u8,
        ((v >> 32) & 0xff) as u8,
        ((v >> 40) & 0xff) as u8,
        ((v >> 48) & 0xff) as u8,
        ((v >> 56) & 0xff) as u8,
    ]
}

/// Four little-endian bytes as a `u32`.
pub open spec fn rec32(b0: u8, b1: u8, b2: u8, b3: u8) -> u32 {
    (b0 as u32) | ((b1 as u32) << 8) | ((b2 as u32) << 16) | ((b3 as u32) << 24)
}

/// Eight little-endian bytes as a `u64`.
pub open spec fn rec64(b0: u8, b1: u8, b2: u8, b3: u8, b4: u8, b5: u8, b6: u8, b7: u8) -> u64 {
    (b0 as u64) | ((b1 as u64) << 8) | ((b2 as u64) << 16) | ((b3 as u64) << 24) | ((b4
        as u64) << 32) | ((b5 as u64) << 40) | ((b6 as u64) << 48) | ((b7 as u64) << 56)
}

/// Reading back the four bytes of a `u32` gives the value again.
pub proof fn lemma_le32_roundtrip(v: u32)
    ensures
        rec32(le32(v)[0], le32(v)[1], le32(v)[2], le32(v)[3]) == v,
{
    assert(((v & 0xff) as u8 as u32 | (((v >> 8) & 0xff) as u8 as u32) << 8 | (((v >> 16)
        & 0xff) as u8 as u32) << 16 | (((v >> 24) & 0xff) as u8 as u32) << 24) == v)
        by (bit_vector);
}

/// Reading back the eight bytes of a `u64` gives the value again.
pub proof fn lemma_le64_roundtrip(v: u64)
    ensures
        rec64(
            le64(v)[0],
            le64(v)[1],
            le64(v)[2],
            le64(v)[3],
            le64(v)[4],
            le64(v)[5],
            le64(v)[6],
            le64(v)[7],
        ) == v,
{
    assert(((v & 0xff) as u8 as u64 | (((v >> 8) & 0xff) as u8 as u64) << 8 | (((v >> 16)
        & 0xff) as u8 as u64) << 16 | (((v >> 24) & 0xff) as u8 as u64) << 24 | (((v >> 32)
        & 0xff) as u8 as u64) << 32 | (((v >> 40) & 0xff) as u8 as u64) << 40 | (((v >> 48)
        & 0xff) as u8 as u64) << 48 | (((v >> 56) & 0xff) as u8 as u64) << 56) == v)
        by (bit_vector);
}

/// Writing the value read from four bytes gives the bytes again.
pub proof fn lemma_rec32_roundtrip(b0: u8, b1: u8, b2: u8, b3: u8)
    ensures
        le32(rec32(b0, b1, b2, b3)) == seq![b0, b1, b2, b3],
{
    let v = rec32(b0, b1, b2, b3);
    assert((v & 0xff) as u8 == b0 && ((v >> 8) & 0xff) as u8 == b1 && ((v >> 16) & 0xff) as u8
        == b2 && ((v >> 24) & 0xff) as u8 == b3) by (bit_vector)
        requires
            v == (b0 as u32) | ((b1 as u32) << 8) | ((b2 as u32) << 16) | ((b3 as u32) << 24),
    ;
    assert(le32(v) =~= seq![b0, b1, b2, b3]);
}

/// Writing the value read from eight bytes gives the bytes again.
pub proof fn lemma_rec64_roundtrip(b0: u8, b1: u8, b2: u8, b3: u8, b4: u8, b5: u8, b6: u8, b7: u8)
    ensures
        le64(rec64(b0, b1, b2, b3, b4, b5, b6, b7)) == seq![b0, b1, b2, b3, b4, b5, b6, b7],
{
    let v = rec64(b0, b1, b2, b3, b4, b5, b6, b7);
    assert((v & 0xff) as u8 == b0 && ((v >> 8) & 0xff) as u8 == b1 && ((v >> 16) & 0xff) as u8
        == b2 && ((v >> 24) & 0xff) as u8 == b3 && ((v >> 32) & 0xff) as u8 == b4 && ((v >> 40)
        & 0xff) as u8 == b5 && ((v >> 48) & 0xff) as u8 == b6 && ((v >> 56) & 0xff) as u8 == b7)
        by (bit_vector)
        requires
            v == (b0 as u64) | ((b1 as u64) << 8) | ((b2 as u64) << 16) | ((b3 as u64) << 24) | (
            (b4 as u64) << 32) | ((b5 as u64) << 40) | ((b6 as u64) << 48) | ((b7 as u64) << 56),
    ;
    assert(le64(v) =~= seq![b0, b1, b2, b3, b4, b5, b6, b7]);
}

/// One sample as a nonnegative word: `SCALE` is added, so an amplitude in
/// [-1, 1] becomes a word in [0, 2 * SCALE].
pub open spec fn sample_word(v: i32) -> u32 {
    (v + SCALE) as u32
}

/// The byte run of a frame's samples, in order, each as a 4-byte word.
pub open spec fn sample_bytes(s: Seq<i32>) -> Seq<u8>
    decreases s.len(),
{
    if s.len() == 0 {
        Seq::empty()
    } else {
        sample_bytes(s.drop_last()) + le32(sample_word(s.last()))
    }
}

/// The byte run of one frame: its offset, then its samples.
pub open spec fn frame_bytes(f: Frame) -> Seq<u8> {
    le64(f.offset as u64) + sample_bytes(f.samples@)
}

/// The byte run of a sequence of frames, in order.
pub open spec fn frames_bytes(fs: Seq<Frame>) -> Seq<u8>
    decreases fs.len(),
{
    if fs.len() == 0 {
        Seq::empty()
    } else {
        frames_bytes(fs.drop_last()) + frame_bytes(fs.last())
    }
}

/// The private file format of a WaveTable: fundamental and sample rate as
/// 4-byte words, frame length and frame count as 8-byte words, then each
/// frame as its offset followed by its samples, all little-endian.
pub open spec fn table_bytes(t: WaveTable) -> Seq<u8> {
    le32(t.fundamental_mhz) + le32(t.source_sample_rate) + le64(t.frame_length as u64) + le64(
        t.frames@.len() as u64,
    ) + frames_bytes(t.frames@)
}

/// The samples of a frame take 4 bytes each.
pub proof fn lemma_sample_bytes_len(s: Seq<i32>)
    ensures
        sample_bytes(s).len() == 4 * s.len(),
    decreases s.len(),
{
    if s.len() > 0 {
        lemma_sample_bytes_len(s.drop_last());
    }
}

/// Frames of uniform length take `8 + 4 * fl` bytes each.
pub proof fn lemma_frames_bytes_len(fs: Seq<Frame>, fl: int)
    requires
        forall|k: int| 0 <= k < fs.len() ==> (#[trigger] fs[k]).samples@.len() == fl,
    ensures
        frames_bytes(fs).len() == fs.len() * (8 + 4 * fl),
    decreases fs.len(),
{
    if fs.len() > 0 {
        lemma_frames_bytes_len(fs.drop_last(), fl);
        lemma_sample_bytes_len(fs.last().samples@);
        assert(fs.last() == fs[fs.len() - 1]);
        assert((fs.len() - 1) * (8 + 4 * fl) + (8 + 4 * fl) == fs.len() * (8 + 4 * fl))
            by (nonlinear_arith);
    }
}

/// Append the four little-endian bytes of a `u32`.
fn push_u32(out: &mut Vec<u8>, v: u32)
    ensures
        final(out)@ == old(out)@ + le32(v),
{
    out.push((v & 0xff) as u8);
    out.push(((v >> 8) & 0xff) as u8);
    out.push(((v >> 16) & 0xff) as u8);
    out.push(((v >> 24) & 0xff) as u8);
    assert(out@ =~= old(out)@ + le32(v));
}

/// Append the eight little-endian bytes of a `u64`.
fn push_u64(out: &mut Vec<u8>, v: u64)
    ensures
        final(out)@ == old(out)@ + le64(v),
{
    out.push((v & 0xff) as u8);
    out.push(((v >> 8) & 0xff) as u8);
    out.push(((v >> 16) & 0xff) as u8);
    out.push(((v >> 24) & 0xff) as u8);
    out.push(((v >> 32) & 0xff) as u8);
    out.push(((v >> 40) & 0xff) as u8);
    out.push(((v >> 48) & 0xff) as u8);
    out.push(((v >> 56) & 0xff) as u8);
    assert(out@ =~= old(out)@ + le64(v));
}

/// Serialize a WaveTable into its private binary file format. The result is
/// exactly `table_bytes` of the table, so parsing it gives the table back.
pub fn serialize_wavetable(t: &WaveTable) -> (out: Vec<u8>)
    requires
        table_wf(*t),
    ensures
        out@ == table_bytes(*t),
{
    let mut out: Vec<u8> = Vec::new();
    push_u32(&mut out, t.fundamental_mhz);
    push_u32(&mut out, t.source_sample_rate);
    push_u64(&mut out, t.frame_length as u64);
    push_u64(&mut out, t.frames.len() as u64);
    let ghost header = le32(t.fundamental_mhz) + le32(t.source_sample_rate) + le64(
        t.frame_length as u64,
    ) + le64(t.frames@.len() as u64);
    assert(out@ =~= header);
    let n = t.frames.len();
    let mut k: usize = 0;
    while k < n
        invariant
            k <= n,
            out@ == header + frames_bytes(t.frames@.take(k as int)),
        decreases n - k,
    {
        let f = &t.frames[k];
        push_u64(&mut out, f.offset as u64);
        let ghost before_samples = out@;
        let fl = f.samples.len();
        let mut j: usize = 0;
        while j < fl
            invariant
                j <= fl,
                fl == f.samples@.len(),
                out@ == before_samples + sample_bytes(f.samples@.take(j as int)),
            decreases fl - j,
        {
            let v = f.samples[j];
            assert(-SCALE <= v <= SCALE);
            let w: u32 = (v + SCALE) as u32;
            push_u32(&mut out, w);
            proof {
                assert(f.samples@.take(j as int + 1).drop_last() =~= f.samples@.take(j as int));
                assert(f.samples@.take(j as int + 1).last() == f.samples@[j as int]);
                assert(w == sample_word(f.samples@[j as int]));
                assert(out@ =~= before_samples + sample_bytes(f.samples@.take(j as int + 1)));
            }
            j = j + 1;
        }
        proof {
            assert(f.samples@.take(fl as int) =~= f.samples@);
            assert(t.frames@.take(k as int + 1).drop_last() =~= t.frames@.take(k as int));
            assert(t.frames@.take(k as int + 1).last() == t.frames@[k as int]);
            assert(out@ =~= header + frames_bytes(t.frames@.take(k as int + 1)));
        }
        k = k + 1;
    }
    proof {
        assert(t.frames@.take(n as int) =~= t.frames@);
        assert(out@ =~= table_bytes(*t));
    }
    out
}

/// A subrange of a subrange is a subrange of the original.
proof fn lemma_subrange_of_subrange(s: Seq<u8>, a: int, b: int, c: int, d: int)
    requires
        0 <= a <= b <= s.len(),
        0 <= c <= d <= b - a,
    ensures
        s.subrange(a, b).subrange(c, d) == s.subrange(a + c, a + d),
{
    assert(s.subrange(a, b).subrange(c, d) =~= s.subrange(a + c, a + d));
}

/// Where each piece of a frame lies in its byte run: the offset in the
/// first 8 bytes, sample `j` in the 4 bytes starting at `8 + 4 * j`.
proof fn lemma_frame_bytes_parts(f: Frame, fl: int)
    requires
        f.samples@.len() == fl,
        fl >= 0,
    ensures
        frame_bytes(f).len() == 8 + 4 * fl,
        frame_bytes(f).subrange(0, 8) == le64(f.offset as u64),
        forall|j: int|
            0 <= j < fl ==> frame_bytes(f).subrange(8 + 4 * j, 12 + 4 * j) == le32(
                sample_word(#[trigger] f.samples@[j]),
            ),
{
    lemma_sample_bytes_len(f.samples@);
    assert(frame_bytes(f).subrange(0, 8) =~= le64(f.offset as u64));
    assert forall|j: int| 0 <= j < fl implies frame_bytes(f).subrange(8 + 4 * j, 12 + 4 * j)
        == le32(sample_word(#[trigger] f.samples@[j])) by {
        lemma_sample_bytes_extract(f.samples@, j);
        assert(frame_bytes(f).subrange(8 + 4 * j, 12 + 4 * j) =~= sample_bytes(
            f.samples@,
        ).subrange(4 * j, 4 * j + 4));
    }
}

/// Where sample `j` lies in a sample byte run.
proof fn lemma_sample_bytes_extract(s: Seq<i32>, j: int)
    requires
        0 <= j < s.len(),
    ensures
        sample_bytes(s).subrange(4 * j, 4 * j + 4) == le32(sample_word(s[j])),
    decreases s.len(),
{
    lemma_sample_bytes_len(s);
    lemma_sample_bytes_len(s.drop_last());
    if j == s.len() - 1 {
        assert(s.last() == s[j]);
        assert(sample_bytes(s).subrange(4 * j, 4 * j + 4) =~= le32(sample_word(s[j])));
    } else {
        lemma_sample_bytes_extract(s.drop_last(), j);
        assert(s.drop_last()[j] == s[j]);
        assert(sample_bytes(s).subrange(4 * j, 4 * j + 4) =~= sample_bytes(
            s.drop_last(),
        ).subrange(4 * j, 4 * j + 4));
    }
}

/// Where frame `k` lies in a frame byte run of uniform frame length.
proof fn lemma_frames_bytes_extract(fs: Seq<Frame>, fl: int, k: int)
    requires
        fl >= 0,
        forall|i: int| 0 <= i < fs.len() ==> (#[trigger] fs[i]).samples@.len() == fl,
        0 <= k < fs.len(),
    ensures
        frames_bytes(fs).subrange(k * (8 + 4 * fl), (k + 1) * (8 + 4 * fl)) == frame_bytes(fs[k]),
    decreases fs.len(),
{
    let w = 8 + 4 * fl;
    lemma_frames_bytes_len(fs, fl);
    lemma_frames_bytes_len(fs.drop_last(), fl);
    lemma_frame_bytes_parts(fs[k], fl);
    assert((k + 1) * w == k * w + w) by (nonlinear_arith);
    if k == fs.len() - 1 {
        assert(fs.last() == fs[k]);
        assert(k * w == (fs.len() - 1) * w);
        assert(frames_bytes(fs).subrange(k * w, (k + 1) * w) =~= frame_bytes(fs[k]));
    } else {
        lemma_frames_bytes_extract(fs.drop_last(), fl, k);
        assert(fs.drop_last()[k] == fs[k]);
        assert((k + 1) * w <= (fs.len() - 1) * w) by (nonlinear_arith)
            requires
                k + 1 <= fs.len() - 1,
                w >= 0,
        ;
        assert(k * w >= 0) by (nonlinear_arith)
            requires
                k >= 0,
                w >= 0,
        ;
        assert(frames_bytes(fs).subrange(k * w, (k + 1) * w) =~= frames_bytes(
            fs.drop_last(),
        ).subrange(k * w, (k + 1) * w));
    }
}

/// Where the header fields and the frame run lie in a table's byte run.
proof fn lemma_header_extract(t: WaveTable)
    requires
        table_wf(t),
    ensures
        table_bytes(t).len() == 24 + t.frames@.len() * (8 + 4 * t.frame_length),
        table_bytes(t).len() >= 24,
        table_bytes(t).subrange(0, 4) == le32(t.fundamental_mhz),
        table_bytes(t).subrange(4, 8) == le32(t.source_sample_rate),
        table_bytes(t).subrange(8, 16) == le64(t.frame_length as u64),
        table_bytes(t).subrange(16, 24) == le64(t.frames@.len() as u64),
        table_bytes(t).subrange(24, table_bytes(t).len() as int) == frames_bytes(t.frames@),
{
    lemma_frames_bytes_len(t.frames@, t.frame_length as int);
    assert(t.frames@.len() * (8 + 4 * t.frame_length) >= 0) by (nonlinear_arith)
        requires
            t.frames@.len() >= 0,
            t.frame_length >= 0,
    ;
    assert(table_bytes(t).subrange(0, 4) =~= le32(t.fundamental_mhz));
    assert(table_bytes(t).subrange(4, 8) =~= le32(t.source_sample_rate));
    assert(table_bytes(t).subrange(8, 16) =~= le64(t.frame_length as u64));
    assert(table_bytes(t).subrange(16, 24) =~= le64(t.frames@.len() as u64));
    assert(table_bytes(t).subrange(24, table_bytes(t).len() as int) =~= frames_bytes(t.frames@));
}

/// Reads a 4-byte little-endian word.
fn read_u32(buffer: &[u8], pos: usize) -> (r: u32)
    requires
        pos + 4 <= buffer@.len(),
    ensures
        r == rec32(
            buffer@[pos as int],
            buffer@[pos as int + 1],
            buffer@[pos as int + 2],
            buffer@[pos as int + 3],
        ),
{
    let b0 = buffer[pos];
    let b1 = buffer[pos + 1];
    let b2 = buffer[pos + 2];
    let b3 = buffer[pos + 3];
    (b0 as u32) | ((b1 as u32) << 8) | ((b2 as u32) << 16) | ((b3 as u32) << 24)
}

/// Reads an 8-byte little-endian word.
fn read_u64(buffer: &[u8], pos: usize) -> (r: u64)
    requires
        pos + 8 <= buffer@.len(),
    ensures
        r == rec64(
            buffer@[pos as int],
            buffer@[pos as int + 1],
            buffer@[pos as int + 2],
            buffer@[pos as int + 3],
            buffer@[pos as int + 4],
            buffer@[pos as int + 5],
            buffer@[pos as int + 6],
            buffer@[pos as int + 7],
        ),
{
    let b0 = buffer[pos];
    let b1 = buffer[pos + 1];
    let b2 = buffer[pos + 2];
    let b3 = buffer[pos + 3];
    let b4 = buffer[pos + 4];
    let b5 = buffer[pos + 5];
    let b6 = buffer[pos + 6];
    let b7 = buffer[pos + 7];
    (b0 as u64) | ((b1 as u64) << 8) | ((b2 as u64) << 16) | ((b3 as u64) << 24) | ((b4
        as u64) << 32) | ((b5 as u64) << 40) | ((b6 as u64) << 48) | ((b7 as u64) << 56)
}

/// Equal 4-byte runs come from equal words.
proof fn lemma_le32_injective(a: u32, b: u32)
    requires
        le32(a) == le32(b),
    ensures
        a == b,
{
    lemma_le32_roundtrip(a);
    lemma_le32_roundtrip(b);
}

/// Equal 8-byte runs come from equal words.
proof fn lemma_le64_injective(a: u64, b: u64)
    requires
        le64(a) == le64(b),
    ensures
        a == b,
{
    lemma_le64_roundtrip(a);
    lemma_le64_roundtrip(b);
}

/// Where the pieces of frame `k` lie within a frame byte run of uniform
/// frame length `fl`: its offset, and each of its samples.
proof fn lemma_frames_region(fs: Seq<Frame>, fl: int, k: int)
    requires
        fl >= 0,
        forall|i: int| 0 <= i < fs.len() ==> (#[trigger] fs[i]).samples@.len() == fl,
        0 <= k < fs.len(),
    ensures
        frames_bytes(fs).len() == fs.len() * (8 + 4 * fl),
        frames_bytes(fs).subrange(k * (8 + 4 * fl), k * (8 + 4 * fl) + 8) == le64(
            fs[k].offset as u64,
        ),
        forall|j: int|
            0 <= j < fl ==> frames_bytes(fs).subrange(
                k * (8 + 4 * fl) + 8 + 4 * j,
                k * (8 + 4 * fl) + 12 + 4 * j,
            ) == le32(sample_word(#[trigger] fs[k].samples@[j])),
{
    let w = 8 + 4 * fl;
    lemma_frames_bytes_len(fs, fl);
    lemma_frames_bytes_extract(fs, fl, k);
    lemma_frame_bytes_parts(fs[k], fl);
    assert(k * w >= 0) by (nonlinear_arith)
        requires
            k >= 0,
            w >= 0,
    ;
    assert((k + 1) * w == k * w + w) by (nonlinear_arith);
    assert((k + 1) * w <= fs.len() * w) by (nonlinear_arith)
        requires
            k + 1 <= fs.len(),
            w >= 0,
    ;
    lemma_subrange_of_subrange(frames_bytes(fs), k * w, (k + 1) * w, 0, 8);
    assert forall|j: int| 0 <= j < fl implies frames_bytes(fs).subrange(
        k * w + 8 + 4 * j,
        k * w + 12 + 4 * j,
    ) == le32(sample_word(#[trigger] fs[k].samples@[j])) by {
        lemma_subrange_of_subrange(frames_bytes(fs), k * w, (k + 1) * w, 8 + 4 * j, 12 + 4 * j);
    }
}

/// What any well-formed table whose byte run is `buf` must look like: its
/// header fields stand at the head of `buf`, its frame run follows, and its
/// frame count is bounded by the length of `buf`.
proof fn lemma_witness_shape(t: WaveTable, buf: Seq<u8>)
    requires
        table_wf(t),
        buf == table_bytes(t),
        buf.len() <= usize::MAX,
    ensures
        buf.len() == 24 + t.frames@.len() * (8 + 4 * t.frame_length),
        buf.len() >= 24,
        t.frames@.len() <= usize::MAX,
        buf.subrange(0, 4) == le32(t.fundamental_mhz),
        buf.subrange(4, 8) == le32(t.source_sample_rate),
        buf.subrange(8, 16) == le64(t.frame_length as u64),
        buf.subrange(16, 24) == le64(t.frames@.len() as u64),
        buf.subrange(24, buf.len() as int) == frames_bytes(t.frames@),
{
    lemma_header_extract(t);
    let n = t.frames@.len() as int;
    let w = 8 + 4 * t.frame_length as int;
    assert(n * 12 <= n * w) by (nonlinear_arith)
        requires
            n >= 0,
            12 <= w,
    ;
    assert(n <= n * 12) by (nonlinear_arith)
        requires
            n >= 0,
    ;
}

/// Parse a WaveTable from its private binary file format: the exact inverse
/// of `serialize_wavetable`. Any buffer that is not the byte run of some
/// well-formed table (a corrupt table file) is rejected with `None`.
#[verifier::rlimit(100)]
pub fn parse_wavetable_from_buffer(buffer: &[u8]) -> (res: Option<WaveTable>)
    ensures
        res matches Some(r) ==> table_wf(r) && buffer@ == table_bytes(r),
        forall|t: WaveTable| table_wf(t) && buffer@ == table_bytes(t) ==> res is Some,
{
    let blen = buffer.len();
    if blen < 24 {
        proof {
            assert forall|t: WaveTable|
                table_wf(t) && buffer@ == table_bytes(t) implies false by {
                lemma_witness_shape(t, buffer@);
            }
        }
        return None;
    }
    let fund = read_u32(buffer, 0);
    let sr = read_u32(buffer, 4);
    let fl64 = read_u64(buffer, 8);
    let cnt64 = read_u64(buffer, 16);
    proof {
        lemma_rec32_roundtrip(buffer@[0], buffer@[1], buffer@[2], buffer@[3]);
        lemma_rec32_roundtrip(buffer@[4], buffer@[5], buffer@[6], buffer@[7]);
        lemma_rec64_roundtrip(
            buffer@[8],
            buffer@[9],
            buffer@[10],
            buffer@[11],
            buffer@[12],
            buffer@[13],
            buffer@[14],
            buffer@[15],
        );
        lemma_rec64_roundtrip(
            buffer@[16],
            buffer@[17],
            buffer@[18],
            buffer@[19],
            buffer@[20],
            buffer@[21],
            buffer@[22],
            buffer@[23],
        );
        assert(le32(fund) =~= buffer@.subrange(0, 4));
        assert(le32(sr) =~= buffer@.subrange(4, 8));
        assert(le64(fl64) =~= buffer@.subrange(8, 16));
        assert(le64(cnt64) =~= buffer@.subrange(16, 24));
    }
    if fund == 0 || sr == 0 || fl64 == 0 || fl64 > usize::MAX as u64 || cnt64 > usize::MAX
        as u64 {
        proof {
            assert forall|t: WaveTable|
                table_wf(t) && buffer@ == table_bytes(t) implies false by {
                lemma_witness_shape(t, buffer@);
                lemma_le32_injective(t.fundamental_mhz, fund);
                lemma_le32_injective(t.source_sample_rate, sr);
                lemma_le64_injective(t.frame_length as u64, fl64);
                lemma_le64_injective(t.frames@.len() as u64, cnt64);
            }
        }
        return None;
    }
    let fl = fl64 as usize;
    let cnt = cnt64 as usize;
    let ghost w = 8 + 4 * fl as int;
    let mut frames: Vec<Frame> = Vec::new();
    let mut pos: usize = 24;
    let mut k: usize = 0;
    while k < cnt
        invariant
            k <= cnt,
            frames@.len() == k,
            pos as int == 24 + k * w,
            pos <= blen,
            forall|i: int| 0 <= i < k ==> (#[trigger] frames@[i]).samples@.len() == fl,
            forall|i: int, j: int|
                0 <= i < k && 0 <= j < fl ==> -SCALE <= #[trigger] frames@[i].samples@[j]
                    <= SCALE,
            forall|i: int|
                0 <= i < k - 1 ==> (#[trigger] frames@[i]).offset < frames@[i + 1].offset,
            frames_bytes(frames@) == buffer@.subrange(24, pos as int),
        decreases cnt - k,
    {
        proof {
            assert((k + 1) * w == k * w + w) by (nonlinear_arith);
        }
        if (blen as u128) - (pos as u128) < 8 + 4 * (fl as u128) {
            proof {
                assert forall|t: WaveTable|
                    table_wf(t) && buffer@ == table_bytes(t) implies false by {
                    lemma_witness_shape(t, buffer@);
                    lemma_le64_injective(t.frame_length as u64, fl64);
                    lemma_le64_injective(t.frames@.len() as u64, cnt64);
                    assert((k + 1) * w <= cnt * w) by (nonlinear_arith)
                        requires
                            k + 1 <= cnt,
                            w >= 0,
                    ;
                }
            }
            return None;
        }
        let off64 = read_u64(buffer, pos);
        proof {
            lemma_rec64_roundtrip(
                buffer@[pos as int],
                buffer@[pos as int + 1],
                buffer@[pos as int + 2],
                buffer@[pos as int + 3],
                buffer@[pos as int + 4],
                buffer@[pos as int + 5],
                buffer@[pos as int + 6],
                buffer@[pos as int + 7],
            );
            assert(le64(off64) =~= buffer@.subrange(pos as int, pos as int + 8));
        }
        if off64 > usize::MAX as u64 {
            proof {
                assert forall|t: WaveTable|
                    table_wf(t) && buffer@ == table_bytes(t) implies false by {
                    lemma_witness_shape(t, buffer@);
                    lemma_le64_injective(t.frame_length as u64, fl64);
                    lemma_le64_injective(t.frames@.len() as u64, cnt64);
                    lemma_frames_region(t.frames@, fl as int, k as int);
                    assert((k + 1) * w <= cnt * w) by (nonlinear_arith)
                        requires
                            k + 1 <= cnt,
                            w >= 0,
                    ;
                    lemma_subrange_of_subrange(
                        buffer@,
                        24,
                        blen as int,
                        k as int * w,
                        k as int * w + 8,
                    );
                    lemma_le64_injective(t.frames@[k as int].offset as u64, off64);
                }
            }
            return None;
        }
        let off = off64 as usize;
        if k > 0 {
            let prev = frames[k - 1].offset;
            if off <= prev {
                proof {
                    assert forall|t: WaveTable|
                        table_wf(t) && buffer@ == table_bytes(t) implies false by {
                        lemma_witness_shape(t, buffer@);
                        lemma_le64_injective(t.frame_length as u64, fl64);
                        lemma_le64_injective(t.frames@.len() as u64, cnt64);
                        lemma_frames_region(t.frames@, fl as int, k as int);
                        lemma_frames_region(t.frames@, fl as int, k as int - 1);
                        lemma_frames_region(frames@, fl as int, k as int - 1);
                        assert((k + 1) * w <= cnt * w) by (nonlinear_arith)
                            requires
                                k + 1 <= cnt,
                                w >= 0,
                        ;
                        assert((k as int - 1) * w + w == k as int * w) by (nonlinear_arith);
                        lemma_subrange_of_subrange(
                            buffer@,
                            24,
                            blen as int,
                            k as int * w,
                            k as int * w + 8,
                        );
                        lemma_subrange_of_subrange(
                            buffer@,
                            24,
                            blen as int,
                            (k as int - 1) * w,
                            (k as int - 1) * w + 8,
                        );
                        lemma_subrange_of_subrange(
                            buffer@,
                            24,
                            pos as int,
                            (k as int - 1) * w,
                            (k as int - 1) * w + 8,
                        );
                        lemma_le64_injective(t.frames@[k as int].offset as u64, off64);
                        lemma_le64_injective(
                            t.frames@[k as int - 1].offset as u64,
                            frames@[k as int - 1].offset as u64,
                        );
                    }
                }
                return None;
            }
        }
        let mut samples: Vec<i32> = Vec::new();
        let base = pos + 8;
        let mut j: usize = 0;
        while j < fl
            invariant
                j <= fl,
                samples@.len() == j,
                forall|j2: int| 0 <= j2 < j ==> -SCALE <= #[trigger] samples@[j2] <= SCALE,
                sample_bytes(samples@) == buffer@.subrange(base as int, base as int + 4 * j),
            decreases fl - j,
        {
            let w32 = read_u32(buffer, base + 4 * j);
            proof {
                let p = base as int + 4 * j;
                lemma_rec32_roundtrip(buffer@[p], buffer@[p + 1], buffer@[p + 2], buffer@[p + 3]);
                assert(le32(w32) =~= buffer@.subrange(p, p + 4));
            }
            if w32 > 65536 {
                proof {
                    assert forall|t: WaveTable|
                        table_wf(t) && buffer@ == table_bytes(t) implies false by {
                        lemma_witness_shape(t, buffer@);
                        lemma_le64_injective(t.frame_length as u64, fl64);
                        lemma_le64_injective(t.frames@.len() as u64, cnt64);
                        lemma_frames_region(t.frames@, fl as int, k as int);
                        assert((k + 1) * w <= cnt * w) by (nonlinear_arith)
                            requires
                                k + 1 <= cnt,
                                w >= 0,
                        ;
                        lemma_subrange_of_subrange(
                            buffer@,
                            24,
                            blen as int,
                            k as int * w + 8 + 4 * j,
                            k as int * w + 12 + 4 * j,
                        );
                        let sv = t.frames@[k as int].samples@[j as int];
                        lemma_le32_injective(sample_word(sv), w32);
                        assert(-SCALE <= sv <= SCALE);
                    }
                }
                return None;
            }
            let v: i32 = (w32 as i32) - SCALE;
            let ghost old_s = samples@;
            samples.push(v);
            proof {
                assert(samples@.drop_last() =~= old_s);
                assert(samples@.last() == v);
                assert(sample_word(v) == w32);
                assert(sample_bytes(samples@) =~= buffer@.subrange(
                    base as int,
                    base as int + 4 * (j + 1),
                ));
            }
            j = j + 1;
        }
        let ghost svec = samples@;
        let ghost old_f = frames@;
        frames.push(Frame { offset: off, samples });
        proof {
            assert(frames@.drop_last() =~= old_f);
            assert(frames@.last().offset == off);
            assert(frames@.last().samples@ == svec);
            assert(off as u64 == off64);
            assert(frame_bytes(frames@.last()) == le64(off64) + sample_bytes(svec));
            assert(frames_bytes(frames@) =~= buffer@.subrange(24, pos as int + w));
        }
        pos = pos + 8 + 4 * fl;
        k = k + 1;
    }
    if pos != blen {
        proof {
            assert forall|t: WaveTable|
                table_wf(t) && buffer@ == table_bytes(t) implies false by {
                lemma_witness_shape(t, buffer@);
                lemma_le64_injective(t.frame_length as u64, fl64);
                lemma_le64_injective(t.frames@.len() as u64, cnt64);
            }
        }
        return None;
    }
    let table = WaveTable { fundamental_mhz: fund, source_sample_rate: sr, frame_length: fl, frames };
    proof {
        assert(fl as u64 == fl64);
        assert(cnt as u64 == cnt64);
        assert(buffer@ =~= table_bytes(table));
    }
    Some(table)
}

/// Round trip: the byte run determines the table. `serialize_wavetable`
/// produces `table_bytes` of its table, and a successful parse returns a
/// well-formed table whose `table_bytes` is the parsed buffer, so parsing a
/// serialized table reproduces it field for field, sample for sample.
pub proof fn lemma_table_bytes_injective(t1: WaveTable, t2: WaveTable)
    requires
        table_wf(t1),
        table_wf(t2),
        table_bytes(t1) == table_bytes(t2),
        table_bytes(t1).len() <= usize::MAX,
    ensures
        t1.fundamental_mhz == t2.fundamental_mhz,
        t1.source_sample_rate == t2.source_sample_rate,
        t1.frame_length == t2.frame_length,
        t1.frames@.len() == t2.frames@.len(),
        forall|k: int|
            0 <= k < t1.frames@.len() ==> (#[trigger] t1.frames@[k]).offset == t2.frames@[
                k
            ].offset,
        forall|k: int|
            0 <= k < t1.frames@.len() ==> (#[trigger] t1.frames@[k]).samples@ == t2.frames@[
                k
            ].samples@,
{
    let buf = table_bytes(t1);
    lemma_witness_shape(t1, buf);
    lemma_witness_shape(t2, buf);
    lemma_le32_injective(t1.fundamental_mhz, t2.fundamental_mhz);
    lemma_le32_injective(t1.source_sample_rate, t2.source_sample_rate);
    lemma_le64_injective(t1.frame_length as u64, t2.frame_length as u64);
    lemma_le64_injective(t1.frames@.len() as u64, t2.frames@.len() as u64);
    let fl = t1.frame_length as int;
    let n = t1.frames@.len() as int;
    let w = 8 + 4 * fl;
    assert forall|k: int| 0 <= k < n implies (#[trigger] t1.frames@[k]).offset == t2.frames@[
        k
    ].offset && t1.frames@[k].samples@ == t2.frames@[k].samples@ by {
        lemma_frames_region(t1.frames@, fl, k);
        lemma_frames_region(t2.frames@, fl, k);
        lemma_le64_injective(t1.frames@[k].offset as u64, t2.frames@[k].offset as u64);
        assert forall|j: int| 0 <= j < fl implies t1.frames@[k].samples@[j] == t2.frames@[
            k
        ].samples@[j] by {
            let v1 = t1.frames@[k].samples@[j];
            let v2 = t2.frames@[k].samples@[j];
            lemma_le32_injective(sample_word(v1), sample_word(v2));
            assert(-SCALE <= v1 <= SCALE && -SCALE <= v2 <= SCALE);
        }
        assert(t1.frames@[k].samples@ =~= t2.frames@[k].samples@);
    }
}

} // verus!
