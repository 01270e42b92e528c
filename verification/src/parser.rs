//! RIFF/WAVE parsing on the bytes of a file.
use vstd::prelude::*;

verus! {

broadcast use vstd::slice::group_slice_axioms;

// ---------------------------------------------------------------------------
// The byte-level model of the format.
// ---------------------------------------------------------------------------

/// The little-endian unsigned 16-bit value stored at `d[i..i + 2]`.
pub open spec fn le_u16_at(d: Seq<u8>, i: int) -> int {
    d[i] + 256 * d[i + 1]
}

/// The little-endian unsigned 32-bit value stored at `d[i..i + 4]`.
pub open spec fn le_u32_at(d: Seq<u8>, i: int) -> int {
    d[i] + 256 * d[i + 1] + 65536 * d[i + 2] + 16777216 * d[i + 3]
}

/// The little-endian two's-complement 16-bit value stored at `d[i..i + 2]`.
pub open spec fn le_i16_at(d: Seq<u8>, i: int) -> int {
    let u = le_u16_at(d, i);
    if u < 32768 {
        u
    } else {
        u - 65536
    }
}

/// The tag `RIFF`.
pub open spec fn riff_tag() -> Seq<u8> {
    seq![0x52u8, 0x49, 0x46, 0x46]
}

/// The tag `WAVE`.
pub open spec fn wave_tag() -> Seq<u8> {
    seq![0x57u8, 0x41, 0x56, 0x45]
}

/// The tag `fmt `.
pub open spec fn format_tag() -> Seq<u8> {
    seq![0x66u8, 0x6d, 0x74, 0x20]
}

/// The tag `data`.
pub open spec fn data_tag() -> Seq<u8> {
    seq![0x64u8, 0x61, 0x74, 0x61]
}

/// The sub-format GUID tail that follows the PCM code in an extensible format chunk.
pub open spec fn extension_tag() -> Seq<u8> {
    seq![0x00u8, 0x00, 0x00, 0x00, 0x10, 0x00, 0x80, 0x00, 0x00, 0xaa, 0x00, 0x38, 0x9b, 0x71]
}

/// `d` holds the four bytes `tag` at `i`.
pub open spec fn has_tag_at(d: Seq<u8>, i: int, tag: Seq<u8>) -> bool {
    d.subrange(i, i + 4) == tag
}

/// The offset of the header of the first `data` chunk at or after `pos`, walking the
/// chunk list by the sizes in the chunk headers; `None` when a header runs past the end.
pub open spec fn find_data_chunk(d: Seq<u8>, pos: int) -> Option<int>
    decreases (if pos <= d.len() { d.len() - pos } else { 0 }),
{
    if pos < 0 || pos + 8 > d.len() {
        None
    } else if has_tag_at(d, pos, data_tag()) {
        Some(pos)
    } else {
        find_data_chunk(d, pos + 8 + le_u32_at(d, pos + 4))
    }
}

/// A `data` chunk found from `pos` on starts at or after `pos`, has its whole header in
/// `d`, and carries the `data` tag.
pub proof fn lemma_find_data_chunk(d: Seq<u8>, pos: int)
    ensures
        find_data_chunk(d, pos) matches Some(p) ==> {
            &&& pos <= p
            &&& p + 8 <= d.len()
            &&& has_tag_at(d, p, data_tag())
        },
    decreases (if pos <= d.len() { d.len() - pos } else { 0 }),
{
    if 0 <= pos && pos + 8 <= d.len() && !has_tag_at(d, pos, data_tag()) {
        lemma_find_data_chunk(d, pos + 8 + le_u32_at(d, pos + 4));
    }
}

/// Why a file is not a RIFF/WAVE PCM file that this library reads.
#[derive(Clone, Copy, Debug, PartialEq, Eq, Structural)]
pub enum WavError {
    /// The file ends before a part that must be read.
    UnexpectedEof,
    /// The file does not start with `RIFF`.
    NotRiff,
    /// The RIFF form is not `WAVE`.
    NotWave,
    /// The first chunk is not `fmt `.
    NotFormat,
    /// The format chunk's size is none of 16, 18 and 40.
    BadFormatSize(u32),
    /// The sample format is not PCM.
    NotPcm,
    /// An 18-byte format chunk has a nonzero extension size.
    NonzeroExtension,
    /// A 40-byte format chunk does not use the extensible format code.
    NotExtensible,
    /// A 40-byte format chunk has an extension size other than 22.
    BadExtensionSize,
    /// A 40-byte format chunk has the wrong sub-format tag.
    BadExtensionTag,
}

/// What the header of a WAVE file says about its sample data.
#[derive(Clone, Copy, Debug, PartialEq, Eq, Structural)]
pub struct WavHeader {
    pub num_channels: u16,
    pub bytes_per_second: u32,
    /// Offset of the first byte of the `data` chunk's contents.
    pub data_offset: usize,
    /// Size of the `data` chunk's contents, as its header states it.
    pub data_bytes: u32,
}

/// The offset at which the chunk list starts after a valid format chunk, or the error.
pub open spec fn spec_format_end(d: Seq<u8>) -> Result<int, WavError>
    recommends
        d.len() >= 36,
{
    let size = le_u32_at(d, 16);
    let code = le_u16_at(d, 20);
    if size == 16 {
        if code != 1 {
            Err(WavError::NotPcm)
        } else {
            Ok(36)
        }
    } else if size == 18 {
        if code != 1 {
            Err(WavError::NotPcm)
        } else if d.len() < 38 {
            Err(WavError::UnexpectedEof)
        } else if d[36] != 0 || d[37] != 0 {
            Err(WavError::NonzeroExtension)
        } else {
            Ok(38)
        }
    } else if size == 40 {
        if code != 0xfffe {
            Err(WavError::NotExtensible)
        } else if d.len() < 60 {
            Err(WavError::UnexpectedEof)
        } else if le_u16_at(d, 36) != 22 {
            Err(WavError::BadExtensionSize)
        } else if d[44] != 1 || d[45] != 0 {
            Err(WavError::NotPcm)
        } else if d.subrange(46, 60) != extension_tag() {
            Err(WavError::BadExtensionTag)
        } else {
            Ok(60)
        }
    } else {
        Err(WavError::BadFormatSize(size as u32))
    }
}

/// The header of the WAVE file `d`, or the first error in it.
pub open spec fn spec_wav_header(d: Seq<u8>) -> Result<WavHeader, WavError> {
    if d.len() < 36 {
        Err(WavError::UnexpectedEof)
    } else if !has_tag_at(d, 0, riff_tag()) {
        Err(WavError::NotRiff)
    } else if !has_tag_at(d, 8, wave_tag()) {
        Err(WavError::NotWave)
    } else if !has_tag_at(d, 12, format_tag()) {
        Err(WavError::NotFormat)
    } else {
        match spec_format_end(d) {
            Err(e) => Err(e),
            Ok(pos) => match find_data_chunk(d, pos) {
                None => Err(WavError::UnexpectedEof),
                Some(p) => Ok(
                    WavHeader {
                        num_channels: le_u16_at(d, 22) as u16,
                        bytes_per_second: le_u32_at(d, 28) as u32,
                        data_offset: (p + 8) as usize,
                        data_bytes: le_u32_at(d, p + 4) as u32,
                    },
                ),
            },
        }
    }
}

// ---------------------------------------------------------------------------
// Byte reading.
// ---------------------------------------------------------------------------

fn read_u16(d: &[u8], i: usize) -> (r: u16)
    requires
        i + 2 <= d@.len(),
    ensures
        r == le_u16_at(d@, i as int),
{
    d[i] as u16 + d[i + 1] as u16 * 256
}

fn read_u32(d: &[u8], i: usize) -> (r: u32)
    requires
        i + 4 <= d@.len(),
    ensures
        r == le_u32_at(d@, i as int),
{
    d[i] as u32 + d[i + 1] as u32 * 256 + d[i + 2] as u32 * 65536 + d[i + 3] as u32 * 16777216
}

fn read_i16(d: &[u8], i: usize) -> (r: i16)
    requires
        i + 2 <= d@.len(),
    ensures
        r == le_i16_at(d@, i as int),
{
    let u = read_u16(d, i);
    if u < 32768 {
        u as i16
    } else {
        (u as i32 - 65536) as i16
    }
}

/// Whether `d` holds the tag `t` at `i`.
fn tag_at(d: &[u8], i: usize, t: [u8; 4]) -> (r: bool)
    requires
        i + 4 <= d@.len(),
    ensures
        r == has_tag_at(d@, i as int, t@),
{
    let r = d[i] == t[0] && d[i + 1] == t[1] && d[i + 2] == t[2] && d[i + 3] == t[3];
    if r {
        assert(d@.subrange(i as int, i + 4) =~= t@);
    } else {
        assert(d@.subrange(i as int, i + 4) != t@) by {
            let s = d@.subrange(i as int, i + 4);
            if s == t@ {
                assert(s[0] == t@[0] && s[1] == t@[1] && s[2] == t@[2] && s[3] == t@[3]);
            }
        }
    }
    r
}

fn riff_tag_bytes() -> (t: [u8; 4])
    ensures
        t@ == riff_tag(),
{
    let t = [0x52u8, 0x49, 0x46, 0x46];
    assert(t@ =~= riff_tag());
    t
}

fn wave_tag_bytes() -> (t: [u8; 4])
    ensures
        t@ == wave_tag(),
{
    let t = [0x57u8, 0x41, 0x56, 0x45];
    assert(t@ =~= wave_tag());
    t
}

fn format_tag_bytes() -> (t: [u8; 4])
    ensures
        t@ == format_tag(),
{
    let t = [0x66u8, 0x6d, 0x74, 0x20];
    assert(t@ =~= format_tag());
    t
}

fn data_tag_bytes() -> (t: [u8; 4])
    ensures
        t@ == data_tag(),
{
    let t = [0x64u8, 0x61, 0x74, 0x61];
    assert(t@ =~= data_tag());
    t
}

} // verus!

verus! {

// ---------------------------------------------------------------------------
// Down-mixing: the exact average of each block of samples, rounded toward zero.
// ---------------------------------------------------------------------------

/// The sum of a sequence of samples.
pub open spec fn sum_of(s: Seq<i16>) -> int
    decreases s.len(),
{
    if s.len() == 0 {
        0
    } else {
        sum_of(s.drop_last()) + s.last()
    }
}

/// `a / b` rounded toward zero, as Rust's integer division does.
pub open spec fn trunc_div(a: int, b: int) -> int {
    if a >= 0 {
        a / b
    } else {
        -((-a) / b)
    }
}

/// The mean of `s` rounded toward zero; 0 for an empty sequence.
pub open spec fn mean_toward_zero(s: Seq<i16>) -> int {
    if s.len() == 0 {
        0
    } else {
        trunc_div(sum_of(s), s.len() as int)
    }
}

/// The `count` little-endian samples stored from byte `start` of `d` on.
pub open spec fn pcm_samples(d: Seq<u8>, start: int, count: int) -> Seq<i16> {
    Seq::new(count as nat, |k: int| le_i16_at(d, start + 2 * k) as i16)
}

/// Interleaved samples of `channels` channels, each complete block of `channels`
/// samples replaced by its mean; a trailing incomplete block is dropped.
pub open spec fn downmix(raw: Seq<i16>, channels: int) -> Seq<i16> {
    Seq::new(
        (raw.len() as int / channels) as nat,
        |i: int| mean_toward_zero(raw.subrange(i * channels, i * channels + channels)) as i16,
    )
}

/// Rounding toward zero: `q` is the quotient of `a` by `b` when `q * b` is within `b` of
/// `a` on the side of zero.
pub proof fn lemma_trunc_div_unique(a: int, b: int, q: int)
    requires
        b > 0,
        (a >= 0 && q * b <= a < q * b + b) || (a <= 0 && q * b - b < a <= q * b),
    ensures
        trunc_div(a, b) == q,
{
    if a >= 0 && q * b <= a && a < q * b + b {
        vstd::arithmetic::div_mod::lemma_fundamental_div_mod_converse(a, b, q, a - q * b);
    } else if a == 0 {
        assert(q == 0) by (nonlinear_arith)
            requires q * b >= 0, q * b < b, b > 0;
    } else {
        // -a = (-q) * b + (q * b - a), with 0 <= q * b - a < b
        assert((-q) * b == -(q * b)) by (nonlinear_arith);
        vstd::arithmetic::div_mod::lemma_fundamental_div_mod_converse(-a, b, -q, q * b - a);
    }
}

/// The remainder of a division rounded toward zero is smaller than the divisor and has the
/// sign of the dividend.
pub proof fn lemma_trunc_div_rem(a: int, b: int)
    requires
        b > 0,
    ensures
        a >= 0 ==> 0 <= a - trunc_div(a, b) * b < b,
        a < 0 ==> -b < a - trunc_div(a, b) * b <= 0,
{
    if a >= 0 {
        vstd::arithmetic::div_mod::lemma_fundamental_div_mod(a, b);
        assert(b * (a / b) == (a / b) * b) by (nonlinear_arith);
        assert(0 <= a % b < b);
    } else {
        let c = -a;
        vstd::arithmetic::div_mod::lemma_fundamental_div_mod(c, b);
        assert(b * (c / b) == (c / b) * b) by (nonlinear_arith);
        assert(0 <= c % b < b);
        assert((-(c / b)) * b == -((c / b) * b)) by (nonlinear_arith);
    }
}

/// Bounds on a product bound the factor.
proof fn lemma_factor_bounds(x: int, n: int, lo: int, hi: int)
    requires
        n > 0,
        lo * n <= x * n + n - 1,
        x * n <= hi * n + n - 1,
    ensures
        lo - 1 < x,
        x <= hi,
{
    if x <= lo - 1 {
        assert(x * n <= (lo - 1) * n) by (nonlinear_arith)
            requires x <= lo - 1, n > 0;
        assert((lo - 1) * n == lo * n - n) by (nonlinear_arith);
    }
    if x > hi {
        assert(x * n >= (hi + 1) * n) by (nonlinear_arith)
            requires x >= hi + 1, n > 0;
        assert((hi + 1) * n == hi * n + n) by (nonlinear_arith);
    }
}

/// The mean of at most 65535 samples, rounded toward zero, computed without overflow by
/// carrying the remainders of the per-sample quotients.
fn avg_perfect(slice: &[i16]) -> (avg: i16)
    requires
        slice@.len() <= 65535,
    ensures
        avg == mean_toward_zero(slice@),
{
    let len = slice.len();
    if len == 0 {
        return 0;
    }
    let n = len as i64;
    let mut avg: i64 = 0;
    let mut error: i64 = 0;
    let mut j: usize = 0;
    while j < len
        invariant
            len == slice@.len(),
            n == len,
            0 < n <= 65535,
            j <= len,
            avg * n + error == sum_of(slice@.take(j as int)),
            -n < error < n,
            -32768 * j <= sum_of(slice@.take(j as int)) <= 32767 * j,
            -32769 <= avg <= 32768,
        decreases len - j,
    {
        let val = slice[j] as i64;
        let ghost s0 = sum_of(slice@.take(j as int));
        assert(slice@.take(j + 1).drop_last() =~= slice@.take(j as int));
        let q_val = val / n;
        proof {
            lemma_trunc_div_rem(val as int, n as int);
            assert(-32768 * n <= q_val * n <= 32768 * n) by (nonlinear_arith)
                requires q_val == trunc_div(val as int, n as int), -32768 <= val <= 32767, n > 0,
                    val >= 0 ==> 0 <= val - q_val * n < n,
                    val < 0 ==> -n < val - q_val * n <= 0;
            lemma_factor_bounds(q_val as int, n as int, -32768, 32768);
        }
        let r_val = val - q_val * n;
        let e1 = error + r_val;
        let q_err = e1 / n;
        proof {
            lemma_trunc_div_rem(e1 as int, n as int);
            assert(-2 * n <= q_err * n <= 2 * n) by (nonlinear_arith)
                requires q_err == trunc_div(e1 as int, n as int), -2 * n < e1 < 2 * n, n > 0,
                    e1 >= 0 ==> 0 <= e1 - q_err * n < n,
                    e1 < 0 ==> -n < e1 - q_err * n <= 0;
            lemma_factor_bounds(q_err as int, n as int, -2, 2);
        }
        let new_error = e1 - q_err * n;
        let ghost new_avg = avg + q_val + q_err;
        proof {
            assert(new_avg * n == avg * n + q_val * n + q_err * n) by (nonlinear_arith)
                requires new_avg == avg + q_val + q_err;
            let s1 = sum_of(slice@.take(j + 1));
            assert(s1 == s0 + val);
            assert(new_avg * n + new_error == s1);
            assert(-32768 * (j + 1) <= s1 <= 32767 * (j + 1));
            assert(-32768 * n <= s1 <= 32767 * n) by (nonlinear_arith)
                requires -32768 * (j + 1) <= s1 <= 32767 * (j + 1), j + 1 <= n;
            lemma_factor_bounds(new_avg, n as int, -32768, 32768);
        }
        avg = avg + q_val + q_err;
        error = new_error;
        j += 1;
    }
    assert(slice@.take(len as int) =~= slice@);
    let ghost total = sum_of(slice@);
    if avg < 0 && error > 0 {
        avg += 1;
        proof {
            assert(avg * n == (avg - 1) * n + n) by (nonlinear_arith);
            assert((avg - 1) * n <= -n) by (nonlinear_arith) requires avg - 1 < 0, n > 0;
            lemma_trunc_div_unique(total, n as int, avg as int);
        }
    } else if avg > 0 && error < 0 {
        avg -= 1;
        proof {
            assert(avg * n == (avg + 1) * n - n) by (nonlinear_arith);
            assert((avg + 1) * n >= n) by (nonlinear_arith) requires avg + 1 > 0, n > 0;
            lemma_trunc_div_unique(total, n as int, avg as int);
        }
    } else {
        proof {
            if avg < 0 {
                assert(avg * n <= -n) by (nonlinear_arith) requires avg < 0, n > 0;
                assert(total <= 0);
            } else if avg > 0 {
                assert(avg * n >= n) by (nonlinear_arith) requires avg > 0, n > 0;
                assert(total >= 0);
            } else {
                assert(avg * n == 0);
            }
            lemma_trunc_div_unique(total, n as int, avg as int);
        }
    }
    proof {
        assert(-32768 * n <= total <= 32767 * n);
        lemma_trunc_div_rem(total, n as int);
        lemma_factor_bounds(avg as int, n as int, -32768, 32767);
    }
    avg as i16
}

} // verus!

verus! {

// ---------------------------------------------------------------------------
// Chunk headers and the format chunk.
// ---------------------------------------------------------------------------

/// A chunk header as stored: a tag and a little-endian size.
struct ChunkHeaderRaw {
    tag: [u8; 4],
    num_bytes: [u8; 4],
}

/// A chunk header with its size decoded.
struct ChunkHeader {
    tag: [u8; 4],
    num_bytes: u32,
}

impl ChunkHeaderRaw {
    /// The eight bytes of `d` at `i`, taken as a chunk header.
    fn read(d: &[u8], i: usize) -> (h: ChunkHeaderRaw)
        requires
            i + 8 <= d@.len(),
        ensures
            h.tag@ == d@.subrange(i as int, i + 4),
            h.num_bytes@ == d@.subrange(i + 4, i + 8),
    {
        let h = ChunkHeaderRaw {
            tag: [d[i], d[i + 1], d[i + 2], d[i + 3]],
            num_bytes: [d[i + 4], d[i + 5], d[i + 6], d[i + 7]],
        };
        assert(h.tag@ =~= d@.subrange(i as int, i + 4));
        assert(h.num_bytes@ =~= d@.subrange(i + 4, i + 8));
        h
    }

    fn into_chunk_header(self) -> (h: ChunkHeader)
        ensures
            h.tag == self.tag,
            h.num_bytes == le_u32_at(self.num_bytes@, 0),
    {
        ChunkHeader {
            tag: self.tag,
            num_bytes: read_u32(&self.num_bytes, 0),
        }
    }
}

/// Whether two tags are the same four bytes.
fn same_tag(a: [u8; 4], b: [u8; 4]) -> (r: bool)
    ensures
        r == (a@ == b@),
{
    let r = a[0] == b[0] && a[1] == b[1] && a[2] == b[2] && a[3] == b[3];
    proof {
        if r {
            assert(a@ =~= b@);
        } else if a@ == b@ {
            assert(a@[0] == b@[0] && a@[1] == b@[1] && a@[2] == b@[2] && a@[3] == b@[3]);
        }
    }
    r
}

/// A format chunk size that is not 16, 18 or 40.
enum FormatSizeConvError {
    IncorrectSize(u32),
}

/// The three format chunk sizes this library reads.
enum FormatSize {
    Size16,
    Size18,
    Size40,
}

impl FormatSize {
    fn new(size: u32) -> (r: Result<FormatSize, FormatSizeConvError>)
        ensures
            size == 16 <==> r matches Ok(FormatSize::Size16),
            size == 18 <==> r matches Ok(FormatSize::Size18),
            size == 40 <==> r matches Ok(FormatSize::Size40),
            r matches Err(FormatSizeConvError::IncorrectSize(s)) ==> s == size,
    {
        match size {
            16 => Ok(FormatSize::Size16),
            18 => Ok(FormatSize::Size18),
            40 => Ok(FormatSize::Size40),
            size => Err(FormatSizeConvError::IncorrectSize(size)),
        }
    }
}

/// The offset at which the chunk list starts after the format chunk, checking the format
/// chunk (and, for sizes 18 and 40, its extension).
fn format_end(data: &[u8], format_size: FormatSize) -> (r: Result<usize, WavError>)
    requires
        data@.len() >= 36,
        (format_size is Size16 && le_u32_at(data@, 16) == 16)
            || (format_size is Size18 && le_u32_at(data@, 16) == 18)
            || (format_size is Size40 && le_u32_at(data@, 16) == 40),
    ensures
        match r {
            Ok(p) => spec_format_end(data@) == Ok::<int, WavError>(p as int),
            Err(e) => spec_format_end(data@) == Err::<int, WavError>(e),
        },
{
    let data_format = read_u16(data, 20);
    match format_size {
        FormatSize::Size16 => {
            if data_format != 1 {
                return Err(WavError::NotPcm);
            }
            Ok(36)
        },
        FormatSize::Size18 => {
            if data_format != 1 {
                return Err(WavError::NotPcm);
            }
            if data.len() < 38 {
                return Err(WavError::UnexpectedEof);
            }
            if data[36] != 0 || data[37] != 0 {
                return Err(WavError::NonzeroExtension);
            }
            Ok(38)
        },
        FormatSize::Size40 => {
            if data_format != 0xfffe {
                return Err(WavError::NotExtensible);
            }
            if data.len() < 60 {
                return Err(WavError::UnexpectedEof);
            }
            if read_u16(data, 36) != 22 {
                return Err(WavError::BadExtensionSize);
            }
            if data[44] != 1 || data[45] != 0 {
                return Err(WavError::NotPcm);
            }
            assert(spec_format_end(data@) == (if data@.subrange(46, 60) != extension_tag() {
                Err::<int, WavError>(WavError::BadExtensionTag)
            } else {
                Ok::<int, WavError>(60)
            }));
            let tag: [u8; 14] = [0x00, 0x00, 0x00, 0x00, 0x10, 0x00, 0x80, 0x00, 0x00, 0xaa, 0x00, 0x38, 0x9b, 0x71];
            assert(tag@ =~= extension_tag());
            let mut k: usize = 0;
            while k < 14
                invariant
                    data@.len() >= 60,
                    spec_format_end(data@) == (if data@.subrange(46, 60) != extension_tag() {
                        Err::<int, WavError>(WavError::BadExtensionTag)
                    } else {
                        Ok::<int, WavError>(60)
                    }),
                    tag@ == extension_tag(),
                    k <= 14,
                    forall|m: int| 0 <= m < k ==> data@[46 + m] == tag@[m],
                decreases 14 - k,
            {
                if data[46 + k] != tag[k] {
                    assert(data@.subrange(46, 60)[k as int] != extension_tag()[k as int]);
                    assert(data@.subrange(46, 60) != extension_tag());
                    return Err(WavError::BadExtensionTag);
                }
                k += 1;
            }
            assert(data@.subrange(46, 60) =~= extension_tag());
            Ok(60)
        },
    }
}

/// Walks the chunk list from `pos` to the first `data` chunk; returns the offset of its
/// contents and its header.
fn skip_until_data_chunk(data: &[u8], from: usize) -> (r: Result<(usize, ChunkHeader), WavError>)
    ensures
        match r {
            Ok((start, header)) => {
                &&& find_data_chunk(data@, from as int) == Some(start - 8)
                &&& 8 <= start <= data@.len()
                &&& header.num_bytes == le_u32_at(data@, start - 4)
            },
            Err(e) => {
                &&& e == WavError::UnexpectedEof
                &&& find_data_chunk(data@, from as int) is None
            },
        },
{
    let len = data.len();
    let mut pos = from;
    loop
        invariant
            len == data@.len(),
            find_data_chunk(data@, from as int) == find_data_chunk(data@, pos as int),
        decreases (if pos <= len { len - pos } else { 0 }),
    {
        if pos > len || len - pos < 8 {
            assert(find_data_chunk(data@, pos as int) is None);
            return Err(WavError::UnexpectedEof);
        }
        let header = ChunkHeaderRaw::read(data, pos).into_chunk_header();
        assert(header.num_bytes == le_u32_at(data@, pos + 4)) by {
            assert(data@.subrange(pos + 4, pos + 8)[0] == data@[pos + 4]);
            assert(data@.subrange(pos + 4, pos + 8)[1] == data@[pos + 5]);
            assert(data@.subrange(pos + 4, pos + 8)[2] == data@[pos + 6]);
            assert(data@.subrange(pos + 4, pos + 8)[3] == data@[pos + 7]);
        }
        if same_tag(header.tag, data_tag_bytes()) {
            assert(has_tag_at(data@, pos as int, data_tag()));
            assert(find_data_chunk(data@, pos as int) == Some(pos as int));
            return Ok((pos + 8, header));
        }
        let skip = header.num_bytes as usize;
        if len - pos - 8 < skip {
            // the next header would start past the end of the data
            assert(find_data_chunk(data@, pos as int + 8 + skip) is None);
            return Err(WavError::UnexpectedEof);
        }
        pos = pos + 8 + skip;
    }
}

/// The header of a WAVE file: the channel count, the byte rate and where the sample data
/// lies; or the first error in the file.
pub fn read_header(data: &[u8]) -> (r: Result<WavHeader, WavError>)
    ensures
        r == spec_wav_header(data@),
{
    if data.len() < 36 {
        return Err(WavError::UnexpectedEof);
    }
    let riff = ChunkHeaderRaw::read(data, 0);
    if !same_tag(riff.tag, riff_tag_bytes()) {
        return Err(WavError::NotRiff);
    }
    if !tag_at(data, 8, wave_tag_bytes()) {
        return Err(WavError::NotWave);
    }
    let format_header = ChunkHeaderRaw::read(data, 12).into_chunk_header();
    assert(format_header.num_bytes == le_u32_at(data@, 16)) by {
        assert(data@.subrange(16, 20)[0] == data@[16]);
        assert(data@.subrange(16, 20)[1] == data@[17]);
        assert(data@.subrange(16, 20)[2] == data@[18]);
        assert(data@.subrange(16, 20)[3] == data@[19]);
    }
    if !same_tag(format_header.tag, format_tag_bytes()) {
        return Err(WavError::NotFormat);
    }
    let format_size = match FormatSize::new(format_header.num_bytes) {
        Ok(f) => f,
        Err(FormatSizeConvError::IncorrectSize(size)) => {
            return Err(WavError::BadFormatSize(size));
        },
    };
    let pos = match format_end(data, format_size) {
        Ok(p) => p,
        Err(e) => {
            return Err(e);
        },
    };
    match skip_until_data_chunk(data, pos) {
        Ok((start, header)) => Ok(
            WavHeader {
                num_channels: read_u16(data, 22),
                bytes_per_second: read_u32(data, 28),
                data_offset: start,
                data_bytes: header.num_bytes,
            },
        ),
        Err(e) => Err(e),
    }
}

} // verus!

verus! {

// ---------------------------------------------------------------------------
// Whole-file parsing into mono samples.
// ---------------------------------------------------------------------------

/// Down-mixing one channel leaves the samples as they are.
pub proof fn lemma_downmix_mono(raw: Seq<i16>)
    ensures
        downmix(raw, 1) == raw,
{
    let expected = downmix(raw, 1);
    assert forall|i: int| 0 <= i < raw.len() implies #[trigger] expected[i] == raw[i] by {
        let block = raw.subrange(i, i + 1);
        assert(block.drop_last() =~= Seq::<i16>::empty());
        assert(sum_of(block.drop_last()) == 0);
        assert(sum_of(block) == raw[i]);
    }
    assert(expected =~= raw);
}

/// The sample rate and the mono samples of the WAVE file `d`, or the first error in it.
pub open spec fn spec_parse_wav(d: Seq<u8>) -> Result<(u32, Seq<i16>), WavError> {
    match spec_wav_header(d) {
        Err(e) => Err(e),
        Ok(h) => {
            let count = h.data_bytes / 2;
            let channels = h.num_channels as int;
            if h.data_offset + 2 * count > d.len() {
                Err(WavError::UnexpectedEof)
            } else {
                Ok(
                    (
                        (h.bytes_per_second as int / (2 * channels)) as u32,
                        downmix(pcm_samples(d, h.data_offset as int, count as int), channels),
                    ),
                )
            }
        },
    }
}

/// A WAVE file decoded to one channel: stereo files are averaged sample by sample.
pub struct RiffWavePcm {
    pub samples_per_second: u32,
    pub samples: Box<[i16]>,
}

/// The `count` samples stored from byte `start` of `data` on.
fn decode_samples(data: &[u8], start: usize, count: usize) -> (v: Vec<i16>)
    requires
        start + 2 * count <= data@.len(),
    ensures
        v@ == pcm_samples(data@, start as int, count as int),
{
    let len = data.len();
    let mut v: Vec<i16> = Vec::with_capacity(count);
    let mut k: usize = 0;
    while k < count
        invariant
            len == data@.len(),
            start + 2 * count <= data@.len(),
            k <= count,
            v@ == pcm_samples(data@, start as int, k as int),
        decreases count - k,
    {
        v.push(read_i16(data, start + 2 * k));
        k += 1;
        assert(v@ =~= pcm_samples(data@, start as int, k as int));
    }
    v
}

impl RiffWavePcm {
    fn from_components(samples: Box<[i16]>, channels: usize, bytes_per_second: u32) -> (w: Self)
        requires
            1 <= channels <= 65535,
        ensures
            w.samples@ == samples@,
            w.samples_per_second == bytes_per_second as int / (2 * channels),
    {
        let conversion_factor = (channels * 2) as u32;
        RiffWavePcm { samples_per_second: bytes_per_second / conversion_factor, samples }
    }

    /// Reads `samples` interleaved samples of `channels` channels from byte `start` on and
    /// averages each block of `channels` samples into one.
    fn parse_data_chunk(data: &[u8], start: usize, samples: usize, channels: usize) -> (r: Result<
        Box<[i16]>,
        WavError,
    >)
        requires
            1 <= channels <= 65535,
            start <= data@.len(),
        ensures
            match r {
                Ok(b) => {
                    &&& start + 2 * samples <= data@.len()
                    &&& b@ == downmix(pcm_samples(data@, start as int, samples as int), channels as int)
                },
                Err(e) => e == WavError::UnexpectedEof && start + 2 * samples > data@.len(),
            },
    {
        if samples > (data.len() - start) / 2 {
            return Err(WavError::UnexpectedEof);
        }
        let raw = decode_samples(data, start, samples);
        let num_samples_per_channel = samples / channels;
        let ghost expected = downmix(raw@, channels as int);
        if channels == 1 {
            proof {
                lemma_downmix_mono(raw@);
            }
            return Ok(crate::fft::vec_into_boxed_slice(raw));
        }
        let mut buf: Vec<i16> = Vec::with_capacity(num_samples_per_channel);
        let mut index: usize = 0;
        while index < num_samples_per_channel
            invariant
                raw@.len() == samples,
                1 <= channels <= 65535,
                num_samples_per_channel == samples / channels,
                expected == downmix(raw@, channels as int),
                index <= num_samples_per_channel,
                buf@ == expected.take(index as int),
            decreases num_samples_per_channel - index,
        {
            proof {
                assert((index + 1) * channels <= samples) by (nonlinear_arith)
                    requires index < samples / channels, channels > 0;
                assert((index + 1) * channels == index * channels + channels) by (nonlinear_arith);
            }
            let chunk = vstd::slice::slice_subrange(
                raw.as_slice(),
                index * channels,
                index * channels + channels,
            );
            let avg = avg_perfect(chunk);
            buf.push(avg);
            index += 1;
            assert(buf@ =~= expected.take(index as int));
        }
        assert(buf@ =~= expected);
        Ok(crate::fft::vec_into_boxed_slice(buf))
    }

    /// Parses the bytes of a WAVE file whose samples are 16-bit PCM, averaging the channels
    /// into one.
    pub fn parse(data: &[u8]) -> (r: Result<RiffWavePcm, WavError>)
        requires
            spec_wav_header(data@) matches Ok(h) ==> h.num_channels != 0,
        ensures
            match r {
                Ok(w) => spec_parse_wav(data@) == Ok::<(u32, Seq<i16>), WavError>((w.samples_per_second, w.samples@)),
                Err(e) => spec_parse_wav(data@) == Err::<(u32, Seq<i16>), WavError>(e),
            },
    {
        let header = match read_header(data) {
            Ok(h) => {
                proof {
                    let pos = spec_format_end(data@)->Ok_0;
                    lemma_find_data_chunk(data@, pos);
                }
                h
            },
            Err(e) => {
                return Err(e);
            },
        };
        let num_samples = header.data_bytes as usize / 2;
        let channels = header.num_channels as usize;
        let samples = match RiffWavePcm::parse_data_chunk(data, header.data_offset, num_samples, channels) {
            Ok(s) => s,
            Err(e) => {
                return Err(e);
            },
        };
        Ok(RiffWavePcm::from_components(samples, channels, header.bytes_per_second))
    }
}

} // verus!

verus! {

// ---------------------------------------------------------------------------
// Reading a whole mapped file at once.
// ---------------------------------------------------------------------------

/// The channel counts that playback supports.
#[derive(Clone, Copy, Debug, PartialEq, Eq, Structural)]
pub enum Channels {
    One,
    Two,
}

impl Channels {
    /// The number of channels.
    pub fn count(self) -> (n: u16)
        ensures
            n == (if self is One { 1u16 } else { 2u16 }),
    {
        match self {
            Channels::One => 1,
            Channels::Two => 2,
        }
    }
}

/// A WAVE file read from memory, with its channels left interleaved.
#[derive(Debug)]
pub struct MmapedRiffPcm {
    pub samples_per_second: u32,
    pub channels: Channels,
    pub samples: Vec<i16>,
}

/// Why a mapped file cannot be played.
#[derive(Clone, Copy, Debug, PartialEq, Eq, Structural)]
pub enum MmapError {
    /// A header, or the sample range, runs past the end of the file.
    Truncated,
    /// The file does not start with `RIFF`.
    NotRiff,
    /// The RIFF form is not `WAVE`.
    NotWave,
    /// The first chunk is not `fmt `.
    NotFormat,
    /// The format chunk's size is none of 16, 18 and 40.
    BadFormatSize(u32),
    /// The sample format is not PCM.
    NotPcm,
    /// A channel count other than 1 or 2.
    UnsupportedChannels(u16),
    /// The sample range has an odd number of bytes.
    OddDataSize,
}

/// The sample rate, the channels and the samples of the mapped WAVE file `d`, or why it
/// cannot be played. The samples are the payload of the first `data` chunk after the
/// format chunk, channels left interleaved.
pub open spec fn spec_from_mmap(d: Seq<u8>) -> Result<(u32, Channels, Seq<i16>), MmapError> {
    if d.len() < 8 {
        Err(MmapError::Truncated)
    } else if !has_tag_at(d, 0, riff_tag()) {
        Err(MmapError::NotRiff)
    } else if d.len() < 12 {
        Err(MmapError::Truncated)
    } else if !has_tag_at(d, 8, wave_tag()) {
        Err(MmapError::NotWave)
    } else if d.len() < 20 {
        Err(MmapError::Truncated)
    } else if !has_tag_at(d, 12, format_tag()) {
        Err(MmapError::NotFormat)
    } else {
        let size = le_u32_at(d, 16);
        if size != 16 && size != 18 && size != 40 {
            Err(MmapError::BadFormatSize(size as u32))
        } else if d.len() < 20 + size {
            Err(MmapError::Truncated)
        } else {
            let code = if size == 40 {
                le_u16_at(d, 44)
            } else {
                le_u16_at(d, 20)
            };
            let n = le_u16_at(d, 22);
            if code != 1 {
                Err(MmapError::NotPcm)
            } else if n != 1 && n != 2 {
                Err(MmapError::UnsupportedChannels(n as u16))
            } else {
                let rest = 20 + size;
                match find_data_chunk(d, rest) {
                    None => Err(MmapError::Truncated),
                    Some(p) => {
                        let data_size = le_u32_at(d, p + 4);
                        if p + 8 + data_size > d.len() {
                            Err(MmapError::Truncated)
                        } else if data_size % 2 != 0 {
                            Err(MmapError::OddDataSize)
                        } else {
                            Ok(
                                (
                                    (le_u32_at(d, 28) / n / 2) as u32,
                                    if n == 1 {
                                        Channels::One
                                    } else {
                                        Channels::Two
                                    },
                                    pcm_samples(d, p + 8, data_size / 2),
                                ),
                            )
                        }
                    },
                }
            }
        }
    }
}

/// The mapped WAVE file `file_data`, or why it cannot be played.
pub fn try_from_mmap(file_data: &[u8]) -> (r: Result<MmapedRiffPcm, MmapError>)
    ensures
        match r {
            Ok(m) => spec_from_mmap(file_data@) == Ok::<(u32, Channels, Seq<i16>), MmapError>(
                (m.samples_per_second, m.channels, m.samples@),
            ),
            Err(e) => spec_from_mmap(file_data@) == Err::<(u32, Channels, Seq<i16>), MmapError>(e),
        },
{
    let len = file_data.len();
    if len < 8 {
        return Err(MmapError::Truncated);
    }
    let riff_header = ChunkHeaderRaw::read(file_data, 0);
    if !same_tag(riff_header.tag, riff_tag_bytes()) {
        return Err(MmapError::NotRiff);
    }
    if len < 12 {
        return Err(MmapError::Truncated);
    }
    if !tag_at(file_data, 8, wave_tag_bytes()) {
        return Err(MmapError::NotWave);
    }
    if len < 20 {
        return Err(MmapError::Truncated);
    }
    let fmt_header = ChunkHeaderRaw::read(file_data, 12).into_chunk_header();
    assert(fmt_header.num_bytes == le_u32_at(file_data@, 16)) by {
        assert(file_data@.subrange(16, 20)[0] == file_data@[16]);
        assert(file_data@.subrange(16, 20)[1] == file_data@[17]);
        assert(file_data@.subrange(16, 20)[2] == file_data@[18]);
        assert(file_data@.subrange(16, 20)[3] == file_data@[19]);
    }
    if !same_tag(fmt_header.tag, format_tag_bytes()) {
        return Err(MmapError::NotFormat);
    }
    let size = fmt_header.num_bytes;
    if size != 16 && size != 18 && size != 40 {
        return Err(MmapError::BadFormatSize(size));
    }
    let size = size as usize;
    if len - 20 < size {
        return Err(MmapError::Truncated);
    }
    let data_format = if size == 40 {
        read_u16(file_data, 44)
    } else {
        read_u16(file_data, 20)
    };
    if data_format != 1 {
        return Err(MmapError::NotPcm);
    }
    let num_channels = read_u16(file_data, 22);
    let channels = match num_channels {
        1 => Channels::One,
        2 => Channels::Two,
        n => {
            return Err(MmapError::UnsupportedChannels(n));
        },
    };
    let bytes_per_sec = read_u32(file_data, 28);
    let rest = 20 + size;
    let (start, data_size) = match skip_until_data_chunk(file_data, rest) {
        Ok((start, header)) => (start, header.num_bytes as usize),
        Err(_) => {
            return Err(MmapError::Truncated);
        },
    };
    if len - start < data_size {
        return Err(MmapError::Truncated);
    }
    if data_size % 2 != 0 {
        return Err(MmapError::OddDataSize);
    }
    let samples = decode_samples(file_data, start, data_size / 2);
    Ok(
        MmapedRiffPcm {
            samples_per_second: bytes_per_sec / num_channels as u32 / 2,
            channels,
            samples,
        },
    )
}

/// The mapped WAVE file `file_data`; it must be one that [`try_from_mmap`] accepts.
pub fn from_mmap(file_data: &[u8]) -> (m: MmapedRiffPcm)
    requires
        spec_from_mmap(file_data@) is Ok,
    ensures
        spec_from_mmap(file_data@) == Ok::<(u32, Channels, Seq<i16>), MmapError>(
            (m.samples_per_second, m.channels, m.samples@),
        ),
{
    match try_from_mmap(file_data) {
        Ok(m) => m,
        Err(_) => {
            proof {
                assert(false);
            }
            MmapedRiffPcm { samples_per_second: 0, channels: Channels::One, samples: Vec::new() }
        },
    }
}

} // verus!

verus! {

// ---------------------------------------------------------------------------
// Laws of the parser.
// ---------------------------------------------------------------------------

/// The little-endian bytes of a value below 2^32.
pub open spec fn u32_le_bytes(x: int) -> Seq<u8> {
    seq![(x % 256) as u8, ((x / 256) % 256) as u8, ((x / 65536) % 256) as u8, ((x / 16777216) % 256) as u8]
}

/// The little-endian bytes of a value below 2^16.
pub open spec fn u16_le_bytes(x: int) -> Seq<u8> {
    seq![(x % 256) as u8, ((x / 256) % 256) as u8]
}

/// The little-endian two's-complement bytes of a sample.
pub open spec fn i16_le_bytes(x: i16) -> Seq<u8> {
    u16_le_bytes(if x >= 0 { x as int } else { x + 65536 })
}

/// Byte `i` of the canonical 44-byte-header PCM WAVE file holding the interleaved
/// `samples` of `channels` channels at `rate` blocks per second.
pub open spec fn pcm_wav_byte(channels: u16, rate: u32, samples: Seq<i16>, i: int) -> u8 {
    let n = samples.len() as int;
    if i < 4 {
        riff_tag()[i]
    } else if i < 8 {
        u32_le_bytes(36 + 2 * n)[i - 4]
    } else if i < 12 {
        wave_tag()[i - 8]
    } else if i < 16 {
        format_tag()[i - 12]
    } else if i < 20 {
        u32_le_bytes(16)[i - 16]
    } else if i < 22 {
        u16_le_bytes(1)[i - 20]
    } else if i < 24 {
        u16_le_bytes(channels as int)[i - 22]
    } else if i < 28 {
        u32_le_bytes(rate as int)[i - 24]
    } else if i < 32 {
        u32_le_bytes(rate * 2 * channels)[i - 28]
    } else if i < 34 {
        u16_le_bytes(2 * channels)[i - 32]
    } else if i < 36 {
        u16_le_bytes(16)[i - 34]
    } else if i < 40 {
        data_tag()[i - 36]
    } else if i < 44 {
        u32_le_bytes(2 * n)[i - 40]
    } else {
        i16_le_bytes(samples[(i - 44) / 2])[(i - 44) % 2]
    }
}

/// The canonical PCM WAVE file: a 16-byte format chunk followed by the `data` chunk.
pub open spec fn pcm_wav_bytes(channels: u16, rate: u32, samples: Seq<i16>) -> Seq<u8> {
    Seq::new((44 + 2 * samples.len()) as nat, |i: int| pcm_wav_byte(channels, rate, samples, i))
}

proof fn lemma_u32_le_roundtrip(x: u32)
    ensures
        le_u32_at(u32_le_bytes(x as int), 0) == x,
{
    assert((x % 256) + 256 * ((x / 256) % 256) + 65536 * ((x / 65536) % 256) + 16777216 * ((x
        / 16777216) % 256) == x) by (bit_vector);
}

proof fn lemma_u16_le_roundtrip(x: u16)
    ensures
        le_u16_at(u16_le_bytes(x as int), 0) == x,
{
    assert((x % 256) + 256 * ((x / 256) % 256) == x) by (bit_vector);
}

proof fn lemma_i16_le_roundtrip(x: i16)
    ensures
        le_i16_at(i16_le_bytes(x), 0) == x,
{
    let u: u16 = if x >= 0 { x as u16 } else { (x + 65536) as u16 };
    lemma_u16_le_roundtrip(u);
}

/// A block of samples all within `[lo, hi]` has its mean within `[lo, hi]` too: averaging
/// channels never leaves the range of the samples averaged.
pub proof fn lemma_mean_within_bounds(s: Seq<i16>, lo: int, hi: int)
    requires
        s.len() > 0,
        forall|i: int| 0 <= i < s.len() ==> lo <= #[trigger] s[i] <= hi,
    ensures
        lo <= mean_toward_zero(s) <= hi,
{
    lemma_sum_bounds(s, lo, hi);
    let n = s.len() as int;
    let total = sum_of(s);
    let q = trunc_div(total, n);
    lemma_trunc_div_rem(total, n);
    if q < lo {
        assert(q * n <= (lo - 1) * n) by (nonlinear_arith)
            requires q <= lo - 1, n > 0;
        assert((lo - 1) * n == lo * n - n) by (nonlinear_arith);
    }
    if q > hi {
        assert(q * n >= (hi + 1) * n) by (nonlinear_arith)
            requires q >= hi + 1, n > 0;
        assert((hi + 1) * n == hi * n + n) by (nonlinear_arith);
    }
}

proof fn lemma_sum_bounds(s: Seq<i16>, lo: int, hi: int)
    requires
        forall|i: int| 0 <= i < s.len() ==> lo <= #[trigger] s[i] <= hi,
    ensures
        s.len() * lo <= sum_of(s) <= s.len() * hi,
    decreases s.len(),
{
    if s.len() > 0 {
        let t = s.drop_last();
        assert forall|i: int| 0 <= i < t.len() implies lo <= #[trigger] t[i] <= hi by {
            assert(t[i] == s[i]);
        }
        lemma_sum_bounds(t, lo, hi);
        assert(s.len() * lo == t.len() * lo + lo) by (nonlinear_arith)
            requires s.len() == t.len() + 1;
        assert(s.len() * hi == t.len() * hi + hi) by (nonlinear_arith)
            requires s.len() == t.len() + 1;
    }
}

/// Parsing the canonical PCM WAVE file of some interleaved samples gives back the block
/// rate and the samples, each block of `channels` samples averaged into one.
pub proof fn lemma_parse_pcm_wav(channels: u16, rate: u32, samples: Seq<i16>)
    requires
        channels >= 1,
        rate * 2 * channels <= u32::MAX,
        36 + 2 * samples.len() <= u32::MAX,
    ensures
        spec_parse_wav(pcm_wav_bytes(channels, rate, samples)) == Ok::<(u32, Seq<i16>), WavError>(
            (rate, downmix(samples, channels as int)),
        ),
{
    let d = pcm_wav_bytes(channels, rate, samples);
    let n = samples.len() as int;
    assert(d.subrange(0, 4) =~= riff_tag());
    assert(d.subrange(8, 12) =~= wave_tag());
    assert(d.subrange(12, 16) =~= format_tag());
    assert(d.subrange(36, 40) =~= data_tag());
    lemma_u32_le_roundtrip(16u32);
    assert(le_u32_at(d, 16) == le_u32_at(u32_le_bytes(16), 0));
    lemma_u16_le_roundtrip(1u16);
    assert(le_u16_at(d, 20) == le_u16_at(u16_le_bytes(1), 0));
    lemma_u16_le_roundtrip(channels);
    assert(le_u16_at(d, 22) == le_u16_at(u16_le_bytes(channels as int), 0));
    let bps = (rate * 2 * channels) as u32;
    lemma_u32_le_roundtrip(bps);
    assert(le_u32_at(d, 28) == le_u32_at(u32_le_bytes(bps as int), 0));
    let data_bytes = (2 * n) as u32;
    lemma_u32_le_roundtrip(data_bytes);
    assert(le_u32_at(d, 40) == le_u32_at(u32_le_bytes(data_bytes as int), 0));
    assert(find_data_chunk(d, 36) == Some(36int));
    assert(spec_format_end(d) == Ok::<int, WavError>(36));
    let h = spec_wav_header(d)->Ok_0;
    assert(h.data_offset == 44 && h.data_bytes == 2 * n && h.num_channels == channels);
    assert(h.bytes_per_second == bps);
    assert forall|k: int| 0 <= k < n implies #[trigger] pcm_samples(d, 44, n)[k] == samples[k] by {
        lemma_i16_le_roundtrip(samples[k]);
        assert((44 + 2 * k - 44) / 2 == k);
        assert((44 + 2 * k + 1 - 44) / 2 == k);
        assert(le_i16_at(d, 44 + 2 * k) == le_i16_at(i16_le_bytes(samples[k]), 0));
    }
    assert(pcm_samples(d, 44, n) =~= samples);
    assert(rate * 2 * channels == rate * (2 * channels)) by (nonlinear_arith);
    vstd::arithmetic::div_mod::lemma_fundamental_div_mod_converse(bps as int, 2 * channels, rate as int, 0);
}


/// Reading the canonical PCM WAVE file of one or two channels from memory gives back its
/// block rate, its channel layout and its interleaved samples.
pub proof fn lemma_mmap_pcm_wav(channels: u16, rate: u32, samples: Seq<i16>)
    requires
        channels == 1 || channels == 2,
        rate * 2 * channels <= u32::MAX,
        36 + 2 * samples.len() <= u32::MAX,
    ensures
        spec_from_mmap(pcm_wav_bytes(channels, rate, samples)) == Ok::<
            (u32, Channels, Seq<i16>),
            MmapError,
        >((rate, if channels == 1 { Channels::One } else { Channels::Two }, samples)),
{
    let d = pcm_wav_bytes(channels, rate, samples);
    let n = samples.len() as int;
    assert(d.subrange(0, 4) =~= riff_tag());
    assert(d.subrange(8, 12) =~= wave_tag());
    assert(d.subrange(12, 16) =~= format_tag());
    assert(d.subrange(36, 40) =~= data_tag());
    lemma_u32_le_roundtrip(16u32);
    assert(le_u32_at(d, 16) == le_u32_at(u32_le_bytes(16), 0));
    lemma_u16_le_roundtrip(1u16);
    assert(le_u16_at(d, 20) == le_u16_at(u16_le_bytes(1), 0));
    lemma_u16_le_roundtrip(channels);
    assert(le_u16_at(d, 22) == le_u16_at(u16_le_bytes(channels as int), 0));
    let bps = (rate * 2 * channels) as u32;
    lemma_u32_le_roundtrip(bps);
    assert(le_u32_at(d, 28) == le_u32_at(u32_le_bytes(bps as int), 0));
    let data_bytes = (2 * n) as u32;
    lemma_u32_le_roundtrip(data_bytes);
    assert(le_u32_at(d, 40) == le_u32_at(u32_le_bytes(data_bytes as int), 0));
    assert(find_data_chunk(d, 36) == Some(36int));
    assert(rate * 2 * channels == (rate * 2) * channels) by (nonlinear_arith);
    vstd::arithmetic::div_mod::lemma_fundamental_div_mod_converse(bps as int, channels as int, rate * 2, 0);
    assert forall|k: int| 0 <= k < n implies #[trigger] pcm_samples(d, 44, n)[k] == samples[k] by {
        lemma_i16_le_roundtrip(samples[k]);
        assert((44 + 2 * k - 44) / 2 == k);
        assert((44 + 2 * k + 1 - 44) / 2 == k);
        assert(le_i16_at(d, 44 + 2 * k) == le_i16_at(i16_le_bytes(samples[k]), 0));
    }
    assert(pcm_samples(d, 44, n) =~= samples);
}

/// Where both readers accept a file, they agree: the decoded reader's rate is the mapped
/// reader's, and its samples are the mapped reader's interleaved samples with each block
/// of channels averaged into one.
pub proof fn lemma_readers_agree(d: Seq<u8>)
    requires
        spec_parse_wav(d) is Ok,
        spec_from_mmap(d) is Ok,
        d.len() <= usize::MAX,
    ensures
        ({
            let (rate, channels, samples) = spec_from_mmap(d)->Ok_0;
            spec_parse_wav(d) == Ok::<(u32, Seq<i16>), WavError>(
                (rate, downmix(samples, if channels is One { 1 } else { 2 })),
            )
        }),
{
    let size = le_u32_at(d, 16);
    assert(spec_format_end(d) == Ok::<int, WavError>(20 + size));
    let n = le_u16_at(d, 22);
    assert(n == 1 || n == 2);
    let bps = le_u32_at(d, 28);
    let p = find_data_chunk(d, 20 + size)->Some_0;
    lemma_find_data_chunk(d, 20 + size);
    let h = spec_wav_header(d)->Ok_0;
    assert(h.data_offset == p + 8 && h.num_channels == n && h.bytes_per_second == bps);
    let ds = le_u32_at(d, p + 4);
    assert(h.data_bytes == ds);
    let (rate, channels, samples) = spec_from_mmap(d)->Ok_0;
    assert(samples == pcm_samples(d, p + 8, ds / 2));
    assert((if channels is One { 1int } else { 2int }) == n);
    vstd::arithmetic::div_mod::lemma_div_denominator(bps, n, 2);
    assert(n * 2 == 2 * n);
    assert(rate == bps / (2 * n));
}

/// The mapped reader accepts every file that the decoded reader accepts, as long as it has
/// one or two channels and its `data` chunk is whole and of an even size: whatever format
/// chunk (16, 18 or 40 bytes, extensible or not) the decoded reader reads, the mapped reader
/// reads too.
pub proof fn lemma_mmap_accepts_what_parse_accepts(d: Seq<u8>)
    requires
        spec_parse_wav(d) is Ok,
        d.len() <= usize::MAX,
        le_u16_at(d, 22) == 1 || le_u16_at(d, 22) == 2,
        ({
            let h = spec_wav_header(d)->Ok_0;
            h.data_bytes % 2 == 0 && h.data_offset + h.data_bytes <= d.len()
        }),
    ensures
        spec_from_mmap(d) is Ok,
{
    let size = le_u32_at(d, 16);
    assert(spec_format_end(d) == Ok::<int, WavError>(20 + size));
    assert(d.len() >= 20 + size);
    if size == 40 {
        assert(le_u16_at(d, 44) == 1);
    }
    let p = find_data_chunk(d, 20 + size)->Some_0;
    lemma_find_data_chunk(d, 20 + size);
    let h = spec_wav_header(d)->Ok_0;
    assert(h.data_offset == p + 8);
    assert(h.data_bytes == le_u32_at(d, p + 4));
}

/// The walk to the `data` chunk passes over a chunk of any other tag, whatever that tag is:
/// it goes on right after the chunk's contents.
pub proof fn lemma_chunk_walk_skips_any_tag(d: Seq<u8>, pos: int)
    requires
        0 <= pos,
        pos + 8 <= d.len(),
        d.subrange(pos, pos + 4) != data_tag(),
    ensures
        find_data_chunk(d, pos) == find_data_chunk(d, pos + 8 + le_u32_at(d, pos + 4)),
{
}

/// The file `d` with a chunk of tag `tag` and contents `body` inserted at offset `at`.
pub open spec fn insert_chunk(d: Seq<u8>, at: int, tag: Seq<u8>, body: Seq<u8>) -> Seq<u8> {
    d.subrange(0, at) + tag + u32_le_bytes(body.len() as int) + body + d.subrange(at, d.len() as int)
}

/// The bytes of a file with a chunk inserted at `at`: those before `at` stay, the chunk's
/// header follows, and the rest comes after its contents.
proof fn lemma_insert_chunk_bytes(d: Seq<u8>, at: int, tag: Seq<u8>, body: Seq<u8>)
    requires
        0 <= at <= d.len(),
        tag.len() == 4,
        body.len() <= u32::MAX,
    ensures
        ({
            let e = insert_chunk(d, at, tag, body);
            let l = body.len() as int;
            &&& e.len() == d.len() + 8 + l
            &&& forall|i: int| 0 <= i < at ==> #[trigger] e[i] == d[i]
            &&& forall|j: int| at <= j < d.len() ==> #[trigger] e[j + 8 + l] == d[j]
            &&& e.subrange(at, at + 4) == tag
            &&& le_u32_at(e, at + 4) == l
        }),
{
    let e = insert_chunk(d, at, tag, body);
    let l = body.len() as int;
    assert(e.subrange(at, at + 4) =~= tag);
    lemma_u32_le_roundtrip(l as u32);
    assert(le_u32_at(e, at + 4) == le_u32_at(u32_le_bytes(l), 0));
}

/// A file with a chunk inserted right after its format chunk has the same format chunk
/// and finds its `data` chunk just after the inserted one, holding the same samples.
proof fn lemma_insert_chunk_layout(d: Seq<u8>, at: int, tag: Seq<u8>, body: Seq<u8>)
    requires
        spec_format_end(d) == Ok::<int, WavError>(at),
        at + 8 <= d.len(),
        has_tag_at(d, 0, riff_tag()),
        has_tag_at(d, 8, wave_tag()),
        has_tag_at(d, 12, format_tag()),
        has_tag_at(d, at, data_tag()),
        tag.len() == 4,
        tag != data_tag(),
        body.len() <= u32::MAX,
    ensures
        ({
            let e = insert_chunk(d, at, tag, body);
            let l = body.len() as int;
            &&& e.len() == d.len() + 8 + l
            &&& at == 20 + le_u32_at(d, 16)
            &&& has_tag_at(e, 0, riff_tag())
            &&& has_tag_at(e, 8, wave_tag())
            &&& has_tag_at(e, 12, format_tag())
            &&& le_u32_at(e, 16) == le_u32_at(d, 16)
            &&& le_u16_at(e, 20) == le_u16_at(d, 20)
            &&& le_u16_at(e, 22) == le_u16_at(d, 22)
            &&& le_u32_at(e, 28) == le_u32_at(d, 28)
            &&& le_u32_at(d, 16) == 40 ==> le_u16_at(e, 44) == le_u16_at(d, 44)
            &&& spec_format_end(e) == spec_format_end(d)
            &&& find_data_chunk(d, at) == Some(at)
            &&& find_data_chunk(e, at) == Some(at + 8 + l)
            &&& le_u32_at(e, at + 12 + l) == le_u32_at(d, at + 4)
        }),
{
    let l = body.len() as int;
    let e = insert_chunk(d, at, tag, body);
    let size = le_u32_at(d, 16);
    lemma_insert_chunk_bytes(d, at, tag, body);
    assert(at == 20 + size);
    assert(e.subrange(0, 4) =~= d.subrange(0, 4));
    assert(e.subrange(8, 12) =~= d.subrange(8, 12));
    assert(e.subrange(12, 16) =~= d.subrange(12, 16));
    assert(e[16] == d[16] && e[17] == d[17] && e[18] == d[18] && e[19] == d[19]);
    assert(e[20] == d[20] && e[21] == d[21] && e[22] == d[22] && e[23] == d[23]);
    assert(e[28] == d[28] && e[29] == d[29] && e[30] == d[30] && e[31] == d[31]);
    if size == 18 {
        assert(e[36] == d[36] && e[37] == d[37]);
    }
    if size == 40 {
        assert(e.subrange(46, 60) =~= d.subrange(46, 60));
        assert(e[36] == d[36] && e[37] == d[37] && e[44] == d[44] && e[45] == d[45]);
    }
    assert(spec_format_end(e) == spec_format_end(d));
    assert(find_data_chunk(e, at) == find_data_chunk(e, at + 8 + l));
    assert(e.subrange(at + 8 + l, at + 12 + l) =~= d.subrange(at, at + 4));
    assert(find_data_chunk(e, at + 8 + l) == Some(at + 8 + l));
    assert(e[at + 12 + l] == d[at + 4]);
    assert(e[at + 13 + l] == d[at + 5]);
    assert(e[at + 14 + l] == d[at + 6]);
    assert(e[at + 15 + l] == d[at + 7]);
}

/// A file with a chunk inserted at `at` holds the same samples after the `data` header.
proof fn lemma_insert_chunk_samples(d: Seq<u8>, at: int, tag: Seq<u8>, body: Seq<u8>, count: int)
    requires
        0 <= at <= d.len(),
        tag.len() == 4,
        body.len() <= u32::MAX,
        0 <= count,
        at + 8 + 2 * count <= d.len(),
    ensures
        pcm_samples(insert_chunk(d, at, tag, body), at + 16 + body.len(), count) == pcm_samples(
            d,
            at + 8,
            count,
        ),
{
    let l = body.len() as int;
    let e = insert_chunk(d, at, tag, body);
    lemma_insert_chunk_bytes(d, at, tag, body);
    assert forall|k: int| 0 <= k < count implies #[trigger] pcm_samples(e, at + 16 + l, count)[k]
        == pcm_samples(d, at + 8, count)[k] by {
        assert(e[(at + 8 + 2 * k) + 8 + l] == d[at + 8 + 2 * k]);
        assert(e[(at + 8 + 2 * k + 1) + 8 + l] == d[at + 8 + 2 * k + 1]);
    }
    assert(pcm_samples(e, at + 16 + l, count) =~= pcm_samples(d, at + 8, count));
}

/// Inserting a chunk of any tag other than `data`, with any contents, between the format
/// chunk and the `data` chunk changes nothing that the decoded reader gives.
pub proof fn lemma_inserted_chunk_is_skipped(d: Seq<u8>, at: int, tag: Seq<u8>, body: Seq<u8>)
    requires
        spec_format_end(d) == Ok::<int, WavError>(at),
        at + 8 <= d.len(),
        has_tag_at(d, 0, riff_tag()),
        has_tag_at(d, 8, wave_tag()),
        has_tag_at(d, 12, format_tag()),
        has_tag_at(d, at, data_tag()),
        tag.len() == 4,
        tag != data_tag(),
        body.len() <= u32::MAX,
        d.len() + 8 + body.len() <= usize::MAX,
    ensures
        spec_parse_wav(insert_chunk(d, at, tag, body)) == spec_parse_wav(d),
{
    let l = body.len() as int;
    lemma_insert_chunk_layout(d, at, tag, body);
    let ds = le_u32_at(d, at + 4);
    if at + 8 + 2 * (ds / 2) <= d.len() {
        lemma_insert_chunk_samples(d, at, tag, body, ds / 2);
    }
}

/// Inserting a chunk of any tag other than `data`, with any contents, between the format
/// chunk and the `data` chunk changes nothing that the mapped reader gives.
pub proof fn lemma_inserted_chunk_is_skipped_mapped(d: Seq<u8>, at: int, tag: Seq<u8>, body: Seq<u8>)
    requires
        spec_format_end(d) == Ok::<int, WavError>(at),
        at + 8 <= d.len(),
        has_tag_at(d, 0, riff_tag()),
        has_tag_at(d, 8, wave_tag()),
        has_tag_at(d, 12, format_tag()),
        has_tag_at(d, at, data_tag()),
        tag.len() == 4,
        tag != data_tag(),
        body.len() <= u32::MAX,
        d.len() + 8 + body.len() <= usize::MAX,
    ensures
        spec_from_mmap(insert_chunk(d, at, tag, body)) == spec_from_mmap(d),
{
    let l = body.len() as int;
    lemma_insert_chunk_layout(d, at, tag, body);
    let ds = le_u32_at(d, at + 4);
    if at + 8 + ds <= d.len() {
        lemma_insert_chunk_samples(d, at, tag, body, ds / 2);
    }
}

} // verus!
