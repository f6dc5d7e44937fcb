//! AIFF and AIFF-C files.
//!
//! An AIFF file is a `FORM` of chunks in big-endian byte order. `COMM` says
//! how the sound is laid out, `SSND` holds it. AIFF-C adds a compression code
//! to `COMM`; the uncompressed codes are read (big- and little-endian
//! integers, 32- and 64-bit floats), lossy ones are refused.

use vstd::prelude::*;
use vstd::arithmetic::power2::*;
use vstd::arithmetic::power::pow;
use vstd::arithmetic::div_mod::*;
use crate::audio_io::{AudioBuffer, at_least_one};
use crate::bytes::{big_endian, little_endian, to_big_endian, be_u16, be_u32, push_big_endian};
use crate::bytes::{lemma_big_endian_four, lemma_big_endian_round_trip, lemma_to_big_endian_len};
use crate::double::{narrow, narrowed};
use crate::extended::{extended_rate, extended_bytes, parse_extended_f80, write_extended_f80, be_u64_at, law_rate_round_trip};
use crate::pcm::{code_of, is_sample, dequantise, quantise};
use crate::single::Bits;

verus! {

/// Why a file is not read.
#[derive(Clone, Copy, PartialEq, Eq, Debug)]
pub enum AiffError {
    /// No `FORM` at the start.
    MissingForm,
    /// A `FORM` of another type.
    FormType(u8, u8, u8, u8),
    /// A chunk claims more bytes than the file has.
    ChunkPastEnd,
    MissingComm,
    MissingSsnd,
    CommTooSmall,
    /// The `COMM` of an AIFF-C file ends before its compression code.
    CommTruncated,
    SsndTooSmall,
    /// The sound starts beyond the end of its chunk.
    OffsetPastEnd,
    /// A float code with a sample size other than its own.
    FloatDepth(u16),
    /// An integer sample size that is zero or above 32 bits.
    UnsupportedBits(u16),
    /// A compression code that is not read.
    Compression(u8, u8, u8, u8),
}

pub open spec fn tag(a: u8, b: u8, c: u8, d: u8) -> Seq<u8> {
    seq![a, b, c, d]
}

pub open spec fn form_tag() -> Seq<u8> {
    tag(0x46, 0x4f, 0x52, 0x4d)
}

pub open spec fn aiff_tag() -> Seq<u8> {
    tag(0x41, 0x49, 0x46, 0x46)
}

pub open spec fn aifc_tag() -> Seq<u8> {
    tag(0x41, 0x49, 0x46, 0x43)
}

pub open spec fn comm_tag() -> Seq<u8> {
    tag(0x43, 0x4f, 0x4d, 0x4d)
}

pub open spec fn ssnd_tag() -> Seq<u8> {
    tag(0x53, 0x53, 0x4e, 0x44)
}

pub open spec fn none_tag() -> Seq<u8> {
    tag(0x4e, 0x4f, 0x4e, 0x45)
}

/// Are the four bytes at `at` this tag?
fn tag_at(bytes: &[u8], at: usize, a: u8, b: u8, c: u8, d: u8) -> (r: bool)
    requires
        at + 4 <= bytes@.len(),
    ensures
        r == (bytes@.subrange(at as int, at + 4) == tag(a, b, c, d)),
{
    let len: usize = bytes.len();
    let r: bool = bytes[at] == a && bytes[at + 1] == b && bytes[at + 2] == c && bytes[at + 3] == d;
    proof {
        let s = bytes@.subrange(at as int, at + 4);
        if r {
            assert(s =~= tag(a, b, c, d));
        } else {
            assert(s[0] != a || s[1] != b || s[2] != c || s[3] != d);
            assert(tag(a, b, c, d)[0] == a && tag(a, b, c, d)[1] == b && tag(a, b, c, d)[2] == c
                && tag(a, b, c, d)[3] == d);
        }
    }
    r
}

// ---- Chunks -----------------------------------------------------------------

/// One chunk: its four-byte name and its body.
pub struct Chunk {
    pub name: Seq<u8>,
    pub body: Seq<u8>,
}

/// The chunks from `pos` on, or nothing where one runs past the end. Bodies of
/// odd length are followed by one byte of padding.
pub open spec fn chunks(bytes: Seq<u8>, pos: int) -> Option<Seq<Chunk>>
    decreases bytes.len() + 1 - pos,
{
    if pos + 8 > bytes.len() {
        Some(Seq::empty())
    } else {
        let size = big_endian(bytes.subrange(pos + 4, pos + 8));
        let end = pos + 8 + size;
        if end > bytes.len() {
            None
        } else {
            let here = Chunk {
                name: bytes.subrange(pos, pos + 4),
                body: bytes.subrange(pos + 8, end),
            };
            match chunks(bytes, end + size % 2) {
                None => None,
                Some(rest) => Some(seq![here] + rest),
            }
        }
    }
}

/// The body of the last chunk of that name.
pub open spec fn last_named(list: Seq<Chunk>, name: Seq<u8>) -> Option<Seq<u8>>
    decreases list.len(),
{
    if list.len() == 0 {
        None
    } else if list.last().name == name {
        Some(list.last().body)
    } else {
        last_named(list.drop_last(), name)
    }
}

/// The sound of a file and how it is laid out.
pub struct Layout {
    pub channels: nat,
    pub sample_rate: nat,
    pub bits: nat,
    pub compression: Seq<u8>,
    pub sound: Seq<u8>,
}

/// What a file holds, or why it is refused.
pub open spec fn layout(bytes: Seq<u8>) -> Result<Layout, AiffError> {
    if bytes.len() < 12 || bytes.take(4) != form_tag() {
        Err(AiffError::MissingForm)
    } else if bytes.subrange(8, 12) != aiff_tag() && bytes.subrange(8, 12) != aifc_tag() {
        Err(AiffError::FormType(bytes[8], bytes[9], bytes[10], bytes[11]))
    } else {
        let packed = bytes.subrange(8, 12) == aifc_tag();
        match chunks(bytes, 12) {
            None => Err(AiffError::ChunkPastEnd),
            Some(list) => match (last_named(list, comm_tag()), last_named(list, ssnd_tag())) {
                (None, _) => Err(AiffError::MissingComm),
                (Some(_), None) => Err(AiffError::MissingSsnd),
                (Some(comm), Some(ssnd)) => read_chunks(packed, comm, ssnd),
            },
        }
    }
}

/// What the bodies of `COMM` and `SSND` say.
pub open spec fn read_chunks(packed: bool, comm: Seq<u8>, ssnd: Seq<u8>) -> Result<Layout, AiffError> {
    if comm.len() < 18 {
        Err(AiffError::CommTooSmall)
    } else if packed && comm.len() < 22 {
        Err(AiffError::CommTruncated)
    } else if ssnd.len() < 8 {
        Err(AiffError::SsndTooSmall)
    } else if 8 + big_endian(ssnd.take(4)) > ssnd.len() {
        Err(AiffError::OffsetPastEnd)
    } else {
        Ok(
            Layout {
                channels: big_endian(comm.take(2)),
                sample_rate: extended_rate(comm.subrange(8, 18)),
                bits: big_endian(comm.subrange(6, 8)),
                compression: if packed {
                    comm.subrange(18, 22)
                } else {
                    none_tag()
                },
                sound: ssnd.skip(8 + big_endian(ssnd.take(4)) as int),
            },
        )
    }
}

// ---- Sound ------------------------------------------------------------------

/// How the bytes of a sound are read.
#[derive(Clone, Copy, PartialEq, Eq, Debug, Structural)]
pub enum Encoding {
    /// Integers, most significant byte first.
    BigInt,
    /// Integers, least significant byte first.
    LittleInt,
    /// Big-endian singles.
    Single,
    /// Big-endian doubles.
    Double,
}

/// The encoding of a compression code, for those that are read.
pub open spec fn encoding_of(code: Seq<u8>) -> Option<Encoding> {
    if code == none_tag() || code == tag(0x74, 0x77, 0x6f, 0x73) || code == tag(0x69, 0x6e, 0x31, 0x36)
        || code == tag(0x69, 0x6e, 0x32, 0x34) || code == tag(0x69, 0x6e, 0x33, 0x32) {
        Some(Encoding::BigInt)
    } else if code == tag(0x73, 0x6f, 0x77, 0x74) || code == tag(0x53, 0x4f, 0x57, 0x54) {
        Some(Encoding::LittleInt)
    } else if code == tag(0x66, 0x6c, 0x33, 0x32) || code == tag(0x46, 0x4c, 0x33, 0x32) {
        Some(Encoding::Single)
    } else if code == tag(0x66, 0x6c, 0x36, 0x34) || code == tag(0x46, 0x4c, 0x36, 0x34) {
        Some(Encoding::Double)
    } else {
        None
    }
}

/// Bytes of one integer sample.
pub open spec fn sample_width(bits: nat) -> nat {
    (bits + 7) / 8
}

/// The `bits` low bits of `raw` as a two's complement number.
pub open spec fn signed(raw: nat, bits: nat) -> int {
    let m = raw % pow2(bits);
    if m >= pow2((bits - 1) as nat) {
        m - pow2(bits)
    } else {
        m as int
    }
}

/// Sample `i` of a sound of fixed-width samples.
pub open spec fn sample_bytes(sound: Seq<u8>, i: int, width: nat) -> Seq<u8> {
    sound.subrange(i * width, (i + 1) * width)
}

/// The integer code of sample `i`.
pub open spec fn code_at(sound: Seq<u8>, i: int, bits: nat, little: bool) -> int {
    let s = sample_bytes(sound, i, sample_width(bits));
    signed(
        if little {
            little_endian(s)
        } else {
            big_endian(s)
        },
        bits,
    )
}

/// Why a sound is refused, if it is.
pub open spec fn sound_error(code: Seq<u8>, bits: nat) -> Option<AiffError> {
    match encoding_of(code) {
        None => Some(AiffError::Compression(code[0], code[1], code[2], code[3])),
        Some(Encoding::Single) => if bits != 32 {
            Some(AiffError::FloatDepth(bits as u16))
        } else {
            None
        },
        Some(Encoding::Double) => if bits != 64 {
            Some(AiffError::FloatDepth(bits as u16))
        } else {
            None
        },
        Some(_) => if bits == 0 || bits > 32 {
            Some(AiffError::UnsupportedBits(bits as u16))
        } else {
            None
        },
    }
}

/// The samples that a sound stands for. A partial sample at the end is left
/// out.
pub open spec fn decoded(samples: Seq<Bits>, sound: Seq<u8>, encoding: Encoding, bits: nat) -> bool {
    match encoding {
        Encoding::Single => {
            &&& samples.len() == sound.len() / 4
            &&& forall|i: int|
                0 <= i < samples.len() ==> #[trigger] samples[i] == big_endian(sample_bytes(sound, i, 4))
        },
        Encoding::Double => {
            &&& samples.len() == sound.len() / 8
            &&& forall|i: int|
                0 <= i < samples.len() ==> narrowed(
                    big_endian(sample_bytes(sound, i, 8)) as u64,
                    #[trigger] samples[i],
                )
        },
        _ => {
            &&& samples.len() == sound.len() / sample_width(bits)
            &&& forall|i: int|
                0 <= i < samples.len() ==> is_sample(
                    #[trigger] samples[i],
                    code_at(sound, i, bits, encoding == Encoding::LittleInt),
                    bits,
                )
        },
    }
}

/// `i` whole samples lie inside the sound.
proof fn lemma_sample_inside(i: int, n: int, width: int, len: int)
    requires
        0 <= i < n,
        width > 0,
        n == len / width,
    ensures
        0 <= i * width,
        (i + 1) * width <= len,
        (i + 1) * width == i * width + width,
{
    lemma_fundamental_div_mod(len, width);
    assert((i + 1) * width <= n * width && 0 <= i * width && (i + 1) * width == i * width + width)
        by (nonlinear_arith)
        requires
            0 <= i,
            i + 1 <= n,
            width > 0,
    ;
    assert(n * width == width * n) by (nonlinear_arith);
    lemma_mod_bound(len, width);
}

/// Reads integer samples of `bits` bits.
pub fn decode_pcm_int(bytes: &[u8], bits: u16, little_endian: bool) -> (r: Result<Vec<Bits>, AiffError>)
    ensures
        match r {
            Ok(samples) => 1 <= bits <= 32 && decoded(
                samples@,
                bytes@,
                if little_endian {
                    Encoding::LittleInt
                } else {
                    Encoding::BigInt
                },
                bits as nat,
            ),
            Err(e) => (bits == 0 || bits > 32) && e == AiffError::UnsupportedBits(bits),
        },
{
    if bits == 0 || bits > 32 {
        return Err(AiffError::UnsupportedBits(bits));
    }
    let width: usize = (bits as usize + 7) / 8;
    let n: usize = bytes.len() / width;
    let mut out: Vec<Bits> = Vec::new();
    let mut i: usize = 0;
    let ghost encoding = if little_endian {
        Encoding::LittleInt
    } else {
        Encoding::BigInt
    };
    while i < n
        invariant
            i <= n,
            n == bytes@.len() / (width as nat),
            width == sample_width(bits as nat),
            1 <= bits <= 32,
            1 <= width <= 4,
            out@.len() == i,
            bytes@.len() <= usize::MAX,
            forall|k: int|
                0 <= k < i ==> is_sample(
                    #[trigger] out@[k],
                    code_at(bytes@, k, bits as nat, little_endian),
                    bits as nat,
                ),
        decreases n - i,
    {
        proof {
            lemma_sample_inside(i as int, n as int, width as int, bytes@.len() as int);
        }
        let raw: u32 = read_raw(bytes, i * width, width, little_endian);
        proof {
            assert(sample_bytes(bytes@, i as int, width as nat) =~= bytes@.subrange(
                i * width,
                i * width + width,
            ));
        }
        let v: i32 = sign_extend(raw, bits as u32);
        out.push(dequantise(v, bits as u32));
        i = i + 1;
    }
    Ok(out)
}

/// Up to four bytes as one number.
fn read_raw(bytes: &[u8], at: usize, width: usize, little: bool) -> (raw: u32)
    requires
        at + width <= bytes@.len(),
        1 <= width <= 4,
    ensures
        raw == (if little {
            little_endian(bytes@.subrange(at as int, at + width))
        } else {
            big_endian(bytes@.subrange(at as int, at + width))
        }),
{
    let len: usize = bytes.len();
    let ghost s = bytes@.subrange(at as int, at + width);
    proof {
        reveal_with_fuel(big_endian, 5);
        reveal_with_fuel(little_endian, 5);
        assert(s.skip(1).skip(1) =~= s.skip(2) || width < 2);
        assert(s.skip(2).skip(1) =~= s.skip(3) || width < 3);
    }
    if width == 1 {
        return bytes[at] as u32;
    }
    if width == 2 {
        let (a, b): (u32, u32) = (bytes[at] as u32, bytes[at + 1] as u32);
        return if little {
            a + 256 * b
        } else {
            256 * a + b
        };
    }
    if width == 3 {
        let (a, b, c): (u32, u32, u32) = (bytes[at] as u32, bytes[at + 1] as u32, bytes[at + 2] as u32);
        return if little {
            a + 256 * b + 0x1_0000 * c
        } else {
            0x1_0000 * a + 256 * b + c
        };
    }
    let (a, b, c, d): (u32, u32, u32, u32) = (
        bytes[at] as u32,
        bytes[at + 1] as u32,
        bytes[at + 2] as u32,
        bytes[at + 3] as u32,
    );
    if little {
        a + 256 * b + 0x1_0000 * c + 0x100_0000 * d
    } else {
        0x100_0000 * a + 0x1_0000 * b + 256 * c + d
    }
}

/// The `bits` low bits of `raw` as a signed number.
pub fn sign_extend(raw: u32, bits: u32) -> (v: i32)
    requires
        1 <= bits <= 32,
    ensures
        v == signed(raw as nat, bits as nat),
        -pow2((bits - 1) as nat) <= v < pow2((bits - 1) as nat),
{
    proof {
        lemma2_to64();
        lemma_pow2_unfold(bits as nat);
        if bits < 32 {
            lemma_pow2_strictly_increases(bits as nat, 32);
        }
        lemma_pow2_pos((bits - 1) as nat);
    }
    let p: u64 = crate::rounding::power_of_two(bits);
    let h: u64 = crate::rounding::power_of_two(bits - 1);
    let m: u64 = raw as u64 % p;
    if m >= h {
        (m as i64 - p as i64) as i32
    } else {
        m as i32
    }
}

/// Reads a sound with the given compression code.
pub fn decode_aiff_samples(bytes: &[u8], code: &[u8], bits: u16) -> (r: Result<Vec<Bits>, AiffError>)
    requires
        code@.len() == 4,
    ensures
        match (sound_error(code@, bits as nat), r) {
            (None, Ok(samples)) => decoded(samples@, bytes@, encoding_of(code@)->0, bits as nat),
            (Some(e), Err(f)) => e == f,
            _ => false,
        },
{
    proof {
        assert(code@.subrange(0, 4) =~= code@);
    }
    if tag_at(code, 0, 0x4e, 0x4f, 0x4e, 0x45) || tag_at(code, 0, 0x74, 0x77, 0x6f, 0x73) || tag_at(
        code,
        0,
        0x69,
        0x6e,
        0x31,
        0x36,
    ) || tag_at(code, 0, 0x69, 0x6e, 0x32, 0x34) || tag_at(code, 0, 0x69, 0x6e, 0x33, 0x32) {
        return decode_pcm_int(bytes, bits, false);
    }
    if tag_at(code, 0, 0x73, 0x6f, 0x77, 0x74) || tag_at(code, 0, 0x53, 0x4f, 0x57, 0x54) {
        return decode_pcm_int(bytes, bits, true);
    }
    if tag_at(code, 0, 0x66, 0x6c, 0x33, 0x32) || tag_at(code, 0, 0x46, 0x4c, 0x33, 0x32) {
        if bits != 32 {
            return Err(AiffError::FloatDepth(bits));
        }
        return Ok(decode_singles(bytes));
    }
    if tag_at(code, 0, 0x66, 0x6c, 0x36, 0x34) || tag_at(code, 0, 0x46, 0x4c, 0x36, 0x34) {
        if bits != 64 {
            return Err(AiffError::FloatDepth(bits));
        }
        return Ok(decode_doubles(bytes));
    }
    Err(AiffError::Compression(code[0], code[1], code[2], code[3]))
}

fn decode_singles(bytes: &[u8]) -> (out: Vec<Bits>)
    ensures
        decoded(out@, bytes@, Encoding::Single, 32),
{
    let n: usize = bytes.len() / 4;
    let mut out: Vec<Bits> = Vec::new();
    let mut i: usize = 0;
    while i < n
        invariant
            i <= n,
            n == bytes@.len() / 4,
            bytes@.len() <= usize::MAX,
            out@.len() == i,
            forall|k: int|
                0 <= k < i ==> #[trigger] out@[k] == big_endian(sample_bytes(bytes@, k, 4)),
        decreases n - i,
    {
        let raw: u32 = read_raw(bytes, i * 4, 4, false);
        out.push(raw);
        proof {
            assert(sample_bytes(bytes@, i as int, 4) =~= bytes@.subrange(i * 4, i * 4 + 4));
        }
        i = i + 1;
    }
    out
}

fn decode_doubles(bytes: &[u8]) -> (out: Vec<Bits>)
    ensures
        decoded(out@, bytes@, Encoding::Double, 64),
{
    let n: usize = bytes.len() / 8;
    let mut out: Vec<Bits> = Vec::new();
    let mut i: usize = 0;
    while i < n
        invariant
            i <= n,
            n == bytes@.len() / 8,
            bytes@.len() <= usize::MAX,
            out@.len() == i,
            forall|k: int|
                0 <= k < i ==> narrowed(
                    big_endian(sample_bytes(bytes@, k, 8)) as u64,
                    #[trigger] out@[k],
                ),
        decreases n - i,
    {
        let raw: u64 = be_u64_at(bytes, i * 8);
        out.push(narrow(raw));
        proof {
            assert(sample_bytes(bytes@, i as int, 8) =~= bytes@.subrange(i * 8, i * 8 + 8));
        }
        i = i + 1;
    }
    out
}

proof fn lemma_last_named_push(list: Seq<Chunk>, c: Chunk, name: Seq<u8>)
    ensures
        last_named(list.push(c), name) == (if c.name == name {
            Some(c.body)
        } else {
            last_named(list, name)
        }),
{
    assert(list.push(c).drop_last() =~= list);
    assert(list.push(c).last() == c);
}

/// Where a span is known, the bytes that it covers.
spec fn body(bytes: Seq<u8>, span: Option<(usize, usize)>) -> Option<Seq<u8>> {
    match span {
        None => None,
        Some((from, to)) => Some(bytes.subrange(from as int, to as int)),
    }
}

/// Walks the chunks of a form and returns where the last `COMM` and the last
/// `SSND` lie.
fn find_chunks(bytes: &[u8]) -> (r: Result<(Option<(usize, usize)>, Option<(usize, usize)>), AiffError>)
    requires
        bytes@.len() >= 12,
    ensures
        match chunks(bytes@, 12) {
            None => r == Err::<(Option<(usize, usize)>, Option<(usize, usize)>), _>(
                AiffError::ChunkPastEnd,
            ),
            Some(list) => {
                &&& r is Ok
                &&& body(bytes@, r->Ok_0.0) == last_named(list, comm_tag())
                &&& body(bytes@, r->Ok_0.1) == last_named(list, ssnd_tag())
                &&& r->Ok_0.0 matches Some((a, b)) ==> a <= b <= bytes@.len()
                &&& r->Ok_0.1 matches Some((a, b)) ==> a <= b <= bytes@.len()
            },
        },
{
    let len: usize = bytes.len();
    let mut pos: usize = 12;
    let mut comm: Option<(usize, usize)> = None;
    let mut ssnd: Option<(usize, usize)> = None;
    let ghost mut seen: Seq<Chunk> = Seq::empty();
    proof {
        match chunks(bytes@, 12) {
            Some(rest) => {
                assert(seen + rest =~= rest);
            },
            None => {},
        }
    }
    while len - pos >= 8
        invariant
            len == bytes@.len(),
            12 <= pos <= len,
            chunks(bytes@, 12) == (match chunks(bytes@, pos as int) {
                None => None,
                Some(rest) => Some(seen + rest),
            }),
            body(bytes@, comm) == last_named(seen, comm_tag()),
            body(bytes@, ssnd) == last_named(seen, ssnd_tag()),
            comm matches Some((a, b)) ==> a <= b <= len,
            ssnd matches Some((a, b)) ==> a <= b <= len,
        decreases len - pos,
    {
        let size: u32 = be_u32(vstd::slice::slice_subrange(bytes, pos + 4, pos + 8));
        proof {
            assert(bytes@.subrange(pos + 4, pos + 8).take(4) =~= bytes@.subrange(pos + 4, pos + 8));
        }
        let start: usize = pos + 8;
        if size as u64 > (len - start) as u64 {
            return Err(AiffError::ChunkPastEnd);
        }
        let end: usize = start + size as usize;
        let ghost here = Chunk {
            name: bytes@.subrange(pos as int, pos + 4),
            body: bytes@.subrange(start as int, end as int),
        };
        proof {
            lemma_last_named_push(seen, here, comm_tag());
            lemma_last_named_push(seen, here, ssnd_tag());
            assert(comm_tag()[0] != ssnd_tag()[0]);
        }
        if tag_at(bytes, pos, 0x43, 0x4f, 0x4d, 0x4d) {
            comm = Some((start, end));
        } else if tag_at(bytes, pos, 0x53, 0x53, 0x4e, 0x44) {
            ssnd = Some((start, end));
        }
        let next: usize = if size % 2 == 1 && end < len {
            end + 1
        } else {
            end
        };
        proof {
            let after = end + size % 2;
            if after != next {
                // the padding byte of the last chunk is missing
                assert(chunks(bytes@, after as int) == Some(Seq::<Chunk>::empty()));
                assert(chunks(bytes@, next as int) == Some(Seq::<Chunk>::empty()));
            }
            match chunks(bytes@, after as int) {
                Some(rest) => {
                    assert(seen + (seq![here] + rest) =~= seen.push(here) + rest);
                },
                None => {},
            }
            seen = seen.push(here);
        }
        pos = next;
    }
    proof {
        assert(chunks(bytes@, pos as int) == Some(Seq::<Chunk>::empty()));
        assert(seen + Seq::<Chunk>::empty() =~= seen);
    }
    Ok((comm, ssnd))
}

/// Does the buffer hold what the file says?
pub open spec fn loaded(bytes: Seq<u8>, buf: AudioBuffer) -> bool {
    match layout(bytes) {
        Err(_) => false,
        Ok(l) => {
            &&& sound_error(l.compression, l.bits) is None
            &&& buf.channels == l.channels
            &&& buf.sample_rate == l.sample_rate
            &&& buf.source_bit_depth == l.bits
            &&& decoded(buf.samples@, l.sound, encoding_of(l.compression)->0, l.bits)
        },
    }
}

/// Why a file is refused, if it is.
pub open spec fn load_error(bytes: Seq<u8>) -> Option<AiffError> {
    match layout(bytes) {
        Err(e) => Some(e),
        Ok(l) => sound_error(l.compression, l.bits),
    }
}

/// Reads an AIFF or AIFF-C file.
pub fn load_aiff(bytes: &[u8]) -> (r: Result<AudioBuffer, AiffError>)
    ensures
        match r {
            Ok(buf) => load_error(bytes@) is None && loaded(bytes@, buf),
            Err(e) => load_error(bytes@) == Some(e),
        },
{
    if bytes.len() < 12 {
        return Err(AiffError::MissingForm);
    }
    proof {
        assert(bytes@.take(4) =~= bytes@.subrange(0, 4));
    }
    if !tag_at(bytes, 0, 0x46, 0x4f, 0x52, 0x4d) {
        return Err(AiffError::MissingForm);
    }
    let packed: bool = tag_at(bytes, 8, 0x41, 0x49, 0x46, 0x43);
    if !packed && !tag_at(bytes, 8, 0x41, 0x49, 0x46, 0x46) {
        return Err(AiffError::FormType(bytes[8], bytes[9], bytes[10], bytes[11]));
    }
    let (comm, ssnd): (Option<(usize, usize)>, Option<(usize, usize)>) = match find_chunks(bytes) {
        Err(e) => {
            return Err(e);
        },
        Ok(found) => found,
    };
    let (cs, ce): (usize, usize) = match comm {
        None => {
            return Err(AiffError::MissingComm);
        },
        Some(span) => span,
    };
    let (ss, se): (usize, usize) = match ssnd {
        None => {
            return Err(AiffError::MissingSsnd);
        },
        Some(span) => span,
    };
    let comm: &[u8] = vstd::slice::slice_subrange(bytes, cs, ce);
    let ssnd: &[u8] = vstd::slice::slice_subrange(bytes, ss, se);
    if comm.len() < 18 {
        return Err(AiffError::CommTooSmall);
    }
    let channels: u16 = be_u16(comm);
    let bits: u16 = be_u16(vstd::slice::slice_subrange(comm, 6, 8));
    let sample_rate: u32 = parse_extended_f80(vstd::slice::slice_subrange(comm, 8, 18));
    proof {
        assert(comm@.subrange(6, 8).take(2) =~= comm@.subrange(6, 8));
    }
    if packed && comm.len() < 22 {
        return Err(AiffError::CommTruncated);
    }
    if ssnd.len() < 8 {
        return Err(AiffError::SsndTooSmall);
    }
    let offset: u32 = be_u32(ssnd);
    if offset as u64 > (ssnd.len() - 8) as u64 {
        return Err(AiffError::OffsetPastEnd);
    }
    let sound: &[u8] = vstd::slice::slice_subrange(ssnd, 8 + offset as usize, ssnd.len());
    proof {
        assert(sound@ =~= ssnd@.skip(8 + big_endian(ssnd@.take(4)) as int));
    }
    let none: [u8; 4] = [0x4e, 0x4f, 0x4e, 0x45];
    let code: &[u8] = if packed {
        vstd::slice::slice_subrange(comm, 18, 22)
    } else {
        none.as_slice()
    };
    proof {
        if !packed {
            assert(code@ =~= none_tag());
        }
    }
    match decode_aiff_samples(sound, code, bits) {
        Err(e) => Err(e),
        Ok(samples) => Ok(AudioBuffer { samples, sample_rate, channels, source_bit_depth: bits }),
    }
}

// ---- Writing ----------------------------------------------------------------

/// The depth that an AIFF file is written with: that of the source where it is
/// 16 or 24 bits, else 24.
pub open spec fn written_depth(source: u16) -> nat {
    if source == 16 {
        16
    } else {
        24
    }
}

/// A code as the unsigned number that `width` bytes hold.
pub open spec fn twos_complement(v: int, width: nat) -> nat {
    if v < 0 {
        (v + pow2(8 * width)) as nat
    } else {
        v as nat
    }
}

/// The bytes of the samples, one code after the other.
pub open spec fn packed_sound(samples: Seq<Bits>, depth: nat) -> Seq<u8>
    decreases samples.len(),
{
    if samples.len() == 0 {
        Seq::empty()
    } else {
        packed_sound(samples.drop_last(), depth) + to_big_endian(
            twos_complement(code_of(samples.last(), depth), depth / 8),
            depth / 8,
        )
    }
}

pub open spec fn comm_body(frames: nat, rate: nat, channels: nat, depth: nat) -> Seq<u8> {
    to_big_endian(channels, 2) + to_big_endian(frames % 0x1_0000_0000, 4) + to_big_endian(depth, 2)
        + extended_bytes(rate)
}

pub open spec fn padding(n: nat) -> Seq<u8> {
    if n % 2 == 1 {
        seq![0u8]
    } else {
        Seq::empty()
    }
}

/// The file of a sound: `FORM`, then `COMM`, then `SSND`. Sizes that do not
/// fit 32 bits are written modulo 2^32.
pub open spec fn aiff_file(samples: Seq<Bits>, rate: nat, channels: nat, depth: nat) -> Seq<u8> {
    let sound = packed_sound(samples, depth);
    let ssnd = 8 + sound.len();
    let total = 4 + 26 + 8 + ssnd + ssnd % 2;
    form_tag() + to_big_endian(total % 0x1_0000_0000, 4) + aiff_tag() + comm_tag() + to_big_endian(18, 4)
        + comm_body(samples.len() / channels, rate, channels, depth) + ssnd_tag() + to_big_endian(
        ssnd % 0x1_0000_0000,
        4,
    ) + to_big_endian(0, 8) + sound + padding(ssnd)
}

pub proof fn lemma_packed_len(samples: Seq<Bits>, depth: nat)
    ensures
        packed_sound(samples, depth).len() == samples.len() * (depth / 8),
    decreases samples.len(),
{
    let w = depth / 8;
    if samples.len() > 0 {
        lemma_packed_len(samples.drop_last(), depth);
        lemma_to_big_endian_len(twos_complement(code_of(samples.last(), depth), w), w);
        assert((samples.len() - 1) * w + w == samples.len() * w) by (nonlinear_arith);
    } else {
        assert(0 * w == 0);
    }
}

/// The two's complement of a code in range, read back, is the code.
proof fn lemma_signed_round_trip(v: int, width: nat)
    requires
        1 <= width <= 4,
        -pow2((8 * width - 1) as nat) <= v < pow2((8 * width - 1) as nat),
    ensures
        twos_complement(v, width) < pow2(8 * width),
        signed(twos_complement(v, width), 8 * width) == v,
{
    lemma_pow2_unfold(8 * width);
    lemma_pow2_pos((8 * width - 1) as nat);
    lemma_small_mod(twos_complement(v, width), pow2(8 * width));
}

/// Appending the bytes of one sample leaves the earlier ones in place.
proof fn lemma_append_sample(head: Seq<u8>, piece: Seq<u8>, n: int, i: int, w: nat)
    requires
        w > 0,
        0 <= i <= n,
        head.len() == n * w,
        piece.len() == w,
    ensures
        i < n ==> sample_bytes(head + piece, i, w) == sample_bytes(head, i, w),
        i == n ==> sample_bytes(head + piece, i, w) == piece,
{
    assert((i + 1) * w == i * w + w && 0 <= i * w <= n * w) by (nonlinear_arith)
        requires
            0 <= i <= n,
            w > 0,
    ;
    if i < n {
        assert((i + 1) * w <= n * w) by (nonlinear_arith)
            requires
                i + 1 <= n,
                w > 0,
        ;
        assert(sample_bytes(head + piece, i, w) =~= sample_bytes(head, i, w));
    } else {
        assert(sample_bytes(head + piece, i, w) =~= piece);
    }
}

/// The bytes of one code, read back, are the code.
proof fn lemma_code_bytes(v: int, w: nat)
    requires
        1 <= w <= 4,
        -pow2((8 * w - 1) as nat) <= v < pow2((8 * w - 1) as nat),
    ensures
        signed(big_endian(to_big_endian(twos_complement(v, w), w)), 8 * w) == v,
{
    lemma_signed_round_trip(v, w);
    lemma_big_endian_round_trip(twos_complement(v, w), w);
    lemma_pow256_pow2(w);
    lemma_small_mod(twos_complement(v, w), pow2(8 * w));
}

/// Sample `i` of the packed sound holds the code of sample `i`.
pub proof fn lemma_packed_code(samples: Seq<Bits>, depth: nat, i: int)
    requires
        depth == 16 || depth == 24,
        0 <= i < samples.len(),
    ensures
        code_at(packed_sound(samples, depth), i, depth, false) == code_of(samples[i], depth),
    decreases samples.len(),
{
    let w = depth / 8;
    let n = samples.len() - 1;
    let head = packed_sound(samples.drop_last(), depth);
    let v = code_of(samples.last(), depth);
    let piece = to_big_endian(twos_complement(v, w), w);
    lemma_packed_len(samples.drop_last(), depth);
    lemma_to_big_endian_len(twos_complement(v, w), w);
    lemma_append_sample(head, piece, n, i, w);
    assert(sample_width(depth) == w && 8 * w == depth);
    if i < n {
        lemma_packed_code(samples.drop_last(), depth, i);
    } else {
        lemma_code_range(samples.last(), depth);
        lemma_code_bytes(v, w);
    }
}

proof fn lemma_pow256_pow2(w: nat)
    requires
        w <= 4,
    ensures
        pow(256, w) == pow2(8 * w),
{
    lemma2_to64();
    reveal_with_fuel(pow, 5);
    assert(pow(256, 0) == 1);
    assert(pow(256, 1) == 0x100);
    assert(pow(256, 2) == 0x1_0000);
    assert(pow(256, 3) == 0x100_0000);
    assert(pow(256, 4) == 0x1_0000_0000);
}

proof fn lemma_code_range(s: Bits, d: nat)
    requires
        1 <= d <= 32,
    ensures
        -pow2((d - 1) as nat) <= code_of(s, d) < pow2((d - 1) as nat),
{
    let top = pow2((d - 1) as nat);
    let u = crate::pcm::unit();
    lemma_pow2_pos((d - 1) as nat);
    lemma_pow2_pos(149);
    let x = crate::pcm::cut_at_one(s) * top;
    assert(x <= u * top) by (nonlinear_arith)
        requires
            x == crate::pcm::cut_at_one(s) * top,
            crate::pcm::cut_at_one(s) <= u,
    ;
    lemma_div_is_ordered(x as int, (u * top) as int, u as int);
    lemma_div_multiples_vanish(top as int, u as int);
}

/// Packs the samples of a buffer as codes of `depth` bits.
fn pack_sound(samples: &Vec<Bits>, depth: u32, out: &mut Vec<u8>)
    requires
        depth == 16 || depth == 24,
    ensures
        final(out)@ == old(out)@ + packed_sound(samples@, depth as nat),
{
    let n: usize = samples.len();
    let mut i: usize = 0;
    proof {
        assert(samples@.take(0) =~= Seq::empty());
        assert(old(out)@ + Seq::<u8>::empty() =~= old(out)@);
        lemma2_to64();
    }
    let ghost w = (depth / 8) as nat;
    while i < n
        invariant
            i <= n,
            n == samples@.len(),
            depth == 16 || depth == 24,
            w == (depth / 8) as nat,
            out@ == old(out)@ + packed_sound(samples@.take(i as int), depth as nat),
            pow2(15) == 0x8000,
            pow2(23) == 0x80_0000,
            pow2(16) == 0x1_0000,
            pow2(24) == 0x100_0000,
        decreases n - i,
    {
        let v: i32 = quantise(samples[i], depth);
        let raw: u64 = if v < 0 {
            if depth == 16 {
                (v as i64 + 0x1_0000) as u64
            } else {
                (v as i64 + 0x100_0000) as u64
            }
        } else {
            v as u64
        };
        let ghost before = out@;
        push_big_endian(out, raw, (depth / 8) as usize);
        proof {
            let t = samples@.take(i + 1);
            assert(t.drop_last() =~= samples@.take(i as int));
            assert(t.last() == samples@[i as int]);
            assert(raw == twos_complement(code_of(samples@[i as int], depth as nat), w));
            let piece = to_big_endian(raw as nat, w);
            assert(before + piece =~= old(out)@ + (packed_sound(t.drop_last(), depth as nat) + piece));
        }
        i = i + 1;
    }
    proof {
        assert(samples@.take(n as int) =~= samples@);
    }
}

fn push_tag(out: &mut Vec<u8>, a: u8, b: u8, c: u8, d: u8)
    ensures
        final(out)@ == old(out)@ + tag(a, b, c, d),
{
    out.push(a);
    out.push(b);
    out.push(c);
    out.push(d);
    proof {
        assert(out@ =~= old(out)@ + tag(a, b, c, d));
    }
}

/// The depth that an AIFF file is written with.
pub fn aiff_depth(source_bit_depth: u16) -> (d: u32)
    ensures
        d == written_depth(source_bit_depth),
{
    if source_bit_depth == 16 {
        16
    } else {
        24
    }
}

/// Writes a buffer as an AIFF file of 16- or 24-bit integers.
pub fn save_aiff(buf: &AudioBuffer) -> (out: Vec<u8>)
    requires
        buf.samples@.len() * 3 + 64 <= usize::MAX,
    ensures
        out@ == aiff_file(
            buf.samples@,
            buf.sample_rate as nat,
            at_least_one(buf.channels),
            written_depth(buf.source_bit_depth),
        ),
{
    let depth: u32 = aiff_depth(buf.source_bit_depth);
    let channels: u16 = if buf.channels == 0 {
        1
    } else {
        buf.channels
    };
    let frames: usize = buf.frames();
    let ghost s = buf.samples@;
    let ghost sound = packed_sound(s, depth as nat);
    proof {
        lemma_packed_len(s, depth as nat);
        lemma_to_big_endian_len(0, 4);
    }
    let width: usize = (depth / 8) as usize;
    proof {
        assert(s.len() * width <= s.len() * 3) by (nonlinear_arith)
            requires
                width <= 3,
        ;
    }
    let ssnd: usize = 8 + buf.samples.len() * width;
    let total: usize = 38 + ssnd + ssnd % 2;
    let rate: Vec<u8> = write_extended_f80(buf.sample_rate);
    let mut out: Vec<u8> = Vec::new();
    push_tag(&mut out, 0x46, 0x4f, 0x52, 0x4d);
    push_big_endian(&mut out, total as u64 % 0x1_0000_0000, 4);
    push_tag(&mut out, 0x41, 0x49, 0x46, 0x46);
    push_tag(&mut out, 0x43, 0x4f, 0x4d, 0x4d);
    push_big_endian(&mut out, 18, 4);
    let ghost before = out@;
    push_big_endian(&mut out, channels as u64, 2);
    push_big_endian(&mut out, frames as u64 % 0x1_0000_0000, 4);
    push_big_endian(&mut out, depth as u64, 2);
    let mut i: usize = 0;
    let ghost head = out@;
    while i < 10
        invariant
            i <= 10,
            rate@.len() == 10,
            out@ == head + rate@.take(i as int),
        decreases 10 - i,
    {
        let ghost mid = out@;
        out.push(rate[i]);
        proof {
            assert(out@ =~= head + rate@.take(i + 1));
        }
        i = i + 1;
    }
    proof {
        assert(rate@.take(10) =~= rate@);
        assert(out@ =~= before + comm_body(
            frames as nat,
            buf.sample_rate as nat,
            channels as nat,
            depth as nat,
        ));
    }
    push_tag(&mut out, 0x53, 0x53, 0x4e, 0x44);
    push_big_endian(&mut out, ssnd as u64 % 0x1_0000_0000, 4);
    push_big_endian(&mut out, 0, 8);
    pack_sound(&buf.samples, depth, &mut out);
    let ghost full = out@;
    if ssnd % 2 == 1 {
        out.push(0);
    }
    proof {
        assert(out@ =~= full + padding(ssnd as nat));
    }
    out
}

/// Where the parts of a written file lie.
proof fn lemma_file_parts(
    size: Seq<u8>,
    comm_size: Seq<u8>,
    comm: Seq<u8>,
    ssnd_size: Seq<u8>,
    ssnd: Seq<u8>,
    pad: Seq<u8>,
    f: Seq<u8>,
)
    requires
        size.len() == 4,
        comm_size.len() == 4,
        comm.len() == 18,
        ssnd_size.len() == 4,
        ssnd.len() >= 8,
        f == form_tag() + size + aiff_tag() + comm_tag() + comm_size + comm + ssnd_tag() + ssnd_size
            + ssnd.take(8) + ssnd.skip(8) + pad,
    ensures
        f.len() == 46 + ssnd.len() + pad.len(),
        f.take(4) == form_tag(),
        f.subrange(8, 12) == aiff_tag(),
        f.subrange(12, 16) == comm_tag(),
        f.subrange(16, 20) == comm_size,
        f.subrange(20, 38) == comm,
        f.subrange(38, 42) == ssnd_tag(),
        f.subrange(42, 46) == ssnd_size,
        f.subrange(46, 46int + ssnd.len()) == ssnd,
{
    assert(f.take(4) =~= form_tag());
    assert(f.subrange(8, 12) =~= aiff_tag());
    assert(f.subrange(12, 16) =~= comm_tag());
    assert(f.subrange(16, 20) =~= comm_size);
    assert(f.subrange(20, 38) =~= comm);
    assert(f.subrange(38, 42) =~= ssnd_tag());
    assert(f.subrange(42, 46) =~= ssnd_size);
    assert(f.subrange(46, 46int + ssnd.len()) =~= ssnd);
}

/// The chunks of a written file.
proof fn lemma_two_chunks(f: Seq<u8>, comm: Seq<u8>, ssnd: Seq<u8>)
    requires
        comm.len() == 18,
        f.len() == 46 + ssnd.len() + ssnd.len() % 2,
        f.subrange(12, 16) == comm_tag(),
        big_endian(f.subrange(16, 20)) == 18,
        f.subrange(20, 38) == comm,
        f.subrange(38, 42) == ssnd_tag(),
        big_endian(f.subrange(42, 46)) == ssnd.len(),
        f.subrange(46, 46int + ssnd.len()) == ssnd,
    ensures
        chunks(f, 12) is Some,
        last_named(chunks(f, 12)->0, comm_tag()) == Some(comm),
        last_named(chunks(f, 12)->0, ssnd_tag()) == Some(ssnd),
{
    let c1 = Chunk { name: comm_tag(), body: comm };
    let c2 = Chunk { name: ssnd_tag(), body: ssnd };
    let none = Seq::<Chunk>::empty();
    assert(chunks(f, 46int + ssnd.len() + ssnd.len() % 2) == Some(none));
    assert(chunks(f, 38) == Some(seq![c2] + none));
    assert(chunks(f, 12) == Some(seq![c1] + (seq![c2] + none)));
    let list = none.push(c1).push(c2);
    assert(seq![c1] + (seq![c2] + none) =~= list);
    lemma_last_named_push(none.push(c1), c2, comm_tag());
    lemma_last_named_push(none.push(c1), c2, ssnd_tag());
    lemma_last_named_push(none, c1, comm_tag());
    assert(comm_tag()[0] != ssnd_tag()[0]);
}

/// What the body of a written `COMM` says.
proof fn lemma_comm_body(frames: nat, rate: u32, channels: u16, depth: nat)
    requires
        depth < 0x1_0000,
    ensures
        ({
            let comm = comm_body(frames, rate as nat, channels as nat, depth);
            &&& comm.len() == 18
            &&& big_endian(comm.take(2)) == channels
            &&& big_endian(comm.subrange(6, 8)) == depth
            &&& extended_rate(comm.subrange(8, 18)) == rate
        }),
{
    let comm = comm_body(frames, rate as nat, channels as nat, depth);
    lemma_to_big_endian_len(channels as nat, 2);
    lemma_to_big_endian_len(frames % 0x1_0000_0000, 4);
    lemma_to_big_endian_len(depth, 2);
    if rate == 0 {
        lemma_to_big_endian_len(0, 2);
        lemma_to_big_endian_len(0, 8);
    } else {
        let n = crate::rounding::bit_len(rate as nat);
        lemma_to_big_endian_len(n + 16382, 2);
        lemma_to_big_endian_len(rate as nat * pow2((64 - n) as nat), 8);
    }
    let x = extended_bytes(rate as nat);
    assert(comm.take(2) =~= to_big_endian(channels as nat, 2));
    assert(comm.subrange(6, 8) =~= to_big_endian(depth, 2));
    assert(comm.subrange(8, 18) =~= x);
    law_rate_round_trip(rate);
    lemma_pow256_pow2(2);
    lemma2_to64();
    lemma_big_endian_round_trip(channels as nat, 2);
    lemma_big_endian_round_trip(depth, 2);
    lemma_small_mod(channels as nat, 0x1_0000);
    lemma_small_mod(depth, 0x1_0000);
}

/// What the body of a written `SSND` says.
proof fn lemma_ssnd_body(sound: Seq<u8>)
    ensures
        ({
            let ssnd = to_big_endian(0, 8) + sound;
            &&& ssnd.len() == 8 + sound.len()
            &&& ssnd.take(8) == to_big_endian(0, 8)
            &&& ssnd.skip(8) == sound
            &&& big_endian(ssnd.take(4)) == 0
        }),
{
    let ssnd = to_big_endian(0, 8) + sound;
    lemma_to_big_endian_len(0, 8);
    assert(ssnd.take(8) =~= to_big_endian(0, 8));
    assert(ssnd.skip(8) =~= sound);
    reveal_with_fuel(to_big_endian, 9);
    assert(0nat / 256 == 0 && 0nat % 256 == 0);
    assert(to_big_endian(0, 8) =~= seq![0u8, 0, 0, 0, 0, 0, 0, 0]);
    lemma_big_endian_four(ssnd.take(4));
}

/// A file that was written reads back with the same layout: channel count,
/// sample rate, depth and the packed sound, as long as its size fits the
/// 32-bit size fields.
pub proof fn law_written_layout(samples: Seq<Bits>, rate: u32, channels: u16, depth: nat)
    requires
        channels >= 1,
        depth == 16 || depth == 24,
        samples.len() * (depth / 8) + 48 < 0x1_0000_0000,
    ensures
        layout(aiff_file(samples, rate as nat, channels as nat, depth)) == Ok::<Layout, AiffError>(
            (Layout {
                channels: channels as nat,
                sample_rate: rate as nat,
                bits: depth,
                compression: none_tag(),
                sound: packed_sound(samples, depth),
            }),
        ),
{
    let f = aiff_file(samples, rate as nat, channels as nat, depth);
    let sound = packed_sound(samples, depth);
    let frames = samples.len() / (channels as nat);
    let ssnd = 8 + sound.len();
    let total = 4 + 26 + 8 + ssnd + ssnd % 2;
    let comm = comm_body(frames, rate as nat, channels as nat, depth);
    let sbody = to_big_endian(0, 8) + sound;
    lemma_packed_len(samples, depth);
    lemma_to_big_endian_len(total % 0x1_0000_0000, 4);
    lemma_to_big_endian_len(18, 4);
    lemma_to_big_endian_len(ssnd % 0x1_0000_0000, 4);
    lemma_comm_body(frames, rate, channels, depth);
    lemma_ssnd_body(sound);
    lemma_file_parts(
        to_big_endian(total % 0x1_0000_0000, 4),
        to_big_endian(18, 4),
        comm,
        to_big_endian(ssnd % 0x1_0000_0000, 4),
        sbody,
        padding(ssnd),
        f,
    );
    assert(big_endian(to_big_endian(18, 4)) == 18 && big_endian(to_big_endian(ssnd % 0x1_0000_0000, 4)) == ssnd)
        by {
        lemma_pow256_pow2(4);
        lemma2_to64();
        lemma_small_mod(18, 0x1_0000_0000);
        lemma_small_mod(ssnd, 0x1_0000_0000);
        lemma_big_endian_round_trip(18, 4);
        lemma_big_endian_round_trip(ssnd, 4);
    }
    lemma_two_chunks(f, comm, sbody);
    assert(aiff_tag()[3] != aifc_tag()[3]);
}

/// Loading what was saved gives, sample by sample, the quantised sound at the
/// written depth, with the rate and channel count of the buffer.
pub proof fn law_save_then_load(saved: AudioBuffer, bytes: Seq<u8>, buf: AudioBuffer)
    requires
        saved.samples@.len() * 3 + 48 < 0x1_0000_0000,
        bytes == aiff_file(
            saved.samples@,
            saved.sample_rate as nat,
            at_least_one(saved.channels),
            written_depth(saved.source_bit_depth),
        ),
        loaded(bytes, buf),
    ensures
        buf.sample_rate == saved.sample_rate,
        buf.channels == at_least_one(saved.channels),
        buf.source_bit_depth == written_depth(saved.source_bit_depth),
        buf.samples@.len() == saved.samples@.len(),
        forall|i: int|
            0 <= i < saved.samples@.len() ==> is_sample(
                #[trigger] buf.samples@[i],
                code_of(saved.samples@[i], written_depth(saved.source_bit_depth)),
                written_depth(saved.source_bit_depth),
            ),
{
    let depth = written_depth(saved.source_bit_depth);
    let ch = at_least_one(saved.channels) as u16;
    let s = saved.samples@;
    assert(s.len() * (depth / 8) <= s.len() * 3) by (nonlinear_arith)
        requires
            depth / 8 <= 3,
    ;
    law_written_layout(s, saved.sample_rate, ch, depth);
    lemma_packed_len(s, depth);
    let w = depth / 8;
    lemma_div_multiples_vanish(s.len() as int, w as int);
    assert(s.len() * w == w * s.len()) by (nonlinear_arith);
    assert(sample_width(depth) == w);
    assert forall|i: int| 0 <= i < s.len() implies is_sample(
        #[trigger] buf.samples@[i],
        code_of(s[i], depth),
        depth,
    ) by {
        lemma_packed_code(s, depth, i);
    }
}

/// A written file is never refused.
pub proof fn law_saved_file_loads(saved: AudioBuffer)
    requires
        saved.samples@.len() * 3 + 48 < 0x1_0000_0000,
    ensures
        load_error(
            aiff_file(
                saved.samples@,
                saved.sample_rate as nat,
                at_least_one(saved.channels),
                written_depth(saved.source_bit_depth),
            ),
        ) is None,
{
    let depth = written_depth(saved.source_bit_depth);
    let ch = at_least_one(saved.channels) as u16;
    assert(saved.samples@.len() * (depth / 8) <= saved.samples@.len() * 3) by (nonlinear_arith)
        requires
            depth / 8 <= 3,
    ;
    law_written_layout(saved.samples@, saved.sample_rate, ch, depth);
}

} // verus!
