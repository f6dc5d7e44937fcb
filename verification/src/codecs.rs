//! Sound files: the choice of a format by its extension, and the samples that
//! the codecs are given and give.
//!
//! WAV goes through hound, FLAC through claxon and flacenc, MP3 through minimp3
//! and LAME. AIFF is read and written by this library.

use vstd::prelude::*;
use vstd::string::*;
use flacenc::component::BitRepr;
use flacenc::error::Verify;
use crate::aiff::{AiffError, load_aiff, load_error, loaded, save_aiff, aiff_file, written_depth};
use crate::arith::{number, from_whole};
use crate::audio_io::{AudioBuffer, at_least_one};
use crate::columns::lemma_full_scale;
use crate::dsp::{lemma_absolute, lemma_factor_shrinks, lemma_rails};
use crate::pcm::{quantise, dequantise, code_of, is_sample, law_code_round_trip};
use crate::scalar::{fmul, fdiv, fabs, negated, truncated, multiply, divide_by, absolute, truncate, neg};
use crate::single::{Bits, ONE, MINUS_ONE, negative, unsigned, magnitude, significand, last_digit, is_nan, is_finite, clamped, clamp};
use crate::single::lemma_magnitude_order;
use crate::text::{lowered, lowercase, characters, is_text};
use vstd::arithmetic::power2::*;

verus! {

// ---- Formats ----------------------------------------------------------------

/// A sound file format.
#[derive(Clone, Copy, PartialEq, Eq, Debug, Structural)]
pub enum Format {
    Wav,
    Flac,
    Mp3,
    Aiff,
}

/// The format that an extension stands for when a file is opened.
pub open spec fn opened_as(ext: Seq<char>) -> Option<Format> {
    let e = lowered(ext);
    if e == "wav"@ {
        Some(Format::Wav)
    } else if e == "flac"@ {
        Some(Format::Flac)
    } else if e == "mp3"@ {
        Some(Format::Mp3)
    } else if e == "aiff"@ || e == "aif"@ || e == "aifc"@ {
        Some(Format::Aiff)
    } else {
        None
    }
}

/// The format that an extension stands for when a file is exported.
pub open spec fn exported_as(ext: Seq<char>) -> Option<Format> {
    if lowered(ext) == "aifc"@ {
        None
    } else {
        opened_as(ext)
    }
}

fn find_format(low: &str) -> (r: Option<Format>)
    ensures
        lowered(low@) == low@ ==> r == opened_as(low@),
{
    let v: Vec<char> = characters(low);
    if is_text(&v, "wav") {
        Some(Format::Wav)
    } else if is_text(&v, "flac") {
        Some(Format::Flac)
    } else if is_text(&v, "mp3") {
        Some(Format::Mp3)
    } else if is_text(&v, "aiff") || is_text(&v, "aif") || is_text(&v, "aifc") {
        Some(Format::Aiff)
    } else {
        None
    }
}

/// Small letters stay as they are.
proof fn lemma_lowered_twice(s: Seq<char>)
    ensures
        lowered(lowered(s)) == lowered(s),
{
    assert(lowered(lowered(s)) =~= lowered(s));
}

/// The format of a file to open, by its extension in any case. The error says
/// the extension.
pub fn input_format(ext: &str) -> (r: Result<Format, String>)
    ensures
        match r {
            Ok(f) => opened_as(ext@) == Some(f),
            Err(text) => opened_as(ext@) is None && text@ == "Unsupported input format: ."@ + lowered(
                ext@,
            ),
        },
{
    let low: String = lowercase(ext);
    proof {
        lemma_lowered_twice(ext@);
    }
    match find_format(low.as_str()) {
        Some(f) => Ok(f),
        None => {
            let mut text: String = String::from_str("Unsupported input format: .");
            text.append(low.as_str());
            Err(text)
        },
    }
}

/// The format of a file to export, by its extension in any case.
pub fn output_format(ext: &str) -> (r: Result<Format, String>)
    ensures
        match r {
            Ok(f) => exported_as(ext@) == Some(f),
            Err(text) => exported_as(ext@) is None && text@ == "Unsupported output format: ."@
                + lowered(ext@),
        },
{
    let low: String = lowercase(ext);
    proof {
        lemma_lowered_twice(ext@);
    }
    let v: Vec<char> = characters(low.as_str());
    let found: Option<Format> = if is_text(&v, "aifc") {
        None
    } else {
        find_format(low.as_str())
    };
    match found {
        Some(f) => Ok(f),
        None => {
            let mut text: String = String::from_str("Unsupported output format: .");
            text.append(low.as_str());
            Err(text)
        },
    }
}

// ---- WAV through hound ------------------------------------------------------

/// Errors of hound.
#[verifier::external_type_specification]
#[verifier::external_body]
pub struct ExHoundError(hound::Error);

/// What the header of a WAV file says.
#[derive(Clone, Copy, PartialEq, Eq, Debug, Structural)]
pub struct WavHeader {
    pub channels: u16,
    pub sample_rate: u32,
    pub bits: u16,
    pub float: bool,
}

/// The header that hound finds in the bytes: channels, rate, bits and whether
/// the samples are floats. None where it refuses them.
pub uninterp spec fn wav_header_of(bytes: Seq<u8>) -> Option<(u16, u32, u16, bool)>;

/// The codes that hound reads from the bytes as 32-bit integers. None where it
/// refuses them.
pub uninterp spec fn wav_codes_of(bytes: Seq<u8>) -> Option<Seq<i32>>;

/// The file that hound writes: codes, channels, rate and bits.
pub uninterp spec fn wav_file_of(codes: Seq<i32>, channels: u16, rate: u32, bits: u16) -> Seq<u8>;

/// `hound::WavReader::new` on the bytes, and `spec`: the header, or the error.
/// Both depend on the bytes alone.
#[verifier::external_body]
fn read_wav_header(bytes: &[u8]) -> (r: Result<WavHeader, hound::Error>)
    ensures
        r is Err <==> wav_header_of(bytes@) is None,
        r matches Ok(h) ==> wav_header_of(bytes@) == Some((h.channels, h.sample_rate, h.bits, h.float)),
{
    let spec = hound::WavReader::new(bytes)?.spec();
    Ok(WavHeader {
        channels: spec.channels,
        sample_rate: spec.sample_rate,
        bits: spec.bits_per_sample,
        float: spec.sample_format == hound::SampleFormat::Float,
    })
}

/// `hound::WavReader::new` and `into_samples` for 32-bit integers, gathered up
/// to the first error. hound has integers only for files of 8, 16, 24 or 32
/// bits.
#[verifier::external_body]
fn read_wav_codes(bytes: &[u8]) -> (r: Result<Vec<i32>, hound::Error>)
    ensures
        r is Err <==> wav_codes_of(bytes@) is None,
        r matches Ok(v) ==> wav_codes_of(bytes@) == Some(v@),
        r matches Ok(v) ==> v@.len() > 0 ==> has_integers(wav_header_of(bytes@)),
{
    hound::WavReader::new(bytes)?.into_samples::<i32>().collect()
}

/// A header with a depth that hound reads integers of.
pub open spec fn has_integers(h: Option<(u16, u32, u16, bool)>) -> bool {
    h matches Some(w) && (w.2 == 8 || w.2 == 16 || w.2 == 24 || w.2 == 32)
}

/// The limits of the WAV format: the sizes of a frame, of a second and of the
/// whole file.
pub open spec fn wav_holds(len: nat, channels: u16, rate: u32, bits: u16) -> bool {
    &&& channels > 0
    &&& rate > 0
    &&& channels * (bits / 8) <= u16::MAX
    &&& rate * (bits / 8) * channels <= u32::MAX
    &&& len * (bits / 8) + 68 <= u32::MAX
}

/// The codes of a file of that depth.
pub open spec fn codes_fit(codes: Seq<i32>, bits: u16) -> bool {
    forall|i: int|
        0 <= i < codes.len() ==> -pow2((bits - 1) as nat) <= #[trigger] codes[i] < pow2(
            (bits - 1) as nat,
        )
}

/// `hound::WavWriter::new`, `write_sample` for each code, and `finalize`, into
/// memory. Writing fails only where the last frame is not whole. What was
/// written is read back as it was given.
#[verifier::external_body]
fn write_wav(codes: &Vec<i32>, channels: u16, rate: u32, bits: u16) -> (r: Result<Vec<u8>, hound::Error>)
    requires
        bits == 16 || bits == 24,
        wav_holds(codes@.len(), channels, rate, bits),
        codes_fit(codes@, bits),
    ensures
        r is Ok <==> codes@.len() % channels as nat == 0,
        r matches Ok(b) ==> b@ == wav_file_of(codes@, channels, rate, bits),
        r matches Ok(b) ==> wav_header_of(b@) == Some((channels, rate, bits, false)),
        r matches Ok(b) ==> wav_codes_of(b@) == Some(codes@),
{
    let sample_format = hound::SampleFormat::Int;
    let spec = hound::WavSpec { channels, sample_rate: rate, bits_per_sample: bits, sample_format };
    let mut out = std::io::Cursor::new(Vec::new());
    let mut w = hound::WavWriter::new(&mut out, spec)?;
    for code in codes {
        w.write_sample(*code)?;
    }
    w.finalize()?;
    Ok(out.into_inner())
}

/// The text of an error of hound.
#[verifier::external_body]
fn hound_text(e: hound::Error) -> (s: String) {
    e.to_string()
}

/// Samples read from a WAV file of integers.
pub open spec fn wav_samples(samples: Seq<Bits>, codes: Seq<i32>, bits: u16) -> bool {
    samples.len() == codes.len() && forall|i: int|
        0 <= i < samples.len() ==> is_sample(#[trigger] samples[i], codes[i] as int, bits as nat)
}

fn samples_of(codes: &Vec<i32>, bits: u32) -> (samples: Vec<Bits>)
    requires
        codes@.len() > 0 ==> 1 <= bits <= 32,
    ensures
        samples@.len() == codes@.len(),
        forall|i: int|
            0 <= i < samples@.len() ==> is_sample(
                #[trigger] samples@[i],
                codes@[i] as int,
                bits as nat,
            ),
{
    let mut samples: Vec<Bits> = Vec::new();
    let mut i: usize = 0;
    while i < codes.len()
        invariant
            codes@.len() > 0 ==> 1 <= bits <= 32,
            i <= codes@.len(),
            samples@.len() == i,
            forall|k: int|
                0 <= k < i ==> is_sample(#[trigger] samples@[k], codes@[k] as int, bits as nat),
        decreases codes@.len() - i,
    {
        samples.push(dequantise(codes[i], bits));
        i = i + 1;
    }
    samples
}

/// A file that was opened.
pub enum Opened {
    Audio(AudioBuffer),
    /// A WAV file of floats, which are taken over as they stand.
    Floats(WavHeader),
}

/// Why a file could not be opened.
pub enum LoadError {
    Unsupported(String),
    Wav(String),
    Flac(String),
    Mp3(String),
    /// There is no frame in the MP3 file.
    NoFrames,
    Aiff(AiffError),
}

/// What opening a WAV file gives.
pub open spec fn wav_opened(bytes: Seq<u8>, o: Opened) -> bool {
    match (wav_header_of(bytes), o) {
        (Some(h), Opened::Floats(w)) => h == (w.channels, w.sample_rate, w.bits, w.float) && w.float,
        (Some(h), Opened::Audio(b)) => {
            &&& !h.3
            &&& wav_codes_of(bytes) matches Some(codes) && wav_samples(b.samples@, codes, h.2)
            &&& b.channels == h.0 && b.sample_rate == h.1 && b.source_bit_depth == h.2
        },
        (None, _) => false,
    }
}

/// Can the bytes be read as a WAV file?
pub open spec fn wav_readable(bytes: Seq<u8>) -> bool {
    match wav_header_of(bytes) {
        None => false,
        Some(h) => h.3 || wav_codes_of(bytes) is Some,
    }
}

/// Opens a WAV file.
pub fn load_wav(bytes: &[u8]) -> (r: Result<Opened, LoadError>)
    ensures
        match r {
            Ok(o) => wav_readable(bytes@) && wav_opened(bytes@, o),
            Err(e) => !wav_readable(bytes@) && e is Wav,
        },
{
    let h: WavHeader = match read_wav_header(bytes) {
        Ok(h) => h,
        Err(e) => {
            return Err(LoadError::Wav(hound_text(e)));
        },
    };
    if h.float {
        return Ok(Opened::Floats(h));
    }
    match read_wav_codes(bytes) {
        Ok(codes) => Ok(
            Opened::Audio(
                AudioBuffer {
                    samples: samples_of(&codes, h.bits as u32),
                    sample_rate: h.sample_rate,
                    channels: h.channels,
                    source_bit_depth: h.bits,
                },
            ),
        ),
        Err(e) => Err(LoadError::Wav(hound_text(e))),
    }
}

/// The buffer of a WAV file of floats.
pub fn wav_from_floats(h: WavHeader, samples: Vec<Bits>) -> (buf: AudioBuffer)
    ensures
        buf.samples@ == samples@,
        buf.sample_rate == h.sample_rate,
        buf.channels == h.channels,
        buf.source_bit_depth == h.bits,
{
    AudioBuffer {
        samples,
        sample_rate: h.sample_rate,
        channels: h.channels,
        source_bit_depth: h.bits,
    }
}

/// The depth of a WAV file: that of the source where it is 16 or 24 bits, and
/// floats for any other.
pub open spec fn wav_depth(source_bit_depth: u16) -> Option<u16> {
    if source_bit_depth == 16 || source_bit_depth == 24 {
        Some(source_bit_depth)
    } else {
        None
    }
}

/// Do codes stand for samples?
pub open spec fn stand_for(codes: Seq<i32>, samples: Seq<Bits>, bits: u16) -> bool {
    codes.len() == samples.len() && forall|i: int|
        0 <= i < codes.len() ==> #[trigger] codes[i] == code_of(samples[i], bits as nat)
}

fn quantise_all(samples: &Vec<Bits>, bits: u16) -> (codes: Vec<i32>)
    requires
        1 <= bits <= 32,
    ensures
        stand_for(codes@, samples@, bits),
        codes_fit(codes@, bits),
{
    let mut codes: Vec<i32> = Vec::new();
    let mut i: usize = 0;
    while i < samples.len()
        invariant
            1 <= bits <= 32,
            i <= samples@.len(),
            codes@.len() == i,
            forall|k: int| 0 <= k < i ==> #[trigger] codes@[k] == code_of(samples@[k], bits as nat),
            codes_fit(codes@, bits),
        decreases samples@.len() - i,
    {
        codes.push(quantise(samples[i], bits as u32));
        i = i + 1;
    }
    codes
}

/// A file that is ready to be written.
pub enum Saved {
    Bytes(Vec<u8>),
    /// A WAV file of floats, which are written as they stand.
    Floats(WavHeader),
}

/// Why a file could not be exported.
pub enum SaveError {
    Unsupported(String),
    Wav(String),
    Flac(String),
    Mp3(String),
}

/// The bytes hold codes, as a WAV file of that depth.
pub open spec fn wav_written(bytes: Seq<u8>, codes: Seq<i32>, channels: u16, rate: u32, bits: u16) -> bool {
    &&& bytes == wav_file_of(codes, channels, rate, bits)
    &&& wav_header_of(bytes) == Some((channels, rate, bits, false))
    &&& wav_codes_of(bytes) == Some(codes)
}

/// The bytes hold the codes of a buffer, as a WAV file of that depth.
pub open spec fn wav_exported(buf: &AudioBuffer, bits: u16, bytes: Seq<u8>) -> bool {
    exists|codes: Seq<i32>|
        stand_for(codes, buf.samples@, bits) && #[trigger] wav_written(
            bytes,
            codes,
            buf.channels,
            buf.sample_rate,
            bits,
        )
}

/// Can a buffer be written as a WAV file at all?
pub open spec fn wav_fits(buf: &AudioBuffer) -> bool {
    match wav_depth(buf.source_bit_depth) {
        Some(bits) => wav_holds(buf.samples@.len(), buf.channels, buf.sample_rate, bits),
        None => wav_holds(buf.samples@.len(), buf.channels, buf.sample_rate, 32),
    }
}

/// Can a buffer be written as a WAV file at all?
pub fn wav_can_hold(buf: &AudioBuffer) -> (r: bool)
    ensures
        r == wav_fits(buf),
{
    let bytes: u64 = if buf.source_bit_depth == 16 {
        2
    } else if buf.source_bit_depth == 24 {
        3
    } else {
        4
    };
    let ch: u64 = buf.channels as u64;
    let rate: u64 = buf.sample_rate as u64;
    if buf.samples.len() as u64 > 0xffff_ffff {
        assert(buf.samples@.len() * bytes > u32::MAX) by (nonlinear_arith)
            requires
                buf.samples@.len() > u32::MAX,
                bytes >= 2,
        ;
        return false;
    }
    let len: u64 = buf.samples.len() as u64;
    assert(rate * bytes * ch <= 0xffff_ffff * 4 * 0xffff) by (nonlinear_arith)
        requires
            rate <= 0xffff_ffff,
            bytes <= 4,
            ch <= 0xffff,
    ;
    assert(rate * bytes <= 0xffff_ffff * 4) by (nonlinear_arith)
        requires
            rate <= 0xffff_ffff,
            bytes <= 4,
    ;
    assert(ch * bytes <= 0xffff * 4) by (nonlinear_arith)
        requires
            ch <= 0xffff,
            bytes <= 4,
    ;
    assert(len * bytes <= 0xffff_ffff * 4) by (nonlinear_arith)
        requires
            len <= 0xffff_ffff,
            bytes <= 4,
    ;
    ch > 0 && rate > 0 && ch * bytes <= 0xffff && rate * bytes * ch <= 0xffff_ffff && len * bytes + 68
        <= 0xffff_ffff
}

/// Writes a buffer as a WAV file, 16- or 24-bit where the source was. Fails
/// only where the last frame is not whole.
pub fn save_wav(buf: &AudioBuffer) -> (r: Result<Saved, SaveError>)
    requires
        wav_fits(buf),
    ensures
        match wav_depth(buf.source_bit_depth) {
            None => r matches Ok(Saved::Floats(h)) && h == (WavHeader {
                channels: buf.channels,
                sample_rate: buf.sample_rate,
                bits: 32,
                float: true,
            }),
            Some(bits) => {
                &&& r is Ok <==> buf.samples@.len() % buf.channels as nat == 0
                &&& r matches Ok(s) ==> s matches Saved::Bytes(b) && wav_exported(buf, bits, b@)
                &&& r matches Err(e) ==> e is Wav
            },
        },
{
    let bits: u16 = buf.source_bit_depth;
    if bits != 16 && bits != 24 {
        return Ok(
            Saved::Floats(
                WavHeader {
                    channels: buf.channels,
                    sample_rate: buf.sample_rate,
                    bits: 32,
                    float: true,
                },
            ),
        );
    }
    let codes: Vec<i32> = quantise_all(&buf.samples, bits);
    match write_wav(&codes, buf.channels, buf.sample_rate, bits) {
        Ok(b) => {
            assert(wav_written(b@, codes@, buf.channels, buf.sample_rate, bits));
            assert(wav_exported(buf, bits, b@));
            Ok(Saved::Bytes(b))
        },
        Err(e) => Err(SaveError::Wav(hound_text(e))),
    }
}

// ---- FLAC through claxon and flacenc ----------------------------------------

/// Errors of claxon.
#[verifier::external_type_specification]
#[verifier::external_body]
pub struct ExClaxonError(claxon::Error);

/// What claxon reads from the bytes: rate, channels, bits, and the codes of all
/// channels in turn. None where it refuses them.
pub uninterp spec fn flac_sound_of(bytes: Seq<u8>) -> Option<(u32, u32, u32, Seq<i32>)>;

/// What a FLAC file holds.
pub struct FlacSound {
    pub sample_rate: u32,
    pub channels: u32,
    pub bits: u32,
    pub codes: Vec<i32>,
}

/// `claxon::FlacReader::new` on the bytes, `streaminfo`, and `samples` gathered
/// up to the first error. They depend on the bytes alone. The header has three
/// bits for the channels and five for the depth, so there are up to 8 channels
/// of up to 32 bits.
#[verifier::external_body]
fn read_flac(bytes: &[u8]) -> (r: Result<FlacSound, claxon::Error>)
    ensures
        r is Err <==> flac_sound_of(bytes@) is None,
        r matches Ok(s) ==> flac_sound_of(bytes@) == Some(
            (s.sample_rate, s.channels, s.bits, s.codes@),
        ),
        r matches Ok(s) ==> 1 <= s.channels <= 8 && 1 <= s.bits <= 32,
{
    let mut reader = claxon::FlacReader::new(bytes)?;
    let info = reader.streaminfo();
    Ok(FlacSound {
        sample_rate: info.sample_rate,
        channels: info.channels,
        bits: info.bits_per_sample,
        codes: reader.samples().collect::<Result<Vec<i32>, claxon::Error>>()?,
    })
}

/// The text of an error of claxon.
#[verifier::external_body]
fn claxon_text(e: claxon::Error) -> (s: String) {
    e.to_string()
}

/// What opening a FLAC file gives.
pub open spec fn flac_opened(sound: (u32, u32, u32, Seq<i32>), b: AudioBuffer) -> bool {
    &&& b.sample_rate == sound.0
    &&& b.channels == sound.1
    &&& b.source_bit_depth == sound.2
    &&& b.samples@.len() == sound.3.len()
    &&& forall|i: int|
        0 <= i < sound.3.len() ==> is_sample(
            #[trigger] b.samples@[i],
            sound.3[i] as int,
            sound.2 as nat,
        )
}

/// Opens a FLAC file.
pub fn load_flac(bytes: &[u8]) -> (r: Result<AudioBuffer, LoadError>)
    ensures
        match r {
            Ok(b) => flac_sound_of(bytes@) matches Some(sound) && flac_opened(sound, b),
            Err(e) => flac_sound_of(bytes@) is None && e is Flac,
        },
{
    match read_flac(bytes) {
        Ok(s) => Ok(flac_buffer(&s)),
        Err(e) => Err(LoadError::Flac(claxon_text(e))),
    }
}

/// The buffer of what a FLAC file holds.
pub fn flac_buffer(s: &FlacSound) -> (b: AudioBuffer)
    requires
        1 <= s.channels <= 8,
        1 <= s.bits <= 32,
    ensures
        flac_opened((s.sample_rate, s.channels, s.bits, s.codes@), b),
{
    AudioBuffer {
        samples: samples_of(&s.codes, s.bits),
        sample_rate: s.sample_rate,
        channels: s.channels as u16,
        source_bit_depth: s.bits as u16,
    }
}

/// A sample scaled by `top` and cut to a whole number, between `-limit - 1` and
/// `limit`. What is not a number becomes silence.
pub open spec fn scaled_code(s: Bits, top: Bits, limit: int) -> int {
    let p = fmul(clamped(s, MINUS_ONE, ONE), top);
    let w = truncated(fabs(p)) as int;
    if negative(p) {
        if w > limit + 1 {
            -limit - 1
        } else {
            -w
        }
    } else if w > limit {
        limit
    } else {
        w
    }
}

fn scale_code(s: Bits, top: Bits, limit: i32) -> (v: i32)
    requires
        limit >= 0,
    ensures
        v == scaled_code(s, top, limit as int),
        -limit - 1 <= v <= limit,
{
    proof {
        lemma_full_scale();
    }
    let p: Bits = multiply(clamp(s, MINUS_ONE, ONE), top);
    let w: u64 = truncate(absolute(p));
    if p >= 0x8000_0000 {
        if w > limit as u64 {
            -limit - 1
        } else {
            -(w as i32)
        }
    } else if w > limit as u64 {
        limit
    } else {
        w as i32
    }
}

/// 2^15 - 1 and 2^23 - 1.
pub const TOP_16: Bits = 0x46ff_fe00;
pub const TOP_24: Bits = 0x4aff_fffe;

/// What is handed to the FLAC encoder.
pub struct FlacOrder {
    pub codes: Vec<i32>,
    pub channels: usize,
    pub bits: usize,
    pub sample_rate: usize,
}

/// Prepares a buffer for FLAC: 16 bits where the source had 16, else 24.
pub fn flac_order(buf: &AudioBuffer) -> (o: FlacOrder)
    ensures
        o.channels == buf.channels,
        o.sample_rate == buf.sample_rate,
        o.bits == flac_depth(buf),
        o.codes@ == flac_codes(buf),
        codes_fit(o.codes@, o.bits as u16),
{
    let (bits, top): (usize, Bits) = if buf.source_bit_depth == 16 {
        (16, TOP_16)
    } else {
        (24, TOP_24)
    };
    let mut codes: Vec<i32> = Vec::new();
    let mut i: usize = 0;
    while i < buf.samples.len()
        invariant
            i <= buf.samples@.len(),
            codes@.len() == i,
            forall|k: int|
                0 <= k < i ==> #[trigger] codes@[k] == scaled_code(
                    buf.samples@[k],
                    top,
                    i32::MAX as int,
                ),
        decreases buf.samples@.len() - i,
    {
        codes.push(scale_code(buf.samples[i], top, i32::MAX));
        i = i + 1;
    }
    proof {
        lemma_tops();
        let n: nat = (bits - 1) as nat;
        assert forall|k: int| 0 <= k < codes@.len() implies -pow2(n) <= #[trigger] codes@[k] < pow2(n) by {
            lemma_scaled_fits(buf.samples@[k], top, n);
        }
        assert(codes@ =~= flac_codes(buf));
    }
    FlacOrder {
        codes,
        channels: buf.channels as usize,
        bits,
        sample_rate: buf.sample_rate as usize,
    }
}

/// A sample scaled by `top`, which is 2^n - 1, fits n + 1 bits.
proof fn lemma_scaled_fits(s: Bits, top: Bits, n: nat)
    requires
        n <= 31,
        is_finite(top),
        magnitude(top) == (pow2(n) - 1) * pow2(149),
    ensures
        -pow2(n) <= scaled_code(s, top, i32::MAX as int) < pow2(n),
{
    lemma_rails();
    lemma_pow2_pos(n);
    lemma_pow2_pos(149);
    let c = clamped(s, MINUS_ONE, ONE);
    let p = fmul(c, top);
    if !is_nan(c) {
        assert(magnitude(c) <= pow2(149));
        lemma_magnitude_order(ONE, c);
        assert(unsigned(ONE) == ONE);
        lemma_factor_shrinks(c, top);
        lemma_absolute(p);
        assert(!negative(fabs(p)));
        let k = (pow2(n) - 1) as nat;
        assert(magnitude(p) / pow2(149) <= k) by (nonlinear_arith)
            requires
                magnitude(p) <= k * pow2(149),
                pow2(149) > 0,
        ;
    }
}

proof fn lemma_tops()
    ensures
        is_finite(TOP_16),
        is_finite(TOP_24),
        magnitude(TOP_16) == (pow2(15) - 1) * pow2(149),
        magnitude(TOP_24) == (pow2(23) - 1) * pow2(149),
{
    lemma2_to64();
    lemma_pow2_adds(9, 140);
    lemma_pow2_adds(1, 148);
    assert(significand(TOP_16) == 0xfffe00 && last_digit(TOP_16) == 140);
    assert(significand(TOP_24) == 0xfffffe && last_digit(TOP_24) == 148);
    let a = pow2(140);
    let b = pow2(148);
    assert(0xfffe00 * a == 0x7fff * (0x200 * a));
    assert(0xfffffe * b == 0x7fffff * (2 * b));
}

/// What the FLAC encoder takes: up to 8 channels, at up to 96 kHz.
pub open spec fn flac_takes(channels: nat, rate: nat) -> bool {
    1 <= channels <= 8 && rate <= 96_000
}

/// The codes of whole frames, without what is left over of one.
pub open spec fn whole_frames<T>(codes: Seq<T>, channels: nat) -> Seq<T> {
    codes.take((codes.len() / channels * channels) as int)
}

/// The bytes hold the codes: read back they give that rate, those channels and
/// that depth, and begin with the codes of every whole frame. A reader refuses a
/// file at no rate at all, and one without a frame.
pub open spec fn flac_holds(bytes: Seq<u8>, codes: Seq<i32>, channels: nat, bits: nat, rate: nat) -> bool {
    let kept = whole_frames(codes, channels);
    rate >= 1 && kept.len() > 0 ==> {
        &&& flac_sound_of(bytes) matches Some(s)
        &&& s.0 == rate
        &&& s.1 == channels
        &&& s.2 == bits
        &&& kept.len() <= s.3.len()
        &&& kept == s.3.take(kept.len() as int)
    }
}

/// `flacenc::encode_with_fixed_block_size` on a `MemSource`, with the default
/// settings, and the stream written to memory. It refuses what `flac_takes`
/// leaves out, and numbers blocks of 4096 frames with 31 bits. FLAC keeps every
/// code: what the prediction misses is stored beside it, so claxon gives the codes
/// back, and after them what the last block was filled up with. The prediction is
/// fitted with floating-point functions of the machine, so which bytes stand for
/// the codes is not said.
#[verifier::external_body]
fn encode_flac(o: &FlacOrder) -> (r: Result<Vec<u8>, String>)
    requires
        o.bits == 16 || o.bits == 24,
        codes_fit(o.codes@, o.bits as u16),
        o.sample_rate <= u32::MAX,
    ensures
        r is Ok ==> flac_takes(o.channels as nat, o.sample_rate as nat),
        flac_takes(o.channels as nat, o.sample_rate as nat) && o.codes@.len() < 0x800_0000_0000 ==> r is Ok,
        r matches Ok(b) ==> flac_holds(
            b@,
            o.codes@,
            o.channels as nat,
            o.bits as nat,
            o.sample_rate as nat,
        ),
{
    let config = flacenc::config::Encoder::default()
        .into_verified()
        .map_err(|e| format!("flacenc bad config: {:?}", e.1))?;
    let source =
        flacenc::source::MemSource::from_samples(&o.codes, o.channels, o.bits, o.sample_rate);
    let stream = flacenc::encode_with_fixed_block_size(&config, source, config.block_size)
        .map_err(|e| format!("flacenc encode failed: {e:?}"))?;
    let mut sink = flacenc::bitsink::ByteSink::new();
    stream.write(&mut sink).map_err(|e| format!("flacenc serialize failed: {e:?}"))?;
    Ok(sink.as_slice().to_vec())
}

/// The depth that a buffer is written to FLAC at.
pub open spec fn flac_depth(buf: &AudioBuffer) -> nat {
    if buf.source_bit_depth == 16 {
        16
    } else {
        24
    }
}

/// The codes that stand for a buffer in FLAC.
pub open spec fn flac_codes(buf: &AudioBuffer) -> Seq<i32> {
    let top = if flac_depth(buf) == 16 {
        TOP_16
    } else {
        TOP_24
    };
    Seq::new(buf.samples@.len(), |i: int| scaled_code(buf.samples@[i], top, i32::MAX as int) as i32)
}

/// The bytes are a buffer's FLAC file.
pub open spec fn flac_exported(buf: &AudioBuffer, bytes: Seq<u8>) -> bool {
    flac_holds(
        bytes,
        flac_codes(buf),
        buf.channels as nat,
        flac_depth(buf),
        buf.sample_rate as nat,
    )
}

/// Writes a buffer as a FLAC file: what `flac_order` prepares, encoded.
pub fn save_flac(buf: &AudioBuffer) -> (r: Result<Saved, SaveError>)
    ensures
        match r {
            Ok(s) => {
                &&& flac_takes(buf.channels as nat, buf.sample_rate as nat)
                &&& s matches Saved::Bytes(b) && flac_exported(buf, b@)
            },
            Err(e) => e is Flac,
        },
        flac_takes(buf.channels as nat, buf.sample_rate as nat) && buf.samples@.len() < 0x800_0000_0000
            ==> r is Ok,
{
    let o: FlacOrder = flac_order(buf);
    match encode_flac(&o) {
        Ok(b) => Ok(Saved::Bytes(b)),
        Err(text) => Err(SaveError::Flac(text)),
    }
}

// ---- MP3 through minimp3 and LAME -------------------------------------------

/// The decoder of minimp3.
#[verifier::external_type_specification]
#[verifier::external_body]
#[verifier::reject_recursive_types(R)]
pub struct ExMp3Decoder<R>(minimp3::Decoder<R>);

/// The kind of a frame: how many samples it has, at which rate, in how many
/// channels.
pub type Mp3Kind = (nat, i32, usize);

/// The kinds of the frames that minimp3 finds in the bytes, in turn.
pub uninterp spec fn mp3_kinds(bytes: Seq<u8>) -> Seq<Mp3Kind>;

/// The kinds of the frames that a decoder has not handed out yet.
pub uninterp spec fn mp3_ahead(d: minimp3::Decoder<&[u8]>) -> Seq<Mp3Kind>;

/// The bytes that a decoder was made on.
pub uninterp spec fn mp3_source(d: minimp3::Decoder<&[u8]>) -> Seq<u8>;

/// Are these samples what minimp3 makes of frame `i` of the bytes? It computes in
/// floating point, so there may be several answers.
pub uninterp spec fn mp3_gives(bytes: Seq<u8>, i: nat, data: Seq<i16>) -> bool;

/// What the decoder comes upon.
pub enum Mp3Event {
    Frame { data: Vec<i16>, sample_rate: i32, channels: usize },
    End,
    Skipped,
    Failed(String),
}

/// `minimp3::Decoder::new` on the bytes. All their frames are ahead.
#[verifier::external_body]
fn open_mp3(bytes: &[u8]) -> (d: minimp3::Decoder<&[u8]>)
    ensures
        mp3_ahead(d) == mp3_kinds(bytes@),
        mp3_source(d) == bytes@,
{
    minimp3::Decoder::new(bytes)
}

/// `minimp3::Decoder::next_frame`. It hands out the frames one after the other and
/// then finds the end; what is no frame is skipped inside it, and an error could
/// only come from the reader, where a slice is copied without one. Where the frames
/// stand and of what kind they are is read from the bytes in whole numbers. The
/// samples in them are computed in floating point, in other ways on other machines:
/// they are some that minimp3 makes of that frame of the bytes.
#[verifier::external_body]
fn next_mp3(d: &mut minimp3::Decoder<&[u8]>) -> (e: Mp3Event)
    ensures
        match e {
            Mp3Event::Frame { data, sample_rate, channels } => {
                &&& mp3_ahead(*old(d)).len() > 0
                &&& mp3_ahead(*old(d))[0] == (data@.len(), sample_rate, channels)
                &&& mp3_ahead(*final(d)) == mp3_ahead(*old(d)).skip(1)
                &&& mp3_source(*final(d)) == mp3_source(*old(d))
                &&& mp3_gives(
                    mp3_source(*old(d)),
                    (mp3_kinds(mp3_source(*old(d))).len() - mp3_ahead(*old(d)).len()) as nat,
                    data@,
                )
            },
            Mp3Event::End => mp3_ahead(*old(d)).len() == 0,
            _ => false,
        },
{
    match d.next_frame() {
        Ok(f) => Mp3Event::Frame { data: f.data, sample_rate: f.sample_rate, channels: f.channels },
        Err(minimp3::Error::Eof) => Mp3Event::End,
        Err(minimp3::Error::SkippedData) => Mp3Event::Skipped,
        Err(minimp3::Error::InsufficientData) => Mp3Event::Skipped,
        Err(e) => Mp3Event::Failed(format!("{e:?}")),
    }
}

/// What an MP3 file gives.
#[verifier::ext_equal]
pub struct Mp3Model {
    pub sample_rate: u32,
    pub channels: u16,
    pub samples: Seq<Bits>,
}

/// An MP3 file as far as it was read.
pub struct Mp3Reading {
    pub sample_rate: u32,
    pub channels: u16,
    pub samples: Vec<Bits>,
}

/// A sample of MP3.
pub open spec fn mp3_sample(v: i16) -> Bits {
    let m = number(
        if v < 0 {
            (-v) as nat
        } else {
            v as nat
        },
    );
    fdiv(
        if v < 0 {
            negated(m)
        } else {
            m
        },
        TOP_16,
    )
}

fn mp3_value(v: i16) -> (b: Bits)
    ensures
        b == mp3_sample(v),
{
    if v < 0 {
        divide_by(neg(from_whole((-(v as i32)) as u64)), TOP_16)
    } else {
        divide_by(from_whole(v as u64), TOP_16)
    }
}

/// What a frame adds: the first one fixes rate and channels, and frames of
/// another kind are left out.
pub open spec fn mp3_taken(m: Mp3Model, data: Seq<i16>, rate: u32, channels: u16) -> Mp3Model {
    if m.sample_rate != 0 && (rate != m.sample_rate || channels != m.channels) {
        m
    } else {
        Mp3Model {
            sample_rate: rate,
            channels,
            samples: m.samples + data.map_values(|v: i16| mp3_sample(v)),
        }
    }
}

/// Does a reading hold any sound?
pub open spec fn mp3_sounds(m: Mp3Model) -> bool {
    m.sample_rate != 0 && m.channels != 0 && m.samples.len() > 0
}

impl Mp3Reading {
    pub open spec fn model(&self) -> Mp3Model {
        Mp3Model {
            sample_rate: self.sample_rate,
            channels: self.channels,
            samples: self.samples@,
        }
    }

    /// Nothing read yet.
    pub fn new() -> (m: Mp3Reading)
        ensures
            m.model() == (Mp3Model { sample_rate: 0, channels: 0, samples: Seq::empty() }),
    {
        Mp3Reading { sample_rate: 0, channels: 0, samples: Vec::new() }
    }

    /// Takes the next frame.
    pub fn take(&mut self, data: &Vec<i16>, rate: u32, channels: u16)
        ensures
            final(self).model() == mp3_taken(old(self).model(), data@, rate, channels),
    {
        if self.sample_rate == 0 {
            self.sample_rate = rate;
            self.channels = channels;
        } else if rate != self.sample_rate || channels != self.channels {
            return;
        }
        let ghost before = self.samples@;
        let ghost more = data@.map_values(|v: i16| mp3_sample(v));
        let mut i: usize = 0;
        while i < data.len()
            invariant
                i <= data@.len(),
                self.sample_rate == rate,
                self.channels == channels,
                more == data@.map_values(|v: i16| mp3_sample(v)),
                self.samples@ =~= before + more.take(i as int),
            decreases data@.len() - i,
        {
            self.samples.push(mp3_value(data[i]));
            i = i + 1;
        }
        assert(more.take(data@.len() as int) =~= more);
    }

    /// The buffer of what was read. There is none without a frame.
    pub fn finish(self) -> (r: Result<AudioBuffer, LoadError>)
        ensures
            match r {
                Ok(b) => {
                    &&& mp3_sounds(self.model())
                    &&& b.samples@ == self.samples@
                    &&& b.sample_rate == self.sample_rate
                    &&& b.channels == self.channels
                    &&& b.source_bit_depth == 16
                },
                Err(e) => !mp3_sounds(self.model()) && e is NoFrames,
            },
    {
        if self.sample_rate == 0 || self.channels == 0 || self.samples.len() == 0 {
            return Err(LoadError::NoFrames);
        }
        Ok(
            AudioBuffer {
                samples: self.samples,
                sample_rate: self.sample_rate,
                channels: self.channels,
                source_bit_depth: 16,
            },
        )
    }
}

/// Frames as they come: samples, rate and channels.
pub type Mp3Frame = (Seq<i16>, u32, u16);

/// What the first `n` frames give.
pub open spec fn mp3_gathered(frames: Seq<Mp3Frame>, n: nat) -> Mp3Model
    decreases n,
{
    if n == 0 {
        Mp3Model { sample_rate: 0, channels: 0, samples: Seq::empty() }
    } else {
        let f = frames[n - 1];
        mp3_taken(mp3_gathered(frames, (n - 1) as nat), f.0, f.1, f.2)
    }
}

/// What came of reading frames up to the end.
pub open spec fn mp3_opened(frames: Seq<Mp3Frame>, r: Result<AudioBuffer, LoadError>) -> bool {
    let m = mp3_gathered(frames, frames.len());
    match r {
        Ok(b) => {
            &&& mp3_sounds(m)
            &&& b.samples@ == m.samples
            &&& b.sample_rate == m.sample_rate
            &&& b.channels == m.channels
            &&& b.source_bit_depth == 16
        },
        Err(e) => e is NoFrames && !mp3_sounds(m),
    }
}

/// Are these frames of those kinds?
pub open spec fn mp3_of_kinds(frames: Seq<Mp3Frame>, kinds: Seq<Mp3Kind>) -> bool {
    &&& frames.len() == kinds.len()
    &&& forall|i: int|
        0 <= i < frames.len() ==> {
            &&& (#[trigger] frames[i]).0.len() == kinds[i].0
            &&& frames[i].1 == kinds[i].1 as u32
            &&& frames[i].2 == kinds[i].2 as u16
        }
}

/// Do these frames hold what minimp3 makes of the first frames of the bytes?
pub open spec fn mp3_decoded(bytes: Seq<u8>, frames: Seq<Mp3Frame>) -> bool {
    forall|i: int| 0 <= i < frames.len() ==> mp3_gives(bytes, i as nat, (#[trigger] frames[i]).0)
}

/// The frames of the bytes, all of them in turn and as minimp3 decodes them, gave
/// this.
pub open spec fn mp3_result(bytes: Seq<u8>, r: Result<AudioBuffer, LoadError>) -> bool {
    exists|frames: Seq<Mp3Frame>|
        {
            &&& mp3_of_kinds(frames, mp3_kinds(bytes))
            &&& mp3_decoded(bytes, frames)
            &&& #[trigger] mp3_opened(frames, r)
        }
}

/// Opens an MP3 file: the sound of its frames up to the end.
pub fn load_mp3(bytes: &[u8]) -> (r: Result<AudioBuffer, LoadError>)
    ensures
        mp3_result(bytes@, r),
{
    let mut decoder: minimp3::Decoder<&[u8]> = open_mp3(bytes);
    let mut reading: Mp3Reading = Mp3Reading::new();
    let ghost mut frames: Seq<Mp3Frame> = Seq::empty();
    let ghost kinds = mp3_kinds(bytes@);
    let mut done: bool = false;
    while !done
        invariant
            reading.model() == mp3_gathered(frames, frames.len()),
            frames.len() <= kinds.len(),
            mp3_of_kinds(frames, kinds.take(frames.len() as int)),
            mp3_decoded(bytes@, frames),
            kinds == mp3_kinds(bytes@),
            !done ==> mp3_source(decoder) == bytes@,
            !done ==> mp3_ahead(decoder) == kinds.skip(frames.len() as int),
            done ==> frames.len() == kinds.len(),
        decreases (if done { 0int } else { 1 }), kinds.len() - frames.len(),
    {
        match next_mp3(&mut decoder) {
            Mp3Event::Frame { data, sample_rate, channels } => {
                let rate: u32 = sample_rate as u32;
                let ch: u16 = channels as u16;
                let ghost before = frames;
                proof {
                    frames = frames.push((data@, rate, ch));
                    assert(frames.take(before.len() as int) =~= before);
                    lemma_gathered_prefix(before, frames, before.len());
                    assert(kinds.skip(before.len() as int).skip(1) =~= kinds.skip(frames.len() as int));
                    let seen = kinds.take(before.len() as int);
                    assert forall|i: int| 0 <= i < before.len() implies kinds[i] == #[trigger] seen[i] by {}
                    assert(mp3_of_kinds(before, seen));
                    assert forall|i: int| 0 <= i < before.len() implies #[trigger] frames[i] == before[i] by {}
                }
                reading.take(&data, rate, ch);
            },
            Mp3Event::End => {
                done = true;
            },
            Mp3Event::Skipped => {
            },
            Mp3Event::Failed(text) => {
                return Err(LoadError::Mp3(text));
            },
        }
    }
    let r: Result<AudioBuffer, LoadError> = reading.finish();
    assert(kinds.take(kinds.len() as int) =~= kinds);
    assert(mp3_opened(frames, r));
    r
}

proof fn lemma_gathered_prefix(a: Seq<Mp3Frame>, b: Seq<Mp3Frame>, n: nat)
    requires
        n <= a.len() <= b.len(),
        b.take(a.len() as int) == a,
    ensures
        mp3_gathered(a, n) == mp3_gathered(b, n),
    decreases n,
{
    if n > 0 {
        lemma_gathered_prefix(a, b, (n - 1) as nat);
        assert(a[n - 1] == b.take(a.len() as int)[n - 1]);
    }
}

/// A bit rate of MP3.
#[derive(Clone, Copy, PartialEq, Eq, Debug, Structural)]
pub enum Mp3Rate {
    Kbps128,
    Kbps192,
    Kbps256,
    Kbps320,
}

/// How hard LAME tries.
#[derive(Clone, Copy, PartialEq, Eq, Debug, Structural)]
pub enum Mp3Quality {
    Best,
    Good,
    Worst,
}

/// What is handed to the MP3 encoder.
pub struct Mp3Order {
    pub codes: Vec<i16>,
    pub channels: u8,
    pub mono: bool,
    pub sample_rate: u32,
    pub bit_rate: Mp3Rate,
    pub quality: Mp3Quality,
}

/// What an encoder is set up for: channels, rate, bit rate and quality.
pub type Mp3Plan = (u8, u32, Mp3Rate, Mp3Quality);

impl Mp3Order {
    /// What the encoder of an order is set up for.
    pub open spec fn plan(&self) -> Mp3Plan {
        (self.channels, lame_rate(self.sample_rate), self.bit_rate, self.quality)
    }
}

/// What a buffer's encoder is set up for: its channels and rate, at 320 kbit/s and
/// good quality.
pub open spec fn mp3_plan(buf: &AudioBuffer) -> Mp3Plan {
    (buf.channels as u8, lame_rate(buf.sample_rate), Mp3Rate::Kbps320, Mp3Quality::Good)
}

/// The rate that LAME is set to: it counts with 31 bits.
pub open spec fn lame_rate(rate: u32) -> u32 {
    if rate > i32::MAX {
        i32::MAX as u32
    } else {
        rate
    }
}

/// The codes that stand for a buffer in MP3: one channel as it is, and of more
/// channels the codes that make pairs.
pub open spec fn mp3_codes(buf: &AudioBuffer) -> Seq<i16> {
    let all = Seq::new(
        buf.samples@.len(),
        |i: int| scaled_code(buf.samples@[i], TOP_16, i16::MAX as int) as i16,
    );
    if buf.channels == 1 {
        all
    } else {
        whole_frames(all, 2)
    }
}

/// As many codes as the room for their output, counted with 31 bits, allows.
pub const MP3_MOST_CODES: usize = 1_717_981_157;

/// What LAME may need for what it still holds at the end.
pub const MP3_TAIL: usize = 7200;

/// Prepares a buffer for MP3: 16-bit codes, at 320 kbit/s and good quality.
pub fn mp3_order(buf: &AudioBuffer) -> (o: Mp3Order)
    ensures
        o.plan() == mp3_plan(buf),
        o.mono == (buf.channels == 1),
        o.codes@ == mp3_codes(buf),
{
    let mono: bool = buf.channels == 1;
    let len: usize = if mono {
        buf.samples.len()
    } else {
        buf.samples.len() / 2 * 2
    };
    let mut codes: Vec<i16> = Vec::new();
    let mut i: usize = 0;
    while i < len
        invariant
            i <= len <= buf.samples@.len(),
            codes@.len() == i,
            forall|k: int|
                0 <= k < i ==> #[trigger] codes@[k] == scaled_code(
                    buf.samples@[k],
                    TOP_16,
                    i16::MAX as int,
                ) as i16,
        decreases len - i,
    {
        codes.push(scale_code(buf.samples[i], TOP_16, 0x7fff) as i16);
        i = i + 1;
    }
    assert(codes@ =~= mp3_codes(buf));
    Mp3Order {
        codes,
        channels: buf.channels as u8,
        mono,
        sample_rate: buf.sample_rate,
        bit_rate: Mp3Rate::Kbps320,
        quality: Mp3Quality::Good,
    }
}

/// A builder of LAME's encoders.
#[verifier::external_type_specification]
#[verifier::external_body]
pub struct ExLameBuilder(mp3lame_encoder::Builder);

/// An encoder of LAME.
#[verifier::external_type_specification]
#[verifier::external_body]
pub struct ExLameEncoder(mp3lame_encoder::Encoder);

/// What a builder is set to.
pub uninterp spec fn lame_set(b: mp3lame_encoder::Builder) -> Mp3Plan;

/// What an encoder was set up for.
pub uninterp spec fn lame_made(e: mp3lame_encoder::Encoder) -> Mp3Plan;

/// Are the bytes what LAME, set up like that, makes of the codes? They are given as
/// one channel or as pairs. LAME computes in floating point, so there may be
/// several answers.
pub uninterp spec fn lame_writes(plan: Mp3Plan, codes: Seq<i16>, mono: bool, bytes: Seq<u8>) -> bool;

/// `mp3lame_encoder::Builder::new`. There is none where LAME gets no memory; what
/// it is set to at first is not said.
#[verifier::external_body]
fn lame_builder() -> (r: Option<mp3lame_encoder::Builder>) {
    mp3lame_encoder::Builder::new()
}

/// `mp3lame_encoder::Builder::set_num_channels`: one or two.
#[verifier::external_body]
fn set_channels(b: &mut mp3lame_encoder::Builder, channels: u8) -> (r: Result<(), String>)
    ensures
        r is Ok <==> 1 <= channels <= 2,
        r is Ok ==> lame_set(*final(b)) == (
            channels,
            lame_set(*old(b)).1,
            lame_set(*old(b)).2,
            lame_set(*old(b)).3,
        ),
{
    b.set_num_channels(channels).map_err(|e| format!("{e:?}"))
}

/// `mp3lame_encoder::Builder::set_sample_rate`: any but zero. Rates of more than 31
/// bits count as the largest of 31.
#[verifier::external_body]
fn set_rate(b: &mut mp3lame_encoder::Builder, rate: u32) -> (r: Result<(), String>)
    ensures
        r is Ok <==> rate >= 1,
        r is Ok ==> lame_set(*final(b)) == (
            lame_set(*old(b)).0,
            lame_rate(rate),
            lame_set(*old(b)).2,
            lame_set(*old(b)).3,
        ),
{
    b.set_sample_rate(rate).map_err(|e| format!("{e:?}"))
}

/// `mp3lame_encoder::Builder::set_brate`.
#[verifier::external_body]
fn set_bit_rate(b: &mut mp3lame_encoder::Builder, bit_rate: Mp3Rate) -> (r: Result<(), String>)
    ensures
        r is Ok,
        lame_set(*final(b)) == (
            lame_set(*old(b)).0,
            lame_set(*old(b)).1,
            bit_rate,
            lame_set(*old(b)).3,
        ),
{
    b.set_brate(match bit_rate {
        Mp3Rate::Kbps128 => mp3lame_encoder::Bitrate::Kbps128,
        Mp3Rate::Kbps192 => mp3lame_encoder::Bitrate::Kbps192,
        Mp3Rate::Kbps256 => mp3lame_encoder::Bitrate::Kbps256,
        Mp3Rate::Kbps320 => mp3lame_encoder::Bitrate::Kbps320,
    })
    .map_err(|e| format!("{e:?}"))
}

/// `mp3lame_encoder::Builder::set_quality`.
#[verifier::external_body]
fn set_quality(b: &mut mp3lame_encoder::Builder, quality: Mp3Quality) -> (r: Result<(), String>)
    ensures
        r is Ok,
        lame_set(*final(b)) == (
            lame_set(*old(b)).0,
            lame_set(*old(b)).1,
            lame_set(*old(b)).2,
            quality,
        ),
{
    b.set_quality(match quality {
        Mp3Quality::Best => mp3lame_encoder::Quality::Best,
        Mp3Quality::Good => mp3lame_encoder::Quality::Good,
        Mp3Quality::Worst => mp3lame_encoder::Quality::Worst,
    })
    .map_err(|e| format!("{e:?}"))
}

/// Is there an encoder for that? For one or two channels, at some rate.
pub open spec fn mp3_takes(plan: Mp3Plan) -> bool {
    1 <= plan.0 <= 2 && plan.1 >= 1
}

/// `mp3lame_encoder::Builder::build`. It asks for one or two channels and a rate;
/// every other setting has an encoder. The encoder is set up for what the builder
/// is set to.
#[verifier::external_body]
fn build_lame(b: mp3lame_encoder::Builder) -> (r: Result<mp3lame_encoder::Encoder, String>)
    ensures
        r is Ok <==> mp3_takes(lame_set(b)),
        r matches Ok(e) ==> lame_made(e) == lame_set(b),
{
    b.build().map_err(|e| format!("{e:?}"))
}

/// The room that LAME's output may need, in bytes.
pub open spec fn room_for(samples: nat) -> nat {
    samples + (samples + 3) / 4 + 7200
}

/// `mp3lame_encoder::max_required_buffer_size`: a byte and a quarter for each
/// sample, and a frame.
#[verifier::external_body]
fn lame_room(samples: usize) -> (n: usize)
    requires
        room_for(samples as nat) <= usize::MAX,
    ensures
        n == room_for(samples as nat),
{
    mp3lame_encoder::max_required_buffer_size(samples)
}

/// `mp3lame_encoder::Encoder::encode_to_vec` on one channel, into `room` bytes, and
/// `flush_to_vec`, with at least `tail` bytes to go into. LAME counts both with 31
/// bits and asks for 7200 at the end. It fails where it finds too little room or
/// memory; when that is, is not said.
#[verifier::external_body]
fn encode_mono(e: mp3lame_encoder::Encoder, codes: &Vec<i16>, room: usize, tail: usize) -> (r: Result<
    Vec<u8>,
    String,
>)
    requires
        room_for(codes@.len()) <= room <= i32::MAX,
        7200 <= tail <= i32::MAX,
    ensures
        r matches Ok(b) ==> lame_writes(lame_made(e), codes@, true, b@),
{
    let mut e = e;
    let mut out: Vec<u8> = Vec::with_capacity(room);
    e.encode_to_vec(mp3lame_encoder::MonoPcm(codes), &mut out).map_err(|x| format!("{x:?}"))?;
    out.reserve_exact(tail);
    e.flush_to_vec::<mp3lame_encoder::FlushNoGap>(&mut out).map_err(|x| format!("{x:?}"))?;
    Ok(out)
}

/// `mp3lame_encoder::Encoder::encode_to_vec` on pairs of samples, into `room` bytes,
/// and `flush_to_vec`, with at least `tail` bytes to go into. LAME counts both with
/// 31 bits and asks for 7200 at the end. It fails where it finds too little room or
/// memory; when that is, is not said.
#[verifier::external_body]
fn encode_pairs(e: mp3lame_encoder::Encoder, codes: &Vec<i16>, room: usize, tail: usize) -> (r: Result<
    Vec<u8>,
    String,
>)
    requires
        codes@.len() % 2 == 0,
        room_for(codes@.len()) <= room <= i32::MAX,
        7200 <= tail <= i32::MAX,
    ensures
        r matches Ok(b) ==> lame_writes(lame_made(e), codes@, false, b@),
{
    let mut e = e;
    let mut out: Vec<u8> = Vec::with_capacity(room);
    e.encode_to_vec(mp3lame_encoder::InterleavedPcm(codes), &mut out).map_err(|x| format!("{x:?}"))?;
    out.reserve_exact(tail);
    e.flush_to_vec::<mp3lame_encoder::FlushNoGap>(&mut out).map_err(|x| format!("{x:?}"))?;
    Ok(out)
}

/// An encoder for what is ordered. There is none, though LAME takes the order, only
/// where memory is short.
fn lame_encoder(o: &Mp3Order) -> (r: Result<mp3lame_encoder::Encoder, Option<String>>)
    ensures
        match r {
            Ok(e) => {
                &&& mp3_takes(o.plan())
                &&& lame_made(e) == o.plan()
            },
            Err(Some(_)) => !mp3_takes(o.plan()),
            Err(None) => true,
        },
{
    let mut b: mp3lame_encoder::Builder = match lame_builder() {
        Some(b) => b,
        None => {
            return Err(None);
        },
    };
    match set_channels(&mut b, o.channels) {
        Ok(_) => {},
        Err(text) => {
            return Err(Some(text));
        },
    }
    match set_rate(&mut b, o.sample_rate) {
        Ok(_) => {},
        Err(text) => {
            return Err(Some(text));
        },
    }
    match set_bit_rate(&mut b, o.bit_rate) {
        Ok(_) => {},
        Err(text) => {
            return Err(Some(text));
        },
    }
    match set_quality(&mut b, o.quality) {
        Ok(_) => {},
        Err(text) => {
            return Err(Some(text));
        },
    }
    match build_lame(b) {
        Ok(e) => Ok(e),
        Err(text) => Err(Some(text)),
    }
}

/// How an encoding ended.
pub enum Mp3Outcome {
    /// LAME has no memory for a builder.
    NoBuilder,
    /// LAME has no encoder for what was ordered.
    Refused(String),
    /// The encoder gave up.
    Failed(String),
    Written(Vec<u8>),
}

/// What a buffer comes to when its encoding has ended.
pub fn mp3_saved(outcome: Mp3Outcome) -> (r: Result<Saved, SaveError>)
    ensures
        match outcome {
            Mp3Outcome::NoBuilder => r matches Err(SaveError::Mp3(text)) && text@
                == "LAME builder failed"@,
            Mp3Outcome::Refused(t) | Mp3Outcome::Failed(t) => r == Err::<Saved, SaveError>(
                SaveError::Mp3(t),
            ),
            Mp3Outcome::Written(b) => r == Ok::<Saved, SaveError>(Saved::Bytes(b)),
        },
{
    match outcome {
        Mp3Outcome::NoBuilder => Err(SaveError::Mp3("LAME builder failed".to_string())),
        Mp3Outcome::Refused(t) => Err(SaveError::Mp3(t)),
        Mp3Outcome::Failed(t) => Err(SaveError::Mp3(t)),
        Mp3Outcome::Written(b) => Ok(Saved::Bytes(b)),
    }
}

/// Encodes a buffer. Without an encoder for it it is refused; with one it is
/// written, unless there are too many codes or LAME runs out of room or memory.
pub fn encode_mp3(buf: &AudioBuffer) -> (outcome: Mp3Outcome)
    ensures
        match outcome {
            Mp3Outcome::NoBuilder => true,
            Mp3Outcome::Refused(_) => !mp3_takes(mp3_plan(buf)),
            Mp3Outcome::Failed(_) => mp3_takes(mp3_plan(buf)),
            Mp3Outcome::Written(b) => {
                &&& mp3_takes(mp3_plan(buf))
                &&& mp3_codes(buf).len() <= MP3_MOST_CODES
                &&& mp3_exported(buf, b@)
            },
        },
{
    let o: Mp3Order = mp3_order(buf);
    let e: mp3lame_encoder::Encoder = match lame_encoder(&o) {
        Ok(e) => e,
        Err(None) => {
            return Mp3Outcome::NoBuilder;
        },
        Err(Some(text)) => {
            return Mp3Outcome::Refused(text);
        },
    };
    if o.codes.len() > MP3_MOST_CODES {
        return Mp3Outcome::Failed("BufferTooSmall".to_string());
    }
    let room: usize = lame_room(o.codes.len());
    let r: Result<Vec<u8>, String> = if o.mono {
        encode_mono(e, &o.codes, room, MP3_TAIL)
    } else {
        encode_pairs(e, &o.codes, room, MP3_TAIL)
    };
    match r {
        Ok(b) => Mp3Outcome::Written(b),
        Err(text) => Mp3Outcome::Failed(text),
    }
}

/// The bytes are a buffer's MP3 file: LAME's, at 320 kbit/s and good quality, of
/// the buffer's codes.
pub open spec fn mp3_exported(buf: &AudioBuffer, bytes: Seq<u8>) -> bool {
    lame_writes(mp3_plan(buf), mp3_codes(buf), buf.channels == 1, bytes)
}

/// Writes a buffer as an MP3 file: what `mp3_order` prepares, encoded at
/// 320 kbit/s.
pub fn save_mp3(buf: &AudioBuffer) -> (r: Result<Saved, SaveError>)
    ensures
        match r {
            Ok(s) => {
                &&& mp3_takes(mp3_plan(buf))
                &&& s matches Saved::Bytes(b) && mp3_exported(buf, b@)
            },
            Err(e) => e is Mp3,
        },
{
    mp3_saved(encode_mp3(buf))
}

// ---- Opening and exporting --------------------------------------------------

/// Opens a file by its extension.
pub fn load(ext: &str, bytes: &[u8]) -> (r: Result<Opened, LoadError>)
    ensures
        match opened_as(ext@) {
            None => r matches Err(LoadError::Unsupported(text)) && text@
                == "Unsupported input format: ."@ + lowered(ext@),
            Some(Format::Wav) => match r {
                Ok(o) => wav_readable(bytes@) && wav_opened(bytes@, o),
                Err(e) => !wav_readable(bytes@) && e is Wav,
            },
            Some(Format::Flac) => match r {
                Ok(o) => flac_sound_of(bytes@) matches Some(sound) && o matches Opened::Audio(b)
                    && flac_opened(sound, b),
                Err(e) => flac_sound_of(bytes@) is None && e is Flac,
            },
            Some(Format::Mp3) => match r {
                Ok(o) => o matches Opened::Audio(b) && mp3_result(bytes@, Ok(b)),
                Err(e) => mp3_result(bytes@, Err(e)),
            },
            Some(Format::Aiff) => match r {
                Ok(o) => {
                    &&& load_error(bytes@) is None
                    &&& o matches Opened::Audio(b) && loaded(bytes@, b)
                },
                Err(e) => e matches LoadError::Aiff(a) && load_error(bytes@) == Some(a),
            },
        },
{
    let format: Format = match input_format(ext) {
        Ok(f) => f,
        Err(text) => {
            return Err(LoadError::Unsupported(text));
        },
    };
    match format {
        Format::Wav => load_wav(bytes),
        Format::Flac => match load_flac(bytes) {
            Ok(b) => Ok(Opened::Audio(b)),
            Err(e) => Err(e),
        },
        Format::Mp3 => match load_mp3(bytes) {
            Ok(b) => Ok(Opened::Audio(b)),
            Err(e) => Err(e),
        },
        Format::Aiff => match load_aiff(bytes) {
            Ok(b) => Ok(Opened::Audio(b)),
            Err(a) => Err(LoadError::Aiff(a)),
        },
    }
}

/// Can a buffer be written in that format at all?
pub open spec fn can_hold(format: Option<Format>, buf: &AudioBuffer) -> bool {
    match format {
        Some(Format::Wav) => wav_fits(buf),
        Some(Format::Aiff) => buf.samples@.len() * 3 + 64 <= usize::MAX,
        _ => true,
    }
}

/// Exports a buffer in the format of the extension.
pub fn save(ext: &str, buf: &AudioBuffer) -> (r: Result<Saved, SaveError>)
    requires
        can_hold(exported_as(ext@), buf),
    ensures
        match exported_as(ext@) {
            None => r matches Err(SaveError::Unsupported(text)) && text@
                == "Unsupported output format: ."@ + lowered(ext@),
            Some(Format::Wav) => match wav_depth(buf.source_bit_depth) {
                None => r matches Ok(Saved::Floats(h)) && h == (WavHeader {
                    channels: buf.channels,
                    sample_rate: buf.sample_rate,
                    bits: 32,
                    float: true,
                }),
                Some(bits) => {
                    &&& r is Ok <==> buf.samples@.len() % buf.channels as nat == 0
                    &&& r matches Ok(s) ==> s matches Saved::Bytes(b) && wav_exported(buf, bits, b@)
                    &&& r matches Err(e) ==> e is Wav
                },
            },
            Some(Format::Flac) => {
                &&& match r {
                    Ok(s) => {
                        &&& flac_takes(buf.channels as nat, buf.sample_rate as nat)
                        &&& s matches Saved::Bytes(b) && flac_exported(buf, b@)
                    },
                    Err(e) => e is Flac,
                }
                &&& flac_takes(buf.channels as nat, buf.sample_rate as nat) && buf.samples@.len()
                    < 0x800_0000_0000 ==> r is Ok
            },
            Some(Format::Mp3) => match r {
                Ok(s) => {
                    &&& mp3_takes(mp3_plan(buf))
                    &&& s matches Saved::Bytes(b) && mp3_exported(buf, b@)
                },
                Err(e) => e is Mp3,
            },
            Some(Format::Aiff) => r matches Ok(Saved::Bytes(b)) && b@ == aiff_file(
                buf.samples@,
                buf.sample_rate as nat,
                at_least_one(buf.channels),
                written_depth(buf.source_bit_depth),
            ),
        },
{
    let format: Format = match output_format(ext) {
        Ok(f) => f,
        Err(text) => {
            return Err(SaveError::Unsupported(text));
        },
    };
    match format {
        Format::Wav => save_wav(buf),
        Format::Flac => save_flac(buf),
        Format::Mp3 => save_mp3(buf),
        Format::Aiff => Ok(Saved::Bytes(save_aiff(buf))),
    }
}

// ---- Laws -------------------------------------------------------------------

/// A 16- or 24-bit WAV file that is opened and exported again holds the same
/// samples: `samples` stand for codes of that depth, `bytes` is what they were
/// exported as, and `b` is what opening the bytes gives.
pub proof fn law_wav_round_trip(
    samples: Seq<Bits>,
    first: Seq<i32>,
    written: Seq<i32>,
    channels: u16,
    rate: u32,
    bits: u16,
    bytes: Seq<u8>,
    b: AudioBuffer,
)
    requires
        bits == 16 || bits == 24,
        wav_samples(samples, first, bits),
        codes_fit(first, bits),
        stand_for(written, samples, bits),
        wav_written(bytes, written, channels, rate, bits),
        wav_opened(bytes, Opened::Audio(b)),
    ensures
        b.samples@ == samples,
        b.channels == channels,
        b.sample_rate == rate,
        b.source_bit_depth == bits,
{
    assert forall|i: int| 0 <= i < samples.len() implies b.samples@[i] == samples[i] by {
        law_code_round_trip(samples[i], first[i] as int, bits as nat);
        assert(written[i] == first[i]);
        assert(is_sample(samples[i], first[i] as int, bits as nat));
        assert(is_sample(b.samples@[i], written[i] as int, bits as nat));
        lemma_same_sample(samples[i], b.samples@[i], first[i] as int, bits as nat);
    }
    assert(b.samples@ =~= samples);
}

proof fn lemma_same_sample(a: Bits, b: Bits, v: int, d: nat)
    requires
        is_sample(a, v, d),
        is_sample(b, v, d),
    ensures
        a == b,
{
    crate::single::lemma_magnitude_order(a, b);
    crate::single::lemma_magnitude_order(b, a);
}

/// A FLAC file that is opened again holds what was exported: the same rate and
/// channels, the depth it was written at, and, sample for sample, the codes of
/// every whole frame.
pub proof fn law_flac_round_trip(buf: &AudioBuffer, bytes: Seq<u8>, b: AudioBuffer)
    requires
        buf.channels >= 1,
        buf.sample_rate >= 1,
        whole_frames(flac_codes(buf), buf.channels as nat).len() > 0,
        flac_exported(buf, bytes),
        flac_sound_of(bytes) matches Some(sound) ==> flac_opened(sound, b),
    ensures
        b.sample_rate == buf.sample_rate,
        b.channels == buf.channels,
        b.source_bit_depth == flac_depth(buf),
        b.samples@.len() >= buf.samples@.len() / buf.channels as nat * buf.channels as nat,
        forall|i: int|
            0 <= i < buf.samples@.len() / buf.channels as nat * buf.channels as nat ==> is_sample(
                #[trigger] b.samples@[i],
                flac_codes(buf)[i] as int,
                flac_depth(buf),
            ),
{
    let kept = whole_frames(flac_codes(buf), buf.channels as nat);
    let sound = flac_sound_of(bytes)->0;
    assert((buf.samples@.len() / buf.channels as nat) * buf.channels as nat <= buf.samples@.len())
        by (nonlinear_arith)
        requires
            buf.channels >= 1,
    ;
    assert forall|i: int| 0 <= i < kept.len() implies sound.3[i] == #[trigger] flac_codes(buf)[i] by {
        assert(kept[i] == sound.3.take(kept.len() as int)[i]);
    }
    assert forall|i: int| 0 <= i < kept.len() implies is_sample(
        #[trigger] b.samples@[i],
        flac_codes(buf)[i] as int,
        flac_depth(buf),
    ) by {
        assert(sound.3[i] == flac_codes(buf)[i]);
    }
}

/// Every format that can be exported can be opened again under the same
/// extension.
pub proof fn law_exports_open(ext: Seq<char>)
    ensures
        exported_as(ext) is Some ==> opened_as(ext) == exported_as(ext),
{
}

} // verus!
