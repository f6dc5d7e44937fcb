//! Files of every format, opened and exported.

use peakmuncher::aiff::{load_aiff, save_aiff, AiffError};
use peakmuncher::audio_io::AudioBuffer;
use peakmuncher::bytes::{be_u16, be_u32};
use peakmuncher::codecs::{
    encode_mp3, flac_order, input_format, load, load_flac, load_mp3, load_wav,
    mp3_order, mp3_saved, output_format, save, save_wav, wav_can_hold, wav_from_floats, Format,
    LoadError, Mp3Outcome, Mp3Quality, Mp3Rate, Mp3Reading, Opened, SaveError, Saved,
};
use peakmuncher::extended::{parse_extended_f80, write_extended_f80};

fn tone(frames: usize, channels: u16, rate: u32, depth: u16) -> AudioBuffer {
    let mut samples = Vec::new();
    for i in 0..frames {
        for c in 0..channels as usize {
            let v = ((i * (c + 3)) as f32 * 0.05).sin() * 0.7;
            samples.push(v.to_bits());
        }
    }
    AudioBuffer { samples, sample_rate: rate, channels, source_bit_depth: depth }
}

/// The buffer with its samples on the codes of its depth.
fn on_codes(mut buf: AudioBuffer) -> AudioBuffer {
    let top = (1i32 << (buf.source_bit_depth - 1)) as f32;
    for s in buf.samples.iter_mut() {
        let v = (f32::from_bits(*s) * top) as i32;
        *s = (v as f32 / top).to_bits();
    }
    buf
}

fn bytes_of(r: Result<Saved, SaveError>) -> Vec<u8> {
    match r {
        Ok(Saved::Bytes(b)) => b,
        _ => panic!("no bytes"),
    }
}

fn audio_of(r: Result<Opened, LoadError>) -> AudioBuffer {
    match r {
        Ok(Opened::Audio(b)) => b,
        _ => panic!("no audio"),
    }
}

#[test]
fn big_endian_numbers() {
    assert_eq!(be_u16(&[0x12, 0x34]), 0x1234);
    assert_eq!(be_u32(&[0x12, 0x34, 0x56, 0x78]), 0x1234_5678);
}

#[test]
fn extended_rates_round_trip() {
    for rate in [1u32, 8000, 22050, 44100, 48000, 96000, 192000, 705600] {
        let b = write_extended_f80(rate);
        assert_eq!(b.len(), 10);
        assert_eq!(parse_extended_f80(&b), rate);
    }
    // 44100 as every encoder writes it
    assert_eq!(write_extended_f80(44100), vec![0x40, 0x0e, 0xac, 0x44, 0, 0, 0, 0, 0, 0]);
}

#[test]
fn aiff_saved_then_loaded() {
    for depth in [16u16, 24] {
        let buf = on_codes(tone(100, 2, 44100, depth));
        let back = load_aiff(&save_aiff(&buf)).ok().unwrap();
        assert_eq!(back.samples, buf.samples);
        assert_eq!(back.sample_rate, 44100);
        assert_eq!(back.channels, 2);
        assert_eq!(back.source_bit_depth, depth);
    }
    // other depths are written with 24 bits
    let odd = load_aiff(&save_aiff(&tone(10, 1, 48000, 32))).ok().unwrap();
    assert_eq!(odd.source_bit_depth, 24);
}

fn aiff_error(bytes: &[u8]) -> AiffError {
    match load_aiff(bytes) {
        Ok(_) => panic!("loaded"),
        Err(e) => e,
    }
}

fn chunk(id: &[u8; 4], body: &[u8]) -> Vec<u8> {
    let mut v = id.to_vec();
    v.extend((body.len() as u32).to_be_bytes());
    v.extend(body);
    if body.len() % 2 == 1 {
        v.push(0);
    }
    v
}

fn form(kind: &[u8; 4], chunks: &[Vec<u8>]) -> Vec<u8> {
    let mut body = kind.to_vec();
    for c in chunks {
        body.extend(c);
    }
    chunk(b"FORM", &body)
}

fn comm(channels: u16, frames: u32, bits: u16, code: Option<&[u8; 4]>) -> Vec<u8> {
    let mut b = channels.to_be_bytes().to_vec();
    b.extend(frames.to_be_bytes());
    b.extend(bits.to_be_bytes());
    b.extend(write_extended_f80(44100));
    if let Some(c) = code {
        b.extend(c);
        b.extend([0u8, 0]);
    }
    chunk(b"COMM", &b)
}

fn ssnd(offset: u32, data: &[u8]) -> Vec<u8> {
    let mut b = offset.to_be_bytes().to_vec();
    b.extend(0u32.to_be_bytes());
    b.extend(data);
    chunk(b"SSND", &b)
}

#[test]
fn aiff_errors() {
    assert!(matches!(aiff_error(b"short"), AiffError::MissingForm));
    assert!(matches!(aiff_error(b"RIFFxxxxWAVE"), AiffError::MissingForm));
    assert!(matches!(aiff_error(&form(b"8SVX", &[])), AiffError::FormType(b'8', b'S', b'V', b'X')));
    assert!(matches!(aiff_error(&form(b"AIFF", &[])), AiffError::MissingComm));
    assert!(matches!(aiff_error(&form(b"AIFF", &[comm(1, 0, 16, None)])), AiffError::MissingSsnd));
    assert!(matches!(
        aiff_error(&form(b"AIFF", &[chunk(b"COMM", &[0; 4]), ssnd(0, &[])])),
        AiffError::CommTooSmall
    ));
    assert!(matches!(
        aiff_error(&form(b"AIFF", &[comm(1, 0, 16, None), chunk(b"SSND", &[0; 4])])),
        AiffError::SsndTooSmall
    ));
    assert!(matches!(
        aiff_error(&form(b"AIFF", &[comm(1, 0, 16, None), ssnd(100, &[0, 0])])),
        AiffError::OffsetPastEnd
    ));
    assert!(matches!(
        aiff_error(&form(b"AIFC", &[comm(1, 1, 16, Some(b"ima4")), ssnd(0, &[0, 0])])),
        AiffError::Compression(b'i', b'm', b'a', b'4')
    ));
    assert!(matches!(
        aiff_error(&form(b"AIFC", &[comm(1, 1, 16, Some(b"fl32")), ssnd(0, &[0, 0, 0, 0])])),
        AiffError::FloatDepth(16)
    ));
    let mut past = form(b"AIFF", &[]);
    past.extend(b"JUNK");
    past.extend(1000u32.to_be_bytes());
    assert!(matches!(aiff_error(&past), AiffError::ChunkPastEnd));
}

#[test]
fn aiff_float_and_little_endian_samples() {
    let data = 0.25f32.to_be_bytes();
    let f = load_aiff(&form(b"AIFC", &[comm(1, 1, 32, Some(b"fl32")), ssnd(0, &data)])).ok().unwrap();
    assert_eq!(f.samples, vec![0.25f32.to_bits()]);
    let data = 0.1f64.to_be_bytes();
    let d = load_aiff(&form(b"AIFC", &[comm(1, 1, 64, Some(b"fl64")), ssnd(0, &data)])).ok().unwrap();
    assert_eq!(d.samples, vec![(0.1f64 as f32).to_bits()]);
    let data = [0x00, 0x40];
    let s = load_aiff(&form(b"AIFC", &[comm(1, 1, 16, Some(b"sowt")), ssnd(0, &data)])).ok().unwrap();
    assert_eq!(s.samples, vec![0.5f32.to_bits()]);
}

#[test]
fn formats_by_extension() {
    assert_eq!(input_format("WAV"), Ok(Format::Wav));
    assert_eq!(input_format("Flac"), Ok(Format::Flac));
    assert_eq!(input_format("mp3"), Ok(Format::Mp3));
    for e in ["aiff", "AIF", "aifc"] {
        assert_eq!(input_format(e), Ok(Format::Aiff));
    }
    assert_eq!(input_format("OGG"), Err("Unsupported input format: .ogg".to_string()));
    assert_eq!(input_format(""), Err("Unsupported input format: .".to_string()));
    assert_eq!(output_format("aif"), Ok(Format::Aiff));
    assert_eq!(output_format("aifc"), Err("Unsupported output format: .aifc".to_string()));
    // what can be exported can be opened again
    for e in ["wav", "flac", "mp3", "aiff", "aif"] {
        assert_eq!(output_format(e), input_format(e));
    }
}

#[test]
fn wav_round_trip() {
    for depth in [16u16, 24] {
        for channels in [1u16, 2, 6] {
            let buf = on_codes(tone(50, channels, 48000, depth));
            assert!(wav_can_hold(&buf));
            let bytes = bytes_of(save("WAV", &buf));
            assert_eq!(&bytes[..4], b"RIFF");
            let back = audio_of(load("wav", &bytes));
            assert_eq!(back.samples, buf.samples);
            assert_eq!(back.channels, channels);
            assert_eq!(back.sample_rate, 48000);
            assert_eq!(back.source_bit_depth, depth);
        }
    }
}

#[test]
fn wav_samples_are_cut_at_full_scale() {
    let mut buf = tone(2, 1, 44100, 16);
    buf.samples = vec![2.0f32.to_bits(), (-2.0f32).to_bits()];
    let back = audio_of(load_wav(&bytes_of(save_wav(&buf))));
    assert_eq!(f32::from_bits(back.samples[0]), 32767.0 / 32768.0);
    assert_eq!(f32::from_bits(back.samples[1]), -1.0);
}

#[test]
fn wav_of_other_depths_holds_floats() {
    for depth in [8u16, 20, 32] {
        match save_wav(&tone(4, 2, 44100, depth)) {
            Ok(Saved::Floats(h)) => {
                assert_eq!(h.bits, 32);
                assert!(h.float);
                assert_eq!(h.channels, 2);
                assert_eq!(h.sample_rate, 44100);
            }
            _ => panic!("no floats"),
        }
    }
    // such a file is opened with its floats as they stand
    let spec = hound::WavSpec {
        channels: 1,
        sample_rate: 8000,
        bits_per_sample: 32,
        sample_format: hound::SampleFormat::Float,
    };
    let mut out = std::io::Cursor::new(Vec::new());
    let mut w = hound::WavWriter::new(&mut out, spec).unwrap();
    w.write_sample(0.3f32).unwrap();
    w.finalize().unwrap();
    let bytes = out.into_inner();
    match load_wav(&bytes) {
        Ok(Opened::Floats(h)) => {
            let buf = wav_from_floats(h, vec![0.3f32.to_bits()]);
            assert_eq!(buf.sample_rate, 8000);
            assert_eq!(buf.channels, 1);
            assert_eq!(buf.source_bit_depth, 32);
            assert_eq!(buf.samples, vec![0.3f32.to_bits()]);
        }
        _ => panic!("no floats"),
    }
}

#[test]
fn wav_errors() {
    assert!(matches!(load_wav(b"nonsense"), Err(LoadError::Wav(_))));
    let mut broken = bytes_of(save_wav(&tone(10, 2, 44100, 16)));
    broken.truncate(broken.len() - 3);
    assert!(matches!(load_wav(&broken), Err(LoadError::Wav(_))));
    // the last frame is not whole
    let mut odd = tone(3, 2, 44100, 16);
    odd.samples.pop();
    assert!(matches!(save_wav(&odd), Err(SaveError::Wav(_))));
    // beyond the limits of the format
    assert!(!wav_can_hold(&tone(1, 0, 44100, 16)));
    assert!(!wav_can_hold(&tone(1, 2, 0, 16)));
    assert!(!wav_can_hold(&AudioBuffer {
        samples: Vec::new(),
        sample_rate: 4_000_000_000,
        channels: 2,
        source_bit_depth: 24
    }));
    assert!(matches!(load("xyz", b""), Err(LoadError::Unsupported(_))));
    assert!(matches!(save("xyz", &tone(1, 1, 1, 16)), Err(SaveError::Unsupported(_))));
}

#[test]
fn flac_saved_then_loaded() {
    // whole blocks come back as they were
    for depth in [16u16, 24] {
        let buf = tone(4096, 2, 44100, depth);
        let order = flac_order(&buf);
        assert_eq!(order.bits, depth as usize);
        let back = load_flac(&bytes_of(save("flac", &buf))).ok().unwrap();
        assert_eq!(back.sample_rate, 44100);
        assert_eq!(back.channels, 2);
        assert_eq!(back.source_bit_depth, depth);
        let top = (1i32 << (depth - 1)) as f32;
        for (i, s) in back.samples.iter().enumerate() {
            assert_eq!(f32::from_bits(*s), order.codes[i] as f32 / top);
        }
    }
    // of other lengths the codes of every whole frame come back first
    for (frames, channels, rate) in [(1usize, 1u16, 1u32), (5000, 2, 48_000), (4097, 3, 70_001)] {
        let mut buf = tone(frames, channels, rate, 24);
        buf.samples.push(0x3f00_0000);
        let kept = buf.samples.len() / channels as usize * channels as usize;
        let codes = flac_order(&buf).codes;
        let back = load_flac(&bytes_of(save("flac", &buf))).ok().unwrap();
        assert_eq!((back.sample_rate, back.channels), (rate, channels));
        assert!(back.samples.len() >= kept);
        for i in 0..kept {
            assert_eq!(f32::from_bits(back.samples[i]), codes[i] as f32 / 8_388_608.0);
        }
    }
    assert!(matches!(load("flac", b"nonsense"), Err(LoadError::Flac(_))));
    assert!(matches!(save("flac", &tone(10, 9, 44100, 16)), Err(SaveError::Flac(_))));
}

#[test]
fn flac_codes() {
    let mut buf = tone(4, 1, 44100, 16);
    buf.samples = [1.0f32, -1.0, 0.5, f32::NAN].iter().map(|v| v.to_bits()).collect();
    assert_eq!(flac_order(&buf).codes, vec![32767, -32767, 16383, 0]);
    buf.source_bit_depth = 8;
    let o = flac_order(&buf);
    assert_eq!(o.bits, 24);
    assert_eq!(o.codes, vec![8388607, -8388607, (0.5f32 * 8388607.0) as i32, 0]);
}

#[test]
fn mp3_codes() {
    let mut buf = tone(3, 1, 44100, 16);
    buf.samples = [2.0f32, -2.0, 0.25].iter().map(|v| v.to_bits()).collect();
    let o = mp3_order(&buf);
    assert_eq!(o.codes, vec![32767, -32767, (0.25f32 * 32767.0) as i16]);
    assert!(o.mono);
    assert_eq!(o.channels, 1);
    assert_eq!(o.sample_rate, 44100);
    assert_eq!((o.bit_rate, o.quality), (Mp3Rate::Kbps320, Mp3Quality::Good));
    assert!(!mp3_order(&tone(1, 2, 44100, 16)).mono);
    // half a pair is left out
    let mut buf = tone(3, 2, 44100, 16);
    buf.samples.push(0x3f80_0000);
    assert_eq!(mp3_order(&buf).codes.len(), 6);
    assert!(save("mp3", &buf).is_ok());
}

#[test]
fn how_an_mp3_encoding_ends() {
    assert!(matches!(encode_mp3(&tone(10, 3, 44100, 16)), Mp3Outcome::Refused(_)));
    assert!(matches!(encode_mp3(&tone(10, 1, 0, 16)), Mp3Outcome::Refused(_)));
    // LAME has an encoder for every rate, however odd
    for rate in [1u32, 7, 96_001, 0x7fff_ffff, 0xffff_ffff] {
        let outcome = encode_mp3(&tone(10, 2, rate, 16));
        assert!(matches!(outcome, Mp3Outcome::Written(_) | Mp3Outcome::Failed(_)), "{rate}");
    }
    let Mp3Outcome::Written(bytes) = encode_mp3(&tone(44100, 1, 44100, 16)) else {
        panic!("not written");
    };
    // the header of a frame names the bit rate; the fourteenth of the table is 320 kbit/s
    let at = bytes.windows(2).position(|w| w == [0xff, 0xfb]).unwrap();
    assert_eq!(bytes[at + 2] >> 4, 14);
    assert!(matches!(mp3_saved(Mp3Outcome::Written(vec![1, 2])), Ok(Saved::Bytes(b)) if b == [1, 2]));
    assert!(matches!(mp3_saved(Mp3Outcome::NoBuilder), Err(SaveError::Mp3(t)) if t == "LAME builder failed"));
    for outcome in [Mp3Outcome::Refused("a".to_string()), Mp3Outcome::Failed("a".to_string())] {
        assert!(matches!(mp3_saved(outcome), Err(SaveError::Mp3(t)) if t == "a"));
    }
}

#[test]
fn mp3_saved_then_loaded() {
    let buf = tone(44100, 2, 44100, 16);
    let bytes = bytes_of(save("mp3", &buf));
    // 320 kbit/s for one second, give or take the first and the last frame
    assert!(bytes.len() > 38_000 && bytes.len() < 46_000, "{}", bytes.len());
    let back = audio_of(load("mp3", &bytes));
    assert_eq!(back.sample_rate, 44100);
    assert_eq!(back.channels, 2);
    assert_eq!(back.source_bit_depth, 16);
    assert!(back.frames() >= 44100);
    let loud = back.samples.iter().map(|s| f32::from_bits(*s).abs()).fold(0.0, f32::max);
    assert!(loud > 0.5 && loud < 0.9, "{loud}");
    assert!(matches!(save("mp3", &tone(10, 5, 44100, 16)), Err(SaveError::Mp3(_))));
}

#[test]
fn mp3_without_frames() {
    assert!(matches!(load_mp3(b""), Err(LoadError::NoFrames)));
    assert!(matches!(load_mp3(&[0u8; 100]), Err(LoadError::NoFrames)));
}

#[test]
fn mp3_frames_of_another_kind_are_left_out() {
    let mut m = Mp3Reading::new();
    m.take(&vec![32767, -32767], 44100, 2);
    m.take(&vec![1, 1], 48000, 2);
    m.take(&vec![1], 44100, 1);
    m.take(&vec![0, 16384], 44100, 2);
    let b = m.finish().ok().unwrap();
    let want: Vec<u32> =
        [32767i16, -32767, 0, 16384].iter().map(|v| (*v as f32 / 32767.0).to_bits()).collect();
    assert_eq!(b.samples, want);
    assert_eq!(b.sample_rate, 44100);
    assert_eq!(b.channels, 2);
    assert!(matches!(Mp3Reading::new().finish(), Err(LoadError::NoFrames)));
}

#[test]
fn buffer_lengths_and_mono() {
    let mut buf = tone(3, 2, 10, 16);
    buf.samples = [0.1f32, 0.3, -0.5, 0.5, 1.0, 0.0].iter().map(|v| v.to_bits()).collect();
    assert_eq!(buf.frames(), 3);
    assert_eq!(f32::from_bits(buf.duration_secs()), 0.3);
    let want: Vec<u32> =
        [(0.1f32 + 0.3) / 2.0, 0.0, 0.5].iter().map(|v: &f32| v.to_bits()).collect();
    assert_eq!(buf.to_mono(), want);
}

#[test]
fn trimmed_export() {
    let buf = tone(100, 2, 100, 16);
    assert_eq!(buf.trim_window_frames(None, None), None);
    let w = buf.trim_window_frames(Some(0.25f32.to_bits()), Some(0.5f32.to_bits()));
    assert_eq!(w, Some((25, 50)));
    let all = buf.samples.clone();
    let cut = buf.export_slice(w);
    assert_eq!(cut.samples, all[50..100].to_vec());
    assert_eq!(cut.sample_rate, 100);
    let whole = tone(100, 2, 100, 16).export_slice(None);
    assert_eq!(whole.samples, all);
}

#[test]
fn what_the_encoders_take() {
    for channels in 1u16..9 {
        assert!(save("flac", &tone(300, channels, 96_000, 24)).is_ok(), "{channels}");
    }
    assert!(save("flac", &tone(0, 2, 44100, 16)).is_ok());
    assert!(matches!(save("flac", &tone(10, 2, 96_001, 16)), Err(SaveError::Flac(_))));
    assert!(matches!(save("flac", &tone(10, 257, 44100, 16)), Err(SaveError::Flac(_))));
    assert!(matches!(save("mp3", &tone(10, 2, 0, 16)), Err(SaveError::Mp3(_))));
    assert!(matches!(save("mp3", &tone(10, 3, 44100, 16)), Err(SaveError::Mp3(_))));
}
