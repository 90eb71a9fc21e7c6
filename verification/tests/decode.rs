//! End-to-end decode tests over hand-built replay buffers.

use osr_replay::error::DecodeError;
use osr_replay::mods::{ModFlag, ModFlags};
use osr_replay::reader::{encode_tagged_string, encode_uleb128, BinaryReader};
use osr_replay::replay::Replay;

/// Compresses text into a legacy-LZMA block as the format embeds it.
fn lzma_compress(text: &str) -> Vec<u8> {
    let opts = xz2::stream::LzmaOptions::new_preset(6).unwrap();
    let stream = xz2::stream::Stream::new_lzma_encoder(&opts).unwrap();
    let mut enc = xz2::read::XzEncoder::new_stream(text.as_bytes(), stream);
    let mut out = Vec::new();
    std::io::Read::read_to_end(&mut enc, &mut out).unwrap();
    out
}

/// Builds a replay buffer: fixed header, the compressed frame text,
/// score id, and (optionally) the 8-byte trailer.
fn build_replay(mods: u32, frame_text: &str, trailer: Option<[u8; 8]>) -> Vec<u8> {
    let mut buf = Vec::new();
    buf.push(0u8); // mode
    buf.extend_from_slice(&1i32.to_le_bytes()); // version
    buf.push(0u8); // map hash: absent tagged string
    buf.push(0u8); // player name: absent
    buf.push(0u8); // replay hash: absent
    for _ in 0..6 {
        buf.extend_from_slice(&0i16.to_le_bytes()); // hit counts
    }
    buf.extend_from_slice(&0i32.to_le_bytes()); // score
    buf.extend_from_slice(&0i16.to_le_bytes()); // max combo
    buf.push(0u8); // perfect
    buf.extend_from_slice(&mods.to_le_bytes()); // mod flags
    buf.push(0u8); // life graph: absent
    buf.extend_from_slice(&0i64.to_le_bytes()); // timestamp
    let block = lzma_compress(frame_text);
    buf.extend_from_slice(&(block.len() as i32).to_le_bytes());
    buf.extend_from_slice(&block);
    buf.extend_from_slice(&0i64.to_le_bytes()); // score id
    if let Some(t) = trailer {
        buf.extend_from_slice(&t);
    }
    buf
}

#[test]
fn minimal_buffer_decodes_empty() {
    // End-to-end: empty-but-valid compressed block holding one separator.
    let buf = build_replay(0, ",", None);
    let rep = Replay::from_data(buf).unwrap();
    assert_eq!(rep.mode, 0);
    assert_eq!(rep.osu_version, 1);
    assert_eq!(rep.map_md5, "");
    assert_eq!(rep.player_name, "");
    assert_eq!(rep.frames.len(), 0);
    assert_eq!(rep.seed, 0);
    assert_eq!(rep.mod_extras, None);
}

#[test]
fn decode_is_deterministic() {
    let buf = build_replay(8, "1|2.5|3.25|4,-12345|0|0|77,", None);
    let a = Replay::from_data(buf.clone()).unwrap();
    let b = Replay::from_data(buf).unwrap();
    assert_eq!(a, b);
}

#[test]
fn sentinel_record_sets_seed_and_is_excluded() {
    let buf = build_replay(0, "1|2.5|3|4,7|0.5|1.5|8,-12345|0|0|1234,", None);
    let rep = Replay::from_data(buf).unwrap();
    assert_eq!(rep.seed, 1234);
    assert_eq!(rep.frames.len(), 2);
    assert_eq!(rep.frames[0].delta, 1);
    assert_eq!(rep.frames[0].x, "2.5");
    assert_eq!(rep.frames[0].y, "3");
    assert_eq!(rep.frames[0].keys, 4);
    assert_eq!(rep.frames[1].delta, 7);
    assert_eq!(rep.frames[1].keys, 8);
}

#[test]
fn trailer_read_only_with_target_practice() {
    let target = 1u32 << 23;
    // Without the flag: no extra bytes needed, none consumed.
    let rep = Replay::from_data(build_replay(0, ",", None)).unwrap();
    assert_eq!(rep.mod_extras, None);
    // With the flag: exactly 8 extra bytes are read.
    let bits = 2.5f64.to_le_bytes();
    let rep = Replay::from_data(build_replay(target, ",", Some(bits))).unwrap();
    assert_eq!(rep.mod_extras, Some(u64::from_le_bytes(bits)));
    // With the flag but only 7 extra bytes: bounds error.
    let mut buf = build_replay(target, ",", None);
    buf.extend_from_slice(&[0u8; 7]);
    assert_eq!(Replay::from_data(buf), Err(DecodeError::Bounds));
}

#[test]
fn truncated_buffer_fails_with_bounds() {
    let full = build_replay(0, "1|2|3|4,", None);
    // Cut mid-field at several depths: always a bounds error.
    for cut in [0, 3, 10, 20, full.len() - 1] {
        let buf = full[..cut].to_vec();
        assert_eq!(Replay::from_data(buf), Err(DecodeError::Bounds));
    }
}

#[test]
fn malformed_record_is_parse_error() {
    for text in ["1|2|3,", "1|2|3|4|5,", "a|0|0|0,", "1|x|0|0,", "1|0|0|9999999999,"] {
        let buf = build_replay(0, text, None);
        assert_eq!(Replay::from_data(buf), Err(DecodeError::FrameParse));
    }
}

#[test]
fn corrupt_block_is_decompression_error() {
    let mut buf = build_replay(0, ",", None);
    // Corrupt a byte in the middle of the compressed block.
    let idx = buf.len() - 12;
    buf[idx] ^= 0xff;
    let r = Replay::from_data(buf);
    assert!(r == Err(DecodeError::Decompression) || r == Err(DecodeError::FrameParse));
}

#[test]
fn negative_block_length_is_bounds_error() {
    let mut buf = Vec::new();
    buf.push(0u8);
    buf.extend_from_slice(&1i32.to_le_bytes());
    buf.push(0u8);
    buf.push(0u8);
    buf.push(0u8);
    for _ in 0..6 {
        buf.extend_from_slice(&0i16.to_le_bytes());
    }
    buf.extend_from_slice(&0i32.to_le_bytes());
    buf.extend_from_slice(&0i16.to_le_bytes());
    buf.push(0u8);
    buf.extend_from_slice(&0u32.to_le_bytes());
    buf.push(0u8);
    buf.extend_from_slice(&0i64.to_le_bytes());
    buf.extend_from_slice(&(-5i32).to_le_bytes());
    assert_eq!(Replay::from_data(buf), Err(DecodeError::Bounds));
}

#[test]
fn header_fields_decode_little_endian() {
    let mut buf = Vec::new();
    buf.push(3u8); // mode
    buf.extend_from_slice(&0x12345678i32.to_le_bytes());
    let mut v = encode_tagged_string("abc");
    buf.append(&mut v);
    let mut v = encode_tagged_string("player \u{00e9}");
    buf.append(&mut v);
    buf.push(7u8); // replay hash: absent (non-0x0b presence byte)
    for n in [300i16, 100, 50, -1, 2, 3] {
        buf.extend_from_slice(&n.to_le_bytes());
    }
    buf.extend_from_slice(&(-123456i32).to_le_bytes()); // score
    buf.extend_from_slice(&999i16.to_le_bytes()); // max combo
    buf.push(1u8); // perfect
    buf.extend_from_slice(&9u32.to_le_bytes()); // mods: NoFail | Hidden
    let mut v = encode_tagged_string("0|1.0,5|0.5");
    buf.append(&mut v);
    buf.extend_from_slice(&(-7i64).to_le_bytes()); // timestamp
    let block = lzma_compress(",");
    buf.extend_from_slice(&(block.len() as i32).to_le_bytes());
    buf.extend_from_slice(&block);
    buf.extend_from_slice(&42i64.to_le_bytes()); // score id
    let rep = Replay::from_data(buf).unwrap();
    assert_eq!(rep.mode, 3);
    assert_eq!(rep.osu_version, 0x12345678);
    assert_eq!(rep.map_md5, "abc");
    assert_eq!(rep.player_name, "player \u{00e9}");
    assert_eq!(rep.replay_md5, "");
    assert_eq!(rep.n300, 300);
    assert_eq!(rep.ngeki, -1);
    assert_eq!(rep.score, -123456);
    assert_eq!(rep.max_combo, 999);
    assert!(rep.perfect);
    assert!(rep.mods.contains(ModFlag::NoFail));
    assert!(rep.mods.contains(ModFlag::Hidden));
    assert!(!rep.mods.contains(ModFlag::HardRock));
    assert_eq!(rep.life_graph, "0|1.0,5|0.5");
    assert_eq!(rep.timestamp, -7);
    assert_eq!(rep.score_id, 42);
}

#[test]
fn mod_flag_sets_combine() {
    let a = ModFlags::from_bits(ModFlag::Hidden.bit());
    let b = ModFlags::from_bits(ModFlag::DoubleTime.bit());
    let u = a.union(b);
    assert!(u.contains(ModFlag::Hidden));
    assert!(u.contains(ModFlag::DoubleTime));
    assert!(!u.contains(ModFlag::NoFail));
    assert!(!ModFlags::none().contains(ModFlag::Hidden));
    assert_eq!(ModFlag::TargetPractice.bit(), 1 << 23);
}

#[test]
fn uleb128_round_trips() {
    for n in [0u64, 1, 127, 128, 624485, (1 << 35) - 1, u64::MAX] {
        let enc = encode_uleb128(n);
        let mut data = enc.clone();
        data.push(0x55); // trailing byte must be left unread
        let mut r = BinaryReader::new(data);
        assert_eq!(r.read_uleb128().unwrap(), n);
        assert_eq!(r.read_u8().unwrap(), 0x55);
    }
    assert_eq!(encode_uleb128(624485), vec![0xe5, 0x8e, 0x26]);
}

#[test]
fn tagged_string_round_trips() {
    for s in ["", "hello", "h\u{00e9}llo w\u{00f6}rld", "\u{65e5}\u{672c}"] {
        let mut data = encode_tagged_string(s);
        data.push(0x99);
        let mut r = BinaryReader::new(data);
        assert_eq!(r.read_str_uleb128().unwrap(), s);
        assert_eq!(r.read_u8().unwrap(), 0x99);
    }
}

#[test]
fn absent_tagged_string_consumes_one_byte() {
    let mut r = BinaryReader::new(vec![0x00, 0x41]);
    assert_eq!(r.read_str_uleb128().unwrap(), "");
    assert_eq!(r.read_u8().unwrap(), 0x41);
}

#[test]
fn invalid_utf8_decodes_lossily() {
    let mut r = BinaryReader::new(vec![0x0b, 0x03, 0x61, 0xff, 0x62]);
    assert_eq!(r.read_str_uleb128().unwrap(), "a\u{fffd}b");
}

#[test]
fn fixed_width_reads_are_little_endian() {
    let mut r = BinaryReader::new(vec![
        0xff, 0xff, // i16 -1
        0x78, 0x56, 0x34, 0x12, // u32 0x12345678
        0x00, 0x00, 0x00, 0x80, // i32 i32::MIN
        0xff, 0xff, 0xff, 0xff, 0xff, 0xff, 0xff, 0x7f, // i64 MAX
    ]);
    assert_eq!(r.read_i16().unwrap(), -1);
    assert_eq!(r.read_u32().unwrap(), 0x12345678);
    assert_eq!(r.read_i32().unwrap(), i32::MIN);
    assert_eq!(r.read_i64().unwrap(), i64::MAX);
    assert!(r.read_u8().is_err());

    let mut r = BinaryReader::new(vec![0xff; 16]);
    assert_eq!(r.read_i128().unwrap(), -1);
    let mut r = BinaryReader::new(vec![0xff; 16]);
    assert_eq!(r.read_u128().unwrap(), u128::MAX);
    let mut r = BinaryReader::new(vec![1, 0]);
    assert_eq!(r.read_u16().unwrap(), 1);
    let mut r = BinaryReader::new(vec![1]);
    assert!(r.read_u16().is_err());
}

#[test]
fn reader_read_returns_exact_bytes() {
    let mut r = BinaryReader::new(vec![1, 2, 3, 4, 5]);
    assert_eq!(r.read(3).unwrap(), vec![1, 2, 3]);
    assert!(r.read(3).is_err());
    assert_eq!(r.read(2).unwrap(), vec![4, 5]);
}

#[test]
fn float_fields_follow_rust_float_grammar() {
    // Accepted float texts decode; rejected ones are parse errors.
    for ok in ["1.", ".5", "1e3", "-2.5E-4", "inf", "Infinity", "NaN", "+3"] {
        let text = format!("1|{}|0|2,", ok);
        assert!(Replay::from_data(build_replay(0, &text, None)).is_ok(), "{}", ok);
    }
    for bad in [".", "1e", "--1", "1.2.3", "e5", "in", "nan7"] {
        let text = format!("1|{}|0|2,", bad);
        assert_eq!(
            Replay::from_data(build_replay(0, &text, None)),
            Err(DecodeError::FrameParse),
            "{}",
            bad
        );
    }
}
