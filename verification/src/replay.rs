//! The replay record assembler: one linear pass over the buffer in the
//! fixed schema — header fields, the length-prefixed LZMA-compressed
//! frame block, then trailer fields.

use crate::error::DecodeError;
use crate::frames::{parse_frames, parse_frames_spec, FrameView, ReplayFrame};
use crate::mods::{ModFlag, ModFlags};
use crate::reader::{
    i16_of, i32_of, i64_of, sp_read_le, sp_read_tagged_str, BinaryReader,
};
use vstd::prelude::*;

verus! {

/// What the LZMA decoder produces for a compressed block: the
/// decompressed UTF-8 text, or nothing when the block is malformed or
/// does not decompress to UTF-8. A function of the block bytes alone;
/// named because the algorithm cannot reasonably be restated here.
pub uninterp spec fn lzma_text(b: Seq<u8>) -> Option<Seq<char>>;

/// Relies on xz2 (liblzma): `Stream::new_lzma_decoder` with an
/// unbounded memory limit and `XzDecoder::new_stream` decompress a
/// legacy-LZMA block, and `Read::read_to_string` collects it as UTF-8
/// text. Success or failure and the text depend on the bytes alone.
#[verifier::external_body]
fn decompress_lzma(data: &[u8]) -> (r: Result<String, DecodeError>)
    ensures
        match lzma_text(data@) {
            Some(t) => r matches Ok(s) && s@ == t,
            None => r == Err::<String, DecodeError>(DecodeError::Decompression),
        },
{
    let stream = match xz2::stream::Stream::new_lzma_decoder(u64::MAX) {
        Ok(s) => s,
        Err(_) => return Err(DecodeError::Decompression),
    };
    let mut decoder = xz2::read::XzDecoder::new_stream(data, stream);
    let mut text = String::new();
    match std::io::Read::read_to_string(&mut decoder, &mut text) {
        Ok(_) => Ok(text),
        Err(_) => Err(DecodeError::Decompression),
    }
}

/// The decoded replay record.
#[derive(Debug, PartialEq)]
pub struct Replay {
    /// Game mode identifier.
    pub mode: u8,
    /// Client version.
    pub osu_version: i32,
    /// Map content hash (tagged string).
    pub map_md5: String,
    /// Player name (tagged string).
    pub player_name: String,
    /// Replay content hash (tagged string).
    pub replay_md5: String,
    pub n300: i16,
    pub n100: i16,
    pub n50: i16,
    pub ngeki: i16,
    pub nkatu: i16,
    pub nmiss: i16,
    pub score: i32,
    pub max_combo: i16,
    /// True exactly when the perfect byte equals 1.
    pub perfect: bool,
    /// Gameplay modifier flags.
    pub mods: ModFlags,
    /// Raw, uninterpreted life-graph time series text.
    pub life_graph: String,
    /// Signed 64-bit timestamp.
    pub timestamp: i64,
    /// Ordered input samples, in stream order, sentinel excluded.
    pub frames: Vec<ReplayFrame>,
    /// Online score identifier.
    pub score_id: i64,
    /// The 64-bit trailer value read only when the target-practice
    /// flag is set, kept as the little-endian bit pattern of the
    /// 64-bit float it encodes.
    pub mod_extras: Option<u64>,
    /// Pseudo-random seed from the sentinel record, 0 when absent.
    pub seed: i32,
}

/// The mathematical view of a replay record.
#[verifier::ext_equal]
pub struct ReplayView {
    pub mode: u8,
    pub osu_version: i32,
    pub map_md5: Seq<char>,
    pub player_name: Seq<char>,
    pub replay_md5: Seq<char>,
    pub n300: i16,
    pub n100: i16,
    pub n50: i16,
    pub ngeki: i16,
    pub nkatu: i16,
    pub nmiss: i16,
    pub score: i32,
    pub max_combo: i16,
    pub perfect: bool,
    pub mods: ModFlags,
    pub life_graph: Seq<char>,
    pub timestamp: i64,
    pub frames: Seq<FrameView>,
    pub score_id: i64,
    pub mod_extras: Option<u64>,
    pub seed: i32,
}

impl View for Replay {
    type V = ReplayView;

    open spec fn view(&self) -> ReplayView {
        ReplayView {
            mode: self.mode,
            osu_version: self.osu_version,
            map_md5: self.map_md5@,
            player_name: self.player_name@,
            replay_md5: self.replay_md5@,
            n300: self.n300,
            n100: self.n100,
            n50: self.n50,
            ngeki: self.ngeki,
            nkatu: self.nkatu,
            nmiss: self.nmiss,
            score: self.score,
            max_combo: self.max_combo,
            perfect: self.perfect,
            mods: self.mods,
            life_graph: self.life_graph@,
            timestamp: self.timestamp,
            frames: self.frames@.map_values(|f: ReplayFrame| f@),
            score_id: self.score_id,
            mod_extras: self.mod_extras,
            seed: self.seed,
        }
    }
}

/// The whole decode up to and including the score identifier: the
/// record (trailer still unset) and the offset one past the score
/// identifier.
pub open spec fn sp_decode_pre(b: Seq<u8>) -> Result<(ReplayView, int), DecodeError> {
    match sp_read_le(b, 0, 1) {
        None => Err(DecodeError::Bounds),
        Some((mode, o1)) => match sp_read_le(b, o1, 4) {
            None => Err(DecodeError::Bounds),
            Some((ver, o2)) => match sp_read_tagged_str(b, o2) {
                None => Err(DecodeError::Bounds),
                Some((map_md5, o3)) => match sp_read_tagged_str(b, o3) {
                    None => Err(DecodeError::Bounds),
                    Some((player, o4)) => match sp_read_tagged_str(b, o4) {
                        None => Err(DecodeError::Bounds),
                        Some((replay_md5, o5)) => match sp_read_le(b, o5, 2) {
                            None => Err(DecodeError::Bounds),
                            Some((vn300, o6)) => match sp_read_le(b, o6, 2) {
                                None => Err(DecodeError::Bounds),
                                Some((vn100, o7)) => match sp_read_le(b, o7, 2) {
                                    None => Err(DecodeError::Bounds),
                                    Some((vn50, o8)) => match sp_read_le(b, o8, 2) {
                                        None => Err(DecodeError::Bounds),
                                        Some((vngeki, o9)) => match sp_read_le(b, o9, 2) {
                                            None => Err(DecodeError::Bounds),
                                            Some((vnkatu, o10)) => match sp_read_le(b, o10, 2) {
                                                None => Err(DecodeError::Bounds),
                                                Some((vnmiss, o11)) => sp_decode_mid(
                                                    b,
                                                    ReplayPrefix {
                                                        mode: mode as u8,
                                                        osu_version: i32_of(ver) as i32,
                                                        map_md5,
                                                        player_name: player,
                                                        replay_md5,
                                                        n300: i16_of(vn300) as i16,
                                                        n100: i16_of(vn100) as i16,
                                                        n50: i16_of(vn50) as i16,
                                                        ngeki: i16_of(vngeki) as i16,
                                                        nkatu: i16_of(vnkatu) as i16,
                                                        nmiss: i16_of(vnmiss) as i16,
                                                    },
                                                    o11,
                                                ),
                                            },
                                        },
                                    },
                                },
                            },
                        },
                    },
                },
            },
        },
    }
}

/// The header fields read before the score block, bundled so the spec
/// decoder can be stated in readable stages.
pub struct ReplayPrefix {
    pub mode: u8,
    pub osu_version: i32,
    pub map_md5: Seq<char>,
    pub player_name: Seq<char>,
    pub replay_md5: Seq<char>,
    pub n300: i16,
    pub n100: i16,
    pub n50: i16,
    pub ngeki: i16,
    pub nkatu: i16,
    pub nmiss: i16,
}

/// Continues the decode from the score field: score block, mod flags,
/// life graph, timestamp, compressed frame block, score identifier.
pub open spec fn sp_decode_mid(b: Seq<u8>, h: ReplayPrefix, o11: int) -> Result<
    (ReplayView, int),
    DecodeError,
> {
    match sp_read_le(b, o11, 4) {
        None => Err(DecodeError::Bounds),
        Some((vscore, o12)) => match sp_read_le(b, o12, 2) {
            None => Err(DecodeError::Bounds),
            Some((vcombo, o13)) => match sp_read_le(b, o13, 1) {
                None => Err(DecodeError::Bounds),
                Some((vperfect, o14)) => match sp_read_le(b, o14, 4) {
                    None => Err(DecodeError::Bounds),
                    Some((vmods, o15)) => match sp_read_tagged_str(b, o15) {
                        None => Err(DecodeError::Bounds),
                        Some((life, o16)) => match sp_read_le(b, o16, 8) {
                            None => Err(DecodeError::Bounds),
                            Some((vts, o17)) => match sp_read_le(b, o17, 4) {
                                None => Err(DecodeError::Bounds),
                                Some((vlen, o18)) => if i32_of(vlen) < 0 || o18 + i32_of(vlen)
                                    > b.len() {
                                    Err(DecodeError::Bounds)
                                } else {
                                    let o19 = o18 + i32_of(vlen);
                                    match lzma_text(b.subrange(o18, o19)) {
                                        None => Err(DecodeError::Decompression),
                                        Some(text) => match parse_frames_spec(text) {
                                            Err(e) => Err(e),
                                            Ok(p) => match sp_read_le(b, o19, 8) {
                                                None => Err(DecodeError::Bounds),
                                                Some((vsid, o20)) => Ok(
                                                    (
                                                        ReplayView {
                                                            mode: h.mode,
                                                            osu_version: h.osu_version,
                                                            map_md5: h.map_md5,
                                                            player_name: h.player_name,
                                                            replay_md5: h.replay_md5,
                                                            n300: h.n300,
                                                            n100: h.n100,
                                                            n50: h.n50,
                                                            ngeki: h.ngeki,
                                                            nkatu: h.nkatu,
                                                            nmiss: h.nmiss,
                                                            score: i32_of(vscore) as i32,
                                                            max_combo: i16_of(vcombo) as i16,
                                                            perfect: vperfect == 1,
                                                            mods: ModFlags {
                                                                bits: vmods as u32,
                                                            },
                                                            life_graph: life,
                                                            timestamp: i64_of(vts) as i64,
                                                            frames: p.0,
                                                            score_id: i64_of(vsid) as i64,
                                                            mod_extras: None,
                                                            seed: p.1,
                                                        },
                                                        o20,
                                                    ),
                                                ),
                                            },
                                        },
                                    }
                                },
                            },
                        },
                    },
                },
            },
        },
    }
}

/// The full decode: the prefix through the score identifier, then the
/// conditional trailer — eight more bytes exactly when the
/// target-practice flag is set, nothing otherwise.
pub open spec fn sp_decode(b: Seq<u8>) -> Result<(ReplayView, int), DecodeError> {
    match sp_decode_pre(b) {
        Err(e) => Err(e),
        Ok(p) => if p.0.mods.spec_has(ModFlag::TargetPractice) {
            match sp_read_le(b, p.1, 8) {
                None => Err(DecodeError::Bounds),
                Some((x, o)) => Ok(
                    (ReplayView { mod_extras: Some(x as u64), ..p.0 }, o),
                ),
            }
        } else {
            Ok(p)
        },
    }
}

impl Replay {
    /// Decodes a complete replay record from an owned byte buffer in
    /// one linear pass. Exactly the buffers `sp_decode` accepts
    /// decode; every structural violation yields that spec's error.
    #[verifier::rlimit(100)]
    #[verifier::spinoff_prover]
    pub fn from_data(data: Vec<u8>) -> (r: Result<Replay, DecodeError>)
        ensures
            match sp_decode(data@) {
                Ok(p) => r matches Ok(rep) && rep@ == p.0,
                Err(e) => r == Err::<Replay, DecodeError>(e),
            },
    {
        let mut reader = BinaryReader::new(data);
        let mode = match reader.read_u8() {
            Ok(v) => v,
            Err(e) => return Err(e),
        };
        let osu_version = match reader.read_i32() {
            Ok(v) => v,
            Err(e) => return Err(e),
        };
        let map_md5 = match reader.read_str_uleb128() {
            Ok(v) => v,
            Err(e) => return Err(e),
        };
        let player_name = match reader.read_str_uleb128() {
            Ok(v) => v,
            Err(e) => return Err(e),
        };
        let replay_md5 = match reader.read_str_uleb128() {
            Ok(v) => v,
            Err(e) => return Err(e),
        };
        let n300 = match reader.read_i16() {
            Ok(v) => v,
            Err(e) => return Err(e),
        };
        let n100 = match reader.read_i16() {
            Ok(v) => v,
            Err(e) => return Err(e),
        };
        let n50 = match reader.read_i16() {
            Ok(v) => v,
            Err(e) => return Err(e),
        };
        let ngeki = match reader.read_i16() {
            Ok(v) => v,
            Err(e) => return Err(e),
        };
        let nkatu = match reader.read_i16() {
            Ok(v) => v,
            Err(e) => return Err(e),
        };
        let nmiss = match reader.read_i16() {
            Ok(v) => v,
            Err(e) => return Err(e),
        };
        let score = match reader.read_i32() {
            Ok(v) => v,
            Err(e) => return Err(e),
        };
        let max_combo = match reader.read_i16() {
            Ok(v) => v,
            Err(e) => return Err(e),
        };
        let perfect_byte = match reader.read_u8() {
            Ok(v) => v,
            Err(e) => return Err(e),
        };
        let mod_bits = match reader.read_u32() {
            Ok(v) => v,
            Err(e) => return Err(e),
        };
        let mods = ModFlags::from_bits(mod_bits);
        let life_graph = match reader.read_str_uleb128() {
            Ok(v) => v,
            Err(e) => return Err(e),
        };
        let timestamp = match reader.read_i64() {
            Ok(v) => v,
            Err(e) => return Err(e),
        };
        let lzma_len = match reader.read_i32() {
            Ok(v) => v,
            Err(e) => return Err(e),
        };
        if lzma_len < 0 {
            return Err(DecodeError::Bounds);
        }
        let block = match reader.read(lzma_len as usize) {
            Ok(v) => v,
            Err(e) => return Err(e),
        };
        let text = match decompress_lzma(block.as_slice()) {
            Ok(t) => t,
            Err(e) => return Err(e),
        };
        let parsed = match parse_frames(text.as_str()) {
            Ok(p) => p,
            Err(e) => return Err(e),
        };
        let (frames, seed) = parsed;
        let score_id = match reader.read_i64() {
            Ok(v) => v,
            Err(e) => return Err(e),
        };
        let mod_extras: Option<u64> = if mods.contains(ModFlag::TargetPractice) {
            match reader.read_u64() {
                Ok(v) => Some(v),
                Err(e) => return Err(e),
            }
        } else {
            None
        };
        let rep = Replay {
            mode,
            osu_version,
            map_md5,
            player_name,
            replay_md5,
            n300,
            n100,
            n50,
            ngeki,
            nkatu,
            nmiss,
            score,
            max_combo,
            perfect: perfect_byte == 1,
            mods,
            life_graph,
            timestamp,
            frames,
            score_id,
            mod_extras,
            seed,
        };
        proof {
            match sp_decode(data@) {
                Ok(p) => {
                    assert(rep@ =~= p.0);
                },
                Err(_) => {},
            }
        }
        Ok(rep)
    }
}

/// Conditional trailer: when the decode through the score identifier
/// succeeds, a record without the target-practice flag consumes
/// exactly those bytes and keeps its trailer unset, while one with the
/// flag consumes exactly eight more — or fails with a bounds error
/// when fewer than eight remain.
pub proof fn lemma_conditional_trailer(b: Seq<u8>)
    ensures
        match sp_decode_pre(b) {
            Ok(p) => {
                &&& !p.0.mods.spec_has(ModFlag::TargetPractice) ==> sp_decode(b) == Ok::<
                    (ReplayView, int),
                    DecodeError,
                >(p)
                &&& p.0.mods.spec_has(ModFlag::TargetPractice) && p.1 + 8 <= b.len()
                    ==> (sp_decode(b) matches Ok(q) && q.1 == p.1 + 8 && q.0.mod_extras is Some)
                &&& p.0.mods.spec_has(ModFlag::TargetPractice) && p.1 + 8 > b.len() ==> sp_decode(
                    b,
                ) == Err::<(ReplayView, int), DecodeError>(DecodeError::Bounds)
            },
            Err(e) => sp_decode(b) == Err::<(ReplayView, int), DecodeError>(e),
        },
{
}


} // verus!
