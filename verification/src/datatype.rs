//! The extended SHD-CCP wire format: a 12-byte header naming the payload's
//! type, then a type-specific payload.
//!
//! ```text
//! Header  : [4] magic = "SHD1"
//!           [1] version = 2
//!           [1] type tag
//!           [2] reserved (zero)
//!           [4] payload length (u32 LE)
//! Payload : type-specific bytes
//! ```

use vstd::prelude::*;
use crate::text::{hex2_string, dec_string, push_hex2, push_decimal, push_str};
use crate::wire::{le32, read32, put_u32, get_u32, lemma_le32_roundtrip};
use crate::shd_ccp::low32;

verus! {

/// The type of the payload of a frame.
#[derive(Debug, Clone, Copy, PartialEq, Eq, Structural)]
pub enum TypeTag {
    SpikeStream,
    StateArena,
    WeightMatrix,
    ShdSample,
    ArcGrid,
    HyperbolicPoint,
    Quaternion,
    DvsEventBatch,
    AvalancheMetrics,
    LexiconToken,
    ShdCcpSparse,
    MoAIndex,
    SwarmConfig,
    PoincareBall,
    DvsEncoderConfig,
    ConversationTurn,
}

/// The byte of a type tag: 0x01 through 0x10 in declaration order.
pub open spec fn tag_byte(t: TypeTag) -> u8 {
    match t {
        TypeTag::SpikeStream => 0x01,
        TypeTag::StateArena => 0x02,
        TypeTag::WeightMatrix => 0x03,
        TypeTag::ShdSample => 0x04,
        TypeTag::ArcGrid => 0x05,
        TypeTag::HyperbolicPoint => 0x06,
        TypeTag::Quaternion => 0x07,
        TypeTag::DvsEventBatch => 0x08,
        TypeTag::AvalancheMetrics => 0x09,
        TypeTag::LexiconToken => 0x0A,
        TypeTag::ShdCcpSparse => 0x0B,
        TypeTag::MoAIndex => 0x0C,
        TypeTag::SwarmConfig => 0x0D,
        TypeTag::PoincareBall => 0x0E,
        TypeTag::DvsEncoderConfig => 0x0F,
        TypeTag::ConversationTurn => 0x10,
    }
}

/// The type tag of a byte, if it names one.
pub open spec fn tag_of_byte(b: u8) -> Option<TypeTag> {
    if b == 0x01 { Some(TypeTag::SpikeStream) }
    else if b == 0x02 { Some(TypeTag::StateArena) }
    else if b == 0x03 { Some(TypeTag::WeightMatrix) }
    else if b == 0x04 { Some(TypeTag::ShdSample) }
    else if b == 0x05 { Some(TypeTag::ArcGrid) }
    else if b == 0x06 { Some(TypeTag::HyperbolicPoint) }
    else if b == 0x07 { Some(TypeTag::Quaternion) }
    else if b == 0x08 { Some(TypeTag::DvsEventBatch) }
    else if b == 0x09 { Some(TypeTag::AvalancheMetrics) }
    else if b == 0x0A { Some(TypeTag::LexiconToken) }
    else if b == 0x0B { Some(TypeTag::ShdCcpSparse) }
    else if b == 0x0C { Some(TypeTag::MoAIndex) }
    else if b == 0x0D { Some(TypeTag::SwarmConfig) }
    else if b == 0x0E { Some(TypeTag::PoincareBall) }
    else if b == 0x0F { Some(TypeTag::DvsEncoderConfig) }
    else if b == 0x10 { Some(TypeTag::ConversationTurn) }
    else { None }
}

/// The display name of a type tag.
pub open spec fn tag_name(t: TypeTag) -> Seq<char> {
    match t {
        TypeTag::SpikeStream => "SpikeStream"@,
        TypeTag::StateArena => "StateArena"@,
        TypeTag::WeightMatrix => "WeightMatrix"@,
        TypeTag::ShdSample => "ShdSample"@,
        TypeTag::ArcGrid => "ArcGrid"@,
        TypeTag::HyperbolicPoint => "HyperbolicPoint"@,
        TypeTag::Quaternion => "Quaternion"@,
        TypeTag::DvsEventBatch => "DvsEventBatch"@,
        TypeTag::AvalancheMetrics => "AvalancheMetrics"@,
        TypeTag::LexiconToken => "LexiconToken"@,
        TypeTag::ShdCcpSparse => "SHDCCP"@,
        TypeTag::MoAIndex => "MoAIndex"@,
        TypeTag::SwarmConfig => "SwarmConfig"@,
        TypeTag::PoincareBall => "PoincareBall"@,
        TypeTag::DvsEncoderConfig => "DvsEncoderConfig"@,
        TypeTag::ConversationTurn => "ConversationTurn"@,
    }
}

/// The text of the error for a byte that names no type tag.
pub open spec fn unknown_tag_text(b: u8) -> Seq<char> {
    "Unknown type tag: 0x"@ + hex2_string(b)
}

impl TypeTag {
    /// The byte of this tag.
    pub fn as_byte(&self) -> (b: u8)
        ensures
            b == tag_byte(*self),
    {
        match self {
            TypeTag::SpikeStream => 0x01,
            TypeTag::StateArena => 0x02,
            TypeTag::WeightMatrix => 0x03,
            TypeTag::ShdSample => 0x04,
            TypeTag::ArcGrid => 0x05,
            TypeTag::HyperbolicPoint => 0x06,
            TypeTag::Quaternion => 0x07,
            TypeTag::DvsEventBatch => 0x08,
            TypeTag::AvalancheMetrics => 0x09,
            TypeTag::LexiconToken => 0x0A,
            TypeTag::ShdCcpSparse => 0x0B,
            TypeTag::MoAIndex => 0x0C,
            TypeTag::SwarmConfig => 0x0D,
            TypeTag::PoincareBall => 0x0E,
            TypeTag::DvsEncoderConfig => 0x0F,
            TypeTag::ConversationTurn => 0x10,
        }
    }

    /// The tag a byte names, if any.
    pub fn from_byte(b: u8) -> (r: Option<TypeTag>)
        ensures
            r == tag_of_byte(b),
    {
        match b {
            0x01 => Some(TypeTag::SpikeStream),
            0x02 => Some(TypeTag::StateArena),
            0x03 => Some(TypeTag::WeightMatrix),
            0x04 => Some(TypeTag::ShdSample),
            0x05 => Some(TypeTag::ArcGrid),
            0x06 => Some(TypeTag::HyperbolicPoint),
            0x07 => Some(TypeTag::Quaternion),
            0x08 => Some(TypeTag::DvsEventBatch),
            0x09 => Some(TypeTag::AvalancheMetrics),
            0x0A => Some(TypeTag::LexiconToken),
            0x0B => Some(TypeTag::ShdCcpSparse),
            0x0C => Some(TypeTag::MoAIndex),
            0x0D => Some(TypeTag::SwarmConfig),
            0x0E => Some(TypeTag::PoincareBall),
            0x0F => Some(TypeTag::DvsEncoderConfig),
            0x10 => Some(TypeTag::ConversationTurn),
            _ => None,
        }
    }

    /// The tag a byte names, or the error text naming the byte in hex.
    pub fn try_from_byte(value: u8) -> (r: Result<TypeTag, String>)
        ensures
            r matches Ok(t) ==> tag_of_byte(value) == Some(t),
            r matches Err(e) ==> tag_of_byte(value) is None && e@ == unknown_tag_text(value),
            r is Ok <==> tag_of_byte(value) is Some,
    {
        match TypeTag::from_byte(value) {
            Some(t) => Ok(t),
            None => {
                let mut s = String::new();
                push_str(&mut s, "Unknown type tag: 0x");
                push_hex2(&mut s, value);
                Err(s)
            },
        }
    }
}

impl TryFrom<u8> for TypeTag {
    type Error = String;

    /// The tag a byte names, or the error text naming the byte in hex.
    fn try_from(value: u8) -> (r: Result<TypeTag, String>)
        ensures
            r matches Ok(t) ==> tag_of_byte(value) == Some(t),
            r matches Err(e) ==> tag_of_byte(value) is None && e@ == unknown_tag_text(value),
            r is Ok <==> tag_of_byte(value) is Some,
    {
        TypeTag::try_from_byte(value)
    }
}

impl vstd::std_specs::convert::TryFromSpecImpl<u8> for TypeTag {
    /// Callers go by the `ensures` of `try_from` above, which names the
    /// error text; no spec value of a `String` is written here.
    open spec fn obeys_try_from_spec() -> bool {
        false
    }

    open spec fn try_from_spec(v: u8) -> Result<TypeTag, String> {
        match tag_of_byte(v) {
            Some(t) => Ok(t),
            None => Err(vstd::pervasive::arbitrary()),
        }
    }
}

/// The display name of a type tag.
pub fn type_tag_name(tag: TypeTag) -> (s: &'static str)
    ensures
        s@ == tag_name(tag),
{
    match tag {
        TypeTag::SpikeStream => "SpikeStream",
        TypeTag::StateArena => "StateArena",
        TypeTag::WeightMatrix => "WeightMatrix",
        TypeTag::ShdSample => "ShdSample",
        TypeTag::ArcGrid => "ArcGrid",
        TypeTag::HyperbolicPoint => "HyperbolicPoint",
        TypeTag::Quaternion => "Quaternion",
        TypeTag::DvsEventBatch => "DvsEventBatch",
        TypeTag::AvalancheMetrics => "AvalancheMetrics",
        TypeTag::LexiconToken => "LexiconToken",
        TypeTag::ShdCcpSparse => "SHDCCP",
        TypeTag::MoAIndex => "MoAIndex",
        TypeTag::SwarmConfig => "SwarmConfig",
        TypeTag::PoincareBall => "PoincareBall",
        TypeTag::DvsEncoderConfig => "DvsEncoderConfig",
        TypeTag::ConversationTurn => "ConversationTurn",
    }
}

/// Every tag survives the trip to a byte and back, and every byte that
/// names a tag is that tag's byte.
pub proof fn lemma_tag_roundtrip(t: TypeTag, b: u8)
    ensures
        tag_of_byte(tag_byte(t)) == Some(t),
        tag_of_byte(b) matches Some(u) ==> tag_byte(u) == b,
        tag_of_byte(b) is Some <==> 0x01 <= b <= 0x10,
{
}

/// The version byte of the format.
pub const SHD1_VERSION: u8 = 2;

/// The magic bytes `"SHD1"`.
pub open spec fn shd1_magic() -> Seq<u8> {
    seq![0x53u8, 0x48u8, 0x44u8, 0x31u8]
}

/// The 12 header bytes for a payload of the given type and length.
pub open spec fn header_bytes(tag: TypeTag, payload_len: int) -> Seq<u8> {
    shd1_magic() + seq![SHD1_VERSION, tag_byte(tag), 0u8, 0u8] + le32(payload_len)
}

/// A frame: the header, its length field the payload length modulo 2^32,
/// followed by the payload.
pub open spec fn frame_bytes(tag: TypeTag, payload: Seq<u8>) -> Seq<u8> {
    header_bytes(tag, (payload.len() as int) % 0x1_0000_0000) + payload
}

/// Why a frame could not be read.
#[derive(Debug, Clone, Copy, PartialEq, Eq, Structural)]
pub enum FrameError {
    /// Fewer than 12 bytes.
    TooShort,
    /// The first four bytes are not `"SHD1"`.
    BadMagic,
    /// The version byte is not 2; it carries the byte.
    BadVersion(u8),
    /// The type byte names no tag; it carries the byte.
    UnknownTag(u8),
    /// Fewer payload bytes than the header announces.
    Truncated,
}

/// The message of a frame error.
pub open spec fn frame_error_text(e: FrameError) -> Seq<char> {
    match e {
        FrameError::TooShort => "Buffer too short for SHD-CCP header"@,
        FrameError::BadMagic => "Invalid magic bytes (expected SHD1)"@,
        FrameError::BadVersion(v) => "Unsupported version: "@ + dec_string(v as nat),
        FrameError::UnknownTag(b) => unknown_tag_text(b),
        FrameError::Truncated => "Payload truncated"@,
    }
}

impl FrameError {
    /// The message of this error.
    pub fn message(&self) -> (s: String)
        ensures
            s@ == frame_error_text(*self),
    {
        let mut s = String::new();
        match self {
            FrameError::TooShort => push_str(&mut s, "Buffer too short for SHD-CCP header"),
            FrameError::BadMagic => push_str(&mut s, "Invalid magic bytes (expected SHD1)"),
            FrameError::BadVersion(v) => {
                push_str(&mut s, "Unsupported version: ");
                push_decimal(&mut s, *v as usize);
            },
            FrameError::UnknownTag(b) => {
                push_str(&mut s, "Unknown type tag: 0x");
                push_hex2(&mut s, *b);
            },
            FrameError::Truncated => push_str(&mut s, "Payload truncated"),
        }
        s
    }
}

/// What reading a frame gives: the first failed check in the order length,
/// magic, version, type, payload length; otherwise the type and the announced
/// number of payload bytes (any bytes after them are ignored).
pub open spec fn frame_result(buf: Seq<u8>) -> Result<(TypeTag, Seq<u8>), FrameError> {
    if buf.len() < 12 {
        Err(FrameError::TooShort)
    } else if buf.subrange(0, 4) != shd1_magic() {
        Err(FrameError::BadMagic)
    } else if buf[4] != SHD1_VERSION {
        Err(FrameError::BadVersion(buf[4]))
    } else if tag_of_byte(buf[5]) is None {
        Err(FrameError::UnknownTag(buf[5]))
    } else if buf.len() - 12 < read32(buf, 8) {
        Err(FrameError::Truncated)
    } else {
        Ok((tag_of_byte(buf[5]).unwrap(), buf.subrange(12, 12 + read32(buf, 8))))
    }
}

/// Frames a payload.
pub fn encode_frame(tag: TypeTag, payload: &[u8]) -> (out: Vec<u8>)
    ensures
        out@ == frame_bytes(tag, payload@),
{
    let mut out: Vec<u8> = Vec::new();
    out.push(0x53);
    out.push(0x48);
    out.push(0x44);
    out.push(0x31);
    out.push(SHD1_VERSION);
    out.push(tag.as_byte());
    out.push(0);
    out.push(0);
    let len = low32(payload.len());
    put_u32(&mut out, len);
    let ghost head = out@;
    assert(head =~= header_bytes(tag, (payload@.len() as int) % 0x1_0000_0000));
    let mut i: usize = 0;
    while i < payload.len()
        invariant
            0 <= i <= payload@.len(),
            out@ == head + payload@.subrange(0, i as int),
        decreases payload@.len() - i,
    {
        out.push(payload[i]);
        assert(out@ =~= head + payload@.subrange(0, i + 1));
        i += 1;
    }
    assert(payload@.subrange(0, payload@.len() as int) =~= payload@);
    out
}

/// Reads a frame: its type and its payload, or the first check that failed.
pub fn decode_frame(buf: &[u8]) -> (r: Result<(TypeTag, Vec<u8>), FrameError>)
    ensures
        match r {
            Ok((t, p)) => frame_result(buf@) == Ok::<(TypeTag, Seq<u8>), FrameError>((t, p@)),
            Err(e) => frame_result(buf@) == Err::<(TypeTag, Seq<u8>), FrameError>(e),
        },
{
    if buf.len() < 12 {
        return Err(FrameError::TooShort);
    }
    if buf[0] != 0x53 || buf[1] != 0x48 || buf[2] != 0x44 || buf[3] != 0x31 {
        proof {
            if buf@.subrange(0, 4) == shd1_magic() {
                assert(buf@[0] == buf@.subrange(0, 4)[0]);
                assert(buf@[1] == buf@.subrange(0, 4)[1]);
                assert(buf@[2] == buf@.subrange(0, 4)[2]);
                assert(buf@[3] == buf@.subrange(0, 4)[3]);
            }
        }
        return Err(FrameError::BadMagic);
    }
    assert(buf@.subrange(0, 4) =~= shd1_magic());
    if buf[4] != SHD1_VERSION {
        return Err(FrameError::BadVersion(buf[4]));
    }
    let tag = match TypeTag::from_byte(buf[5]) {
        Some(t) => t,
        None => { return Err(FrameError::UnknownTag(buf[5])); },
    };
    let len = get_u32(buf, 8) as usize;
    if buf.len() - 12 < len {
        return Err(FrameError::Truncated);
    }
    let n = buf.len();
    let mut payload: Vec<u8> = Vec::new();
    let mut i: usize = 0;
    while i < len
        invariant
            n == buf@.len(),
            12 + len <= n,
            0 <= i <= len,
            payload@ == buf@.subrange(12, 12 + i),
        decreases len - i,
    {
        payload.push(buf[12 + i]);
        assert(payload@ =~= buf@.subrange(12, 12 + i + 1));
        i += 1;
    }
    Ok((tag, payload))
}

/// The wire value of each type: a frame made for a type carries its fixed
/// byte at offset 5 (0x01 through 0x10), and a frame read back names the type
/// whose fixed byte it carries there.
pub proof fn lemma_frame_type_bytes(payload: Seq<u8>, buf: Seq<u8>)
    ensures
        frame_bytes(TypeTag::SpikeStream, payload)[5] == 0x01,
        frame_bytes(TypeTag::StateArena, payload)[5] == 0x02,
        frame_bytes(TypeTag::WeightMatrix, payload)[5] == 0x03,
        frame_bytes(TypeTag::ShdSample, payload)[5] == 0x04,
        frame_bytes(TypeTag::ArcGrid, payload)[5] == 0x05,
        frame_bytes(TypeTag::HyperbolicPoint, payload)[5] == 0x06,
        frame_bytes(TypeTag::Quaternion, payload)[5] == 0x07,
        frame_bytes(TypeTag::DvsEventBatch, payload)[5] == 0x08,
        frame_bytes(TypeTag::AvalancheMetrics, payload)[5] == 0x09,
        frame_bytes(TypeTag::LexiconToken, payload)[5] == 0x0A,
        frame_bytes(TypeTag::ShdCcpSparse, payload)[5] == 0x0B,
        frame_bytes(TypeTag::MoAIndex, payload)[5] == 0x0C,
        frame_bytes(TypeTag::SwarmConfig, payload)[5] == 0x0D,
        frame_bytes(TypeTag::PoincareBall, payload)[5] == 0x0E,
        frame_bytes(TypeTag::DvsEncoderConfig, payload)[5] == 0x0F,
        frame_bytes(TypeTag::ConversationTurn, payload)[5] == 0x10,
        frame_result(buf) matches Ok((t, _)) ==> (t == TypeTag::SpikeStream <==> buf[5] == 0x01),
        frame_result(buf) matches Ok((t, _)) ==> (t == TypeTag::StateArena <==> buf[5] == 0x02),
        frame_result(buf) matches Ok((t, _)) ==> (t == TypeTag::WeightMatrix <==> buf[5] == 0x03),
        frame_result(buf) matches Ok((t, _)) ==> (t == TypeTag::ShdSample <==> buf[5] == 0x04),
        frame_result(buf) matches Ok((t, _)) ==> (t == TypeTag::ArcGrid <==> buf[5] == 0x05),
        frame_result(buf) matches Ok((t, _)) ==> (t == TypeTag::HyperbolicPoint <==> buf[5] == 0x06),
        frame_result(buf) matches Ok((t, _)) ==> (t == TypeTag::Quaternion <==> buf[5] == 0x07),
        frame_result(buf) matches Ok((t, _)) ==> (t == TypeTag::DvsEventBatch <==> buf[5] == 0x08),
        frame_result(buf) matches Ok((t, _)) ==> (t == TypeTag::AvalancheMetrics <==> buf[5] == 0x09),
        frame_result(buf) matches Ok((t, _)) ==> (t == TypeTag::LexiconToken <==> buf[5] == 0x0A),
        frame_result(buf) matches Ok((t, _)) ==> (t == TypeTag::ShdCcpSparse <==> buf[5] == 0x0B),
        frame_result(buf) matches Ok((t, _)) ==> (t == TypeTag::MoAIndex <==> buf[5] == 0x0C),
        frame_result(buf) matches Ok((t, _)) ==> (t == TypeTag::SwarmConfig <==> buf[5] == 0x0D),
        frame_result(buf) matches Ok((t, _)) ==> (t == TypeTag::PoincareBall <==> buf[5] == 0x0E),
        frame_result(buf) matches Ok((t, _)) ==> (t == TypeTag::DvsEncoderConfig <==> buf[5] == 0x0F),
        frame_result(buf) matches Ok((t, _)) ==> (t == TypeTag::ConversationTurn <==> buf[5] == 0x10),
{
}

/// Reading a frame gives back the type and the payload it was made from,
/// for every payload shorter than 2^32 bytes.
pub proof fn lemma_frame_roundtrip(tag: TypeTag, payload: Seq<u8>)
    requires
        payload.len() < 0x1_0000_0000,
    ensures
        frame_result(frame_bytes(tag, payload)) == Ok::<(TypeTag, Seq<u8>), FrameError>((tag, payload)),
{
    let f = frame_bytes(tag, payload);
    let n = payload.len() as int;
    lemma_le32_roundtrip(n);
    assert(f.subrange(0, 4) =~= shd1_magic());
    assert(read32(f, 8) == read32(le32(n), 0));
    assert(f.subrange(12, 12 + n) =~= payload);
}

} // verus!
