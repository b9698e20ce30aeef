pub use crate::nal::{ebsp_to_rbsp, hevc_nal_type, rbsp_to_ebsp, start_code_length};
use crate::nal::{
    byte_strings, copy_bytes, escape, extend_bytes, lemma_unescape_escape, spec_hevc_nal_type,
    spec_start_code_length, unescape,
};
use vstd::prelude::*;

verus! {

pub const NAL_PREFIX_SEI: u8 = 39;
pub const NAL_SUFFIX_SEI: u8 = 40;

pub const SEI_USER_DATA_REGISTERED_ITU_T_T35: u32 = 4;
pub const SEI_MASTERING_DISPLAY_COLOUR_VOLUME: u32 = 137;
pub const SEI_CONTENT_LIGHT_LEVEL_INFO: u32 = 144;
pub const SEI_ALTERNATIVE_TRANSFER_CHARACTERISTICS: u32 = 147;

pub const HDR_VIVID_COUNTRY_CODE: u8 = 0x26;
pub const HDR_VIVID_PROVIDER_CODE: u16 = 0x0004;
pub const HDR_VIVID_PROVIDER_ORIENTED_CODE: u16 = 0x0005;
pub const HDR_VIVID_SYSTEM_START_CODE_V1: u8 = 0x01;

pub const D65_WHITE_POINT_X: u16 = 15_635;
pub const D65_WHITE_POINT_Y: u16 = 16_450;

pub const MASTERING_PRESET_TOLERANCE: u16 = 100;
pub const WHITE_POINT_TOLERANCE: u16 = 100;

/// The Display P3 primaries in units of 0.00002.
pub open spec fn display_p3_primaries() -> [(u16, u16); 3] {
    [(13_250, 34_500), (7_500, 3_000), (34_000, 16_000)]
}

/// The BT.2020 primaries in units of 0.00002.
pub open spec fn bt2020_primaries() -> [(u16, u16); 3] {
    [(8_500, 39_850), (6_550, 2_300), (35_400, 14_600)]
}

fn display_p3() -> (r: [(u16, u16); 3])
    ensures
        r == display_p3_primaries(),
{
    [(13_250, 34_500), (7_500, 3_000), (34_000, 16_000)]
}

fn bt2020() -> (r: [(u16, u16); 3])
    ensures
        r == bt2020_primaries(),
{
    [(8_500, 39_850), (6_550, 2_300), (35_400, 14_600)]
}

/// The colour gamut that mastering display primaries are close to.
#[derive(Clone, Copy, Debug, PartialEq, Eq, Structural)]
pub enum MasteringGamut {
    DisplayP3,
    Bt2020,
    Custom,
}

/// The content of a mastering display colour volume SEI payload.
#[derive(Clone, Copy, Debug)]
pub struct MasteringDisplayMetadata {
    pub primaries: [(u16, u16); 3],
    pub white_point: (u16, u16),
    pub max_luminance: u32,
    pub min_luminance: u32,
}

/// One SEI message: its payload type and payload bytes.
pub struct SeiMessage {
    pub payload_type: u32,
    pub payload: Vec<u8>,
}

impl SeiMessage {
    /// The message as its type and payload bytes.
    pub open spec fn view(&self) -> (u32, Seq<u8>) {
        (self.payload_type, self.payload@)
    }
}

/// The messages as their types and payload bytes.
pub open spec fn messages_view(m: Seq<SeiMessage>) -> Seq<(u32, Seq<u8>)> {
    Seq::new(m.len(), |i: int| m[i].view())
}

/// The big-endian 16-bit value at `offset`, if the data holds it.
pub open spec fn spec_be_u16(data: Seq<u8>, offset: int) -> Option<u16> {
    if offset + 2 > data.len() {
        None
    } else {
        Some((data[offset] * 256 + data[offset + 1]) as u16)
    }
}

/// The big-endian 32-bit value at `offset`, if the data holds it.
pub open spec fn spec_be_u32(data: Seq<u8>, offset: int) -> Option<u32> {
    if offset + 4 > data.len() {
        None
    } else {
        Some(
            (data[offset] * 0x100_0000 + data[offset + 1] * 0x1_0000 + data[offset + 2] * 0x100
                + data[offset + 3]) as u32,
        )
    }
}

/// The big-endian 16-bit value at `offset`, if `data` holds it.
pub fn read_be_u16(data: &[u8], offset: usize) -> (r: Option<u16>)
    requires
        offset <= usize::MAX - 2,
    ensures
        r == spec_be_u16(data@, offset as int),
{
    if offset + 2 > data.len() {
        return None;
    }
    let hi = data[offset] as u16;
    let lo = data[offset + 1] as u16;
    assert((hi << 8u16) | lo == hi * 256 + lo) by (bit_vector)
        requires
            hi < 256,
            lo < 256,
    ;
    Some((hi << 8) | lo)
}

/// The big-endian 32-bit value at `offset`, if `data` holds it.
pub fn read_be_u32(data: &[u8], offset: usize) -> (r: Option<u32>)
    requires
        offset <= usize::MAX - 4,
    ensures
        r == spec_be_u32(data@, offset as int),
{
    if offset + 4 > data.len() {
        return None;
    }
    let a = data[offset] as u32;
    let b = data[offset + 1] as u32;
    let c = data[offset + 2] as u32;
    let d = data[offset + 3] as u32;
    assert((a << 24u32) | (b << 16u32) | (c << 8u32) | d == a * 0x100_0000 + b * 0x1_0000 + c
        * 0x100 + d) by (bit_vector)
        requires
            a < 256,
            b < 256,
            c < 256,
            d < 256,
    ;
    Some((a << 24) | (b << 16) | (c << 8) | d)
}

/// True for a T.35 payload that starts an HDR Vivid (CUVA 005) version 1
/// metadata message.
pub open spec fn spec_is_hdr_vivid_v1_t35(p: Seq<u8>) -> bool {
    p.len() >= 13 && p[0] == HDR_VIVID_COUNTRY_CODE && spec_be_u16(p, 1) == Some(HDR_VIVID_PROVIDER_CODE)
        && spec_be_u16(p, 3) == Some(HDR_VIVID_PROVIDER_ORIENTED_CODE) && p[5]
        == HDR_VIVID_SYSTEM_START_CODE_V1
}

/// Whether a T.35 payload starts HDR Vivid version 1 metadata.
pub fn is_hdr_vivid_v1_t35(payload: &[u8]) -> (r: bool)
    ensures
        r == spec_is_hdr_vivid_v1_t35(payload@),
{
    if payload.len() < 13 {
        return false;
    }
    payload[0] == HDR_VIVID_COUNTRY_CODE && read_be_u16(payload, 1) == Some(HDR_VIVID_PROVIDER_CODE)
        && read_be_u16(payload, 3) == Some(HDR_VIVID_PROVIDER_ORIENTED_CODE) && payload[5]
        == HDR_VIVID_SYSTEM_START_CODE_V1
}

/// The `i`-th 16-bit chromaticity coordinate of a mastering display payload.
pub open spec fn md_coord(p: Seq<u8>, i: int) -> u16 {
    spec_be_u16(p, 2 * i).unwrap()
}

/// The mastering display metadata of a 24-byte payload whose chromaticity
/// coordinates are at most 50000 and whose maximum luminance is not below
/// its minimum.
pub open spec fn spec_parse_mastering_display(p: Seq<u8>) -> Option<MasteringDisplayMetadata> {
    if p.len() != 24 {
        None
    } else {
        let c = |i: int| md_coord(p, i);
        let m = MasteringDisplayMetadata {
            primaries: [(c(0), c(1)), (c(2), c(3)), (c(4), c(5))],
            white_point: (c(6), c(7)),
            max_luminance: spec_be_u32(p, 16).unwrap(),
            min_luminance: spec_be_u32(p, 20).unwrap(),
        };
        if c(0) > 50_000 || c(1) > 50_000 || c(2) > 50_000 || c(3) > 50_000 || c(4) > 50_000 || c(5)
            > 50_000 || c(6) > 50_000 || c(7) > 50_000 {
            None
        } else if m.max_luminance < m.min_luminance {
            None
        } else {
            Some(m)
        }
    }
}

/// The mastering display metadata of a valid 24-byte payload.
pub fn parse_mastering_display(payload: &[u8]) -> (r: Option<MasteringDisplayMetadata>)
    ensures
        r == spec_parse_mastering_display(payload@),
{
    if payload.len() != 24 {
        return None;
    }
    let ghost c = |i: int| md_coord(payload@, i);
    let x0 = read_be_u16(payload, 0)?;
    let y0 = read_be_u16(payload, 2)?;
    let x1 = read_be_u16(payload, 4)?;
    let y1 = read_be_u16(payload, 6)?;
    let x2 = read_be_u16(payload, 8)?;
    let y2 = read_be_u16(payload, 10)?;
    let wx = read_be_u16(payload, 12)?;
    let wy = read_be_u16(payload, 14)?;
    let max_luminance = read_be_u32(payload, 16)?;
    let min_luminance = read_be_u32(payload, 20)?;
    let metadata = MasteringDisplayMetadata {
        primaries: [(x0, y0), (x1, y1), (x2, y2)],
        white_point: (wx, wy),
        max_luminance,
        min_luminance,
    };
    assert(x0 == c(0) && y0 == c(1) && x1 == c(2) && y1 == c(3) && x2 == c(4) && y2 == c(5) && wx
        == c(6) && wy == c(7));
    if x0 > 50_000 || y0 > 50_000 || x1 > 50_000 || y1 > 50_000 || x2 > 50_000 || y2 > 50_000 || wx
        > 50_000 || wy > 50_000 {
        return None;
    }
    if metadata.max_luminance < metadata.min_luminance {
        return None;
    }
    Some(metadata)
}

/// True when `value` is within `tolerance` of `target`.
pub open spec fn spec_coordinate_near(value: u16, target: u16, tolerance: u16) -> bool {
    (if value >= target { value - target } else { target - value }) <= tolerance
}

/// Whether `value` is within `tolerance` of `target`.
pub fn coordinate_near(value: u16, target: u16, tolerance: u16) -> (r: bool)
    ensures
        r == spec_coordinate_near(value, target, tolerance),
{
    let diff = if value >= target { value - target } else { target - value };
    diff <= tolerance
}

/// True when each of three primaries is within the preset tolerance of the
/// corresponding target primary in both coordinates.
pub open spec fn spec_primaries_near(value: [(u16, u16); 3], target: [(u16, u16); 3]) -> bool {
    forall|i: int|
        0 <= i < 3 ==> spec_coordinate_near(#[trigger] value[i].0, target[i].0, MASTERING_PRESET_TOLERANCE)
            && spec_coordinate_near(value[i].1, target[i].1, MASTERING_PRESET_TOLERANCE)
}

/// Whether three primaries are each within the preset tolerance of their targets.
pub fn primaries_near(value: &[(u16, u16); 3], target: &[(u16, u16); 3]) -> (r: bool)
    ensures
        r == spec_primaries_near(*value, *target),
{
    let mut i: usize = 0;
    while i < 3
        invariant
            i <= 3,
            forall|j: int|
                0 <= j < i ==> spec_coordinate_near(#[trigger] value[j].0, target[j].0, MASTERING_PRESET_TOLERANCE)
                    && spec_coordinate_near(value[j].1, target[j].1, MASTERING_PRESET_TOLERANCE),
        decreases 3 - i,
    {
        let (x, y) = value[i];
        let (tx, ty) = target[i];
        if !(coordinate_near(x, tx, MASTERING_PRESET_TOLERANCE) && coordinate_near(
            y,
            ty,
            MASTERING_PRESET_TOLERANCE,
        )) {
            return false;
        }
        i += 1;
    }
    true
}

/// The preset gamut that the primaries are close to, Display P3 first.
pub open spec fn spec_classify_mastering_gamut(m: MasteringDisplayMetadata) -> MasteringGamut {
    if spec_primaries_near(m.primaries, display_p3_primaries()) {
        MasteringGamut::DisplayP3
    } else if spec_primaries_near(m.primaries, bt2020_primaries()) {
        MasteringGamut::Bt2020
    } else {
        MasteringGamut::Custom
    }
}

/// The preset gamut that the primaries are close to, if any.
pub fn classify_mastering_gamut(metadata: &MasteringDisplayMetadata) -> (r: MasteringGamut)
    ensures
        r == spec_classify_mastering_gamut(*metadata),
{
    if primaries_near(&metadata.primaries, &display_p3()) {
        MasteringGamut::DisplayP3
    } else if primaries_near(&metadata.primaries, &bt2020()) {
        MasteringGamut::Bt2020
    } else {
        MasteringGamut::Custom
    }
}

/// `output` with the big-endian bytes of `value` at `offset`.
pub open spec fn spec_write_be_u16(output: Seq<u8>, offset: int, value: u16) -> Seq<u8> {
    output.update(offset, (value / 256) as u8).update(offset + 1, (value % 256) as u8)
}

/// Writes `value` big-endian at `offset`.
pub fn write_be_u16(output: &mut Vec<u8>, offset: usize, value: u16)
    requires
        offset + 2 <= old(output)@.len(),
    ensures
        final(output)@ == spec_write_be_u16(old(output)@, offset as int, value),
{
    let len = output.len();
    assert(offset + 1 < len);
    let hi = (value >> 8) as u8;
    let lo = (value & 0xff) as u8;
    assert(value >> 8u16 == value / 256) by (bit_vector);
    assert(value & 0xffu16 == value % 256) by (bit_vector);
    output.set(offset, hi);
    output.set(offset + 1, lo);
}

/// `p` with the eight chromaticity coordinates at its start replaced by
/// the primaries `prim` and the D65 white point.
pub open spec fn canonical_mastering_coords(p: Seq<u8>, prim: [(u16, u16); 3]) -> Seq<u8> {
    let a = spec_write_be_u16(p, 0, prim[0].0);
    let b = spec_write_be_u16(a, 2, prim[0].1);
    let c = spec_write_be_u16(b, 4, prim[1].0);
    let d = spec_write_be_u16(c, 6, prim[1].1);
    let e = spec_write_be_u16(d, 8, prim[2].0);
    let f = spec_write_be_u16(e, 10, prim[2].1);
    let g = spec_write_be_u16(f, 12, D65_WHITE_POINT_X);
    spec_write_be_u16(g, 14, D65_WHITE_POINT_Y)
}

/// A mastering display payload with a D65 white point and primaries near a
/// preset gamut gets the exact preset values; other valid payloads stay as
/// they are; invalid ones give `None`.
pub open spec fn spec_normalize_mastering_display(p: Seq<u8>) -> Option<Seq<u8>> {
    match spec_parse_mastering_display(p) {
        None => None,
        Some(m) => {
            let gamut = spec_classify_mastering_gamut(m);
            let d65 = spec_coordinate_near(m.white_point.0, D65_WHITE_POINT_X, WHITE_POINT_TOLERANCE)
                && spec_coordinate_near(m.white_point.1, D65_WHITE_POINT_Y, WHITE_POINT_TOLERANCE);
            if !d65 || gamut == MasteringGamut::Custom {
                Some(p)
            } else if gamut == MasteringGamut::DisplayP3 {
                Some(canonical_mastering_coords(p, display_p3_primaries()))
            } else {
                Some(canonical_mastering_coords(p, bt2020_primaries()))
            }
        },
    }
}

/// Snaps mastering display primaries and white point to their preset values (see `spec_normalize_mastering_display`).
pub fn normalize_mastering_display(payload: &[u8]) -> (r: Option<Vec<u8>>)
    ensures
        match r {
            None => spec_normalize_mastering_display(payload@) is None,
            Some(v) => spec_normalize_mastering_display(payload@) == Some(v@),
        },
{
    let metadata = parse_mastering_display(payload)?;
    let gamut = classify_mastering_gamut(&metadata);
    let d65 = coordinate_near(metadata.white_point.0, D65_WHITE_POINT_X, WHITE_POINT_TOLERANCE)
        && coordinate_near(metadata.white_point.1, D65_WHITE_POINT_Y, WHITE_POINT_TOLERANCE);
    if !d65 || gamut == MasteringGamut::Custom {
        return Some(copy_bytes(payload));
    }
    let canonical = if gamut == MasteringGamut::DisplayP3 {
        display_p3()
    } else {
        bt2020()
    };
    let mut normalized = copy_bytes(payload);
    write_be_u16(&mut normalized, 0, canonical[0].0);
    write_be_u16(&mut normalized, 2, canonical[0].1);
    write_be_u16(&mut normalized, 4, canonical[1].0);
    write_be_u16(&mut normalized, 6, canonical[1].1);
    write_be_u16(&mut normalized, 8, canonical[2].0);
    write_be_u16(&mut normalized, 10, canonical[2].1);
    write_be_u16(&mut normalized, 12, D65_WHITE_POINT_X);
    write_be_u16(&mut normalized, 14, D65_WHITE_POINT_Y);
    Some(normalized)
}

/// Whether a mastering display payload is valid.
pub fn is_valid_mastering_display(payload: &[u8]) -> (r: bool)
    ensures
        r == spec_parse_mastering_display(payload@) is Some,
{
    parse_mastering_display(payload).is_some()
}

/// Maximum content light level and maximum frame-average light level of a
/// 4-byte content light level payload.
pub open spec fn spec_parse_content_light_level(p: Seq<u8>) -> Option<(u16, u16)> {
    if p.len() != 4 {
        None
    } else {
        Some((spec_be_u16(p, 0).unwrap(), spec_be_u16(p, 2).unwrap()))
    }
}

/// The two light levels of a 4-byte content light level payload.
pub fn parse_content_light_level(payload: &[u8]) -> (r: Option<(u16, u16)>)
    ensures
        r == spec_parse_content_light_level(payload@),
{
    if payload.len() != 4 {
        return None;
    }
    let max_cll = read_be_u16(payload, 0)?;
    let max_fall = read_be_u16(payload, 2)?;
    Some((max_cll, max_fall))
}

/// An SEI message that carries HDR metadata this library understands.
pub open spec fn spec_is_recognized_hdr_message(m: (u32, Seq<u8>)) -> bool {
    if m.0 == SEI_USER_DATA_REGISTERED_ITU_T_T35 {
        spec_is_hdr_vivid_v1_t35(m.1)
    } else if m.0 == SEI_MASTERING_DISPLAY_COLOUR_VOLUME {
        spec_parse_mastering_display(m.1) is Some
    } else if m.0 == SEI_CONTENT_LIGHT_LEVEL_INFO {
        spec_parse_content_light_level(m.1) is Some
    } else if m.0 == SEI_ALTERNATIVE_TRANSFER_CHARACTERISTICS {
        m.1.len() == 1
    } else {
        false
    }
}

/// Whether an SEI message carries HDR metadata this library understands.
pub fn is_recognized_hdr_message(message: &SeiMessage) -> (r: bool)
    ensures
        r == spec_is_recognized_hdr_message(message.view()),
{
    if message.payload_type == SEI_USER_DATA_REGISTERED_ITU_T_T35 {
        is_hdr_vivid_v1_t35(message.payload.as_slice())
    } else if message.payload_type == SEI_MASTERING_DISPLAY_COLOUR_VOLUME {
        is_valid_mastering_display(message.payload.as_slice())
    } else if message.payload_type == SEI_CONTENT_LIGHT_LEVEL_INFO {
        parse_content_light_level(message.payload.as_slice()).is_some()
    } else if message.payload_type == SEI_ALTERNATIVE_TRANSFER_CHARACTERISTICS {
        message.payload.len() == 1
    } else {
        false
    }
}

/// The normalized payload of one message: mastering display payloads are
/// normalized, content light level payloads must be well formed, and the
/// rest are kept.
pub open spec fn spec_normalize_payload(m: (u32, Seq<u8>)) -> Option<Seq<u8>> {
    if m.0 == SEI_MASTERING_DISPLAY_COLOUR_VOLUME {
        spec_normalize_mastering_display(m.1)
    } else if m.0 == SEI_CONTENT_LIGHT_LEVEL_INFO {
        if spec_parse_content_light_level(m.1) is Some {
            Some(m.1)
        } else {
            None
        }
    } else {
        Some(m.1)
    }
}

/// Every message with its payload normalized, or `None` when one of them
/// cannot be.
pub open spec fn spec_normalize_hdr_messages(ms: Seq<(u32, Seq<u8>)>) -> Option<Seq<(u32, Seq<u8>)>> {
    if forall|i: int| 0 <= i < ms.len() ==> #[trigger] spec_normalize_payload(ms[i]) is Some {
        Some(Seq::new(ms.len(), |i: int| (ms[i].0, spec_normalize_payload(ms[i]).unwrap())))
    } else {
        None
    }
}

/// Normalizes the payload of every message, or `None` when one cannot be.
pub fn normalize_hdr_messages(messages: &[SeiMessage]) -> (r: Option<Vec<SeiMessage>>)
    ensures
        match r {
            None => spec_normalize_hdr_messages(messages_view(messages@)) is None,
            Some(v) => spec_normalize_hdr_messages(messages_view(messages@)) == Some(
                messages_view(v@),
            ),
        },
{
    let ghost ms = messages_view(messages@);
    let mut normalized: Vec<SeiMessage> = Vec::with_capacity(messages.len());
    let mut i: usize = 0;
    while i < messages.len()
        invariant
            i <= messages.len(),
            ms == messages_view(messages@),
            normalized@.len() == i,
            forall|j: int| 0 <= j < i ==> #[trigger] spec_normalize_payload(ms[j]) is Some,
            forall|j: int|
                0 <= j < i ==> #[trigger] normalized@[j].view() == (
                    ms[j].0,
                    spec_normalize_payload(ms[j]).unwrap(),
                ),
        decreases messages.len() - i,
    {
        let message = &messages[i];
        assert(ms[i as int] == message.view());
        let payload = if message.payload_type == SEI_MASTERING_DISPLAY_COLOUR_VOLUME {
            match normalize_mastering_display(message.payload.as_slice()) {
                None => {
                    assert(spec_normalize_payload(ms[i as int]) is None);
                    return None;
                },
                Some(p) => p,
            }
        } else if message.payload_type == SEI_CONTENT_LIGHT_LEVEL_INFO {
            if parse_content_light_level(message.payload.as_slice()).is_none() {
                assert(spec_normalize_payload(ms[i as int]) is None);
                return None;
            }
            copy_bytes(message.payload.as_slice())
        } else {
            copy_bytes(message.payload.as_slice())
        };
        normalized.push(SeiMessage { payload_type: message.payload_type, payload });
        i += 1;
    }
    proof {
        let target = Seq::new(ms.len(), |k: int| (ms[k].0, spec_normalize_payload(ms[k]).unwrap()));
        assert(messages_view(normalized@) =~= target);
    }
    Some(normalized)
}

/// Reads a value coded as a run of `ff` bytes, each adding 255, closed by
/// a byte below `ff` that is added too, starting at `p` with `acc` already
/// read. Gives the value, or `None` when the data ends first or the value
/// exceeds `u32::MAX`, and the position after the last byte looked at.
pub open spec fn ff_scan(data: Seq<u8>, p: int, acc: int) -> (Option<u32>, int)
    decreases data.len() - p,
{
    if p < 0 || p >= data.len() {
        (None, p)
    } else if acc + data[p] > u32::MAX {
        (None, p + 1)
    } else if data[p] != 0xff {
        (Some((acc + data[p]) as u32), p + 1)
    } else {
        ff_scan(data, p + 1, acc + data[p])
    }
}

/// The bytes that code `v` as a run of `ff` bytes and a closing byte.
pub open spec fn ff_bytes(v: nat) -> Seq<u8>
    decreases v,
{
    if v >= 255 {
        seq![0xffu8] + ff_bytes((v - 255) as nat)
    } else {
        seq![v as u8]
    }
}

/// Reads an `ff`-coded value at `*position` and moves past it (see `ff_scan`).
pub fn read_ff_value(data: &[u8], position: &mut usize) -> (r: Option<u32>)
    ensures
        (r, *final(position) as int) == ff_scan(data@, *old(position) as int, 0),
{
    let mut value: u32 = 0;
    let ghost start = *position as int;
    loop
        invariant
            start == *old(position) as int,
            ff_scan(data@, start, 0) == ff_scan(data@, *position as int, value as int),
        decreases data.len() - *position,
    {
        if *position >= data.len() {
            return None;
        }
        let byte = data[*position];
        *position += 1;
        if value as u64 + byte as u64 > u32::MAX as u64 {
            return None;
        }
        value = value + byte as u32;
        if byte != 0xff {
            return Some(value);
        }
    }
}

/// Appends `value` coded as `ff` bytes and a closing byte.
pub fn write_ff_value(value: usize, output: &mut Vec<u8>)
    ensures
        final(output)@ == old(output)@ + ff_bytes(value as nat),
{
    let mut rest = value;
    let ghost before = output@;
    assert(before + ff_bytes(value as nat) == output@ + ff_bytes(rest as nat));
    while rest >= 0xff
        invariant
            before + ff_bytes(value as nat) == output@ + ff_bytes(rest as nat),
        decreases rest,
    {
        let ghost prev = output@;
        output.push(0xff);
        assert(ff_bytes(rest as nat) == seq![0xffu8] + ff_bytes((rest - 255) as nat));
        rest = rest - 0xff;
        assert(prev + ff_bytes((rest + 255) as nat) =~= output@ + ff_bytes(rest as nat));
    }
    let ghost prev = output@;
    output.push(rest as u8);
    assert(prev + ff_bytes(rest as nat) =~= output@);
}

/// Reading back a value that was written as `ff` bytes gives the value and
/// the position just after its bytes, whatever follows them.
pub proof fn lemma_ff_roundtrip(data: Seq<u8>, p: int, acc: int, v: nat)
    requires
        0 <= p,
        0 <= acc,
        acc + v <= u32::MAX,
        p + ff_bytes(v).len() <= data.len(),
        data.subrange(p, p + ff_bytes(v).len()) == ff_bytes(v),
    ensures
        ff_scan(data, p, acc) == (Some((acc + v) as u32), p + ff_bytes(v).len()),
    decreases v,
{
    let b = ff_bytes(v);
    assert(data[p] == data.subrange(p, p + b.len())[0]);
    if v >= 255 {
        let rest = ff_bytes((v - 255) as nat);
        assert(b.drop_first() =~= rest);
        assert(data.subrange(p + 1, p + 1 + rest.len()) =~= data.subrange(p, p + b.len()).drop_first());
        lemma_ff_roundtrip(data, p + 1, acc + 255, (v - 255) as nat);
    }
}

/// A successful `ff` read moves past at least one byte and stays within the
/// data.
pub proof fn lemma_ff_scan_bounds(data: Seq<u8>, p: int, acc: int)
    ensures
        ff_scan(data, p, acc).0 is Some ==> p < ff_scan(data, p, acc).1 <= data.len(),
    decreases data.len() - p,
{
    if 0 <= p < data.len() && acc + data[p] <= u32::MAX && data[p] == 0xff {
        lemma_ff_scan_bounds(data, p + 1, acc + data[p]);
    }
}

/// Whether every byte of `s` from index `from` on is zero.
pub open spec fn all_zero_from(s: Seq<u8>, from: int) -> bool {
    forall|i: int| from <= i < s.len() ==> s[i] == 0
}

/// The SEI messages of an SEI RBSP from position `pos`: each is a payload
/// type and a payload size, both `ff`-coded, then the payload; the list
/// ends at a `80` byte followed only by zero bytes.
pub open spec fn spec_sei_messages(rbsp: Seq<u8>, pos: int) -> Option<Seq<(u32, Seq<u8>)>>
    decreases rbsp.len() - pos,
{
    if pos < 0 || pos >= rbsp.len() {
        None
    } else if rbsp[pos] == 0x80 {
        if all_zero_from(rbsp, pos + 1) {
            Some(Seq::empty())
        } else {
            None
        }
    } else {
        let (t, p1) = ff_scan(rbsp, pos, 0);
        let (size, p2) = ff_scan(rbsp, p1, 0);
        if t is None || size is None {
            None
        } else if p2 + size.unwrap() > rbsp.len() {
            None
        } else {
            proof {
                lemma_ff_scan_bounds(rbsp, pos, 0);
                lemma_ff_scan_bounds(rbsp, p1, 0);
            }
            match spec_sei_messages(rbsp, p2 + size.unwrap()) {
                None => None,
                Some(rest) => Some(
                    seq![(t.unwrap(), rbsp.subrange(p2, p2 + size.unwrap()))] + rest,
                ),
            }
        }
    }
}

/// `pre` put in front of the messages of `rest`, if there are any.
pub open spec fn prepend_messages(
    pre: Seq<(u32, Seq<u8>)>,
    rest: Option<Seq<(u32, Seq<u8>)>>,
) -> Option<Seq<(u32, Seq<u8>)>> {
    match rest {
        None => None,
        Some(r) => Some(pre + r),
    }
}

/// The two-byte NAL header and the SEI messages of a complete prefix or
/// suffix SEI NAL unit in Annex B form.
pub open spec fn spec_parse_complete_sei_unit(u: Seq<u8>) -> Option<(Seq<u8>, Seq<(u32, Seq<u8>)>)> {
    match spec_start_code_length(u) {
        None => None,
        Some(start) => match spec_hevc_nal_type(u) {
            None => None,
            Some(t) => if t != NAL_PREFIX_SEI && t != NAL_SUFFIX_SEI {
                None
            } else if start + 1 >= u.len() {
                None
            } else {
                match spec_sei_messages(unescape(u.skip(start + 2), 0), 0) {
                    None => None,
                    Some(ms) => Some((u.subrange(start as int, start + 2), ms)),
                }
            },
        },
    }
}

fn all_zero_after(s: &[u8], from: usize) -> (r: bool)
    requires
        from <= s.len(),
    ensures
        r == all_zero_from(s@, from as int),
{
    let mut i = from;
    while i < s.len()
        invariant
            from <= i <= s.len(),
            forall|k: int| from <= k < i ==> s@[k] == 0,
        decreases s.len() - i,
    {
        if s[i] != 0 {
            return false;
        }
        i += 1;
    }
    true
}

/// The header and messages of a complete SEI NAL unit.
pub fn parse_complete_sei_unit(unit: &[u8]) -> (r: Option<([u8; 2], Vec<SeiMessage>)>)
    ensures
        match r {
            None => spec_parse_complete_sei_unit(unit@) is None,
            Some((h, ms)) => spec_parse_complete_sei_unit(unit@) == Some((h@, messages_view(ms@))),
        },
{
    let start = start_code_length(unit)?;
    let nal_type = hevc_nal_type(unit)?;
    if nal_type != NAL_PREFIX_SEI && nal_type != NAL_SUFFIX_SEI {
        return None;
    }
    if start + 1 >= unit.len() {
        return None;
    }
    let header = [unit[start], unit[start + 1]];
    assert(header@ =~= unit@.subrange(start as int, start + 2));
    let payload = &unit[start + 2..unit.len()];
    assert(payload@ =~= unit@.skip(start + 2));
    let rbsp = ebsp_to_rbsp(payload);
    let ghost data = rbsp@;
    let mut position: usize = 0;
    let mut messages: Vec<SeiMessage> = Vec::new();
    assert(messages_view(messages@) =~= Seq::<(u32, Seq<u8>)>::empty());
    assert(prepend_messages(messages_view(messages@), spec_sei_messages(data, 0)) =~= spec_sei_messages(data, 0));
    assert(spec_parse_complete_sei_unit(unit@) == match spec_sei_messages(data, 0) {
        None => None,
        Some(ms) => Some((header@, ms)),
    });
    while position < rbsp.len()
        invariant
            data == rbsp@,
            position <= rbsp.len(),
            spec_parse_complete_sei_unit(unit@) == match spec_sei_messages(data, 0) {
                None => None,
                Some(ms) => Some((header@, ms)),
            },
            spec_sei_messages(data, 0) == prepend_messages(
                messages_view(messages@),
                spec_sei_messages(data, position as int),
            ),
        decreases rbsp.len() - position,
    {
        let pos0 = position;
        if rbsp[position] == 0x80 {
            if all_zero_after(rbsp.as_slice(), position + 1) {
                assert(messages_view(messages@) + Seq::<(u32, Seq<u8>)>::empty() =~= messages_view(messages@));
                return Some((header, messages));
            }
            return None;
        }
        let payload_type = match read_ff_value(rbsp.as_slice(), &mut position) {
            None => {
                return None;
            },
            Some(v) => v,
        };
        let pos1 = position;
        let payload_size = match read_ff_value(rbsp.as_slice(), &mut position) {
            None => {
                return None;
            },
            Some(v) => v,
        };
        proof {
            lemma_ff_scan_bounds(data, pos0 as int, 0);
            lemma_ff_scan_bounds(data, pos1 as int, 0);
        }
        let size = payload_size as usize;
        if size > rbsp.len() - position {
            return None;
        }
        let payload_end = position + size;
        let body = copy_bytes(&rbsp[position..payload_end]);
        assert(body@ =~= data.subrange(position as int, payload_end as int));
        let ghost prev = messages_view(messages@);
        let ghost tail = spec_sei_messages(data, payload_end as int);
        messages.push(SeiMessage { payload_type, payload: body });
        assert(messages_view(messages@) =~= prev.push((payload_type, body@)));
        proof {
            match tail {
                None => {},
                Some(rest) => {
                    assert(prev + (seq![(payload_type, body@)] + rest) =~= prev.push(
                        (payload_type, body@),
                    ) + rest);
                },
            }
        }
        position = payload_end;
    }
    None
}

/// The bytes of one SEI message: `ff`-coded type and size, then payload.
pub open spec fn sei_message_bytes(m: (u32, Seq<u8>)) -> Seq<u8> {
    ff_bytes(m.0 as nat) + ff_bytes(m.1.len()) + m.1
}

/// The SEI messages written one after the other.
pub open spec fn sei_rbsp(ms: Seq<(u32, Seq<u8>)>) -> Seq<u8>
    decreases ms.len(),
{
    if ms.len() == 0 {
        Seq::empty()
    } else {
        sei_message_bytes(ms[0]) + sei_rbsp(ms.drop_first())
    }
}

/// An Annex B SEI NAL unit with a four-byte start code, the given header,
/// and the messages followed by the RBSP stop bit, with emulation
/// prevention.
pub open spec fn spec_build_canonical_sei_unit(h: Seq<u8>, ms: Seq<(u32, Seq<u8>)>) -> Seq<u8> {
    seq![0u8, 0u8, 0u8, 1u8] + h + escape(sei_rbsp(ms) + seq![0x80u8], 0)
}

proof fn lemma_sei_rbsp_push(ms: Seq<(u32, Seq<u8>)>, m: (u32, Seq<u8>))
    ensures
        sei_rbsp(ms.push(m)) == sei_rbsp(ms) + sei_message_bytes(m),
    decreases ms.len(),
{
    if ms.len() == 0 {
        assert(ms.push(m).drop_first() =~= Seq::<(u32, Seq<u8>)>::empty());
        assert(ms.push(m)[0] == m);
        assert(sei_rbsp(ms.push(m).drop_first()) =~= Seq::<u8>::empty());
        assert(sei_rbsp(ms) =~= Seq::<u8>::empty());
        assert(sei_rbsp(ms.push(m)) =~= sei_rbsp(ms) + sei_message_bytes(m));
    } else {
        assert(ms.push(m).drop_first() =~= ms.drop_first().push(m));
        lemma_sei_rbsp_push(ms.drop_first(), m);
        assert(sei_rbsp(ms.push(m)) =~= sei_rbsp(ms) + sei_message_bytes(m));
    }
}

/// Writes an SEI NAL unit with a four-byte start code, `header` and `messages`.
pub fn build_canonical_sei_unit(header: [u8; 2], messages: &[SeiMessage]) -> (r: Vec<u8>)
    ensures
        r@ == spec_build_canonical_sei_unit(header@, messages_view(messages@)),
{
    let ghost ms = messages_view(messages@);
    let mut rbsp: Vec<u8> = Vec::new();
    let mut i: usize = 0;
    assert(ms.take(0) =~= Seq::<(u32, Seq<u8>)>::empty());
    while i < messages.len()
        invariant
            i <= messages.len(),
            ms == messages_view(messages@),
            rbsp@ == sei_rbsp(ms.take(i as int)),
        decreases messages.len() - i,
    {
        let message = &messages[i];
        assert(ms[i as int] == message.view());
        let ghost before = rbsp@;
        write_ff_value(message.payload_type as usize, &mut rbsp);
        write_ff_value(message.payload.len(), &mut rbsp);
        extend_bytes(&mut rbsp, message.payload.as_slice());
        proof {
            lemma_sei_rbsp_push(ms.take(i as int), ms[i as int]);
            assert(ms.take(i + 1) =~= ms.take(i as int).push(ms[i as int]));
            assert(rbsp@ =~= before + sei_message_bytes(ms[i as int]));
        }
        i += 1;
    }
    assert(ms.take(i as int) =~= ms);
    rbsp.push(0x80);
    assert(rbsp@ =~= sei_rbsp(ms) + seq![0x80u8]);
    let ebsp = rbsp_to_ebsp(rbsp.as_slice());
    let mut output: Vec<u8> = Vec::with_capacity(6);
    output.push(0x00);
    output.push(0x00);
    output.push(0x00);
    output.push(0x01);
    output.push(header[0]);
    output.push(header[1]);
    assert(header@ =~= seq![header[0], header[1]]);
    assert(output@ =~= seq![0u8, 0u8, 0u8, 1u8] + header@);
    extend_bytes(&mut output, ebsp.as_slice());
    assert(output@ =~= spec_build_canonical_sei_unit(header@, ms));
    output
}

/// The first byte written for a payload type is `80` only for type 128.
proof fn lemma_ff_first_byte(v: nat)
    ensures
        ff_bytes(v).len() >= 1,
        ff_bytes(v)[0] == 0x80 <==> v == 0x80,
{
    if v >= 255 {
        assert(ff_bytes(v)[0] == 0xff);
    }
}

proof fn lemma_ff_bytes_len(v: nat)
    ensures
        ff_bytes(v).len() >= 1,
    decreases v,
{
    if v >= 255 {
        lemma_ff_bytes_len((v - 255) as nat);
    }
}

proof fn lemma_sei_messages_of_rbsp(data: Seq<u8>, p: int, ms: Seq<(u32, Seq<u8>)>)
    requires
        0 <= p <= data.len(),
        data.skip(p) == sei_rbsp(ms) + seq![0x80u8],
        forall|i: int| 0 <= i < ms.len() ==> (#[trigger] ms[i]).0 != 0x80 && ms[i].1.len() <= u32::MAX,
    ensures
        spec_sei_messages(data, p) == Some(ms),
    decreases ms.len(),
{
    if ms.len() == 0 {
        assert(data.skip(p) =~= seq![0x80u8]);
        assert(data[p] == data.skip(p)[0]);
        assert(ms =~= Seq::<(u32, Seq<u8>)>::empty());
    } else {
        let m = ms[0];
        let rest = ms.drop_first();
        let tb = ff_bytes(m.0 as nat);
        let sb = ff_bytes(m.1.len());
        lemma_ff_first_byte(m.0 as nat);
        lemma_ff_bytes_len(m.1.len());
        let tail = sei_rbsp(rest) + seq![0x80u8];
        assert(data.skip(p) =~= tb + (sb + (m.1 + tail)));
        assert(data[p] == data.skip(p)[0]);
        assert(data[p] == tb[0]);
        let p1 = p + tb.len();
        let p2 = p1 + sb.len();
        let p3 = p2 + m.1.len();
        assert(data.subrange(p, p1) =~= tb) by {
            assert forall|k: int| 0 <= k < tb.len() implies data.subrange(p, p1)[k] == tb[k] by {
                assert(data.subrange(p, p1)[k] == data.skip(p)[k]);
            }
        }
        lemma_ff_roundtrip(data, p, 0, m.0 as nat);
        assert(data.subrange(p1, p2) =~= sb) by {
            assert forall|k: int| 0 <= k < sb.len() implies data.subrange(p1, p2)[k] == sb[k] by {
                assert(data.subrange(p1, p2)[k] == data.skip(p)[tb.len() + k]);
            }
        }
        lemma_ff_roundtrip(data, p1, 0, m.1.len());
        assert(data.subrange(p2, p3) =~= m.1) by {
            assert forall|k: int| 0 <= k < m.1.len() implies data.subrange(p2, p3)[k] == m.1[k] by {
                assert(data.subrange(p2, p3)[k] == data.skip(p)[tb.len() + sb.len() + k]);
            }
        }
        assert(data.skip(p3) =~= tail) by {
            assert forall|k: int| 0 <= k < tail.len() implies data.skip(p3)[k] == tail[k] by {
                assert(data.skip(p3)[k] == data.skip(p)[tb.len() + sb.len() + m.1.len() + k]);
            }
        }
        assert forall|i: int| 0 <= i < rest.len() implies (#[trigger] rest[i]).0 != 0x80 && rest[i].1.len()
            <= u32::MAX by {
            assert(rest[i] == ms[i + 1]);
        }
        lemma_sei_messages_of_rbsp(data, p3, rest);
        assert(m.0 as int + 0 == m.0);
        assert(ms =~= seq![(m.0, m.1)] + rest);
    }
}

/// Parsing a canonical SEI unit gives back its header and messages, when
/// the header names a prefix or suffix SEI unit, no payload type is 128
/// (whose first coded byte would read as the stop bit), and every payload
/// size fits in 32 bits.
pub proof fn lemma_sei_unit_roundtrip(h: Seq<u8>, ms: Seq<(u32, Seq<u8>)>)
    requires
        h.len() == 2,
        (h[0] >> 1u8) & 0x3f == NAL_PREFIX_SEI || (h[0] >> 1u8) & 0x3f == NAL_SUFFIX_SEI,
        forall|i: int| 0 <= i < ms.len() ==> (#[trigger] ms[i]).0 != 0x80 && ms[i].1.len() <= u32::MAX,
    ensures
        spec_parse_complete_sei_unit(spec_build_canonical_sei_unit(h, ms)) == Some((h, ms)),
{
    let u = spec_build_canonical_sei_unit(h, ms);
    let body = sei_rbsp(ms) + seq![0x80u8];
    lemma_unescape_escape(body, 0);
    lemma_escape_nonempty(body);
    assert(u.skip(6) =~= escape(body, 0));
    assert(u.subrange(4, 6) =~= h);
    assert(body.skip(0) =~= body);
    lemma_sei_messages_of_rbsp(body, 0, ms);
}

proof fn lemma_escape_nonempty(s: Seq<u8>)
    requires
        s.len() > 0,
    ensures
        escape(s, 0).len() > 0,
{
}

/// The trailer lengths that the decryption of an HDR SEI unit may drop
/// from its end, in the order they are tried, after the default one.
pub open spec fn sei_trailer_sizes() -> Seq<usize> {
    seq![2usize, 4, 0, 1, 3, 5, 6, 7, 8, 12, 16]
}

/// Whether a trailer length differs from `d`.
pub open spec fn differs_from(d: usize) -> spec_fn(usize) -> bool {
    |x: usize| x != d
}

/// The trailer lengths to try, the default first and none twice.
pub open spec fn spec_hdr_trailer_sizes(default_size: usize) -> Seq<usize> {
    seq![default_size] + sei_trailer_sizes().filter(differs_from(default_size))
}

/// The trailer lengths tried when decrypting an HDR SEI unit, the default first.
pub fn hdr_trailer_sizes(default_trailer_size: usize) -> (r: Vec<usize>)
    ensures
        r@ == spec_hdr_trailer_sizes(default_trailer_size),
{
    let fixed: [usize; 11] = [2, 4, 0, 1, 3, 5, 6, 7, 8, 12, 16];
    assert(fixed@ == sei_trailer_sizes());
    let ghost pred = differs_from(default_trailer_size);
    let mut out: Vec<usize> = Vec::new();
    out.push(default_trailer_size);
    let mut k: usize = 0;
    assert(fixed@.take(0).filter(pred) =~= Seq::<usize>::empty()) by {
        reveal(Seq::filter);
    }
    while k < 11
        invariant
            k <= 11,
            fixed@ == sei_trailer_sizes(),
            pred == differs_from(default_trailer_size),
            out@ == seq![default_trailer_size] + fixed@.take(k as int).filter(pred),
        decreases 11 - k,
    {
        let size = fixed[k];
        assert(fixed@.take(k + 1).drop_last() =~= fixed@.take(k as int));
        assert(fixed@.take(k + 1).last() == size);
        if size != default_trailer_size {
            out.push(size);
        }
        proof {
            reveal(Seq::filter);
        }
        assert(out@ =~= seq![default_trailer_size] + fixed@.take(k + 1).filter(pred));
        k += 1;
    }
    assert(fixed@.take(11) =~= fixed@);
    out
}

/// The variant of a decrypted NAL unit cut at `end`: a zero byte goes in
/// front when the unit had a three-byte start code.
pub open spec fn nal_variant(c: Seq<u8>, osl: int, end: int) -> Seq<u8> {
    if osl == 3 {
        seq![0u8] + c.take(end)
    } else {
        c.take(end)
    }
}

/// The lengths cut from the end of a decrypted unit when looking for a
/// complete SEI unit.
pub open spec fn sei_drop_sizes() -> Seq<usize> {
    seq![0usize, 1, 2, 3, 4, 5, 6, 7, 8, 12, 16]
}

/// The variants for the given drop lengths, skipping those that would leave
/// no more than the start code and the NAL header.
pub open spec fn drop_variants(c: Seq<u8>, osl: int, drops: Seq<usize>) -> Seq<Seq<u8>>
    decreases drops.len(),
{
    if drops.len() == 0 {
        Seq::empty()
    } else {
        let before = drop_variants(c, osl, drops.drop_last());
        let d = drops.last();
        if c.len() <= d + osl + 2 {
            before
        } else {
            before.push(nal_variant(c, osl, c.len() - d))
        }
    }
}

/// The ways to read a decrypted SEI unit: the whole of it (for a three-byte
/// start code, with a zero in front and the last four bytes cut), then cut
/// by each of the drop lengths.
pub open spec fn spec_normalized_candidates(c: Seq<u8>, osl: int) -> Seq<Seq<u8>> {
    let first = if osl == 3 && c.len() >= 4 {
        seq![0u8] + c.take(c.len() - 4)
    } else {
        c
    };
    seq![first] + drop_variants(c, osl, sei_drop_sizes())
}

fn nal_variant_exec(candidate: &[u8], original_start_code_length: usize, end: usize) -> (r: Vec<u8>)
    requires
        end <= candidate.len(),
    ensures
        r@ == nal_variant(candidate@, original_start_code_length as int, end as int),
{
    let mut out: Vec<u8> = Vec::new();
    if original_start_code_length == 3 {
        out.push(0x00);
    }
    extend_bytes(&mut out, &candidate[0..end]);
    assert(candidate@.subrange(0, end as int) =~= candidate@.take(end as int));
    proof {
        if original_start_code_length == 3 {
            assert(out@ =~= seq![0u8] + candidate@.take(end as int));
        } else {
            assert(out@ =~= candidate@.take(end as int));
        }
    }
    out
}

/// The readings of a decrypted SEI unit to try (see `spec_normalized_candidates`).
pub fn normalized_candidates(candidate: &[u8], original_start_code_length: usize) -> (r: Vec<Vec<u8>>)
    requires
        original_start_code_length <= usize::MAX - 18,
    ensures
        byte_strings(r@) == spec_normalized_candidates(candidate@, original_start_code_length as int),
{
    let ghost c = candidate@;
    let ghost osl = original_start_code_length as int;
    let mut variants: Vec<Vec<u8>> = Vec::new();
    if original_start_code_length == 3 && candidate.len() >= 4 {
        variants.push(nal_variant_exec(candidate, 3, candidate.len() - 4));
    } else {
        variants.push(copy_bytes(candidate));
    }
    let ghost first = variants@[0]@;
    let drops: [usize; 11] = [0, 1, 2, 3, 4, 5, 6, 7, 8, 12, 16];
    assert(drops@ == sei_drop_sizes());
    let mut k: usize = 0;
    assert(byte_strings(variants@) =~= seq![first] + drop_variants(c, osl, drops@.take(0)));
    while k < 11
        invariant
            k <= 11,
            c == candidate@,
            osl == original_start_code_length,
            osl <= usize::MAX - 18,
            drops@ == sei_drop_sizes(),
            byte_strings(variants@) == seq![first] + drop_variants(c, osl, drops@.take(k as int)),
        decreases 11 - k,
    {
        let drop = drops[k];
        assert(drops@.take(k + 1).drop_last() =~= drops@.take(k as int));
        assert(drops@.take(k + 1).last() == drop);
        let ghost before = byte_strings(variants@);
        if candidate.len() > drop + original_start_code_length + 2 {
            let end = candidate.len() - drop;
            let v = nal_variant_exec(candidate, original_start_code_length, end);
            variants.push(v);
            assert(byte_strings(variants@) =~= before.push(v@));
        }
        k += 1;
        assert(byte_strings(variants@) =~= seq![first] + drop_variants(c, osl, drops@.take(k as int)));
    }
    assert(drops@.take(11) =~= drops@);
    variants
}

/// A candidate that parses as a complete SEI unit with at least one
/// recognized HDR message.
pub open spec fn is_hdr_candidate(c: Seq<u8>) -> bool {
    let parsed = spec_parse_complete_sei_unit(c);
    &&& parsed is Some
    &&& exists|i: int|
        0 <= i < parsed.unwrap().1.len() && #[trigger] spec_is_recognized_hdr_message(
            parsed.unwrap().1[i],
        )
}

/// The first HDR candidate of a list.
pub open spec fn first_hdr_candidate(cs: Seq<Seq<u8>>) -> Option<Seq<u8>>
    decreases cs.len(),
{
    if cs.len() == 0 {
        None
    } else if is_hdr_candidate(cs[0]) {
        Some(cs[0])
    } else {
        first_hdr_candidate(cs.drop_first())
    }
}

/// The first HDR candidate among the readings of each decryption, taken in
/// order.
pub open spec fn first_hdr_reading(ds: Seq<Seq<u8>>, osl: int) -> Option<Seq<u8>>
    decreases ds.len(),
{
    if ds.len() == 0 {
        None
    } else {
        match first_hdr_candidate(spec_normalized_candidates(ds[0], osl)) {
            Some(c) => Some(c),
            None => first_hdr_reading(ds.drop_first(), osl),
        }
    }
}

/// The canonical HDR SEI unit recovered from the decryptions `ds` of an
/// SEI unit `u`: the first reading with a recognized HDR message, its
/// messages normalized and written out again.
pub open spec fn spec_decrypt_hdr_sei_unit(u: Seq<u8>, ds: Seq<Seq<u8>>) -> Option<Seq<u8>> {
    match spec_start_code_length(u) {
        None => None,
        Some(osl) => match spec_hevc_nal_type(u) {
            None => None,
            Some(t) => if t != NAL_PREFIX_SEI && t != NAL_SUFFIX_SEI {
                None
            } else {
                match first_hdr_reading(ds, osl as int) {
                    None => None,
                    Some(c) => match spec_parse_complete_sei_unit(c) {
                        None => None,
                        Some((h, ms)) => match spec_normalize_hdr_messages(ms) {
                            None => None,
                            Some(n) => Some(spec_build_canonical_sei_unit(h, n)),
                        },
                    },
                }
            },
        },
    }
}

fn any_recognized(messages: &Vec<SeiMessage>) -> (r: bool)
    ensures
        r == exists|i: int| 0 <= i < messages@.len() && #[trigger] spec_is_recognized_hdr_message(
            messages_view(messages@)[i],
        ),
{
    let ghost ms = messages_view(messages@);
    let mut i: usize = 0;
    while i < messages.len()
        invariant
            i <= messages.len(),
            ms == messages_view(messages@),
            forall|j: int| 0 <= j < i ==> !#[trigger] spec_is_recognized_hdr_message(ms[j]),
        decreases messages.len() - i,
    {
        assert(ms[i as int] == messages@[i as int].view());
        if is_recognized_hdr_message(&messages[i]) {
            return true;
        }
        i += 1;
    }
    false
}

fn first_hdr_in(candidates: &Vec<Vec<u8>>) -> (r: Option<([u8; 2], Vec<SeiMessage>)>)
    ensures
        match r {
            None => first_hdr_candidate(byte_strings(candidates@)) is None,
            Some((h, ms)) => first_hdr_candidate(byte_strings(candidates@)) matches Some(c)
                && spec_parse_complete_sei_unit(c) == Some((h@, messages_view(ms@))),
        },
{
    let ghost cs = byte_strings(candidates@);
    let mut j: usize = 0;
    assert(cs.skip(0) =~= cs);
    while j < candidates.len()
        invariant
            j <= candidates.len(),
            cs == byte_strings(candidates@),
            first_hdr_candidate(cs) == first_hdr_candidate(cs.skip(j as int)),
        decreases candidates.len() - j,
    {
        assert(cs.skip(j as int)[0] == candidates@[j as int]@);
        assert(cs.skip(j as int).drop_first() =~= cs.skip(j + 1));
        match parse_complete_sei_unit(candidates[j].as_slice()) {
            None => {},
            Some((header, messages)) => {
                if any_recognized(&messages) {
                    proof {
                        let ms = messages_view(messages@);
                        let w = choose|k: int| 0 <= k < messages@.len() && #[trigger] spec_is_recognized_hdr_message(ms[k]);
                        assert(0 <= w < ms.len() && spec_is_recognized_hdr_message(ms[w]));
                        assert(cs[j as int] == candidates@[j as int]@);
                        assert(spec_parse_complete_sei_unit(cs[j as int]) == Some((header@, ms)));
                        let parsed = spec_parse_complete_sei_unit(cs[j as int]);
                        assert(parsed.unwrap().1 == ms);
                        assert(spec_is_recognized_hdr_message(parsed.unwrap().1[w]));
                        assert(is_hdr_candidate(cs[j as int]));
                        assert(first_hdr_candidate(cs.skip(j as int)) == Some(cs[j as int]));
                    }
                    return Some((header, messages));
                }
            },
        }
        j += 1;
    }
    assert(cs.skip(j as int) =~= Seq::<Seq<u8>>::empty());
    None
}

/// Whether `u` is an Annex B prefix or suffix SEI NAL unit.
pub open spec fn is_sei_unit(u: Seq<u8>) -> bool {
    &&& spec_start_code_length(u) is Some
    &&& spec_hevc_nal_type(u) matches Some(t) && (t == NAL_PREFIX_SEI || t == NAL_SUFFIX_SEI)
}

/// Recovers an HDR SEI unit from its decryptions: `decrypted[k]` is the
/// unit decrypted with the `k`-th trailer length of
/// `hdr_trailer_sizes(default_trailer_size)`, one per length. The first
/// reading that parses as an SEI unit with a recognized HDR message is
/// normalized and written out in canonical form.
pub fn decrypt_hdr_sei_unit(unit: &[u8], decrypted: &Vec<Vec<u8>>, default_trailer_size: usize) -> (r: Option<Vec<u8>>)
    requires
        is_sei_unit(unit@) ==> decrypted@.len() == spec_hdr_trailer_sizes(default_trailer_size).len(),
    ensures
        r is Some ==> is_sei_unit(unit@),
        match r {
            None => spec_decrypt_hdr_sei_unit(unit@, byte_strings(decrypted@)) is None,
            Some(v) => spec_decrypt_hdr_sei_unit(unit@, byte_strings(decrypted@)) == Some(v@),
        },
{
    let original_start_code_length = start_code_length(unit)?;
    let nal_type = hevc_nal_type(unit)?;
    if nal_type != NAL_PREFIX_SEI && nal_type != NAL_SUFFIX_SEI {
        return None;
    }
    let ghost ds = byte_strings(decrypted@);
    let ghost osl = original_start_code_length as int;
    let mut i: usize = 0;
    assert(ds.skip(0) =~= ds);
    while i < decrypted.len()
        invariant
            i <= decrypted.len(),
            ds == byte_strings(decrypted@),
            osl == original_start_code_length,
            osl == 3 || osl == 4,
            spec_decrypt_hdr_sei_unit(unit@, ds) == match first_hdr_reading(ds.skip(i as int), osl) {
                None => None,
                Some(c) => match spec_parse_complete_sei_unit(c) {
                    None => None,
                    Some((h, ms)) => match spec_normalize_hdr_messages(ms) {
                        None => None,
                        Some(n) => Some(spec_build_canonical_sei_unit(h, n)),
                    },
                },
            },
        decreases decrypted.len() - i,
    {
        assert(ds.skip(i as int)[0] == decrypted@[i as int]@);
        assert(ds.skip(i as int).drop_first() =~= ds.skip(i + 1));
        let candidates = normalized_candidates(decrypted[i].as_slice(), original_start_code_length);
        match first_hdr_in(&candidates) {
            None => {},
            Some((header, messages)) => {
                let normalized = match normalize_hdr_messages(messages.as_slice()) {
                    None => {
                        return None;
                    },
                    Some(n) => n,
                };
                return Some(build_canonical_sei_unit(header, normalized.as_slice()));
            },
        }
        i += 1;
    }
    assert(ds.skip(i as int) =~= Seq::<Seq<u8>>::empty());
    None
}

/// Reading back a big-endian 16-bit value gives what was written there.
pub proof fn lemma_be_u16_roundtrip(output: Seq<u8>, offset: int, value: u16)
    requires
        0 <= offset,
        offset + 2 <= output.len(),
    ensures
        spec_be_u16(spec_write_be_u16(output, offset, value), offset) == Some(value),
{
    let w = spec_write_be_u16(output, offset, value);
    assert(w[offset] == (value / 256) as u8);
    assert(w[offset + 1] == (value % 256) as u8);
}

/// Writing a big-endian value that is already there changes nothing.
proof fn lemma_write_same(output: Seq<u8>, offset: int, value: u16)
    requires
        0 <= offset,
        offset + 2 <= output.len(),
        spec_be_u16(output, offset) == Some(value),
    ensures
        spec_write_be_u16(output, offset, value) == output,
{
    let hi = output[offset];
    let lo = output[offset + 1];
    assert((hi * 256 + lo) as u16 == value);
    assert(hi == (value / 256) as u8 && lo == (value % 256) as u8) by (nonlinear_arith)
        requires
            (hi * 256 + lo) as u16 == value,
            hi < 256,
            lo < 256,
    ;
    assert(spec_write_be_u16(output, offset, value) =~= output);
}

/// The eight coordinates that `canonical_mastering_coords` writes.
pub open spec fn canonical_coord(prim: [(u16, u16); 3], i: int) -> u16 {
    if i == 0 {
        prim[0].0
    } else if i == 1 {
        prim[0].1
    } else if i == 2 {
        prim[1].0
    } else if i == 3 {
        prim[1].1
    } else if i == 4 {
        prim[2].0
    } else if i == 5 {
        prim[2].1
    } else if i == 6 {
        D65_WHITE_POINT_X
    } else {
        D65_WHITE_POINT_Y
    }
}

proof fn lemma_canonical_coords(p: Seq<u8>, prim: [(u16, u16); 3])
    requires
        p.len() == 24,
    ensures
        canonical_mastering_coords(p, prim).len() == 24,
        forall|i: int| 0 <= i < 8 ==> #[trigger] md_coord(canonical_mastering_coords(p, prim), i)
            == canonical_coord(prim, i),
        spec_be_u32(canonical_mastering_coords(p, prim), 16) == spec_be_u32(p, 16),
        spec_be_u32(canonical_mastering_coords(p, prim), 20) == spec_be_u32(p, 20),
{
    let q = canonical_mastering_coords(p, prim);
    let a = spec_write_be_u16(p, 0, prim[0].0);
    let b = spec_write_be_u16(a, 2, prim[0].1);
    let c = spec_write_be_u16(b, 4, prim[1].0);
    let d = spec_write_be_u16(c, 6, prim[1].1);
    let e = spec_write_be_u16(d, 8, prim[2].0);
    let f = spec_write_be_u16(e, 10, prim[2].1);
    let g = spec_write_be_u16(f, 12, D65_WHITE_POINT_X);
    assert(q == spec_write_be_u16(g, 14, D65_WHITE_POINT_Y));
    assert forall|i: int| 0 <= i < 8 implies #[trigger] md_coord(q, i) == canonical_coord(prim, i) by {
        assert(q[2 * i] == (canonical_coord(prim, i) / 256) as u8);
        assert(q[2 * i + 1] == (canonical_coord(prim, i) % 256) as u8);
    }
    assert forall|k: int| 16 <= k < 24 implies #[trigger] q[k] == p[k] by {}
}

/// Normalizing a mastering display payload twice gives what normalizing
/// it once gives.
pub proof fn lemma_normalize_mastering_idempotent(p: Seq<u8>)
    requires
        spec_normalize_mastering_display(p) is Some,
    ensures
        spec_normalize_mastering_display(spec_normalize_mastering_display(p).unwrap())
            == spec_normalize_mastering_display(p),
{
    let m = spec_parse_mastering_display(p).unwrap();
    let gamut = spec_classify_mastering_gamut(m);
    let d65 = spec_coordinate_near(m.white_point.0, D65_WHITE_POINT_X, WHITE_POINT_TOLERANCE)
        && spec_coordinate_near(m.white_point.1, D65_WHITE_POINT_Y, WHITE_POINT_TOLERANCE);
    if d65 && gamut != MasteringGamut::Custom {
        let prim = if gamut == MasteringGamut::DisplayP3 {
            display_p3_primaries()
        } else {
            bt2020_primaries()
        };
        let q = canonical_mastering_coords(p, prim);
        assert(spec_normalize_mastering_display(p) == Some(q));
        lemma_canonical_coords(p, prim);
        let m2 = spec_parse_mastering_display(q);
        assert(md_coord(q, 0) == canonical_coord(prim, 0));
        assert(md_coord(q, 1) == canonical_coord(prim, 1));
        assert(md_coord(q, 2) == canonical_coord(prim, 2));
        assert(md_coord(q, 3) == canonical_coord(prim, 3));
        assert(md_coord(q, 4) == canonical_coord(prim, 4));
        assert(md_coord(q, 5) == canonical_coord(prim, 5));
        assert(md_coord(q, 6) == canonical_coord(prim, 6));
        assert(md_coord(q, 7) == canonical_coord(prim, 7));
        assert(m2 is Some);
        let mm = m2.unwrap();
        assert(mm.primaries == prim);
        assert(mm.white_point == (D65_WHITE_POINT_X, D65_WHITE_POINT_Y));
        assert(spec_classify_mastering_gamut(mm) == gamut);
        lemma_canonical_fixed(q, prim);
    }
}

proof fn lemma_canonical_fixed(q: Seq<u8>, prim: [(u16, u16); 3])
    requires
        q.len() == 24,
        forall|i: int| 0 <= i < 8 ==> #[trigger] md_coord(q, i) == canonical_coord(prim, i),
    ensures
        canonical_mastering_coords(q, prim) == q,
{
    assert(md_coord(q, 0) == canonical_coord(prim, 0));
    lemma_write_same(q, 0, prim[0].0);
    assert(md_coord(q, 1) == canonical_coord(prim, 1));
    lemma_write_same(q, 2, prim[0].1);
    assert(md_coord(q, 2) == canonical_coord(prim, 2));
    lemma_write_same(q, 4, prim[1].0);
    assert(md_coord(q, 3) == canonical_coord(prim, 3));
    lemma_write_same(q, 6, prim[1].1);
    assert(md_coord(q, 4) == canonical_coord(prim, 4));
    lemma_write_same(q, 8, prim[2].0);
    assert(md_coord(q, 5) == canonical_coord(prim, 5));
    lemma_write_same(q, 10, prim[2].1);
    assert(md_coord(q, 6) == canonical_coord(prim, 6));
    lemma_write_same(q, 12, D65_WHITE_POINT_X);
    assert(md_coord(q, 7) == canonical_coord(prim, 7));
    lemma_write_same(q, 14, D65_WHITE_POINT_Y);
}

/// The preset primaries of a preset gamut.
pub open spec fn gamut_primaries(g: MasteringGamut) -> [(u16, u16); 3] {
    if g == MasteringGamut::DisplayP3 {
        display_p3_primaries()
    } else {
        bt2020_primaries()
    }
}

/// Normalizing a mastering display payload succeeds exactly when it
/// parses, keeps its length and its luminance bytes, and changes the
/// payload only when the white point is near D65 and the primaries near a
/// preset gamut, writing then that gamut's primaries and D65.
pub proof fn lemma_normalize_mastering_display(p: Seq<u8>)
    ensures
        spec_normalize_mastering_display(p) is Some <==> spec_parse_mastering_display(p) is Some,
        spec_normalize_mastering_display(p) matches Some(out) ==> {
            let m = spec_parse_mastering_display(p).unwrap();
            let g = spec_classify_mastering_gamut(m);
            &&& out.len() == 24
            &&& out.subrange(16, 24) == p.subrange(16, 24)
            &&& out != p ==> {
                &&& spec_coordinate_near(m.white_point.0, D65_WHITE_POINT_X, WHITE_POINT_TOLERANCE)
                &&& spec_coordinate_near(m.white_point.1, D65_WHITE_POINT_Y, WHITE_POINT_TOLERANCE)
                &&& g != MasteringGamut::Custom
                &&& forall|i: int| 0 <= i < 8 ==> #[trigger] md_coord(out, i) == canonical_coord(gamut_primaries(g), i)
            }
        },
{
    if spec_parse_mastering_display(p) is Some {
        let m = spec_parse_mastering_display(p).unwrap();
        let g = spec_classify_mastering_gamut(m);
        let d65 = spec_coordinate_near(m.white_point.0, D65_WHITE_POINT_X, WHITE_POINT_TOLERANCE)
            && spec_coordinate_near(m.white_point.1, D65_WHITE_POINT_Y, WHITE_POINT_TOLERANCE);
        if d65 && g != MasteringGamut::Custom {
            lemma_canonical_coords(p, gamut_primaries(g));
            let q = canonical_mastering_coords(p, gamut_primaries(g));
            assert(spec_normalize_mastering_display(p) == Some(q));
            assert(q.subrange(16, 24) =~= p.subrange(16, 24)) by {
                assert forall|k: int| 16 <= k < 24 implies q[k] == p[k] by {
                    lemma_canonical_tail(p, gamut_primaries(g), k);
                }
            }
        } else {
            assert(p.subrange(16, 24) =~= p.subrange(16, 24));
        }
    }
}

proof fn lemma_canonical_tail(p: Seq<u8>, prim: [(u16, u16); 3], k: int)
    requires
        p.len() == 24,
        16 <= k < 24,
    ensures
        canonical_mastering_coords(p, prim)[k] == p[k],
{
}

/// A user_data_registered_itu_t_t35 message (payload type 4) is recognized
/// HDR metadata exactly when it starts HDR Vivid version 1 metadata:
/// country code 0x26, provider code 0x0004, provider oriented code 0x0005,
/// system start code 0x01, in at least 13 bytes.
pub proof fn lemma_hdr_vivid_t35_recognized(payload: Seq<u8>)
    ensures
        spec_is_recognized_hdr_message((4u32, payload)) <==> {
            &&& payload.len() >= 13
            &&& payload[0] == 0x26
            &&& payload[1] == 0x00
            &&& payload[2] == 0x04
            &&& payload[3] == 0x00
            &&& payload[4] == 0x05
            &&& payload[5] == 0x01
        },
{
    if payload.len() >= 13 {
        let a = payload[1];
        let b = payload[2];
        let c = payload[3];
        let d = payload[4];
        assert(((a * 256 + b) as u16 == 4u16) <==> (a == 0 && b == 4)) by (nonlinear_arith)
            requires
                a < 256 && b < 256,
        ;
        assert(((c * 256 + d) as u16 == 5u16) <==> (c == 0 && d == 5)) by (nonlinear_arith)
            requires
                c < 256 && d < 256,
        ;
    }
}

/// An SEI unit that parses completely and holds an HDR Vivid version 1
/// T.35 message is a reading that HDR SEI recovery accepts.
pub proof fn lemma_sei_with_hdr_vivid_is_candidate(c: Seq<u8>, i: int)
    requires
        spec_parse_complete_sei_unit(c) is Some,
        0 <= i < spec_parse_complete_sei_unit(c).unwrap().1.len(),
        ({
            let m = spec_parse_complete_sei_unit(c).unwrap().1[i];
            &&& m.0 == 4
            &&& m.1.len() >= 13
            &&& m.1[0] == 0x26
            &&& m.1[1] == 0x00
            &&& m.1[2] == 0x04
            &&& m.1[3] == 0x00
            &&& m.1[4] == 0x05
            &&& m.1[5] == 0x01
        }),
    ensures
        is_hdr_candidate(c),
{
    let m = spec_parse_complete_sei_unit(c).unwrap().1[i];
    lemma_hdr_vivid_t35_recognized(m.1);
    assert(m == (4u32, m.1));
}

} // verus!
