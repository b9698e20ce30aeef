use crate::common::TS_PACKET_SIZE;
use crate::crypto::{decode_hex_16, hex16};
use std::collections::{HashMap, HashSet};
use vstd::prelude::*;
use vstd::std_specs::hash::*;

verus! {

broadcast use group_hash_axioms;

/// The fields of a transport stream packet header that the stream logic
/// reads.
#[derive(Clone, Copy, Debug, PartialEq, Eq, Structural)]
pub struct PacketInfo {
    pub pid: u16,
    pub payload_unit_start: bool,
    pub payload_offset: Option<usize>,
}

/// The 12-bit length field made of the low nibble of `hi` and `lo`.
pub open spec fn field12(hi: u8, lo: u8) -> int {
    (hi % 16) * 256 + lo
}

/// The 13-bit PID field made of the low five bits of `hi` and `lo`.
pub open spec fn field13(hi: u8, lo: u8) -> int {
    (hi % 32) * 256 + lo
}

/// The 12-bit length field in `hi` and `lo`.
pub fn read_field12(hi: u8, lo: u8) -> (r: usize)
    ensures
        r == field12(hi, lo),
{
    let h = (hi & 0x0f) as usize;
    assert(hi & 0x0f == hi % 16) by (bit_vector);
    assert((h << 8usize) | (lo as usize) == h * 256 + lo) by (bit_vector)
        requires
            h < 16,
    ;
    (h << 8) | lo as usize
}

/// The 13-bit PID field in `hi` and `lo`.
pub fn read_field13(hi: u8, lo: u8) -> (r: u16)
    ensures
        r == field13(hi, lo),
{
    let h = (hi & 0x1f) as u16;
    assert(hi & 0x1f == hi % 32) by (bit_vector);
    assert((h << 8u16) | (lo as u16) == h * 256 + lo) by (bit_vector)
        requires
            h < 32,
    ;
    (h << 8) | lo as u16
}

/// The adaptation field control bits of a packet header.
pub open spec fn adaptation_control(p: Seq<u8>) -> int {
    (p[3] as int / 16) % 4
}

/// What the header of a 188-byte packet that starts with the sync byte
/// says: its PID, its payload-unit-start flag, and where its payload
/// starts when it has one that fits in the packet.
pub open spec fn spec_packet_info(p: Seq<u8>) -> Option<PacketInfo> {
    if p.len() != TS_PACKET_SIZE || p[0] != 0x47 {
        None
    } else {
        let afc = adaptation_control(p);
        let has_af = afc == 2 || afc == 3;
        let offset = if has_af { 5 + p[4] } else { 4 };
        let payload_offset = if has_af && offset > TS_PACKET_SIZE {
            None
        } else if afc != 1 && afc != 3 {
            None
        } else {
            Some(offset as usize)
        };
        Some(
            PacketInfo {
                pid: field13(p[1], p[2]) as u16,
                payload_unit_start: (p[1] / 64) % 2 == 1,
                payload_offset,
            },
        )
    }
}

/// The header fields of a 188-byte packet (see `spec_packet_info`).
pub fn packet_info(packet: &[u8]) -> (r: Option<PacketInfo>)
    ensures
        r == spec_packet_info(packet@),
{
    if packet.len() != TS_PACKET_SIZE || packet[0] != 0x47 {
        return None;
    }
    let b1 = packet[1];
    let b3 = packet[3];
    let pid = read_field13(b1, packet[2]);
    let payload_unit_start = (b1 & 0x40) != 0;
    assert((b1 & 0x40 != 0) == ((b1 / 64) % 2 == 1)) by (bit_vector);
    let adaptation_field_control = (b3 >> 4) & 0x03;
    assert((b3 >> 4u8) & 0x03 == (b3 / 16) % 4) by (bit_vector);
    let mut payload_offset: usize = 4;
    if adaptation_field_control == 2 || adaptation_field_control == 3 {
        let adaptation_length = packet[payload_offset] as usize;
        payload_offset += 1 + adaptation_length;
        if payload_offset > TS_PACKET_SIZE {
            return Some(PacketInfo { pid, payload_unit_start, payload_offset: None });
        }
    }
    if adaptation_field_control != 1 && adaptation_field_control != 3 {
        return Some(PacketInfo { pid, payload_unit_start, payload_offset: None });
    }
    Some(PacketInfo { pid, payload_unit_start, payload_offset: Some(payload_offset) })
}

/// The bytes of a packet's payload that start a table section: the payload
/// after the pointer field when the packet starts a payload unit, the whole
/// payload otherwise; `None` where the packet has no usable payload.
pub open spec fn section_payload(p: Seq<u8>) -> Option<Seq<u8>> {
    match spec_packet_info(p) {
        None => None,
        Some(info) => match info.payload_offset {
            None => None,
            Some(off) => {
                let payload = p.skip(off as int);
                if !info.payload_unit_start {
                    Some(payload)
                } else if payload.len() == 0 || 1 + payload[0] > payload.len() {
                    None
                } else {
                    Some(payload.skip(1 + payload[0]))
                }
            },
        },
    }
}

/// The payload of `packet` after its pointer field, as `section_payload`.
pub fn packet_section_payload(packet: &[u8]) -> (r: Option<(usize, PacketInfo)>)
    ensures
        match section_payload(packet@) {
            None => r is None,
            Some(s) => r matches Some((start, info)) && start <= packet@.len() && s
                == packet@.skip(start as int) && Some(info) == spec_packet_info(packet@),
        },
{
    let info = match packet_info(packet) {
        Some(i) => i,
        None => {
            return None;
        },
    };
    let payload_offset = match info.payload_offset {
        Some(o) => o,
        None => {
            return None;
        },
    };
    if !info.payload_unit_start {
        return Some((payload_offset, info));
    }
    if payload_offset >= packet.len() {
        return None;
    }
    let pointer = packet[payload_offset] as usize;
    if 1 + pointer > packet.len() - payload_offset {
        return None;
    }
    proof {
        assert(packet@.skip(payload_offset as int).skip(1 + pointer) =~= packet@.skip(
            payload_offset + 1 + pointer,
        ));
    }
    Some((payload_offset + 1 + pointer, info))
}

/// The program map PIDs that a program association section lists from
/// byte `i` on, added in order to `m`; program number 0 is skipped.
pub open spec fn pat_entries(section: Seq<u8>, i: int, m: Map<u16, u16>) -> Map<u16, u16>
    decreases section.len() - i,
{
    let end = if section.len() >= 4 { section.len() - 4 } else { 0 };
    if i < 0 || i + 4 > end {
        m
    } else {
        let program_number = (section[i] * 256 + section[i + 1]) as u16;
        let pid = field13(section[i + 2], section[i + 3]) as u16;
        pat_entries(
            section,
            i + 4,
            if program_number != 0 {
                m.insert(program_number, pid)
            } else {
                m
            },
        )
    }
}

/// The program number to program map PID table of a PAT packet.
pub open spec fn spec_parse_pat(p: Seq<u8>) -> Map<u16, u16> {
    match section_payload(p) {
        None => Map::empty(),
        Some(payload) => {
            if spec_packet_info(p).unwrap().pid != 0 || payload.len() < 8 || payload[0] != 0x00 {
                Map::empty()
            } else {
                let section_end = 3 + field12(payload[1], payload[2]);
                if section_end > payload.len() || section_end < 12 {
                    Map::empty()
                } else {
                    pat_entries(payload.take(section_end), 8, Map::empty())
                }
            }
        },
    }
}

/// The program number to PMT PID map of a PAT packet.
pub fn parse_pat(packet: &[u8]) -> (r: HashMap<u16, u16>)
    ensures
        r@ == spec_parse_pat(packet@),
{
    let mut programs: HashMap<u16, u16> = HashMap::new();
    let (start, info) = match packet_section_payload(packet) {
        Some(x) => x,
        None => {
            return programs;
        },
    };
    if info.pid != 0 {
        return programs;
    }
    let ghost payload = packet@.skip(start as int);
    let len = packet.len() - start;
    if len < 8 || packet[start] != 0x00 {
        return programs;
    }
    let section_end = 3 + read_field12(packet[start + 1], packet[start + 2]);
    if section_end > len {
        return programs;
    }
    if section_end < 12 {
        return programs;
    }
    let ghost section = payload.take(section_end as int);
    let end = section_end - 4;
    let mut i: usize = 8;
    while i + 4 <= end
        invariant
            8 <= i <= section_end,
            section_end <= 4098,
            end == section_end - 4,
            start + section_end <= packet.len(),
            section == packet@.subrange(start as int, start + section_end),
            pat_entries(section, i as int, programs@) == pat_entries(section, 8, Map::empty()),
        decreases section_end - i,
    {
        let program_number = ((packet[start + i] as u16) << 8) | packet[start + i + 1] as u16;
        let hi = packet[start + i] as u16;
        let lo = packet[start + i + 1] as u16;
        assert((hi << 8u16) | lo == hi * 256 + lo) by (bit_vector)
            requires
                hi < 256,
                lo < 256,
        ;
        let program_map_pid = read_field13(packet[start + i + 2], packet[start + i + 3]);
        if program_number != 0 {
            programs.insert(program_number, program_map_pid);
        }
        i += 4;
    }
    programs
}

/// Adds the program map PIDs that a PAT packet lists to `set`.
pub fn add_program_map_pids(set: &mut HashSet<u16>, packet: &[u8])
    ensures
        final(set)@ == old(set)@.union(spec_parse_pat(packet@).values()),
{
    let programs = parse_pat(packet);
    let ghost start = set@;
    let ghost vals = programs@.values();
    let ghost mut done: Set<u16> = Set::empty();
    for pid in it: programs.values()
        invariant
            start == old(set)@,
            vals == programs@.values(),
            forall|x: u16| #[trigger] vals.contains(x) ==> it.seq().unref().contains(x),
            it.seq().unref().to_set() == vals,
            forall|i: int| 0 <= i < it.index() ==> done.contains(*#[trigger] it.seq()[i]),
            forall|x: u16| #[trigger] done.contains(x) ==> vals.contains(x),
            set@ == start.union(done),
    {
        assert(it.seq()[it.index()] == pid);
        assert(it.seq().unref()[it.index()] == *pid);
        assert(it.seq().unref().to_set().contains(*pid));
        set.insert(*pid);
        proof {
            done = done.insert(*pid);
        }
        assert(set@ =~= start.union(done));
    }
    assert forall|x: u16| #[trigger] vals.contains(x) implies done.contains(x) by {
        assert(vals.contains(x));
    }
    assert(done =~= vals);
    assert(set@ =~= old(set)@.union(programs@.values()));
}


/// True when the descriptor loop from byte `i` on holds a registration
/// descriptor (tag 5) whose value is `DOVI`; the walk stops at the first
/// descriptor that overruns the loop.
pub open spec fn dovi_from(d: Seq<u8>, i: int) -> bool
    decreases d.len() - i,
{
    if i < 0 || i + 2 > d.len() {
        false
    } else {
        let tag = d[i];
        let size = d[i + 1] as int;
        if i + 2 + size > d.len() {
            false
        } else if tag == 0x05 && d.subrange(i + 2, i + 2 + size) == seq![0x44u8, 0x4Fu8, 0x56u8, 0x49u8] {
            true
        } else {
            dovi_from(d, i + 2 + size)
        }
    }
}

/// Whether a descriptor loop holds a `DOVI` registration descriptor.
pub fn has_dovi_registration(descriptors: &[u8]) -> (r: bool)
    ensures
        r == dovi_from(descriptors@, 0),
{
    let mut i: usize = 0;
    while descriptors.len() >= 2 && i <= descriptors.len() - 2
        invariant
            i <= descriptors.len(),
            dovi_from(descriptors@, i as int) == dovi_from(descriptors@, 0),
        decreases descriptors.len() - i,
    {
        let tag = descriptors[i];
        let size = descriptors[i + 1] as usize;
        if size > descriptors.len() - i - 2 {
            return false;
        }
        let ghost value = descriptors@.subrange(i + 2, i + 2 + size);
        if tag == 0x05 && size == 4 && descriptors[i + 2] == 0x44 && descriptors[i + 3] == 0x4F
            && descriptors[i + 4] == 0x56 && descriptors[i + 5] == 0x49 {
            assert(value =~= seq![0x44u8, 0x4Fu8, 0x56u8, 0x49u8]);
            return true;
        }
        assert(value != seq![0x44u8, 0x4Fu8, 0x56u8, 0x49u8] || tag != 0x05) by {
            if value == seq![0x44u8, 0x4Fu8, 0x56u8, 0x49u8] {
                assert(value.len() == 4);
                assert(value[0] == descriptors@[i + 2]);
                assert(value[1] == descriptors@[i + 3]);
                assert(value[2] == descriptors@[i + 4]);
                assert(value[3] == descriptors@[i + 5]);
            }
        }
        i += 2 + size;
    }
    false
}

/// Stream types that carry video: MPEG-1, MPEG-2, H.264 and HEVC.
pub open spec fn is_video_stream_type(t: u8) -> bool {
    t == 0x01 || t == 0x02 || t == 0x1b || t == 0x24
}

/// Whether a PMT stream type is MPEG-1/2, H.264 or HEVC video.
pub fn stream_type_is_video(stream_type: u8) -> (r: bool)
    ensures
        r == is_video_stream_type(stream_type),
{
    stream_type == 0x01 || stream_type == 0x02 || stream_type == 0x1b || stream_type == 0x24
}

/// The elementary PIDs, in order, that the stream loop of a program map
/// section lists from byte `i` on and that carry video or Dolby Vision.
pub open spec fn pmt_video_from(section: Seq<u8>, i: int) -> Seq<u16>
    decreases section.len() - i,
{
    let end = if section.len() >= 4 { section.len() - 4 } else { 0 };
    if i < 0 || i + 5 > end {
        seq![]
    } else {
        let stream_type = section[i];
        let pid = field13(section[i + 1], section[i + 2]) as u16;
        let info_len = field12(section[i + 3], section[i + 4]);
        if i + 5 + info_len > section.len() {
            seq![]
        } else {
            let descriptors = section.subrange(i + 5, i + 5 + info_len);
            let rest = pmt_video_from(section, i + 5 + info_len);
            if is_video_stream_type(stream_type) || (stream_type == 0x06 && dovi_from(descriptors, 0)) {
                seq![pid] + rest
            } else {
                rest
            }
        }
    }
}

/// The video PIDs that a PMT packet lists.
pub open spec fn spec_parse_pmt_video_pids(p: Seq<u8>) -> Seq<u16> {
    match section_payload(p) {
        None => seq![],
        Some(payload) => {
            if payload.len() < 12 || payload[0] != 0x02 {
                seq![]
            } else {
                let section_end = 3 + field12(payload[1], payload[2]);
                if section_end > payload.len() || section_end < 16 {
                    seq![]
                } else {
                    let section = payload.take(section_end);
                    pmt_video_from(section, 12 + field12(section[10], section[11]))
                }
            }
        },
    }
}

/// The video PIDs listed by a PMT packet, in order.
pub fn parse_pmt_video_pids(packet: &[u8]) -> (r: Vec<u16>)
    ensures
        r@ == spec_parse_pmt_video_pids(packet@),
{
    let mut video_pids: Vec<u16> = Vec::new();
    let (start, _info) = match packet_section_payload(packet) {
        Some(x) => x,
        None => {
            return video_pids;
        },
    };
    let ghost payload = packet@.skip(start as int);
    let len = packet.len() - start;
    if len < 12 || packet[start] != 0x02 {
        return video_pids;
    }
    let section_end = 3 + read_field12(packet[start + 1], packet[start + 2]);
    if section_end > len || section_end < 16 {
        return video_pids;
    }
    let ghost section = payload.take(section_end as int);
    assert(section =~= packet@.subrange(start as int, start + section_end));
    let program_info_length = read_field12(packet[start + 10], packet[start + 11]);
    let mut i: usize = 12 + program_info_length;
    let end = section_end - 4;
    while i + 5 <= end
        invariant
            section_end <= 4098,
            i <= 12 + 4095 + 4098,
            end == section_end - 4,
            start + section_end <= packet.len(),
            section == packet@.subrange(start as int, start + section_end),
            video_pids@ + pmt_video_from(section, i as int) == spec_parse_pmt_video_pids(packet@),
        decreases section_end + 8192 - i,
    {
        let stream_type = packet[start + i];
        let elementary_pid = read_field13(packet[start + i + 1], packet[start + i + 2]);
        let es_info_length = read_field12(packet[start + i + 3], packet[start + i + 4]);
        if i + 5 + es_info_length > section_end {
            assert(video_pids@ =~= spec_parse_pmt_video_pids(packet@));
            return video_pids;
        }
        let descriptors = &packet[start + i + 5..start + i + 5 + es_info_length];
        assert(descriptors@ =~= section.subrange(i + 5, i + 5 + es_info_length));
        let ghost before = video_pids@;
        if stream_type_is_video(stream_type) || (stream_type == 0x06 && has_dovi_registration(
            descriptors,
        )) {
            video_pids.push(elementary_pid);
            assert(video_pids@ == before + seq![elementary_pid]);
        }
        i += 5 + es_info_length;
    }
    assert(video_pids@ =~= spec_parse_pmt_video_pids(packet@));
    video_pids
}


/// True for printable ASCII bytes (space through `~`).
pub open spec fn is_printable(b: u8) -> bool {
    32 <= b <= 126
}

/// The printable ASCII bytes of `data`, in order.
pub open spec fn printable(data: Seq<u8>) -> Seq<u8>
    decreases data.len(),
{
    if data.len() == 0 {
        seq![]
    } else if is_printable(data.last()) {
        printable(data.drop_last()).push(data.last())
    } else {
        printable(data.drop_last())
    }
}

/// The printable ASCII bytes of `data`, in order.
pub fn printable_bytes(data: &[u8]) -> (r: Vec<u8>)
    ensures
        r@ == printable(data@),
{
    let mut out: Vec<u8> = Vec::new();
    let mut i: usize = 0;
    while i < data.len()
        invariant
            i <= data.len(),
            out@ == printable(data@.take(i as int)),
        decreases data.len() - i,
    {
        assert(data@.take(i + 1).drop_last() =~= data@.take(i as int));
        let value = data[i];
        if 32 <= value && value <= 126 {
            out.push(value);
        }
        i += 1;
    }
    assert(data@.take(i as int) =~= data@);
    out
}

/// True when `text` holds a key marker `|v<32 hex digits>|` at `i`.
pub open spec fn marker_at(text: Seq<u8>, i: int) -> bool {
    0 <= i && i + 35 <= text.len() && text[i] == 0x7C && text[i + 1] == 0x76 && text[i + 34]
        == 0x7C && hex16(text.subrange(i + 2, i + 34)) is Some
}

/// The key of the first marker in `text` at or after `i`.
pub open spec fn first_marker_from(text: Seq<u8>, i: int) -> Option<Seq<u8>>
    decreases text.len() - i,
{
    if i < 0 || i + 35 > text.len() {
        None
    } else if marker_at(text, i) {
        hex16(text.subrange(i + 2, i + 34))
    } else {
        first_marker_from(text, i + 1)
    }
}

/// The key of the first `|v<32 hex digits>|` marker among the printable
/// bytes of `data`.
pub open spec fn spec_hex_marker_key(data: Seq<u8>) -> Option<Seq<u8>> {
    first_marker_from(printable(data), 0)
}

/// The key in the first `|v` + 32 hex digits + `|` marker of the printable text.
pub fn extract_hex_marker_key(data: &[u8]) -> (r: Option<[u8; 16]>)
    ensures
        r is Some <==> spec_hex_marker_key(data@) is Some,
        r matches Some(k) ==> k@ == spec_hex_marker_key(data@).unwrap(),
{
    let text = printable_bytes(data);
    if text.len() < 35 {
        return None;
    }
    let mut i: usize = 0;
    while i <= text.len() - 35
        invariant
            text.len() >= 35,
            i <= text.len() - 34,
            first_marker_from(text@, i as int) == spec_hex_marker_key(data@),
            text@ == printable(data@),
        decreases text.len() - i,
    {
        if text[i] == 0x7C && text[i + 1] == 0x76 && text[i + 34] == 0x7C {
            let candidate = &text[i + 2..i + 34];
            assert(candidate@ =~= text@.subrange(i + 2, i + 34));
            if let Some(key) = decode_hex_16(candidate) {
                return Some(key);
            }
        }
        i += 1;
    }
    None
}

/// The key marker carried by a packet after its 4-byte header.
pub open spec fn spec_packet_block_key(p: Seq<u8>) -> Option<Seq<u8>> {
    if p.len() <= 4 {
        None
    } else {
        spec_hex_marker_key(p.skip(4))
    }
}

/// The marker key carried in a packet after its 4-byte header.
pub fn extract_packet_block_key(packet: &[u8]) -> (r: Option<[u8; 16]>)
    ensures
        r is Some <==> spec_packet_block_key(packet@) is Some,
        r matches Some(k) ==> k@ == spec_packet_block_key(packet@).unwrap(),
{
    if packet.len() <= 4 {
        None
    } else {
        let rest = &packet[4..packet.len()];
        assert(rest@ =~= packet@.skip(4));
        extract_hex_marker_key(rest)
    }
}

/// The stream type of every elementary PID that the stream loop of a
/// program map section lists from byte `pos` on, added in order to `m`.
pub open spec fn pmt_streams_from(section: Seq<u8>, end: int, pos: int, m: Map<u16, u8>) -> Map<u16, u8>
    decreases (if pos <= section.len() { section.len() - pos + 1 } else { 0 }),
{
    let limit = if end >= 4 { end - 4 } else { 0 };
    if pos < 0 || pos + 5 > limit || limit > section.len() {
        m
    } else {
        let stream_type = section[pos];
        let pid = field13(section[pos + 1], section[pos + 2]) as u16;
        let info_len = field12(section[pos + 3], section[pos + 4]);
        pmt_streams_from(section, end, pos + 5 + info_len, m.insert(pid, stream_type))
    }
}

/// The elementary PID to stream type table of a complete PMT section.
pub open spec fn spec_parse_pmt_streams_map(section: Seq<u8>) -> Map<u16, u8> {
    if section.len() < 12 || section[0] != 0x02 {
        Map::empty()
    } else {
        let end = 3 + field12(section[1], section[2]);
        if end > section.len() {
            Map::empty()
        } else {
            pmt_streams_from(section, end, 12 + field12(section[10], section[11]), Map::empty())
        }
    }
}

/// The PID to stream type map of a complete PMT section.
pub fn parse_pmt_streams_map(section: &[u8]) -> (r: HashMap<u16, u8>)
    ensures
        r@ == spec_parse_pmt_streams_map(section@),
{
    let mut streams: HashMap<u16, u8> = HashMap::new();
    if section.len() < 12 || section[0] != 0x02 {
        return streams;
    }
    let end = 3 + read_field12(section[1], section[2]);
    if end > section.len() {
        return streams;
    }
    let mut pos = 12 + read_field12(section[10], section[11]);
    let limit = if end >= 4 { end - 4 } else { 0 };
    while pos + 5 <= limit
        invariant
            end <= 4098,
            end <= section.len(),
            limit == (if end >= 4 { end - 4 } else { 0 }),
            pos <= 4098 + 8192,
            pmt_streams_from(section@, end as int, pos as int, streams@)
                == spec_parse_pmt_streams_map(section@),
        decreases 4098 + 8192 - pos,
    {
        let stream_type = section[pos];
        let elementary_pid = read_field13(section[pos + 1], section[pos + 2]);
        let es_info_length = read_field12(section[pos + 3], section[pos + 4]);
        streams.insert(elementary_pid, stream_type);
        pos += 5 + es_info_length;
    }
    streams
}


/// The state of a section assembler: the bytes gathered so far, the
/// section length once known, and whether a section is being gathered.
pub ghost struct PsiState {
    pub buf: Seq<u8>,
    pub expected_total: Option<usize>,
    pub collecting: bool,
}

/// Gathers one table section from the payloads of consecutive packets.
pub struct PSIAssembler {
    buf: Vec<u8>,
    expected_total: Option<usize>,
    collecting: bool,
}

/// The assembler state that holds no partial section.
pub open spec fn psi_idle() -> PsiState {
    PsiState { buf: seq![], expected_total: None, collecting: false }
}

/// One step of section assembly: the state after `p` and the section that
/// `p` completes, if any.
pub open spec fn psi_push(s: PsiState, p: Seq<u8>) -> (PsiState, Option<Seq<u8>>) {
    match spec_packet_info(p) {
        None => (s, None),
        Some(info) => match info.payload_offset {
            None => (s, None),
            Some(off) => {
                if off >= TS_PACKET_SIZE {
                    (s, None)
                } else {
                    let raw = p.skip(off as int);
                    if info.payload_unit_start && 1 + raw[0] > raw.len() {
                        (s, None)
                    } else {
                        let (payload, s1) = if info.payload_unit_start {
                            (raw.skip(1 + raw[0]), PsiState { buf: seq![], expected_total: None, collecting: true })
                        } else {
                            (raw, s)
                        };
                        if !s1.collecting {
                            (s1, None)
                        } else {
                            let buf = s1.buf + payload;
                            let expected = if s1.expected_total is None && buf.len() >= 3 {
                                Some((3 + field12(buf[1], buf[2])) as usize)
                            } else {
                                s1.expected_total
                            };
                            match expected {
                                Some(e) if buf.len() >= e => (psi_idle(), Some(buf.take(e as int))),
                                _ => (PsiState { buf, expected_total: expected, collecting: true }, None),
                            }
                        }
                    }
                }
            },
        },
    }
}

/// The bytes of an optional byte vector.
pub open spec fn bytes_view(o: Option<Vec<u8>>) -> Option<Seq<u8>> {
    match o {
        Some(v) => Some(v@),
        None => None,
    }
}

impl PSIAssembler {
    pub closed spec fn state(&self) -> PsiState {
        PsiState { buf: self.buf@, expected_total: self.expected_total, collecting: self.collecting }
    }

    /// An assembler that gathers nothing yet.
    pub fn new() -> (r: Self)
        ensures
            r.state() == psi_idle(),
    {
        PSIAssembler { buf: Vec::new(), expected_total: None, collecting: false }
    }

    /// Takes in one packet; gives the section it completes, if any (see `psi_push`).
    pub fn push(&mut self, pkt: &[u8]) -> (r: Option<Vec<u8>>)
        ensures
            (final(self).state(), bytes_view(r)) == psi_push(old(self).state(), pkt@),
    {
        if pkt.len() != TS_PACKET_SIZE {
            return None;
        }
        let info = match packet_info(pkt) {
            Some(i) => i,
            None => {
                return None;
            },
        };
        let off = match info.payload_offset {
            Some(o) => o,
            None => {
                return None;
            },
        };
        if off >= TS_PACKET_SIZE {
            return None;
        }
        let mut start = off;
        let ghost raw = pkt@.skip(off as int);
        if info.payload_unit_start {
            let pointer = pkt[off] as usize;
            if 1 + pointer > TS_PACKET_SIZE - off {
                return None;
            }
            start = off + 1 + pointer;
            assert(raw.skip(1 + raw[0]) =~= pkt@.skip(start as int));
            self.buf.clear();
            self.expected_total = None;
            self.collecting = true;
        }
        if !self.collecting {
            return None;
        }
        let ghost before = self.buf@;
        let ghost s1 = self.state();
        let mut k = start;
        while k < TS_PACKET_SIZE
            invariant
                start <= k <= TS_PACKET_SIZE,
                pkt@.len() == TS_PACKET_SIZE,
                self.buf@ == before + pkt@.subrange(start as int, k as int),
                self.expected_total == s1.expected_total,
                self.collecting,
            decreases TS_PACKET_SIZE - k,
        {
            self.buf.push(pkt[k]);
            k += 1;
            assert(self.buf@ =~= before + pkt@.subrange(start as int, k as int));
        }
        assert(pkt@.subrange(start as int, k as int) =~= pkt@.skip(start as int));
        if self.expected_total.is_none() && self.buf.len() >= 3 {
            let section_length = read_field12(self.buf[1], self.buf[2]);
            self.expected_total = Some(3 + section_length);
        }
        if let Some(expected) = self.expected_total {
            if self.buf.len() >= expected {
                let mut section: Vec<u8> = Vec::new();
                let mut j: usize = 0;
                while j < expected
                    invariant
                        j <= expected <= self.buf.len(),
                        section@ == self.buf@.take(j as int),
                    decreases expected - j,
                {
                    section.push(self.buf[j]);
                    j += 1;
                    assert(section@ =~= self.buf@.take(j as int));
                }
                self.buf.clear();
                self.expected_total = None;
                self.collecting = false;
                assert(self.buf@ =~= Seq::<u8>::empty());
                return Some(section);
            }
        }
        None
    }
}


/// Length of the UTF-8 encoding of a `White_Space` character that `s`
/// starts with, or 0.
pub open spec fn ws_prefix_len(s: Seq<u8>) -> int {
    if s.len() >= 1 && ((9 <= s[0] <= 13) || s[0] == 32) {
        1
    } else if s.len() >= 2 && s[0] == 0xC2 && (s[1] == 0x85 || s[1] == 0xA0) {
        2
    } else if s.len() >= 3 && ((s[0] == 0xE1 && s[1] == 0x9A && s[2] == 0x80) || (s[0] == 0xE2
        && s[1] == 0x80 && ((0x80 <= s[2] <= 0x8A) || s[2] == 0xA8 || s[2] == 0xA9 || s[2]
        == 0xAF)) || (s[0] == 0xE2 && s[1] == 0x81 && s[2] == 0x9F) || (s[0] == 0xE3 && s[1]
        == 0x80 && s[2] == 0x80)) {
        3
    } else {
        0
    }
}

/// Length of the UTF-8 encoding of a `White_Space` character that `s`
/// ends with, or 0.
pub open spec fn ws_suffix_len(s: Seq<u8>) -> int {
    let n = s.len() as int;
    if n >= 1 && ((9 <= s[n - 1] <= 13) || s[n - 1] == 32) {
        1
    } else if n >= 2 && ws_prefix_len(s.subrange(n - 2, n)) == 2 {
        2
    } else if n >= 3 && ws_prefix_len(s.subrange(n - 3, n)) == 3 {
        3
    } else {
        0
    }
}

/// `s` without the UTF-8 encoded white space at its start.
pub open spec fn trim_start_bytes(s: Seq<u8>) -> Seq<u8>
    decreases s.len(),
{
    if ws_prefix_len(s) > 0 {
        trim_start_bytes(s.skip(ws_prefix_len(s)))
    } else {
        s
    }
}

/// `s` without the UTF-8 encoded white space at its end.
pub open spec fn trim_end_bytes(s: Seq<u8>) -> Seq<u8>
    decreases s.len(),
{
    if ws_suffix_len(s) > 0 {
        trim_end_bytes(s.take(s.len() - ws_suffix_len(s)))
    } else {
        s
    }
}

/// Index of the first `|` in `s` at or after `from`, or the length of `s`.
pub open spec fn next_bar(s: Seq<u8>, from: int) -> int
    decreases s.len() - from,
{
    if from >= s.len() {
        s.len() as int
    } else if from >= 0 && s[from] == 0x7C {
        from
    } else {
        next_bar(s, from + 1)
    }
}

/// True when `s` holds `mdcm|` somewhere.
pub open spec fn has_mdcm(s: Seq<u8>) -> bool {
    exists|i: int| 0 <= i && i + 5 <= s.len() && #[trigger] s.subrange(i, i + 5) == seq![0x6Du8, 0x64u8, 0x63u8, 0x6Du8, 0x7Cu8]
}

/// The IV that a service name of the form `...mdcm|...|...|<v?><32 hex>`
/// carries: its fourth `|`-separated field, white space trimmed, an optional
/// leading `v` or `V` dropped, must be 32 hex digits; the first 16 bytes
/// they denote. (On the raw bytes this gives what the same steps give on
/// the name decoded lossily as UTF-8.)
pub open spec fn service_name_iv(name: Seq<u8>) -> Option<Seq<u8>> {
    let b1 = next_bar(name, 0);
    let b2 = next_bar(name, b1 + 1);
    let b3 = next_bar(name, b2 + 1);
    if !has_mdcm(name) || b3 >= name.len() {
        None
    } else {
        let field = trim_end_bytes(trim_start_bytes(name.subrange(b3 + 1, next_bar(name, b3 + 1))));
        if field.len() == 0 {
            None
        } else {
            let hex = if field[0] == 0x76 || field[0] == 0x56 { field.skip(1) } else { field };
            hex16(hex)
        }
    }
}

/// The IV carried by the service name of a service descriptor body.
pub open spec fn service_descriptor_iv(body: Seq<u8>) -> Option<Seq<u8>> {
    let idx = 2 + body[1] as int;
    if body.len() < 3 || idx >= body.len() {
        None
    } else {
        let sn_len = body[idx] as int;
        if idx + 1 + sn_len > body.len() {
            None
        } else {
            service_name_iv(body.subrange(idx + 1, idx + 1 + sn_len))
        }
    }
}

/// The first IV carried by the descriptors of one service entry, read from
/// `dpos` on up to `dend` and before `limit`.
pub open spec fn sdt_descriptors_iv(s: Seq<u8>, limit: int, dpos: int, dend: int) -> Option<Seq<u8>>
    decreases s.len() - dpos,
{
    if dpos < 0 || dpos + 2 > dend || dpos + 2 > limit || limit > s.len() {
        None
    } else {
        let tag = s[dpos];
        let length = s[dpos + 1] as int;
        if dpos + 2 + length > s.len() {
            None
        } else {
            let body = s.subrange(dpos + 2, dpos + 2 + length);
            if tag == 0x48 && service_descriptor_iv(body) is Some {
                service_descriptor_iv(body)
            } else {
                sdt_descriptors_iv(s, limit, dpos + 2 + length, dend)
            }
        }
    }
}

/// The first IV carried by the service entries from `pos` on.
pub open spec fn sdt_services_iv(s: Seq<u8>, limit: int, pos: int) -> Option<Seq<u8>>
    decreases (if pos <= s.len() { s.len() - pos + 1 } else { 0 }),
{
    if pos < 0 || pos + 5 > limit || limit > s.len() {
        None
    } else {
        let dend = pos + 5 + field12(s[pos + 3], s[pos + 4]);
        match sdt_descriptors_iv(s, limit, pos + 5, dend) {
            Some(iv) => Some(iv),
            None => sdt_services_iv(s, limit, dend),
        }
    }
}

/// The first IV that a service description section carries in a service
/// name.
pub open spec fn spec_sdt_iv(section: Seq<u8>) -> Option<Seq<u8>> {
    if section.len() < 16 || section[0] != 0x42 {
        None
    } else {
        let end = 3 + field12(section[1], section[2]);
        if end > section.len() {
            None
        } else {
            sdt_services_iv(section, if end >= 4 { end - 4 } else { 0 }, 11)
        }
    }
}

fn ws_prefix(s: &[u8], from: usize, to: usize) -> (r: usize)
    requires
        from <= to <= s.len(),
    ensures
        r == ws_prefix_len(s@.subrange(from as int, to as int)),
{
    let ghost t = s@.subrange(from as int, to as int);
    let n = to - from;
    if n >= 1 && ((9 <= s[from] && s[from] <= 13) || s[from] == 32) {
        return 1;
    }
    if n >= 2 && s[from] == 0xC2 && (s[from + 1] == 0x85 || s[from + 1] == 0xA0) {
        return 2;
    }
    if n >= 3 {
        let (a, b, c) = (s[from], s[from + 1], s[from + 2]);
        if (a == 0xE1 && b == 0x9A && c == 0x80) || (a == 0xE2 && b == 0x80 && ((0x80 <= c && c
            <= 0x8A) || c == 0xA8 || c == 0xA9 || c == 0xAF)) || (a == 0xE2 && b == 0x81 && c
            == 0x9F) || (a == 0xE3 && b == 0x80 && c == 0x80) {
            return 3;
        }
    }
    0
}

fn ws_suffix(s: &[u8], from: usize, to: usize) -> (r: usize)
    requires
        from <= to <= s.len(),
    ensures
        r == ws_suffix_len(s@.subrange(from as int, to as int)),
{
    let ghost t = s@.subrange(from as int, to as int);
    let n = to - from;
    if n >= 1 && ((9 <= s[to - 1] && s[to - 1] <= 13) || s[to - 1] == 32) {
        return 1;
    }
    if n >= 2 && ws_prefix(s, to - 2, to) == 2 {
        assert(t.subrange(n - 2, n as int) =~= s@.subrange(to - 2, to as int));
        return 2;
    }
    if n >= 2 {
        assert(t.subrange(n - 2, n as int) =~= s@.subrange(to - 2, to as int));
    }
    if n >= 3 && ws_prefix(s, to - 3, to) == 3 {
        assert(t.subrange(n - 3, n as int) =~= s@.subrange(to - 3, to as int));
        return 3;
    }
    if n >= 3 {
        assert(t.subrange(n - 3, n as int) =~= s@.subrange(to - 3, to as int));
    }
    0
}

fn find_bar(s: &[u8], from: usize) -> (r: usize)
    requires
        from <= s.len(),
    ensures
        r == next_bar(s@, from as int),
        from <= r <= s.len(),
{
    let mut i = from;
    while i < s.len() && s[i] != 0x7C
        invariant
            from <= i <= s.len(),
            next_bar(s@, i as int) == next_bar(s@, from as int),
        decreases s.len() - i,
    {
        i += 1;
    }
    i
}

fn contains_mdcm(s: &[u8]) -> (r: bool)
    ensures
        r == has_mdcm(s@),
{
    let mut i: usize = 0;
    while s.len() >= 5 && i <= s.len() - 5
        invariant
            forall|j: int| 0 <= j < i && j + 5 <= s.len() ==> #[trigger] s@.subrange(j, j + 5) != seq![0x6Du8, 0x64u8, 0x63u8, 0x6Du8, 0x7Cu8],
        decreases s.len() - i,
    {
        if s[i] == 0x6D && s[i + 1] == 0x64 && s[i + 2] == 0x63 && s[i + 3] == 0x6D && s[i + 4]
            == 0x7C {
            assert(s@.subrange(i as int, i + 5) =~= seq![0x6Du8, 0x64u8, 0x63u8, 0x6Du8, 0x7Cu8]);
            return true;
        }
        assert(s@.subrange(i as int, i + 5) != seq![0x6Du8, 0x64u8, 0x63u8, 0x6Du8, 0x7Cu8]) by {
            let w = s@.subrange(i as int, i + 5);
            if w == seq![0x6Du8, 0x64u8, 0x63u8, 0x6Du8, 0x7Cu8] {
                assert(w[0] == s@[i as int] && w[1] == s@[i + 1] && w[2] == s@[i + 2] && w[3]
                    == s@[i + 3] && w[4] == s@[i + 4]);
            }
        }
        i += 1;
    }
    false
}

/// The IV that a service name carries, as `service_name_iv`.
fn service_name_iv_exec(name: &[u8]) -> (r: Option<[u8; 16]>)
    ensures
        r is Some <==> service_name_iv(name@) is Some,
        r matches Some(k) ==> k@ == service_name_iv(name@).unwrap(),
{
    if !contains_mdcm(name) {
        return None;
    }
    let b1 = find_bar(name, 0);
    if b1 == name.len() {
        return None;
    }
    let b2 = find_bar(name, b1 + 1);
    if b2 == name.len() {
        return None;
    }
    let b3 = find_bar(name, b2 + 1);
    if b3 == name.len() {
        return None;
    }
    let b4 = find_bar(name, b3 + 1);
    let mut start = b3 + 1;
    let ghost whole = name@.subrange(start as int, b4 as int);
    loop
        invariant
            b3 + 1 <= start <= b4 <= name.len(),
            trim_start_bytes(whole) == trim_start_bytes(name@.subrange(start as int, b4 as int)),
        ensures
            b3 + 1 <= start <= b4 <= name.len(),
            trim_start_bytes(whole) == name@.subrange(start as int, b4 as int),
        decreases b4 - start,
    {
        let w = ws_prefix(name, start, b4);
        if w == 0 {
            break;
        }
        assert(name@.subrange(start as int, b4 as int).skip(w as int) =~= name@.subrange(
            start + w,
            b4 as int,
        ));
        start += w;
    }
    let mut end = b4;
    loop
        invariant
            b3 + 1 <= start <= end <= b4 <= name.len(),
            trim_end_bytes(trim_start_bytes(whole)) == trim_end_bytes(
                name@.subrange(start as int, end as int),
            ),
        ensures
            b3 + 1 <= start <= end <= b4 <= name.len(),
            trim_end_bytes(trim_start_bytes(whole)) == name@.subrange(start as int, end as int),
        decreases end - start,
    {
        let w = ws_suffix(name, start, end);
        if w == 0 {
            break;
        }
        assert(name@.subrange(start as int, end as int).take(end - start - w) =~= name@.subrange(
            start as int,
            end - w,
        ));
        end -= w;
    }
    if start == end {
        return None;
    }
    if name[start] == 0x76 || name[start] == 0x56 {
        start += 1;
        assert(name@.subrange(start - 1, end as int).skip(1) =~= name@.subrange(
            start as int,
            end as int,
        ));
    }
    decode_hex_16(&name[start..end])
}

/// Reads the IV from the service names of a service description section:
/// the first 12 bytes of the first IV found, then 4 zero bytes, are
/// written to `ivec` and `true` is returned; otherwise `ivec` is left as
/// it was and `false` is returned.
pub fn parse_sdt_and_set_iv(section: &[u8], ivec: &mut [u8; 16]) -> (r: bool)
    ensures
        r == spec_sdt_iv(section@) is Some,
        r ==> final(ivec)@ == spec_sdt_iv(section@).unwrap().take(12) + seq![0u8, 0u8, 0u8, 0u8],
        !r ==> final(ivec)@ == old(ivec)@,
{
    if section.len() < 16 || section[0] != 0x42 {
        return false;
    }
    let end = 3 + read_field12(section[1], section[2]);
    if end > section.len() {
        return false;
    }
    let limit = if end >= 4 { end - 4 } else { 0 };
    let mut pos: usize = 11;
    while pos + 5 <= limit
        invariant
            end <= 4098,
            end <= section.len(),
            limit == (if end >= 4 { end - 4 } else { 0 }),
            pos <= 4098 + 8192,
            sdt_services_iv(section@, limit as int, pos as int) == spec_sdt_iv(section@),
            ivec@ == old(ivec)@,
        decreases 4098 + 8192 - pos,
    {
        let desc_loop_len = read_field12(section[pos + 3], section[pos + 4]);
        let mut dpos = pos + 5;
        let dend = dpos + desc_loop_len;
        while dpos + 2 <= dend && dpos + 2 <= limit
            invariant
                end <= 4098,
                end <= section.len(),
                limit == (if end >= 4 { end - 4 } else { 0 }),
                pos + 5 <= dpos,
                dpos <= 4098 + 256 + 2,
                dend == pos + 5 + desc_loop_len,
                desc_loop_len == field12(section@[pos + 3], section@[pos + 4]),
                sdt_services_iv(section@, limit as int, pos as int) == spec_sdt_iv(section@),
                sdt_descriptors_iv(section@, limit as int, dpos as int, dend as int)
                    == sdt_descriptors_iv(section@, limit as int, pos + 5, dend as int),
                ivec@ == old(ivec)@,
                dpos <= section.len(),
            ensures
                end <= 4098,
                end <= section.len(),
                limit == (if end >= 4 { end - 4 } else { 0 }),
                dend == pos + 5 + desc_loop_len,
                desc_loop_len == field12(section@[pos + 3], section@[pos + 4]),
                sdt_services_iv(section@, limit as int, pos as int) == spec_sdt_iv(section@),
                sdt_descriptors_iv(section@, limit as int, pos + 5, dend as int) is None,
                ivec@ == old(ivec)@,
            decreases section.len() - dpos,
        {
            let tag = section[dpos];
            let length = section[dpos + 1] as usize;
            let body_start = dpos + 2;
            if body_start + length > section.len() {
                break;
            }
            let body = &section[body_start..body_start + length];
            dpos = body_start + length;
            if tag == 0x48 && body.len() >= 3 {
                let provider_len = body[1] as usize;
                if 2 + provider_len < body.len() {
                    let sn_len_idx = 2 + provider_len;
                    let sn_len = body[sn_len_idx] as usize;
                    if sn_len_idx + 1 + sn_len <= body.len() {
                        let name = &body[sn_len_idx + 1..sn_len_idx + 1 + sn_len];
                        assert(name@ =~= body@.subrange(sn_len_idx + 1, sn_len_idx + 1 + sn_len));
                        if let Some(iv_bin) = service_name_iv_exec(name) {
                            let mut k: usize = 0;
                            while k < 16
                                invariant
                                    k <= 16,
                                    forall|j: int| 0 <= j < k ==> ivec@[j] == (if j < 12 { iv_bin@[j] } else { 0u8 }),
                                decreases 16 - k,
                            {
                                ivec[k] = if k < 12 { iv_bin[k] } else { 0 };
                                k += 1;
                            }
                            assert(ivec@ =~= iv_bin@.take(12) + seq![0u8, 0u8, 0u8, 0u8]);
                            return true;
                        }
                    }
                }
            }
        }
        pos = dend;
    }
    false
}

/// The payload a section assembler takes from a packet: whether the packet
/// starts a section, and its payload after the pointer field when it does;
/// `None` for a packet the assembler ignores.
pub open spec fn psi_payload(p: Seq<u8>) -> Option<(bool, Seq<u8>)> {
    match spec_packet_info(p) {
        None => None,
        Some(info) => match info.payload_offset {
            None => None,
            Some(off) => if off >= TS_PACKET_SIZE {
                None
            } else {
                let raw = p.skip(off as int);
                if info.payload_unit_start {
                    if 1 + raw[0] > raw.len() {
                        None
                    } else {
                        Some((true, raw.skip(1 + raw[0])))
                    }
                } else {
                    Some((false, raw))
                }
            },
        },
    }
}

/// Whether the assembler starts a section at packet `p`.
pub open spec fn starts_section(p: Seq<u8>) -> bool {
    psi_payload(p) matches Some((true, _))
}

/// The payloads that the assembler takes from a run of packets, joined.
pub open spec fn gathered(ps: Seq<Seq<u8>>) -> Seq<u8>
    decreases ps.len(),
{
    if ps.len() == 0 {
        Seq::empty()
    } else {
        gathered(ps.drop_last()) + match psi_payload(ps.last()) {
            Some((_, q)) => q,
            None => Seq::empty(),
        }
    }
}

/// The section length that gathered bytes announce, once three are there.
pub open spec fn announced_total(b: Seq<u8>) -> Option<usize> {
    if b.len() >= 3 {
        Some((3 + field12(b[1], b[2])) as usize)
    } else {
        None
    }
}

/// The states and outputs of an assembler fed a run of packets.
pub open spec fn psi_run(s: PsiState, ps: Seq<Seq<u8>>) -> (PsiState, Seq<Option<Seq<u8>>>)
    decreases ps.len(),
{
    if ps.len() == 0 {
        (s, Seq::empty())
    } else {
        let (s1, outs) = psi_run(s, ps.drop_last());
        let (s2, o) = psi_push(s1, ps.last());
        (s2, outs.push(o))
    }
}

/// A run that starts a section at its first packet and starts none after.
pub open spec fn one_section_run(ps: Seq<Seq<u8>>) -> bool {
    &&& ps.len() >= 1
    &&& starts_section(ps[0])
    &&& forall|k: int| 1 <= k < ps.len() ==> !starts_section(#[trigger] ps[k])
}

proof fn lemma_psi_run_prefix(s: PsiState, ps: Seq<Seq<u8>>)
    requires
        ps.len() >= 1,
    ensures
        psi_run(s, ps).1.len() == ps.len(),
        psi_run(s, ps).1.drop_last() == psi_run(s, ps.drop_last()).1,
        psi_run(s, ps) == ({
            let (s1, outs) = psi_run(s, ps.drop_last());
            let (s2, o) = psi_push(s1, ps.last());
            (s2, outs.push(o))
        }),
    decreases ps.len(),
{
    if ps.len() > 1 {
        lemma_psi_run_prefix(s, ps.drop_last());
    }
    assert(psi_run(s, ps).1.drop_last() =~= psi_run(s, ps.drop_last()).1);
}

proof fn lemma_psi_gather(s: PsiState, ps: Seq<Seq<u8>>)
    requires
        one_section_run(ps),
        forall|k: int| 0 <= k < ps.len() ==> (#[trigger] psi_run(s, ps).1[k]) is None,
    ensures
        psi_run(s, ps).0 == (PsiState {
            buf: gathered(ps),
            expected_total: announced_total(gathered(ps)),
            collecting: true,
        }),
        announced_total(gathered(ps)) matches Some(e) ==> gathered(ps).len() < e,
    decreases ps.len(),
{
    lemma_psi_run_prefix(s, ps);
    let p = ps.last();
    if ps.len() == 1 {
        assert(ps.drop_last() =~= Seq::<Seq<u8>>::empty());
        assert(gathered(ps.drop_last()) =~= Seq::<u8>::empty());
        assert(psi_run(s, ps).1[0] is None);
        let b = gathered(ps);
        assert(b =~= psi_payload(p).unwrap().1);
    } else {
        let pre = ps.drop_last();
        assert(one_section_run(pre)) by {
            assert forall|k: int| 1 <= k < pre.len() implies !starts_section(#[trigger] pre[k]) by {
                assert(pre[k] == ps[k]);
            }
            assert(pre[0] == ps[0]);
        }
        assert forall|k: int| 0 <= k < pre.len() implies (#[trigger] psi_run(s, pre).1[k]) is None by {
            assert(psi_run(s, pre).1[k] == psi_run(s, ps).1[k]);
        }
        lemma_psi_gather(s, pre);
        assert(!starts_section(ps[ps.len() - 1]));
        assert(psi_run(s, ps).1[ps.len() - 1] is None);
        let b0 = gathered(pre);
        match psi_payload(p) {
            None => {
                assert(gathered(ps) =~= b0);
            },
            Some((_, q)) => {
                let b = gathered(ps);
                assert(b =~= b0 + q);
                if b0.len() >= 3 {
                    assert(b[1] == b0[1] && b[2] == b0[2]);
                }
            },
        }
    }
}

proof fn lemma_psi_section_after_quiet(s: PsiState, ps: Seq<Seq<u8>>)
    requires
        one_section_run(ps),
        forall|k: int| 0 <= k < ps.len() - 1 ==> (#[trigger] psi_run(s, ps).1[k]) is None,
    ensures
        psi_run(s, ps).1.len() == ps.len(),
        psi_run(s, ps).1[ps.len() - 1] matches Some(sec) ==> {
            &&& gathered(ps).len() >= 3
            &&& sec == gathered(ps).take(announced_total(gathered(ps)).unwrap() as int)
            &&& psi_run(s, ps).0 == psi_idle()
        },
{
    lemma_psi_run_prefix(s, ps);
    let p = ps.last();
    if ps.len() == 1 {
        assert(ps.drop_last() =~= Seq::<Seq<u8>>::empty());
        assert(gathered(ps.drop_last()) =~= Seq::<u8>::empty());
        assert(gathered(ps) =~= psi_payload(p).unwrap().1);
    } else {
        let pre = ps.drop_last();
        assert(one_section_run(pre)) by {
            assert forall|k: int| 1 <= k < pre.len() implies !starts_section(#[trigger] pre[k]) by {
                assert(pre[k] == ps[k]);
            }
            assert(pre[0] == ps[0]);
        }
        assert forall|k: int| 0 <= k < pre.len() implies (#[trigger] psi_run(s, pre).1[k]) is None by {
            assert(psi_run(s, pre).1[k] == psi_run(s, ps).1[k]);
        }
        lemma_psi_gather(s, pre);
        assert(!starts_section(ps[ps.len() - 1]));
        let b0 = gathered(pre);
        match psi_payload(p) {
            None => {
                assert(gathered(ps) =~= b0);
            },
            Some((_, q)) => {
                let b = gathered(ps);
                assert(b =~= b0 + q);
                if b0.len() >= 3 {
                    assert(b[1] == b0[1] && b[2] == b0[2]);
                }
            },
        }
    }
}

/// The outputs of a run hold at most one section, and the assembler is
/// back to waiting for a section start after it.
proof fn lemma_psi_at_most_one(s: PsiState, ps: Seq<Seq<u8>>)
    requires
        one_section_run(ps),
    ensures
        psi_run(s, ps).1.len() == ps.len(),
        (forall|k: int| 0 <= k < ps.len() ==> (#[trigger] psi_run(s, ps).1[k]) is None) || ({
            &&& psi_run(s, ps).0 == psi_idle()
            &&& exists|j: int|
                0 <= j < ps.len() && (#[trigger] psi_run(s, ps).1[j]) is Some && forall|k: int|
                    0 <= k < ps.len() && k != j ==> (#[trigger] psi_run(s, ps).1[k]) is None
        }),
    decreases ps.len(),
{
    lemma_psi_run_prefix(s, ps);
    let outs = psi_run(s, ps).1;
    let n = ps.len() as int;
    if ps.len() == 1 {
        if outs[0] is Some {
            assert(psi_run(s, ps).0 == psi_idle());
            assert(outs[0] is Some && forall|k: int| 0 <= k < ps.len() && k != 0 ==> (#[trigger] outs[k]) is None);
        }
    } else {
        let pre = ps.drop_last();
        assert(one_section_run(pre)) by {
            assert forall|k: int| 1 <= k < pre.len() implies !starts_section(#[trigger] pre[k]) by {
                assert(pre[k] == ps[k]);
            }
            assert(pre[0] == ps[0]);
        }
        lemma_psi_at_most_one(s, pre);
        let pouts = psi_run(s, pre).1;
        assert forall|k: int| 0 <= k < n - 1 implies #[trigger] outs[k] == pouts[k] by {}
        assert(!starts_section(ps[n - 1]));
        if forall|k: int| 0 <= k < pre.len() ==> (#[trigger] pouts[k]) is None {
            if outs[n - 1] is Some {
                assert(psi_run(s, ps).0 == psi_idle());
                assert forall|k: int| 0 <= k < n && k != n - 1 implies (#[trigger] outs[k]) is None by {
                    assert(outs[k] == pouts[k]);
                }
                assert(outs[n - 1] is Some);
            } else {
                assert forall|k: int| 0 <= k < n implies (#[trigger] outs[k]) is None by {
                    if k < n - 1 {
                        assert(outs[k] == pouts[k]);
                    }
                }
            }
        } else {
            let j = choose|j: int|
                0 <= j < pre.len() && (#[trigger] pouts[j]) is Some && forall|k: int|
                    0 <= k < pre.len() && k != j ==> (#[trigger] pouts[k]) is None;
            assert(psi_run(s, pre).0 == psi_idle());
            assert(psi_push(psi_idle(), ps.last()) == (psi_idle(), None::<Seq<u8>>));
            assert(outs[n - 1] is None);
            assert(psi_run(s, ps).0 == psi_idle());
            assert(outs[j] == pouts[j]);
            assert forall|k: int| 0 <= k < n && k != j implies (#[trigger] outs[k]) is None by {
                if k < n - 1 {
                    assert(outs[k] == pouts[k]);
                }
            }
        }
    }
}

/// A section assembler fed packets that start a section at the first one
/// and at none after gives nothing before the section is complete: when the
/// last packet gives a section, no earlier one gave anything, the section is
/// the one that the gathered payloads announce, and the assembler returns
/// to waiting for the next section start.
pub proof fn lemma_psi_section(s: PsiState, ps: Seq<Seq<u8>>)
    requires
        one_section_run(ps),
    ensures
        psi_run(s, ps).1.len() == ps.len(),
        psi_run(s, ps).1[ps.len() - 1] matches Some(sec) ==> {
            &&& forall|k: int| 0 <= k < ps.len() - 1 ==> (#[trigger] psi_run(s, ps).1[k]) is None
            &&& gathered(ps).len() >= 3
            &&& sec == gathered(ps).take(announced_total(gathered(ps)).unwrap() as int)
            &&& psi_run(s, ps).0 == psi_idle()
        },
{
    lemma_psi_at_most_one(s, ps);
    let outs = psi_run(s, ps).1;
    let n = ps.len() as int;
    if outs[n - 1] is Some {
        if !(forall|k: int| 0 <= k < ps.len() ==> (#[trigger] outs[k]) is None) {
            let j = choose|j: int|
                0 <= j < ps.len() && (#[trigger] outs[j]) is Some && forall|k: int|
                    0 <= k < ps.len() && k != j ==> (#[trigger] outs[k]) is None;
            assert(j == n - 1);
        }
        assert forall|k: int| 0 <= k < ps.len() - 1 implies (#[trigger] outs[k]) is None by {}
        lemma_psi_section_after_quiet(s, ps);
    }
}

/// A packet of the wrong size leaves the assembler as it was and gives
/// nothing; an assembler waiting for a section start (as it is at first and
/// after giving a section) gives nothing for a packet that starts no
/// section, and keeps waiting.
pub proof fn lemma_psi_ignores(s: PsiState, p: Seq<u8>)
    ensures
        p.len() != TS_PACKET_SIZE ==> psi_push(s, p) == (s, None::<Seq<u8>>),
        !starts_section(p) ==> psi_push(psi_idle(), p) == (psi_idle(), None::<Seq<u8>>),
{
}

/// An assembler waiting for a section start gives nothing, and keeps
/// waiting, over a run of packets none of which starts a section.
pub proof fn lemma_psi_waits(ps: Seq<Seq<u8>>)
    requires
        forall|k: int| 0 <= k < ps.len() ==> !starts_section(#[trigger] ps[k]),
    ensures
        psi_run(psi_idle(), ps).0 == psi_idle(),
        psi_run(psi_idle(), ps).1.len() == ps.len(),
        forall|k: int| 0 <= k < ps.len() ==> (#[trigger] psi_run(psi_idle(), ps).1[k]) is None,
    decreases ps.len(),
{
    if ps.len() > 0 {
        let pre = ps.drop_last();
        assert forall|k: int| 0 <= k < pre.len() implies !starts_section(#[trigger] pre[k]) by {
            assert(pre[k] == ps[k]);
        }
        lemma_psi_waits(pre);
        lemma_psi_run_prefix(psi_idle(), ps);
        lemma_psi_ignores(psi_idle(), ps.last());
        assert(!starts_section(ps[ps.len() - 1]));
        let outs = psi_run(psi_idle(), ps).1;
        assert forall|k: int| 0 <= k < ps.len() implies (#[trigger] outs[k]) is None by {
            if k < ps.len() - 1 {
                assert(outs[k] == psi_run(psi_idle(), pre).1[k]);
            }
        }
    }
}

proof fn lemma_pmt_video_from_frame(a: Seq<u8>, b: Seq<u8>, lo: int, i: int)
    requires
        a.len() == b.len(),
        lo <= i,
        forall|j: int| lo <= j < a.len() ==> a[j] == b[j],
    ensures
        pmt_video_from(a, i) == pmt_video_from(b, i),
    decreases a.len() - i,
{
    let end = if a.len() >= 4 { a.len() - 4 } else { 0 };
    if !(i < 0 || i + 5 > end) {
        let info_len = field12(a[i + 3], a[i + 4]);
        assert(a[i] == b[i] && a[i + 1] == b[i + 1] && a[i + 2] == b[i + 2] && a[i + 3] == b[i + 3] && a[i
            + 4] == b[i + 4]);
        if i + 5 + info_len <= a.len() {
            assert(a.subrange(i + 5, i + 5 + info_len) =~= b.subrange(i + 5, i + 5 + info_len));
            lemma_pmt_video_from_frame(a, b, lo, i + 5 + info_len);
        }
    }
}

/// The program-level descriptors of a PMT do not change the video PIDs it
/// lists: the stream loop starts after them, 12 + program_info_length
/// bytes into the section. Two PMT packets whose sections differ only
/// inside the program descriptors list the same video PIDs.
pub proof fn lemma_pmt_video_pids_skip_program_descriptors(p: Seq<u8>, q: Seq<u8>)
    requires
        section_payload(p) is Some,
        section_payload(q) is Some,
        section_payload(p).unwrap().len() == section_payload(q).unwrap().len(),
        forall|j: int|
            0 <= j < section_payload(p).unwrap().len() && !(12 <= j < 12 + field12(
                section_payload(p).unwrap()[10],
                section_payload(p).unwrap()[11],
            )) ==> #[trigger] section_payload(p).unwrap()[j] == section_payload(q).unwrap()[j],
    ensures
        spec_parse_pmt_video_pids(p) == spec_parse_pmt_video_pids(q),
{
    let a = section_payload(p).unwrap();
    let b = section_payload(q).unwrap();
    if a.len() >= 12 {
        assert(a[0] == b[0] && a[1] == b[1] && a[2] == b[2] && a[10] == b[10] && a[11] == b[11]);
        let section_end = 3 + field12(a[1], a[2]);
        if !(a[0] != 0x02 || section_end > a.len() || section_end < 16) {
            let sa = a.take(section_end);
            let sb = b.take(section_end);
            let start = 12 + field12(a[10], a[11]);
            assert(sa[10] == a[10] && sa[11] == a[11] && sb[10] == b[10] && sb[11] == b[11]);
            assert forall|j: int| start <= j < sa.len() implies sa[j] == sb[j] by {
                assert(a[j] == b[j]);
            }
            lemma_pmt_video_from_frame(sa, sb, start, start);
        }
    }
}

/// When the first entry of a PMT's stream loop, 12 + program_info_length
/// bytes into the section, is an MPEG-1, MPEG-2, H.264 or HEVC stream that
/// fits before the CRC, its PID is the first video PID listed.
pub proof fn lemma_pmt_first_video_entry_listed(p: Seq<u8>)
    requires
        section_payload(p) is Some,
        ({
            let a = section_payload(p).unwrap();
            let section_end = 3 + field12(a[1], a[2]);
            let i = 12 + field12(a[10], a[11]);
            &&& a.len() >= 12
            &&& a[0] == 0x02
            &&& 16 <= section_end <= a.len()
            &&& i + 5 + field12(a[i + 3], a[i + 4]) <= section_end - 4
            &&& (a[i] == 0x01 || a[i] == 0x02 || a[i] == 0x1b || a[i] == 0x24)
        }),
    ensures
        ({
            let a = section_payload(p).unwrap();
            let i = 12 + field12(a[10], a[11]);
            &&& spec_parse_pmt_video_pids(p).len() >= 1
            &&& spec_parse_pmt_video_pids(p)[0] == field13(a[i + 1], a[i + 2]) as u16
        }),
{
    let a = section_payload(p).unwrap();
    let section_end = 3 + field12(a[1], a[2]);
    let sec = a.take(section_end);
    let i = 12 + field12(a[10], a[11]);
    assert(sec[10] == a[10] && sec[11] == a[11]);
    assert(sec[i] == a[i] && sec[i + 1] == a[i + 1] && sec[i + 2] == a[i + 2] && sec[i + 3] == a[i + 3]
        && sec[i + 4] == a[i + 4]);
}

} // verus!
