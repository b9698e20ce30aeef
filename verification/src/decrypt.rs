use crate::common::TS_PACKET_SIZE;
use crate::crypto::{iv_from, iv_from_key, AesBlockEncryptor};
use crate::hevc::{decrypt_pes_normal, lemma_decrypt_pes_keeps_length, spec_decrypt_pes_normal};
use crate::nal::extend_bytes;
use crate::ts::{
    add_program_map_pids, extract_packet_block_key, packet_info, parse_pmt_video_pids,
    parse_sdt_and_set_iv, parse_pmt_streams_map, psi_idle, psi_push, spec_packet_block_key, spec_packet_info,
    spec_parse_pat, spec_parse_pmt_streams_map, spec_parse_pmt_video_pids, spec_sdt_iv,
    PSIAssembler, PsiState,
};
use std::collections::{HashMap, HashSet};
use vstd::prelude::*;
use vstd::std_specs::hash::*;

verus! {

broadcast use group_hash_axioms;

/// Sync byte that starts every transport stream packet.
pub const SYNC: u8 = 0x47;
/// PID of the program association table.
pub const PID_PAT: u16 = 0x0000;
/// PID of the service description table.
pub const PID_SDT: u16 = 0x0011;
/// Stream type assumed for a video PID whose type is not known (HEVC).
pub const DEFAULT_VIDEO_STREAM_TYPE: u8 = 0x24;
/// Marks that no PID has contributed to the buffered PES packet.
pub const NO_PID: u16 = 0xFFFF;

/// The header bytes of one buffered packet, up to its payload.
pub struct PESHeaderChunk {
    pub header_bytes: Vec<u8>,
    pub header_size: usize,
}

/// The adaptation field control bits of a packet header.
pub open spec fn header_afc(h: Seq<u8>) -> int {
    (h[3] as int / 16) % 4
}

/// A packet header as it is buffered: the four fixed bytes, and the
/// adaptation field when the control bits announce one, all before a
/// payload of at least one byte.
pub open spec fn header_ok(h: Seq<u8>) -> bool {
    &&& 4 <= h.len() < TS_PACKET_SIZE
    &&& (header_afc(h) == 1 && h.len() == 4) || (header_afc(h) == 3 && h.len() == 5 + h[4])
}

/// The payload room left in a packet after header `h`.
pub open spec fn chunk_cap(h: Seq<u8>) -> int {
    TS_PACKET_SIZE - h.len()
}

/// The payload room of all the headers.
pub open spec fn sum_caps(hs: Seq<Seq<u8>>) -> int
    decreases hs.len(),
{
    if hs.len() == 0 {
        0
    } else {
        chunk_cap(hs[0]) + sum_caps(hs.drop_first())
    }
}

/// The packets rebuilt from their headers and the PES bytes that fill
/// their payloads in turn.
pub open spec fn repack(hs: Seq<Seq<u8>>, buf: Seq<u8>) -> Seq<u8>
    decreases hs.len(),
{
    if hs.len() == 0 {
        Seq::empty()
    } else {
        let cap = chunk_cap(hs[0]);
        hs[0] + buf.take(cap) + repack(hs.drop_first(), buf.skip(cap))
    }
}

/// The abstract state of the stream decryptor.
pub ghost struct DecryptorView {
    pub key: Seq<u8>,
    pub ivec: Seq<u8>,
    pub state_ready: bool,
    pub pmt_pids: Set<u16>,
    pub target_pids: Set<u16>,
    pub stream_types: Map<u16, u8>,
    pub sdt: PsiState,
    pub pmt: PsiState,
    pub pes_buf: Seq<u8>,
    pub pes_headers: Seq<Seq<u8>>,
    pub iv_snap: Option<Seq<u8>>,
    pub last_pid: u16,
}

/// Every buffered header is well formed, the PES buffer fills their
/// payloads exactly, and packets are only buffered once the IV is known.
pub open spec fn view_wf(v: DecryptorView) -> bool {
    &&& forall|i: int| 0 <= i < v.pes_headers.len() ==> header_ok(#[trigger] v.pes_headers[i])
    &&& v.pes_buf.len() == sum_caps(v.pes_headers)
    &&& v.pes_headers.len() > 0 ==> v.state_ready
}

/// The stream type of the PID that filled the PES buffer, HEVC when not
/// known.
pub open spec fn last_stream_type(v: DecryptorView) -> u8 {
    if v.stream_types.contains_key(v.last_pid) {
        v.stream_types[v.last_pid]
    } else {
        DEFAULT_VIDEO_STREAM_TYPE
    }
}

/// The PES bytes to write out: decrypted when they form a video PES packet
/// with an IV, as they are otherwise.
pub open spec fn flushed_payload(v: DecryptorView) -> Seq<u8> {
    let buf = v.pes_buf;
    let sid = if buf.len() > 3 {
        buf[3]
    } else {
        0xE1u8
    };
    if (sid & 0xF0 == 0xE0 || sid == 0xE0) && buf.len() > 8 && v.iv_snap is Some {
        spec_decrypt_pes_normal(buf, last_stream_type(v), v.key, v.iv_snap.unwrap())
    } else {
        buf
    }
}

/// The state with an empty PES buffer.
pub open spec fn cleared(v: DecryptorView) -> DecryptorView {
    DecryptorView { pes_buf: Seq::empty(), pes_headers: Seq::empty(), iv_snap: None, last_pid: NO_PID, ..v }
}

/// Writing out the buffered PES packet: the packets that carried it, with
/// their payloads replaced by the (decrypted) PES bytes; nothing while no
/// IV is known.
pub open spec fn spec_flush(v: DecryptorView) -> (DecryptorView, Seq<u8>) {
    if v.pes_buf.len() == 0 || v.pes_headers.len() == 0 || !v.state_ready {
        (cleared(v), Seq::empty())
    } else {
        (cleared(v), repack(v.pes_headers, flushed_payload(v)))
    }
}

/// Decrypts a transport stream packet by packet: tables are read to find
/// the video PIDs and the IV, video packets are gathered into PES packets,
/// and each PES packet is decrypted and written back into the packets that
/// carried it.
pub struct StreamDecryptor {
    encryptor: AesBlockEncryptor,
    ivec: [u8; 16],
    state_ready: bool,
    pmt_pids: HashSet<u16>,
    target_pids: HashSet<u16>,
    stream_types: HashMap<u16, u8>,
    sdt_asm: PSIAssembler,
    pmt_asm: PSIAssembler,
    pes_buf: Vec<u8>,
    pes_headers: Vec<PESHeaderChunk>,
    iv_snap_for_pes: Option<[u8; 16]>,
    last_pid: u16,
}

/// The header bytes of buffered chunks.
pub open spec fn chunk_headers(cs: Seq<PESHeaderChunk>) -> Seq<Seq<u8>> {
    Seq::new(cs.len(), |i: int| cs[i].header_bytes@)
}

/// The IV of an optional IV block.
pub open spec fn iv_view(o: Option<[u8; 16]>) -> Option<Seq<u8>> {
    match o {
        Some(a) => Some(a@),
        None => None,
    }
}

impl StreamDecryptor {
    pub closed spec fn view(&self) -> DecryptorView {
        DecryptorView {
            key: self.encryptor.key(),
            ivec: self.ivec@,
            state_ready: self.state_ready,
            pmt_pids: self.pmt_pids@,
            target_pids: self.target_pids@,
            stream_types: self.stream_types@,
            sdt: self.sdt_asm.state(),
            pmt: self.pmt_asm.state(),
            pes_buf: self.pes_buf@,
            pes_headers: chunk_headers(self.pes_headers@),
            iv_snap: iv_view(self.iv_snap_for_pes),
            last_pid: self.last_pid,
        }
    }

    /// The header sizes are recorded right and the abstract state is well
    /// formed.
    pub closed spec fn wf(&self) -> bool {
        &&& forall|i: int| 0 <= i < self.pes_headers@.len() ==> #[trigger] self.pes_headers@[i].header_size
            == self.pes_headers@[i].header_bytes@.len()
        &&& view_wf(self@)
    }

    /// The number of packets whose payload is buffered.
    pub closed spec fn pending(&self) -> nat {
        self.pes_headers@.len()
    }

    /// A decryptor for the key `key`, with no IV known yet.
    pub fn new(key: &[u8; 16]) -> (r: Self)
        ensures
            r.wf(),
            r.pending() == 0,
            r@ == (DecryptorView {
                key: key@,
                ivec: seq![0u8; 16],
                state_ready: false,
                pmt_pids: Set::empty(),
                target_pids: Set::empty(),
                stream_types: Map::empty(),
                sdt: psi_idle(),
                pmt: psi_idle(),
                pes_buf: Seq::empty(),
                pes_headers: Seq::empty(),
                iv_snap: None,
                last_pid: NO_PID,
            }),
    {
        let r = StreamDecryptor {
            encryptor: AesBlockEncryptor::new(key),
            ivec: [0u8; 16],
            state_ready: false,
            pmt_pids: HashSet::new(),
            target_pids: HashSet::new(),
            stream_types: HashMap::new(),
            sdt_asm: PSIAssembler::new(),
            pmt_asm: PSIAssembler::new(),
            pes_buf: Vec::new(),
            pes_headers: Vec::new(),
            iv_snap_for_pes: None,
            last_pid: NO_PID,
        };
        assert(r@.ivec =~= seq![0u8; 16]);
        assert(r@.pes_headers =~= Seq::<Seq<u8>>::empty());
        r
    }
}

proof fn lemma_sum_caps_pos(hs: Seq<Seq<u8>>)
    requires
        forall|i: int| 0 <= i < hs.len() ==> header_ok(#[trigger] hs[i]),
    ensures
        sum_caps(hs) >= hs.len(),
    decreases hs.len(),
{
    if hs.len() > 0 {
        assert forall|i: int| 0 <= i < hs.drop_first().len() implies header_ok(#[trigger] hs.drop_first()[i]) by {
            assert(hs.drop_first()[i] == hs[i + 1]);
        }
        lemma_sum_caps_pos(hs.drop_first());
        assert(header_ok(hs[0]));
    }
}

proof fn lemma_repack_len(hs: Seq<Seq<u8>>, buf: Seq<u8>)
    requires
        forall|i: int| 0 <= i < hs.len() ==> header_ok(#[trigger] hs[i]),
        buf.len() == sum_caps(hs),
    ensures
        repack(hs, buf).len() == TS_PACKET_SIZE * hs.len(),
    decreases hs.len(),
{
    if hs.len() > 0 {
        assert forall|i: int| 0 <= i < hs.drop_first().len() implies header_ok(#[trigger] hs.drop_first()[i]) by {
            assert(hs.drop_first()[i] == hs[i + 1]);
        }
        lemma_sum_caps_pos(hs.drop_first());
        assert(header_ok(hs[0]));
        lemma_repack_len(hs.drop_first(), buf.skip(chunk_cap(hs[0])));
    }
}

/// Writes the packets that carried a PES packet, each with its header and
/// the next payload-sized piece of `buf`.
fn repack_chunks(headers: &Vec<PESHeaderChunk>, buf: &[u8]) -> (r: Vec<u8>)
    requires
        forall|i: int| 0 <= i < headers@.len() ==> #[trigger] headers@[i].header_size
            == headers@[i].header_bytes@.len(),
        forall|i: int|
            0 <= i < headers@.len() ==> header_ok(#[trigger] chunk_headers(headers@)[i]),
        buf@.len() == sum_caps(chunk_headers(headers@)),
    ensures
        r@ == repack(chunk_headers(headers@), buf@),
{
    let ghost hs = chunk_headers(headers@);
    let mut out: Vec<u8> = Vec::new();
    let mut pes_remain = buf.len();
    let mut pes_pos: usize = 0;
    let mut i: usize = 0;
    assert(hs.skip(0) =~= hs);
    assert(buf@.skip(0) =~= buf@);
    assert(out@ + repack(hs, buf@) =~= repack(hs, buf@));
    while i < headers.len()
        invariant
            hs == chunk_headers(headers@),
            forall|j: int| 0 <= j < headers@.len() ==> #[trigger] headers@[j].header_size
                == headers@[j].header_bytes@.len(),
            forall|j: int| 0 <= j < headers@.len() ==> header_ok(#[trigger] hs[j]),
            i <= headers.len(),
            pes_pos + pes_remain == buf.len(),
            pes_remain == sum_caps(hs.skip(i as int)),
            out@ + repack(hs.skip(i as int), buf@.skip(pes_pos as int)) == repack(hs, buf@),
        decreases headers.len() - i,
    {
        let h = &headers[i];
        assert(hs.skip(i as int)[0] == h.header_bytes@);
        assert(hs.skip(i as int).drop_first() =~= hs.skip(i + 1));
        assert(header_ok(hs[i as int]));
        let payload_cap = TS_PACKET_SIZE - h.header_size;
        proof {
            let rest = hs.skip(i + 1);
            assert forall|k: int| 0 <= k < rest.len() implies header_ok(#[trigger] rest[k]) by {
                assert(rest[k] == hs[i + 1 + k]);
            }
            lemma_sum_caps_pos(rest);
        }
        let ghost before = out@;
        extend_bytes(&mut out, h.header_bytes.as_slice());
        extend_bytes(&mut out, &buf[pes_pos..pes_pos + payload_cap]);
        assert(buf@.subrange(pes_pos as int, pes_pos + payload_cap) =~= buf@.skip(pes_pos as int).take(
            payload_cap as int,
        ));
        assert(buf@.skip(pes_pos as int).skip(payload_cap as int) =~= buf@.skip(pes_pos + payload_cap));
        assert(out@ =~= before + (hs.skip(i as int)[0] + buf@.skip(pes_pos as int).take(payload_cap as int)));
        pes_pos += payload_cap;
        pes_remain -= payload_cap;
        i += 1;
    }
    assert(hs.skip(i as int) =~= Seq::<Seq<u8>>::empty());
    out
}

impl StreamDecryptor {
    fn clear_pes(&mut self)
        ensures
            final(self)@ == cleared(old(self)@),
            final(self).wf(),
            final(self).pending() == 0,
    {
        self.pes_buf.clear();
        self.pes_headers.clear();
        self.iv_snap_for_pes = None;
        self.last_pid = NO_PID;
        assert(chunk_headers(self.pes_headers@) =~= Seq::<Seq<u8>>::empty());
        assert(self@ =~= cleared(old(self)@));
    }

    /// Writes out the buffered PES packet (see `spec_flush`) and empties
    /// the buffer; every buffered packet comes out as one 188-byte packet.
    pub fn flush_pes_fn(&mut self) -> (r: Vec<u8>)
        requires
            old(self).wf(),
        ensures
            final(self).wf(),
            (final(self)@, r@) == spec_flush(old(self)@),
            final(self).pending() == 0,
            r@.len() == TS_PACKET_SIZE * old(self).pending(),
    {
        let ghost v = self@;
        proof {
            lemma_sum_caps_pos(v.pes_headers);
            lemma_repack_len(v.pes_headers, v.pes_buf);
        }
        if self.pes_buf.len() == 0 || self.pes_headers.len() == 0 || !self.state_ready {
            self.clear_pes();
            return Vec::new();
        }
        let sid_prev: u8 = if self.pes_buf.len() > 3 {
            self.pes_buf[3]
        } else {
            0xE1
        };
        let out = if (sid_prev & 0xF0 == 0xE0 || sid_prev == 0xE0) && self.pes_buf.len() > 8
            && self.iv_snap_for_pes.is_some() {
            let stream_type = match self.stream_types.get(&self.last_pid) {
                Some(t) => *t,
                None => DEFAULT_VIDEO_STREAM_TYPE,
            };
            let iv = self.iv_snap_for_pes.unwrap();
            let decrypted = decrypt_pes_normal(self.pes_buf.as_slice(), stream_type, &self.encryptor, &iv);
            proof {
                lemma_decrypt_pes_keeps_length(v.pes_buf, stream_type, v.key, iv@);
                lemma_repack_len(v.pes_headers, decrypted@);
            }
            assert(decrypted@ == flushed_payload(v));
            repack_chunks(&self.pes_headers, decrypted.as_slice())
        } else {
            assert(self.pes_buf@ == flushed_payload(v));
            repack_chunks(&self.pes_headers, self.pes_buf.as_slice())
        };
        self.clear_pes();
        out
    }
}

/// Stream types whose PIDs are decrypted once a PMT section lists them:
/// MPEG-1/2 video, H.264, HEVC and private PES data.
pub open spec fn is_decryptable_stream_type(t: u8) -> bool {
    t == 0x01 || t == 0x02 || t == 0x1b || t == 0x24 || t == 0x06
}


/// What a PAT packet does: the PMT PIDs it lists join the known ones.
pub open spec fn on_pat(v: DecryptorView, p: Seq<u8>) -> DecryptorView {
    DecryptorView { pmt_pids: v.pmt_pids.union(spec_parse_pat(p).values()), ..v }
}

/// What an SDT packet does: a completed SDT section with an IV in a
/// service name sets the IV, and so does a packet marker with a block key.
pub open spec fn on_sdt(v: DecryptorView, p: Seq<u8>) -> DecryptorView {
    let (sdt, section) = psi_push(v.sdt, p);
    let (iv1, ready1) = match section {
        Some(sec) => match spec_sdt_iv(sec) {
            Some(iv) => (iv_from(iv), true),
            None => (v.ivec, v.state_ready),
        },
        None => (v.ivec, v.state_ready),
    };
    let (iv2, ready2) = match spec_packet_block_key(p) {
        Some(k) => (iv_from(k), true),
        None => (iv1, ready1),
    };
    DecryptorView { sdt, ivec: iv2, state_ready: ready2, ..v }
}

/// What a PMT packet does: its video PIDs become targets of HEVC type, and
/// a completed PMT section records every stream type and makes the
/// decryptable streams targets.
pub open spec fn on_pmt(v: DecryptorView, p: Seq<u8>) -> DecryptorView {
    let found = spec_parse_pmt_video_pids(p).to_set();
    let target1 = v.target_pids.union(found);
    let types1 = v.stream_types.union_prefer_right(
        Map::new(|k: u16| found.contains(k), |k: u16| DEFAULT_VIDEO_STREAM_TYPE),
    );
    let (pmt, section) = psi_push(v.pmt, p);
    match section {
        None => DecryptorView { pmt, target_pids: target1, stream_types: types1, ..v },
        Some(sec) => {
            let m = spec_parse_pmt_streams_map(sec);
            DecryptorView {
                pmt,
                target_pids: target1.union(
                    Set::new(|k: u16| m.contains_key(k) && is_decryptable_stream_type(m[k])),
                ),
                stream_types: types1.union_prefer_right(m),
                ..v
            }
        },
    }
}

/// Whether a packet starts a new PES packet: its header says so, or its
/// payload begins with an audio or video PES start code.
pub open spec fn starts_pes(p: Seq<u8>, pusi: bool, off: int) -> bool {
    pusi || (off + 4 <= TS_PACKET_SIZE && p[off] == 0 && p[off + 1] == 0 && p[off + 2] == 1 && (p[off
        + 3] == 0xC0 || p[off + 3] & 0xF0 == 0xE0))
}

/// What a packet of an elementary stream does once the IV is known and its
/// PID is a target: it starts or continues the buffered PES packet.
pub open spec fn on_es(v: DecryptorView, p: Seq<u8>, pid: u16, pusi: bool, off: int) -> (
    DecryptorView,
    Seq<u8>,
) {
    let new_pes = starts_pes(p, pusi, off);
    let (v2, out) = if new_pes && v.pes_buf.len() > 0 {
        spec_flush(v)
    } else {
        (v, Seq::empty())
    };
    if !new_pes && v2.pes_buf.len() == 0 {
        (v2, out + p)
    } else {
        (
            DecryptorView {
                iv_snap: if new_pes {
                    Some(v2.ivec)
                } else {
                    v2.iv_snap
                },
                last_pid: pid,
                pes_buf: v2.pes_buf + p.skip(off),
                pes_headers: v2.pes_headers.push(p.take(off)),
                ..v2
            },
            out,
        )
    }
}

/// One packet through the decryptor: the new state and the bytes written.
pub open spec fn spec_on_packet(v: DecryptorView, p: Seq<u8>) -> (DecryptorView, Seq<u8>) {
    if p[0] != SYNC {
        (v, p)
    } else {
        match spec_packet_info(p) {
            None => (v, p),
            Some(info) => {
                let pid = info.pid;
                if pid == PID_PAT {
                    let (v1, out) = spec_flush(v);
                    (on_pat(v1, p), out + p)
                } else if pid == PID_SDT {
                    let (v1, out) = spec_flush(v);
                    (on_sdt(v1, p), out + p)
                } else if v.pmt_pids.contains(pid) {
                    let (v1, out) = spec_flush(v);
                    (on_pmt(v1, p), out + p)
                } else {
                    let fallback = v.target_pids.is_empty() && info.payload_unit_start && v.state_ready
                        && info.payload_offset is Some && 32 <= pid <= 256 && pid != PID_SDT;
                    let v1 = if fallback {
                        DecryptorView {
                            target_pids: v.target_pids.insert(pid),
                            stream_types: v.stream_types.insert(pid, DEFAULT_VIDEO_STREAM_TYPE),
                            ..v
                        }
                    } else {
                        v
                    };
                    if !v1.state_ready || !v1.target_pids.contains(pid) || info.payload_offset is None
                        || info.payload_offset.unwrap() >= TS_PACKET_SIZE {
                        let (v2, out) = spec_flush(v1);
                        (v2, out + p)
                    } else {
                        on_es(v1, p, pid, info.payload_unit_start, info.payload_offset.unwrap() as int)
                    }
                }
            },
        }
    }
}

impl StreamDecryptor {
    fn read_pat(&mut self, packet: &[u8])
        requires
            old(self).wf(),
        ensures
            final(self).wf(),
            final(self)@ == on_pat(old(self)@, packet@),
            final(self).pending() == old(self).pending(),
    {
        let ghost v = self@;
        add_program_map_pids(&mut self.pmt_pids, packet);
        assert(self@ =~= on_pat(v, packet@));
    }
}


impl StreamDecryptor {
    fn read_sdt(&mut self, packet: &[u8])
        requires
            old(self).wf(),
        ensures
            final(self).wf(),
            final(self)@ == on_sdt(old(self)@, packet@),
            final(self).pending() == old(self).pending(),
    {
        let ghost v = self@;
        let section = self.sdt_asm.push(packet);
        match section {
            Some(sec) => {
                let mut new_ivec = [0u8; 16];
                if parse_sdt_and_set_iv(sec.as_slice(), &mut new_ivec) {
                    self.ivec = new_ivec;
                    self.state_ready = true;
                }
            },
            None => {},
        }
        match extract_packet_block_key(packet) {
            Some(found_key) => {
                self.ivec = iv_from_key(&found_key);
                self.state_ready = true;
            },
            None => {},
        }
        assert(self@ =~= on_sdt(v, packet@));
    }

    fn read_pmt(&mut self, packet: &[u8])
        requires
            old(self).wf(),
        ensures
            final(self).wf(),
            final(self)@ == on_pmt(old(self)@, packet@),
            final(self).pending() == old(self).pending(),
    {
        let ghost v = self@;
        let found_video_pids = parse_pmt_video_pids(packet);
        let ghost found = found_video_pids@;
        let mut i: usize = 0;
        assert(found.take(0).to_set() =~= Set::<u16>::empty());
        assert(self.target_pids@ =~= v.target_pids.union(found.take(0).to_set()));
        assert(self.stream_types@ =~= v.stream_types.union_prefer_right(
            Map::new(|k: u16| found.take(0).to_set().contains(k), |k: u16| DEFAULT_VIDEO_STREAM_TYPE),
        ));
        while i < found_video_pids.len()
            invariant
                found == found_video_pids@,
                i <= found.len(),
                self.wf(),
                self@ == (DecryptorView {
                    target_pids: self@.target_pids,
                    stream_types: self@.stream_types,
                    ..v
                }),
                self.pending() == old(self).pending(),
                v == old(self)@,
                self.target_pids@ == v.target_pids.union(found.take(i as int).to_set()),
                self.stream_types@ == v.stream_types.union_prefer_right(
                    Map::new(
                        |k: u16| found.take(i as int).to_set().contains(k),
                        |k: u16| DEFAULT_VIDEO_STREAM_TYPE,
                    ),
                ),
            decreases found.len() - i,
        {
            let vpid = found_video_pids[i];
            self.target_pids.insert(vpid);
            self.stream_types.insert(vpid, DEFAULT_VIDEO_STREAM_TYPE);
            proof {
                assert(found.take(i + 1) =~= found.take(i as int).push(vpid));
                found.take(i as int).lemma_push_to_set_commute(vpid);
            }
            i += 1;
            assert(self.target_pids@ =~= v.target_pids.union(found.take(i as int).to_set()));
            assert(self.stream_types@ =~= v.stream_types.union_prefer_right(
                Map::new(
                    |k: u16| found.take(i as int).to_set().contains(k),
                    |k: u16| DEFAULT_VIDEO_STREAM_TYPE,
                ),
            ));
        }
        assert(found.take(i as int) =~= found);
        assert(found == spec_parse_pmt_video_pids(packet@));
        let ghost target1 = self.target_pids@;
        let ghost types1 = self.stream_types@;
        let section = self.pmt_asm.push(packet);
        let ghost pmt1 = self.pmt_asm.state();
        match section {
            None => {
                assert(self@ =~= on_pmt(v, packet@));
            },
            Some(sec) => {
                let streams = parse_pmt_streams_map(sec.as_slice());
                let ghost m = streams@;
                let ghost mut done: Set<u16> = Set::empty();
                assert(self.stream_types@ =~= types1.union_prefer_right(
                    Map::new(|k: u16| done.contains(k), |k: u16| m[k]),
                ));
                assert(self.target_pids@ =~= target1.union(
                    Set::new(|k: u16| done.contains(k) && is_decryptable_stream_type(m[k])),
                ));
                for entry in it: streams.iter()
                    invariant
                        m == streams@,
                        forall|i: int|
                            0 <= i < it.seq().len() ==> m.contains_key(*(#[trigger] it.seq()[i]).0) && m[*it.seq()[i].0]
                                == *it.seq()[i].1,
                        forall|k: u16| #[trigger] m.contains_key(k) ==> it.seq().contains((&k, &m[k])),
                        forall|k: u16| #[trigger] done.contains(k) ==> m.contains_key(k),
                        forall|i: int| 0 <= i < it.index() ==> done.contains(*(#[trigger] it.seq()[i]).0),
                        forall|k: u16|
                            #[trigger] done.contains(k) ==> exists|i: int| 0 <= i < it.index() && *it.seq()[i].0 == k,
                        self.wf(),
                        self.pending() == old(self).pending(),
                        self.stream_types@ == types1.union_prefer_right(
                            Map::new(|k: u16| done.contains(k), |k: u16| m[k]),
                        ),
                        self.target_pids@ == target1.union(
                            Set::new(|k: u16| done.contains(k) && is_decryptable_stream_type(m[k])),
                        ),
                        self@ == (DecryptorView {
                            target_pids: self@.target_pids,
                            stream_types: self@.stream_types,
                            pmt: pmt1,
                            ..v
                        }),
                {
                    let (spid_ref, stype_ref) = entry;
                    let spid = *spid_ref;
                    let stype = *stype_ref;
                    assert(it.seq()[it.index()] == entry);
                    self.stream_types.insert(spid, stype);
                    if stype == 0x01 || stype == 0x02 || stype == 0x1b || stype == 0x24 || stype == 0x06 {
                        self.target_pids.insert(spid);
                    }
                    proof {
                        assert(m[spid] == stype);
                        done = done.insert(spid);
                    }
                    assert(self.stream_types@ =~= types1.union_prefer_right(
                        Map::new(|k: u16| done.contains(k), |k: u16| m[k]),
                    ));
                    assert(self.target_pids@ =~= target1.union(
                        Set::new(|k: u16| done.contains(k) && is_decryptable_stream_type(m[k])),
                    ));
                }
                assert(done =~= m.dom()) by {
                    assert forall|k: u16| m.contains_key(k) implies done.contains(k) by {
                        assert(m.contains_key(k));
                    }
                }
                assert(self.stream_types@ =~= types1.union_prefer_right(m));
                assert(Set::new(|k: u16| done.contains(k) && is_decryptable_stream_type(m[k]))
                    =~= Set::new(|k: u16| m.contains_key(k) && is_decryptable_stream_type(m[k])));
                assert(m == spec_parse_pmt_streams_map(sec@));
                assert(self@ =~= on_pmt(v, packet@));
            },
        }
        assert(self@ =~= on_pmt(v, packet@));
    }
}

proof fn lemma_sum_caps_push(hs: Seq<Seq<u8>>, h: Seq<u8>)
    ensures
        sum_caps(hs.push(h)) == sum_caps(hs) + chunk_cap(h),
    decreases hs.len(),
{
    if hs.len() == 0 {
        assert(hs.push(h).drop_first() =~= Seq::<Seq<u8>>::empty());
        assert(hs.push(h)[0] == h);
        assert(sum_caps(hs.push(h).drop_first()) == 0);
        assert(sum_caps(hs) == 0);
    } else {
        assert(hs.push(h).drop_first() =~= hs.drop_first().push(h));
        assert(hs.push(h)[0] == hs[0]);
        lemma_sum_caps_push(hs.drop_first(), h);
    }
}

impl StreamDecryptor {
    fn write_after_flush(&mut self, packet: &[u8; 188]) -> (r: Vec<u8>)
        requires
            old(self).wf(),
        ensures
            final(self).wf(),
            (final(self)@, r@) == ({
                let (v, out) = spec_flush(old(self)@);
                (v, out + packet@)
            }),
            final(self).pending() == 0,
            r@.len() == TS_PACKET_SIZE * (old(self).pending() + 1),
    {
        let mut out = self.flush_pes_fn();
        extend_bytes(&mut out, packet);
        out
    }

    /// Takes in one 188-byte packet and gives the bytes to write out (see
    /// `spec_on_packet`). Every packet taken in leaves as one 188-byte
    /// packet, now or when its PES packet is written out.
    pub fn on_packet(&mut self, packet: &[u8; 188]) -> (r: Vec<u8>)
        requires
            old(self).wf(),
        ensures
            final(self).wf(),
            (final(self)@, r@) == spec_on_packet(old(self)@, packet@),
            r@.len() + TS_PACKET_SIZE * final(self).pending() == TS_PACKET_SIZE * (old(self).pending() + 1),
    {
        let ghost v = self@;
        if packet[0] != SYNC {
            let mut out: Vec<u8> = Vec::new();
            extend_bytes(&mut out, packet);
            assert(out@ =~= packet@);
            return out;
        }
        let info = match packet_info(packet) {
            None => {
                let mut out: Vec<u8> = Vec::new();
                extend_bytes(&mut out, packet);
                assert(out@ =~= packet@);
                return out;
            },
            Some(i) => i,
        };
        let pid = info.pid;
        if pid == PID_PAT {
            let mut out = self.flush_pes_fn();
            self.read_pat(packet);
            extend_bytes(&mut out, packet);
            return out;
        }
        if pid == PID_SDT {
            let mut out = self.flush_pes_fn();
            self.read_sdt(packet);
            extend_bytes(&mut out, packet);
            return out;
        }
        if self.pmt_pids.contains(&pid) {
            let mut out = self.flush_pes_fn();
            self.read_pmt(packet);
            extend_bytes(&mut out, packet);
            return out;
        }
        if self.target_pids.is_empty() && info.payload_unit_start && self.state_ready
            && info.payload_offset.is_some() && 32 <= pid && pid <= 256 && pid != PID_SDT {
            self.target_pids.insert(pid);
            self.stream_types.insert(pid, DEFAULT_VIDEO_STREAM_TYPE);
        }
        let ghost v1 = self@;
        assert(v1 == (if v.target_pids.is_empty() && info.payload_unit_start && v.state_ready
            && info.payload_offset is Some && 32 <= pid <= 256 && pid != PID_SDT {
            DecryptorView {
                target_pids: v.target_pids.insert(pid),
                stream_types: v.stream_types.insert(pid, DEFAULT_VIDEO_STREAM_TYPE),
                ..v
            }
        } else {
            v
        }));
        if !self.state_ready || !self.target_pids.contains(&pid) {
            return self.write_after_flush(packet);
        }
        let off = match info.payload_offset {
            None => {
                return self.write_after_flush(packet);
            },
            Some(o) => o,
        };
        if off >= TS_PACKET_SIZE {
            return self.write_after_flush(packet);
        }
        let mut is_new_pes = info.payload_unit_start;
        if off + 4 <= TS_PACKET_SIZE && packet[off] == 0x00 && packet[off + 1] == 0x00 && packet[off + 2]
            == 0x01 {
            let sid = packet[off + 3];
            if sid == 0xC0 || (sid & 0xF0) == 0xE0 {
                is_new_pes = true;
            }
        }
        assert(is_new_pes == starts_pes(packet@, info.payload_unit_start, off as int));
        let mut out: Vec<u8> = Vec::new();
        if is_new_pes && self.pes_buf.len() > 0 {
            out = self.flush_pes_fn();
        }
        if !is_new_pes && self.pes_buf.len() == 0 {
            extend_bytes(&mut out, packet);
            assert(out@ =~= packet@);
            return out;
        }
        if is_new_pes {
            self.iv_snap_for_pes = Some(self.ivec);
        }
        self.last_pid = pid;
        let ghost before = self@;
        extend_bytes(&mut self.pes_buf, &packet[off..TS_PACKET_SIZE]);
        let header = PESHeaderChunk { header_bytes: copy_header(packet, off), header_size: off };
        self.pes_headers.push(header);
        proof {
            let h = packet@.take(off as int);
            assert(packet@.subrange(off as int, TS_PACKET_SIZE as int) =~= packet@.skip(off as int));
            assert(h[3] == packet@[3]);
            assert(header_ok(h));
            assert(chunk_headers(self.pes_headers@) =~= before.pes_headers.push(h));
            lemma_sum_caps_push(before.pes_headers, h);
            assert forall|i: int| 0 <= i < self.pes_headers@.len() implies #[trigger] self.pes_headers@[i].header_size
                == self.pes_headers@[i].header_bytes@.len() by {
                if i < self.pes_headers@.len() - 1 {
                    assert(self.pes_headers@[i] == old(self).pes_headers@[i]) by {
                        assert(before.pes_headers.len() == self.pes_headers@.len() - 1);
                    }
                }
            }
        }
        assert(self@ =~= spec_on_packet(v, packet@).0);
        out
    }

    /// Writes out what is still buffered at the end of the stream.
    pub fn finish(&mut self) -> (r: Vec<u8>)
        requires
            old(self).wf(),
        ensures
            final(self).wf(),
            (final(self)@, r@) == spec_flush(old(self)@),
            r@.len() == TS_PACKET_SIZE * old(self).pending(),
            final(self).pending() == 0,
    {
        self.flush_pes_fn()
    }
}

fn copy_header(packet: &[u8; 188], off: usize) -> (r: Vec<u8>)
    requires
        off <= 188,
    ensures
        r@ == packet@.take(off as int),
{
    let mut out: Vec<u8> = Vec::new();
    extend_bytes(&mut out, &packet[0..off]);
    assert(packet@.subrange(0, off as int) =~= packet@.take(off as int));
    out
}

/// The state and output after a sequence of packets.
pub open spec fn spec_run(v: DecryptorView, ps: Seq<Seq<u8>>) -> (DecryptorView, Seq<u8>)
    decreases ps.len(),
{
    if ps.len() == 0 {
        (v, Seq::empty())
    } else {
        let (v1, o1) = spec_on_packet(v, ps[0]);
        let (v2, o2) = spec_run(v1, ps.drop_first());
        (v2, o1 + o2)
    }
}

/// The whole output for a stream of packets: what each packet gives, then
/// what is still buffered at the end.
pub open spec fn spec_decrypt_stream(v: DecryptorView, ps: Seq<Seq<u8>>) -> Seq<u8> {
    let (v1, out) = spec_run(v, ps);
    out + spec_flush(v1).1
}

proof fn lemma_flush_view(v: DecryptorView)
    requires
        view_wf(v),
    ensures
        view_wf(spec_flush(v).0),
        spec_flush(v).0.pes_headers.len() == 0,
        spec_flush(v).1.len() == TS_PACKET_SIZE * v.pes_headers.len(),
{
    lemma_sum_caps_pos(v.pes_headers);
    lemma_repack_len(v.pes_headers, v.pes_buf);
    let buf = v.pes_buf;
    if buf.len() > 8 && v.iv_snap is Some {
        lemma_decrypt_pes_keeps_length(buf, last_stream_type(v), v.key, v.iv_snap.unwrap());
        lemma_repack_len(v.pes_headers, flushed_payload(v));
    }
    assert(cleared(v).pes_headers.len() == 0);
}

proof fn lemma_on_packet_view(v: DecryptorView, p: Seq<u8>)
    requires
        view_wf(v),
        p.len() == TS_PACKET_SIZE,
    ensures
        view_wf(spec_on_packet(v, p).0),
        spec_on_packet(v, p).1.len() + TS_PACKET_SIZE * spec_on_packet(v, p).0.pes_headers.len()
            == TS_PACKET_SIZE * (v.pes_headers.len() + 1),
{
    lemma_flush_view(v);
    if p[0] == SYNC {
        match spec_packet_info(p) {
            None => {},
            Some(info) => {
                let pid = info.pid;
                if pid != PID_PAT && pid != PID_SDT && !v.pmt_pids.contains(pid) {
                    let fallback = v.target_pids.is_empty() && info.payload_unit_start && v.state_ready
                        && info.payload_offset is Some && 32 <= pid <= 256 && pid != PID_SDT;
                    let v1 = if fallback {
                        DecryptorView {
                            target_pids: v.target_pids.insert(pid),
                            stream_types: v.stream_types.insert(pid, DEFAULT_VIDEO_STREAM_TYPE),
                            ..v
                        }
                    } else {
                        v
                    };
                    lemma_flush_view(v1);
                    if !(!v1.state_ready || !v1.target_pids.contains(pid) || info.payload_offset is None
                        || info.payload_offset.unwrap() >= TS_PACKET_SIZE) {
                        let off = info.payload_offset.unwrap() as int;
                        let new_pes = starts_pes(p, info.payload_unit_start, off);
                        let v2 = if new_pes && v1.pes_buf.len() > 0 {
                            spec_flush(v1).0
                        } else {
                            v1
                        };
                        let h = p.take(off);
                        assert(h[3] == p[3]);
                        assert(header_ok(h));
                        lemma_sum_caps_push(v2.pes_headers, h);
                        let v3 = spec_on_packet(v, p).0;
                        if new_pes || v2.pes_buf.len() > 0 {
                            assert(v3.pes_headers == v2.pes_headers.push(h));
                            assert forall|i: int| 0 <= i < v3.pes_headers.len() implies header_ok(
                                #[trigger] v3.pes_headers[i],
                            ) by {
                                if i < v2.pes_headers.len() {
                                    assert(v3.pes_headers[i] == v2.pes_headers[i]);
                                }
                            }
                        }
                    }
                }
            },
        }
    }
}

/// Every packet of a stream comes out as exactly one 188-byte packet: the
/// output of a stream of 188-byte packets is 188 bytes per packet taken
/// in, counting those still buffered at the start.
pub proof fn lemma_stream_keeps_packets(v: DecryptorView, ps: Seq<Seq<u8>>)
    requires
        view_wf(v),
        forall|i: int| 0 <= i < ps.len() ==> (#[trigger] ps[i]).len() == TS_PACKET_SIZE,
    ensures
        spec_decrypt_stream(v, ps).len() == TS_PACKET_SIZE * (v.pes_headers.len() + ps.len()),
    decreases ps.len(),
{
    if ps.len() == 0 {
        lemma_flush_view(v);
    } else {
        lemma_on_packet_view(v, ps[0]);
        let (v1, o1) = spec_on_packet(v, ps[0]);
        assert forall|i: int| 0 <= i < ps.drop_first().len() implies (#[trigger] ps.drop_first()[i]).len()
            == TS_PACKET_SIZE by {
            assert(ps.drop_first()[i] == ps[i + 1]);
        }
        lemma_stream_keeps_packets(v1, ps.drop_first());
        let (v2, o2) = spec_run(v1, ps.drop_first());
        assert(spec_decrypt_stream(v, ps) =~= o1 + (o2 + spec_flush(v2).1));
    }
}

/// Once the IV is known it stays known: no packet makes the decryptor
/// forget it.
pub proof fn lemma_ready_is_kept(v: DecryptorView, p: Seq<u8>)
    requires
        v.state_ready,
    ensures
        spec_on_packet(v, p).0.state_ready,
{
}

/// Writing out a buffered video PES packet decrypts it with the stream
/// type that the state records for the PID that filled the buffer (so an
/// H.264 PID, mapped to 0x1b by its PMT, gets one-byte NAL headers), and
/// with HEVC's 0x24 only when no type is recorded for that PID.
pub proof fn lemma_flush_decrypts_with_recorded_type(v: DecryptorView)
    requires
        v.state_ready,
        v.pes_headers.len() > 0,
        v.pes_buf.len() > 8,
        v.pes_buf[3] & 0xF0 == 0xE0,
        v.iv_snap is Some,
    ensures
        v.stream_types.contains_key(v.last_pid) ==> spec_flush(v).1 == repack(
            v.pes_headers,
            spec_decrypt_pes_normal(v.pes_buf, v.stream_types[v.last_pid], v.key, v.iv_snap.unwrap()),
        ),
        !v.stream_types.contains_key(v.last_pid) ==> spec_flush(v).1 == repack(
            v.pes_headers,
            spec_decrypt_pes_normal(v.pes_buf, 0x24u8, v.key, v.iv_snap.unwrap()),
        ),
        spec_flush(v).0.pes_buf.len() == 0,
{
}

} // verus!
