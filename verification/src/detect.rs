use crate::common::{VideoMode, TS_PACKET_SIZE};
use crate::nal::extend_bytes;
use crate::ts::{
    add_program_map_pids, extract_packet_block_key, packet_info, parse_pmt_video_pids,
    spec_packet_block_key,
    spec_packet_info, spec_parse_pat, spec_parse_pmt_video_pids,
};
use std::collections::{HashMap, HashSet};
use vstd::prelude::*;
use vstd::std_specs::hash::*;

verus! {

broadcast use group_hash_axioms;

/// Detection reads at most this many bytes of the stream.
pub const MAX_PROBE_BYTES: u64 = 64 * 1024 * 1024;
/// Detection probes at most this many groups.
pub const MAX_PROBE_GROUPS: usize = 192;

/// One buffered packet of a probe group.
pub struct ProbeEntry {
    pub packet: [u8; TS_PACKET_SIZE],
}

/// The elementary stream bytes that a packet adds to a probe group: its
/// payload, after the PES header when the packet starts a PES packet.
pub open spec fn entry_payload(p: Seq<u8>) -> Seq<u8> {
    match spec_packet_info(p) {
        None => Seq::empty(),
        Some(info) => match info.payload_offset {
            None => Seq::empty(),
            Some(off) => {
                let pp = p.skip(off as int);
                let start = if info.payload_unit_start && pp.len() >= 9 && pp[0] == 0 && pp[1] == 0
                    && pp[2] == 1 && 9 + pp[8] <= pp.len() {
                    off + 9 + pp[8]
                } else {
                    off as int
                };
                p.skip(start)
            },
        },
    }
}

/// The elementary stream bytes of a group of packets, in order.
pub open spec fn group_payload(ps: Seq<Seq<u8>>) -> Seq<u8>
    decreases ps.len(),
{
    if ps.len() == 0 {
        Seq::empty()
    } else {
        group_payload(ps.drop_last()) + entry_payload(ps.last())
    }
}

/// The packets of a group.
pub open spec fn entries_view(g: Seq<ProbeEntry>) -> Seq<Seq<u8>> {
    Seq::new(g.len(), |i: int| g[i].packet@)
}

/// The elementary stream bytes of a group of packets (see `group_payload`).
pub fn es_payload_from_group(group: &[ProbeEntry]) -> (r: Vec<u8>)
    ensures
        r@ == group_payload(entries_view(group@)),
{
    let ghost ps = entries_view(group@);
    let mut payload: Vec<u8> = Vec::new();
    let mut i: usize = 0;
    assert(ps.take(0) =~= Seq::<Seq<u8>>::empty());
    while i < group.len()
        invariant
            ps == entries_view(group@),
            i <= group.len(),
            payload@ == group_payload(ps.take(i as int)),
        decreases group.len() - i,
    {
        let packet = &group[i].packet;
        assert(ps.take(i + 1).drop_last() =~= ps.take(i as int));
        assert(ps.take(i + 1).last() == packet@);
        match packet_info(packet) {
            None => {},
            Some(info) => match info.payload_offset {
                None => {},
                Some(payload_offset) => {
                    let mut payload_start = payload_offset;
                    if info.payload_unit_start {
                        let rest = TS_PACKET_SIZE - payload_offset;
                        if rest >= 9 && packet[payload_offset] == 0x00 && packet[payload_offset + 1] == 0x00
                            && packet[payload_offset + 2] == 0x01 {
                            let pes_header_size = 9 + packet[payload_offset + 8] as usize;
                            if pes_header_size <= rest {
                                payload_start = payload_offset + pes_header_size;
                            }
                        }
                    }
                    extend_bytes(&mut payload, &packet[payload_start..TS_PACKET_SIZE]);
                    assert(packet@.subrange(payload_start as int, TS_PACKET_SIZE as int) =~= packet@.skip(
                        payload_start as int,
                    ));
                },
            },
        }
        i += 1;
        assert(payload@ =~= group_payload(ps.take(i as int)));
    }
    assert(ps.take(i as int) =~= ps);
    payload
}

/// What probing the elementary stream of a group found.
#[derive(Clone, Copy, Debug, PartialEq, Eq, Structural)]
pub struct ProbeResult {
    pub hdr: bool,
    pub dolby_vision: bool,
}

/// What detection has seen so far.
#[derive(Clone, Copy, Debug, PartialEq, Eq, Structural)]
pub struct DetectionState {
    pub saw_hdr: bool,
    pub saw_dolby_vision: bool,
    pub groups_checked: usize,
}

impl Default for DetectionState {
    fn default() -> (r: Self)
        ensures
            r == (DetectionState { saw_hdr: false, saw_dolby_vision: false, groups_checked: 0 }),
    {
        DetectionState { saw_hdr: false, saw_dolby_vision: false, groups_checked: 0 }
    }
}

/// The state after recording one probe.
pub open spec fn spec_record_probe(s: DetectionState, probe: ProbeResult) -> DetectionState {
    DetectionState {
        saw_hdr: s.saw_hdr || probe.hdr,
        saw_dolby_vision: s.saw_dolby_vision || probe.dolby_vision,
        groups_checked: (s.groups_checked + 1) as usize,
    }
}

impl DetectionState {
    /// Records what probing one group found.
    pub fn record_probe(&mut self, probe: ProbeResult)
        requires
            old(self).groups_checked < usize::MAX,
        ensures
            *final(self) == spec_record_probe(*old(self), probe),
    {
        self.saw_hdr = self.saw_hdr || probe.hdr;
        self.saw_dolby_vision = self.saw_dolby_vision || probe.dolby_vision;
        self.groups_checked = self.groups_checked + 1;
    }
}

/// The video mode that detection settles on: Dolby Vision wins over HDR,
/// which wins over SDR.
pub open spec fn spec_finalize_detection(s: DetectionState) -> VideoMode {
    if s.saw_dolby_vision {
        VideoMode::DolbyVision
    } else if s.saw_hdr {
        VideoMode::Hdr
    } else {
        VideoMode::Sdr
    }
}

/// The detected mode (see `spec_finalize_detection`).
pub fn finalize_detection(state: &DetectionState) -> (r: VideoMode)
    ensures
        r == spec_finalize_detection(*state),
{
    if state.saw_dolby_vision {
        VideoMode::DolbyVision
    } else if state.saw_hdr {
        VideoMode::Hdr
    } else {
        VideoMode::Sdr
    }
}

/// The elementary stream of a group and the block key to probe it with:
/// only a non-empty group with a key and a non-empty payload is probed.
pub open spec fn spec_probe_request(ps: Seq<Seq<u8>>, key: Option<Seq<u8>>) -> Option<(Seq<u8>, Seq<u8>)> {
    if ps.len() == 0 || key is None {
        None
    } else {
        let payload = group_payload(ps);
        if payload.len() == 0 {
            None
        } else {
            Some((payload, key.unwrap()))
        }
    }
}

/// A request to probe the elementary stream of a group.
pub struct ProbeRequest {
    pub payload: Vec<u8>,
    pub block_key: [u8; 16],
}

/// The payload and key of an optional probe request.
pub open spec fn request_view(r: Option<ProbeRequest>) -> Option<(Seq<u8>, Seq<u8>)> {
    match r {
        Some(q) => Some((q.payload@, q.block_key@)),
        None => None,
    }
}

/// Decides whether a group of packets is probed, and with what: the group's
/// elementary stream and block key when the group is not empty, has a key,
/// and carries elementary stream bytes.
pub fn analyze_group(group: &[ProbeEntry], block_key: Option<[u8; 16]>) -> (r: Option<ProbeRequest>)
    ensures
        request_view(r) == spec_probe_request(
            entries_view(group@),
            match block_key {
                Some(k) => Some(k@),
                None => None,
            },
        ),
{
    if group.len() == 0 || block_key.is_none() {
        return None;
    }
    let payload = es_payload_from_group(group);
    if payload.len() == 0 {
        return None;
    }
    Some(ProbeRequest { payload, block_key: block_key.unwrap() })
}

/// The abstract state of stream mode detection.
pub ghost struct DetectorView {
    pub pmt_pids: Set<u16>,
    pub target_pids: Set<u16>,
    pub fallback_video_pid: Option<u16>,
    pub active_block_key: Option<Seq<u8>>,
    /// For each PID with a group: the packets of its current group, and the
    /// block key the group started under.
    pub groups: Map<u16, (Seq<Seq<u8>>, Option<Seq<u8>>)>,
    /// The order in which the final pass takes the groups, once it has
    /// begun.
    pub order: Option<Seq<u16>>,
    pub state: DetectionState,
    pub bytes_read: nat,
    /// How many groups the final pass has looked at.
    pub cursor: nat,
}

/// One packet through detection: the new state, and the group to probe
/// when the packet closes one.
pub open spec fn spec_detect_packet(v: DetectorView, p: Seq<u8>) -> (DetectorView, Option<(Seq<u8>, Seq<u8>)>) {
    let v0 = DetectorView { bytes_read: v.bytes_read + TS_PACKET_SIZE as nat, ..v };
    match spec_packet_info(p) {
        None => (v0, None),
        Some(info) => {
            let pid = info.pid;
            let key1 = if pid == 0x11 {
                match spec_packet_block_key(p) {
                    Some(k) => Some(k),
                    None => v.active_block_key,
                }
            } else {
                v.active_block_key
            };
            let pmt1 = if pid == 0 {
                v.pmt_pids.union(spec_parse_pat(p).values())
            } else {
                v.pmt_pids
            };
            let target1 = if pid != 0 && v.pmt_pids.contains(pid) {
                let found = spec_parse_pmt_video_pids(p);
                if found.len() > 0 {
                    found.to_set()
                } else if v.fallback_video_pid is Some {
                    Set::empty().insert(v.fallback_video_pid.unwrap())
                } else {
                    v.target_pids
                }
            } else {
                v.target_pids
            };
            let fb_now = target1.is_empty() && info.payload_unit_start && key1 is Some
                && info.payload_offset is Some && 32 <= pid <= 256;
            let fallback2 = if fb_now {
                Some(pid)
            } else {
                v.fallback_video_pid
            };
            let target2 = if fb_now {
                Set::empty().insert(pid)
            } else {
                target1
            };
            let base = DetectorView {
                pmt_pids: pmt1,
                target_pids: target2,
                fallback_video_pid: fallback2,
                active_block_key: key1,
                ..v0
            };
            if !(target2.contains(pid) && info.payload_offset is Some) {
                (base, None)
            } else {
                let req = if info.payload_unit_start && v.groups.contains_key(pid) {
                    spec_probe_request(v.groups[pid].0, v.groups[pid].1)
                } else {
                    None
                };
                let gs1 = if info.payload_unit_start {
                    v.groups.insert(pid, (Seq::empty(), key1))
                } else {
                    v.groups
                };
                let gs2 = if gs1.contains_key(pid) {
                    gs1.insert(pid, (gs1[pid].0.push(p), gs1[pid].1))
                } else {
                    gs1
                };
                (DetectorView { groups: gs2, ..base }, req)
            }
        },
    }
}

/// The next group that the final pass probes, if any: the groups are taken
/// in the pass's order until the probe budget is spent.
pub open spec fn spec_next_probe(v: DetectorView) -> (DetectorView, Option<(Seq<u8>, Seq<u8>)>)
    decreases (match v.order {
        Some(o) => o.len(),
        None => 0,
    }) - v.cursor,
{
    match v.order {
        None => (v, None),
        Some(o) => {
            if v.state.groups_checked >= MAX_PROBE_GROUPS || v.cursor >= o.len() {
                (v, None)
            } else {
                let g = v.groups[o[v.cursor as int]];
                let v1 = DetectorView { cursor: v.cursor + 1, ..v };
                match spec_probe_request(g.0, g.1) {
                    Some(r) => (v1, Some(r)),
                    None => spec_next_probe(v1),
                }
            }
        },
    }
}

/// An order for the final pass: each PID with a group once.
pub open spec fn is_pass_order(o: Seq<u16>, groups: Map<u16, (Seq<Seq<u8>>, Option<Seq<u8>>)>) -> bool {
    &&& o.no_duplicates()
    &&& o.to_set() == groups.dom()
}

/// Detects whether a stream carries SDR, HDR or Dolby Vision video by
/// probing the first PES packets of its video PIDs.
pub struct Detector {
    pmt_pids: HashSet<u16>,
    target_pids: HashSet<u16>,
    fallback_video_pid: Option<u16>,
    active_block_key: Option<[u8; 16]>,
    groups: HashMap<u16, Vec<ProbeEntry>>,
    group_keys: HashMap<u16, Option<[u8; 16]>>,
    order: Option<Vec<u16>>,
    state: DetectionState,
    bytes_read: u64,
    cursor: usize,
}

/// The bytes of an optional key.
pub open spec fn key_view(k: Option<[u8; 16]>) -> Option<Seq<u8>> {
    match k {
        Some(a) => Some(a@),
        None => None,
    }
}

impl Detector {
    pub closed spec fn view(&self) -> DetectorView {
        DetectorView {
            pmt_pids: self.pmt_pids@,
            target_pids: self.target_pids@,
            fallback_video_pid: self.fallback_video_pid,
            active_block_key: key_view(self.active_block_key),
            groups: Map::new(
                |k: u16| self.groups@.contains_key(k),
                |k: u16| (entries_view(self.groups@[k]@), key_view(self.group_keys@[k])),
            ),
            order: match self.order {
                Some(o) => Some(o@),
                None => None,
            },
            state: self.state,
            bytes_read: self.bytes_read as nat,
            cursor: self.cursor as nat,
        }
    }

    /// Each group has its key, and the final pass's order names groups
    /// only.
    pub closed spec fn wf(&self) -> bool {
        &&& self.groups@.dom() == self.group_keys@.dom()
        &&& self.order matches Some(o) ==> forall|i: int|
            0 <= i < o@.len() ==> self.groups@.contains_key(#[trigger] o@[i])
    }

    /// A detector that has read nothing yet.
    pub fn new() -> (r: Self)
        ensures
            r.wf(),
            r@ == (DetectorView {
                pmt_pids: Set::empty(),
                target_pids: Set::empty(),
                fallback_video_pid: None,
                active_block_key: None,
                groups: Map::empty(),
                order: None,
                state: DetectionState { saw_hdr: false, saw_dolby_vision: false, groups_checked: 0 },
                bytes_read: 0,
                cursor: 0,
            }),
    {
        let r = Detector {
            pmt_pids: HashSet::new(),
            target_pids: HashSet::new(),
            fallback_video_pid: None,
            active_block_key: None,
            groups: HashMap::new(),
            group_keys: HashMap::new(),
            order: None,
            state: DetectionState::default(),
            bytes_read: 0,
            cursor: 0,
        };
        assert(r@.groups =~= Map::<u16, (Seq<Seq<u8>>, Option<Seq<u8>>)>::empty());
        r
    }

    /// Whether detection reads another packet: the byte and probe budgets
    /// are not spent.
    pub fn wants_more(&self) -> (r: bool)
        ensures
            r == (self@.bytes_read < MAX_PROBE_BYTES && self@.state.groups_checked < MAX_PROBE_GROUPS),
    {
        self.bytes_read < MAX_PROBE_BYTES && self.state.groups_checked < MAX_PROBE_GROUPS
    }

    /// The mode detected from what the probes found.
    pub fn mode(&self) -> (r: VideoMode)
        ensures
            r == spec_finalize_detection(self@.state),
    {
        finalize_detection(&self.state)
    }

    /// Whether the probe counter can take one more probe.
    pub fn can_record_probe(&self) -> (r: bool)
        ensures
            r == (self@.state.groups_checked < usize::MAX),
    {
        self.state.groups_checked < usize::MAX
    }

    /// Records a probe result; true when Dolby Vision has been seen, which
    /// settles detection.
    pub fn on_probe(&mut self, probe: ProbeResult) -> (r: bool)
        requires
            old(self).wf(),
            old(self)@.state.groups_checked < usize::MAX,
        ensures
            final(self).wf(),
            final(self)@ == (DetectorView { state: spec_record_probe(old(self)@.state, probe), ..old(self)@ }),
            r == final(self)@.state.saw_dolby_vision,
    {
        self.state.record_probe(probe);
        self.state.saw_dolby_vision
    }

    fn set_targets(&mut self, pids: &Vec<u16>)
        ensures
            final(self)@ == (DetectorView { target_pids: pids@.to_set(), ..old(self)@ }),
            final(self).wf() == old(self).wf(),
    {
        self.target_pids.clear();
        let mut i: usize = 0;
        assert(pids@.take(0).to_set() =~= Set::<u16>::empty());
        while i < pids.len()
            invariant
                i <= pids.len(),
                self.target_pids@ == pids@.take(i as int).to_set(),
                self@ == (DetectorView { target_pids: self.target_pids@, ..old(self)@ }),
                self.wf() == old(self).wf(),
            decreases pids.len() - i,
        {
            self.target_pids.insert(pids[i]);
            proof {
                assert(pids@.take(i + 1) =~= pids@.take(i as int).push(pids@[i as int]));
                pids@.take(i as int).lemma_push_to_set_commute(pids@[i as int]);
            }
            i += 1;
        }
        assert(pids@.take(i as int) =~= pids@);
    }

    /// The packets of the group of `pid` and the key it started under.
    fn group_probe(&self, pid: u16) -> (r: Option<ProbeRequest>)
        requires
            self.wf(),
            self@.groups.contains_key(pid),
        ensures
            request_view(r) == spec_probe_request(self@.groups[pid].0, self@.groups[pid].1),
    {
        let key = match self.group_keys.get(&pid) {
            Some(k) => *k,
            None => None,
        };
        match self.groups.get(&pid) {
            Some(g) => analyze_group(g.as_slice(), key),
            None => None,
        }
    }

    /// Takes in one 188-byte packet; gives the group to probe when the
    /// packet closes one (see `spec_detect_packet`).
    pub fn on_packet(&mut self, packet: &[u8; 188]) -> (r: Option<ProbeRequest>)
        requires
            old(self).wf(),
            old(self)@.bytes_read < MAX_PROBE_BYTES,
        ensures
            final(self).wf(),
            (final(self)@, request_view(r)) == spec_detect_packet(old(self)@, packet@),
    {
        let ghost v = self@;
        self.bytes_read = self.bytes_read + 188;
        let info = match packet_info(packet) {
            None => {
                return None;
            },
            Some(i) => i,
        };
        let pid = info.pid;
        if pid == 0x11 {
            match extract_packet_block_key(packet) {
                Some(found_key) => {
                    self.active_block_key = Some(found_key);
                },
                None => {},
            }
        }
        if pid == 0 {
            add_program_map_pids(&mut self.pmt_pids, packet);
        } else if self.pmt_pids.contains(&pid) {
            let found_video_pids = parse_pmt_video_pids(packet);
            if found_video_pids.len() > 0 {
                self.set_targets(&found_video_pids);
            } else if let Some(fallback) = self.fallback_video_pid {
                self.target_pids.clear();
                self.target_pids.insert(fallback);
            }
        }
        if self.target_pids.is_empty() && info.payload_unit_start && self.active_block_key.is_some()
            && info.payload_offset.is_some() && 32 <= pid && pid <= 256 {
            self.fallback_video_pid = Some(pid);
            self.target_pids.clear();
            self.target_pids.insert(pid);
        }
        let ghost base = self@;
        if !(self.target_pids.contains(&pid) && info.payload_offset.is_some()) {
            assert(self@ =~= spec_detect_packet(v, packet@).0);
            return None;
        }
        let mut request: Option<ProbeRequest> = None;
        if info.payload_unit_start {
            if self.groups.contains_key(&pid) {
                request = self.group_probe(pid);
            }
            let fresh: Vec<ProbeEntry> = Vec::new();
            assert(entries_view(fresh@) =~= Seq::<Seq<u8>>::empty());
            self.groups.insert(pid, fresh);
            self.group_keys.insert(pid, self.active_block_key);
            assert(self@.groups =~= base.groups.insert(pid, (Seq::empty(), base.active_block_key)));
        }
        assert(v.groups.dom().subset_of(self@.groups.dom()));
        let ghost mid = self@.groups;
        let ghost mid_dom = self.groups@.dom();
        match self.groups.remove(&pid) {
            Some(mut g) => {
                let ghost before = g@;
                g.push(ProbeEntry { packet: *packet });
                assert(entries_view(g@) =~= entries_view(before).push(packet@));
                self.groups.insert(pid, g);
                assert(self.groups@.dom() =~= mid_dom);
                assert(self@.groups =~= mid.insert(pid, (mid[pid].0.push(packet@), mid[pid].1)));
            },
            None => {
                assert(self.groups@.dom() =~= mid_dom);
                assert(self@.groups =~= mid);
            },
        }
        proof {
            assert(self.groups@.dom() =~= self.group_keys@.dom());
            assert(v.groups.dom().subset_of(self@.groups.dom()));
            if self.order is Some {
                let o = self.order.unwrap()@;
                assert forall|i: int| 0 <= i < o.len() implies self.groups@.contains_key(#[trigger] o[i]) by {
                    assert(v.groups.contains_key(o[i]));
                    assert(self@.groups.contains_key(o[i]));
                }
            }
        }
        assert(self@ =~= spec_detect_packet(v, packet@).0);
        request
    }

    /// The PIDs with a group, each once, in the order the map gives them.
    fn group_order(&self) -> (r: Vec<u16>)
        ensures
            is_pass_order(r@, self@.groups),
    {
        let ghost dom = self.groups@.dom();
        let mut pids: Vec<u16> = Vec::new();
        for k in it: self.groups.keys()
            invariant
                dom == self.groups@.dom(),
                it.seq().unref().to_set() == dom,
                it.seq().unref().no_duplicates(),
                pids@.len() == it.index(),
                forall|i: int| 0 <= i < it.index() ==> pids@[i] == *#[trigger] it.seq()[i],
                forall|i: int| 0 <= i < it.index() ==> dom.contains(#[trigger] pids@[i]),
                forall|i: int, j: int| 0 <= i < j < it.index() ==> pids@[i] != pids@[j],
                forall|x: u16| #[trigger] dom.contains(x) ==> it.seq().unref().contains(x),
        {
            assert(it.seq()[it.index()] == k);
            let ghost u = it.seq().unref();
            assert(u[it.index()] == *k);
            assert(u.to_set().contains(*k));
            assert forall|i: int| 0 <= i < it.index() implies pids@[i] != *k by {
                assert(u[i] == pids@[i]);
            }
            pids.push(*k);
        }
        assert(pids@.no_duplicates()) by {
            assert forall|i: int, j: int| 0 <= i < pids@.len() && 0 <= j < pids@.len() && i != j implies pids@[i] != pids@[j] by {
                if i < j {
                } else {
                }
            }
        }
        assert(pids@.to_set() =~= dom) by {
            assert forall|x: u16| #[trigger] dom.contains(x) implies pids@.contains(x) by {
                assert(dom.contains(x));
            }
            assert forall|x: u16| #[trigger] pids@.contains(x) implies dom.contains(x) by {
                let i = choose|i: int| 0 <= i < pids@.len() && pids@[i] == x;
                assert(dom.contains(pids@[i]));
            }
        }
        assert(self@.groups.dom() =~= dom);
        pids
    }

    /// The next group for the final pass to probe, if any (see
    /// `spec_next_probe`). The pass takes the groups in the order the map
    /// gives their PIDs when it begins, each PID once.
    pub fn next_pending_probe(&mut self) -> (r: Option<ProbeRequest>)
        requires
            old(self).wf(),
        ensures
            final(self).wf(),
            final(self)@.order is Some,
            old(self)@.order is Some ==> final(self)@.order == old(self)@.order,
            old(self)@.order is None ==> is_pass_order(final(self)@.order.unwrap(), old(self)@.groups),
            (final(self)@, request_view(r)) == spec_next_probe(
                DetectorView { order: final(self)@.order, ..old(self)@ },
            ),
    {
        let ghost og = self@.groups;
        if self.order.is_none() {
            let o = self.group_order();
            proof {
                assert forall|i: int| 0 <= i < o@.len() implies self.groups@.contains_key(#[trigger] o@[i]) by {
                    assert(o@.to_set().contains(o@[i]));
                }
            }
            self.order = Some(o);
        }
        let ghost v = self@;
        assert(v.groups == old(self)@.groups);
        assert(v == (DetectorView { order: v.order, ..old(self)@ }));
        let order = match &self.order {
            Some(o) => o.clone(),
            None => Vec::new(),
        };
        assert(order@ == v.order.unwrap());
        loop
            invariant
                self.wf(),
                v.order == Some(order@),
                v.groups == old(self)@.groups,
                v == (DetectorView { order: v.order, ..old(self)@ }),
                old(self)@.order is Some ==> v.order == old(self)@.order,
                old(self)@.order is None ==> is_pass_order(v.order.unwrap(), old(self)@.groups),
                spec_next_probe(v) == spec_next_probe(self@),
                self@ == (DetectorView { cursor: self@.cursor, ..v }),
            decreases order@.len() - self.cursor,
        {
            if self.state.groups_checked >= MAX_PROBE_GROUPS || self.cursor >= order.len() {
                return None;
            }
            let i = self.cursor;
            self.cursor = self.cursor + 1;
            let pid = order[i];
            let request = self.group_probe(pid);
            if request.is_some() {
                return request;
            }
        }
    }
}

} // verus!
