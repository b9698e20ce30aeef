use crate::crypto::{iv_from, iv_from_key};
use crate::hdr::{read_be_u32, spec_be_u32};
use crate::nal::{byte_strings, copy_bytes, extend_bytes, next_zeros, spec_start_code_length};
use vstd::prelude::*;

verus! {

/// NAL unit type of a Dolby Vision RPU.
pub const NAL_DOLBY_VISION_RPU: i32 = 62;

/// One step of the MSB-first CRC-32 with polynomial `04c11db7`.
pub open spec fn crc_shift(c: u32) -> u32 {
    if c & 0x8000_0000 != 0 {
        ((c << 1u32) ^ 0x04c1_1db7) as u32
    } else {
        c << 1u32
    }
}

/// `n` CRC steps.
pub open spec fn crc_shift_n(c: u32, n: nat) -> u32
    decreases n,
{
    if n == 0 {
        c
    } else {
        crc_shift_n(crc_shift(c), (n - 1) as nat)
    }
}

/// The CRC register after taking in byte `b`.
pub open spec fn crc_update(c: u32, b: u8) -> u32 {
    crc_shift_n(c ^ ((b as u32) << 24u32), 8)
}

/// The CRC register after taking in `data`, starting from `c`.
pub open spec fn crc_from(c: u32, data: Seq<u8>) -> u32
    decreases data.len(),
{
    if data.len() == 0 {
        c
    } else {
        crc_from(crc_update(c, data[0]), data.drop_first())
    }
}

/// CRC-32/MPEG-2: initial value `ffffffff`, no reflection, no final XOR.
pub open spec fn spec_mpeg_crc32(data: Seq<u8>) -> u32 {
    crc_from(0xffff_ffff, data)
}

/// CRC-32/MPEG-2 of `data`.
pub fn mpeg_crc32(data: &[u8]) -> (r: u32)
    ensures
        r == spec_mpeg_crc32(data@),
{
    let mut crc: u32 = 0xffff_ffff;
    let mut i: usize = 0;
    assert(data@.skip(0) =~= data@);
    while i < data.len()
        invariant
            i <= data.len(),
            crc_from(crc, data@.skip(i as int)) == spec_mpeg_crc32(data@),
        decreases data.len() - i,
    {
        let value = data[i];
        assert(data@.skip(i as int)[0] == value);
        assert(data@.skip(i as int).drop_first() =~= data@.skip(i + 1));
        let ghost start = crc ^ ((value as u32) << 24u32);
        crc ^= (value as u32) << 24;
        let mut bit: usize = 0;
        while bit < 8
            invariant
                bit <= 8,
                crc_shift_n(start, 8) == crc_shift_n(crc, (8 - bit) as nat),
            decreases 8 - bit,
        {
            crc = if (crc & 0x8000_0000) != 0 {
                (crc << 1) ^ 0x04c1_1db7
            } else {
                crc << 1
            };
            bit += 1;
        }
        i += 1;
    }
    assert(data@.skip(i as int) =~= Seq::<u8>::empty());
    crc
}

/// The NAL unit type of an Annex B unit that holds a start code and a
/// two-byte NAL header, else -1.
pub open spec fn spec_nal_type_from_annexb(u: Seq<u8>) -> i32 {
    match spec_start_code_length(u) {
        None => -1i32,
        Some(o) => if u.len() < o + 2 {
            -1i32
        } else {
            ((u[o as int] >> 1u8) & 0x3f) as i32
        },
    }
}

/// The NAL unit type of an Annex B unit with a two-byte header, else -1.
pub fn hevc_nal_type_from_annexb_unit(unit: &[u8]) -> (r: i32)
    ensures
        r == spec_nal_type_from_annexb(unit@),
{
    let offset: usize = if unit.len() >= 4 && unit[0] == 0 && unit[1] == 0 && unit[2] == 0 && unit[3]
        == 1 {
        4
    } else if unit.len() >= 3 && unit[0] == 0 && unit[1] == 0 && unit[2] == 1 {
        3
    } else {
        return -1;
    };
    if unit.len() < offset + 2 {
        return -1;
    }
    ((unit[offset] >> 1) & 0x3f) as i32
}

/// The indices of `s`, from `i` on, of the bytes that are kept when
/// emulation prevention bytes are removed; `z` counts the zero bytes just
/// before index `i` (at most 2).
pub open spec fn kept_positions(s: Seq<u8>, i: int, z: int) -> Seq<usize>
    decreases s.len() - i,
{
    if i < 0 || i >= s.len() {
        Seq::empty()
    } else if z >= 2 && s[i] == 3 {
        kept_positions(s, i + 1, 0)
    } else {
        seq![i as usize] + kept_positions(s, i + 1, next_zeros(z, s[i]))
    }
}

/// The EBSP indices of the bytes kept when emulation prevention bytes are removed.
pub fn dolby_rpu_rbsp_positions_from_ebsp(ebsp: &[u8]) -> (r: Vec<usize>)
    ensures
        r@ == kept_positions(ebsp@, 0, 0),
{
    let mut positions: Vec<usize> = Vec::new();
    let mut zeros: usize = 0;
    let mut index: usize = 0;
    assert(positions@ + kept_positions(ebsp@, 0, 0) =~= kept_positions(ebsp@, 0, 0));
    while index < ebsp.len()
        invariant
            index <= ebsp.len(),
            zeros <= 2,
            positions@ + kept_positions(ebsp@, index as int, zeros as int) == kept_positions(ebsp@, 0, 0),
        decreases ebsp.len() - index,
    {
        let value = ebsp[index];
        if zeros >= 2 && value == 0x03 {
            zeros = 0;
        } else {
            let ghost before = positions@;
            let ghost z0 = zeros as int;
            positions.push(index);
            if value == 0x00 {
                zeros = if zeros + 1 > 2 { 2 } else { zeros + 1 };
            } else {
                zeros = 0;
            }
            assert(kept_positions(ebsp@, index as int, z0) == seq![index] + kept_positions(ebsp@, index + 1, zeros as int));
            assert(positions@ + kept_positions(ebsp@, index + 1, zeros as int) =~= before + kept_positions(ebsp@, index as int, z0));
        }
        index += 1;
    }
    assert(kept_positions(ebsp@, index as int, zeros as int) =~= Seq::<usize>::empty());
    assert(positions@ =~= kept_positions(ebsp@, 0, 0));
    positions
}

/// Whether an RBSP can end at index `e`: a `80` byte there, preceded by the
/// big-endian CRC-32/MPEG-2 of the bytes from index 1 up to the CRC.
pub open spec fn is_crc_end(r: Seq<u8>, e: int) -> bool {
    &&& 6 <= e < r.len()
    &&& r[e] == 0x80
    &&& spec_be_u32(r, e - 4) == Some(spec_mpeg_crc32(r.subrange(1, e - 4)))
}

/// The last index below `hi` at which the RBSP can end.
pub open spec fn last_crc_end(r: Seq<u8>, hi: int) -> Option<int>
    decreases hi,
{
    if hi <= 6 {
        None
    } else if is_crc_end(r, hi - 1) {
        Some(hi - 1)
    } else {
        last_crc_end(r, hi - 1)
    }
}

/// Whether an RBSP looks like a Dolby Vision RPU: long enough and starting
/// with the `19` RPU prefix.
pub open spec fn is_rpu_rbsp(r: Seq<u8>) -> bool {
    r.len() >= 8 && r[0] == 0x19
}

/// The length an RPU RBSP keeps: up to and including the last `80` byte
/// that closes a valid CRC, else all of it.
pub open spec fn spec_valid_rpu_end(r: Seq<u8>) -> int {
    if !is_rpu_rbsp(r) {
        r.len() as int
    } else {
        match last_crc_end(r, r.len() as int) {
            Some(e) => e + 1,
            None => r.len() as int,
        }
    }
}

fn last_crc_end_exec(rbsp: &[u8]) -> (r: Option<usize>)
    ensures
        match r {
            None => last_crc_end(rbsp@, rbsp@.len() as int) is None,
            Some(e) => last_crc_end(rbsp@, rbsp@.len() as int) == Some(e as int) && e < rbsp.len(),
        },
{
    let mut hi = rbsp.len();
    while hi > 6
        invariant
            hi <= rbsp.len(),
            last_crc_end(rbsp@, rbsp@.len() as int) == last_crc_end(rbsp@, hi as int),
        decreases hi,
    {
        let end_index = hi - 1;
        if rbsp[end_index] == 0x80 {
            let crc_start = end_index - 4;
            let received = read_be_u32(rbsp, crc_start);
            let body = &rbsp[1..crc_start];
            assert(body@ == rbsp@.subrange(1, crc_start as int));
            let expected = mpeg_crc32(body);
            if received == Some(expected) {
                return Some(end_index);
            }
        }
        hi -= 1;
    }
    None
}

/// The length of an RPU RBSP up to its last CRC-closed `80` byte (see `spec_valid_rpu_end`).
pub fn find_valid_dolby_rpu_rbsp_end(rbsp: &[u8]) -> (r: usize)
    ensures
        r == spec_valid_rpu_end(rbsp@),
{
    if rbsp.len() < 8 || rbsp[0] != 0x19 {
        return rbsp.len();
    }
    match last_crc_end_exec(rbsp) {
        Some(e) => e + 1,
        None => rbsp.len(),
    }
}

/// The bytes of `s` at the given positions.
pub open spec fn pick(s: Seq<u8>, positions: Seq<usize>) -> Seq<u8> {
    Seq::new(positions.len(), |k: int| s[positions[k] as int])
}

/// The RBSP of an RPU NAL payload (after its two-byte NAL header).
pub open spec fn rpu_rbsp(payload: Seq<u8>) -> Seq<u8> {
    let ebsp = payload.skip(2);
    pick(ebsp, kept_positions(ebsp, 0, 0))
}

/// An RPU NAL payload cut after the byte that ends its valid RBSP; short
/// payloads, and those with an empty RBSP, are kept whole.
pub open spec fn spec_trim_rpu_payload(payload: Seq<u8>) -> Seq<u8> {
    if payload.len() < 8 {
        payload
    } else {
        let positions = kept_positions(payload.skip(2), 0, 0);
        let end = spec_valid_rpu_end(rpu_rbsp(payload));
        if end == 0 || end > positions.len() {
            payload
        } else {
            payload.take(2 + positions[end - 1] + 1)
        }
    }
}

proof fn lemma_kept_positions_bounds(s: Seq<u8>, i: int, z: int)
    requires
        0 <= i,
        s.len() <= usize::MAX,
    ensures
        forall|k: int|
            0 <= k < kept_positions(s, i, z).len() ==> i <= #[trigger] kept_positions(s, i, z)[k] < s.len(),
        kept_positions(s, i, z).len() <= if i < s.len() { s.len() - i } else { 0 },
    decreases s.len() - i,
{
    if i < s.len() {
        if z >= 2 && s[i] == 3 {
            lemma_kept_positions_bounds(s, i + 1, 0);
        } else {
            lemma_kept_positions_bounds(s, i + 1, next_zeros(z, s[i]));
            let rest = kept_positions(s, i + 1, next_zeros(z, s[i]));
            assert forall|k: int|
                0 <= k < kept_positions(s, i, z).len() implies i <= #[trigger] kept_positions(s, i, z)[k]
                < s.len() by {
                if k > 0 {
                    assert(kept_positions(s, i, z)[k] == rest[k - 1]);
                } else {
                    assert(kept_positions(s, i, z)[k] == i as usize);
                }
            }
        }
    }
}

fn pick_bytes(s: &[u8], positions: &Vec<usize>) -> (r: Vec<u8>)
    requires
        forall|k: int| 0 <= k < positions@.len() ==> #[trigger] positions@[k] < s@.len(),
    ensures
        r@ == pick(s@, positions@),
{
    let mut out: Vec<u8> = Vec::with_capacity(positions.len());
    let mut k: usize = 0;
    while k < positions.len()
        invariant
            k <= positions.len(),
            forall|j: int| 0 <= j < positions@.len() ==> #[trigger] positions@[j] < s@.len(),
            out@ == pick(s@, positions@).take(k as int),
        decreases positions.len() - k,
    {
        out.push(s[positions[k]]);
        k += 1;
        assert(out@ =~= pick(s@, positions@).take(k as int));
    }
    assert(pick(s@, positions@).take(k as int) =~= pick(s@, positions@));
    out
}

/// The RBSP of an RPU payload and the EBSP positions of its bytes.
fn rpu_rbsp_exec(payload: &[u8]) -> (r: (Vec<u8>, Vec<usize>))
    requires
        payload.len() >= 2,
    ensures
        r.0@ == rpu_rbsp(payload@),
        r.1@ == kept_positions(payload@.skip(2), 0, 0),
        r.0@.len() == r.1@.len(),
        forall|k: int| 0 <= k < r.1@.len() ==> #[trigger] r.1@[k] < payload@.len() - 2,
{
    let ebsp = &payload[2..payload.len()];
    assert(ebsp@ =~= payload@.skip(2));
    let positions = dolby_rpu_rbsp_positions_from_ebsp(ebsp);
    proof {
        lemma_kept_positions_bounds(ebsp@, 0, 0);
    }
    let rbsp = pick_bytes(ebsp, &positions);
    (rbsp, positions)
}

/// Cuts an RPU NAL payload after its valid RBSP (see `spec_trim_rpu_payload`).
pub fn trim_dolby_rpu_nal_payload(payload: &[u8]) -> (r: Vec<u8>)
    ensures
        r@ == spec_trim_rpu_payload(payload@),
{
    if payload.len() < 8 {
        return copy_bytes(payload);
    }
    let (rbsp, positions) = rpu_rbsp_exec(payload);
    let valid_rbsp_end = find_valid_dolby_rpu_rbsp_end(rbsp.as_slice());
    if valid_rbsp_end == 0 || valid_rbsp_end > positions.len() {
        return copy_bytes(payload);
    }
    let end = 2 + positions[valid_rbsp_end - 1] + 1;
    let out = copy_bytes(&payload[0..end]);
    assert(payload@.subrange(0, end as int) =~= payload@.take(end as int));
    out
}

/// Whether an RPU NAL payload holds an RPU RBSP closed by a valid CRC.
pub open spec fn spec_rpu_crc_valid(payload: Seq<u8>) -> bool {
    &&& payload.len() >= 10
    &&& is_rpu_rbsp(rpu_rbsp(payload))
    &&& last_crc_end(rpu_rbsp(payload), rpu_rbsp(payload).len() as int) is Some
}

/// Whether an RPU NAL payload is closed by a valid CRC.
pub fn dolby_rpu_payload_is_crc_valid(payload: &[u8]) -> (r: bool)
    ensures
        r == spec_rpu_crc_valid(payload@),
{
    if payload.len() < 10 {
        return false;
    }
    let (rbsp, positions) = rpu_rbsp_exec(payload);
    if positions.len() < 8 {
        return false;
    }
    if rbsp.len() < 8 || rbsp[0] != 0x19 {
        return false;
    }
    last_crc_end_exec(rbsp.as_slice()).is_some()
}

/// The first candidate payload that is closed by a valid CRC.
pub open spec fn first_crc_valid(cs: Seq<Seq<u8>>) -> Option<Seq<u8>>
    decreases cs.len(),
{
    if cs.len() == 0 {
        None
    } else if spec_rpu_crc_valid(cs[0]) {
        Some(cs[0])
    } else {
        first_crc_valid(cs.drop_first())
    }
}

/// The trimmed RPU payloads made of the NAL header `prefix` and each
/// decryption.
pub open spec fn rpu_candidates(prefix: Seq<u8>, ds: Seq<Seq<u8>>) -> Seq<Seq<u8>> {
    Seq::new(ds.len(), |k: int| spec_trim_rpu_payload(prefix + ds[k]))
}

/// The Dolby Vision RPU unit recovered from the decryptions `ds` of the
/// bytes of RPU unit `u` after its NAL header: the first candidate with a
/// valid CRC, else the first candidate, else `u` itself, behind a
/// four-byte start code. `None` when `u` is no RPU unit.
pub open spec fn spec_decrypt_dolby_rpu_unit(u: Seq<u8>, ds: Seq<Seq<u8>>) -> Option<Seq<u8>> {
    if spec_nal_type_from_annexb(u) != NAL_DOLBY_VISION_RPU {
        None
    } else {
        let scl = spec_start_code_length(u).unwrap() as int;
        let cs = rpu_candidates(u.subrange(scl, scl + 2), ds);
        let body = match first_crc_valid(cs) {
            Some(c) => c,
            None => if ds.len() > 0 {
                cs[0]
            } else {
                u
            },
        };
        Some(seq![0u8, 0u8, 0u8, 1u8] + body)
    }
}

/// Decryptions that fit the samples of an RPU unit `u`: one per tail
/// length, each as long as its sample (counter-mode decryption keeps the
/// length).
pub open spec fn rpu_decryptions_fit(u: Seq<u8>, ds: Seq<Seq<u8>>) -> bool {
    &&& ds.len() == rpu_tail_drops().len()
    &&& forall|k: int|
        0 <= k < ds.len() ==> (#[trigger] ds[k]).len() == rpu_encrypted_source(
            u,
            rpu_tail_drops()[k] as int,
        ).len()
}

/// A recovered RPU unit of `u`: a four-byte start code, then the NAL header
/// of `u`, and no more bytes than `u` has after its own start code.
pub open spec fn rpu_unit_shape(v: Seq<u8>, u: Seq<u8>) -> bool {
    let sc = spec_start_code_length(u).unwrap() as int;
    &&& v.len() >= 6
    &&& v.take(4) == seq![0u8, 0u8, 0u8, 1u8]
    &&& v.subrange(4, 6) == u.subrange(sc, sc + 2)
    &&& v.len() <= 4 + u.len() - sc
}

proof fn lemma_last_crc_end_low(r: Seq<u8>, hi: int)
    ensures
        last_crc_end(r, hi) matches Some(e) ==> 6 <= e,
    decreases hi,
{
    if hi > 6 && !is_crc_end(r, hi - 1) {
        lemma_last_crc_end_low(r, hi - 1);
    }
}

proof fn lemma_trim_keeps_header(p: Seq<u8>)
    requires
        2 <= p.len() <= usize::MAX,
    ensures
        2 <= spec_trim_rpu_payload(p).len() <= p.len(),
        spec_trim_rpu_payload(p).take(2) == p.take(2),
{
    if p.len() >= 8 {
        let positions = kept_positions(p.skip(2), 0, 0);
        lemma_kept_positions_bounds(p.skip(2), 0, 0);
        lemma_last_crc_end_low(rpu_rbsp(p), rpu_rbsp(p).len() as int);
        let end = spec_valid_rpu_end(rpu_rbsp(p));
        if !(end == 0 || end > positions.len()) {
            assert(0 <= positions[end - 1] < p.len() - 2);
            assert(spec_trim_rpu_payload(p).take(2) =~= p.take(2));
        }
    }
}

proof fn lemma_first_crc_valid_in(cs: Seq<Seq<u8>>)
    ensures
        first_crc_valid(cs) matches Some(c) ==> exists|k: int| 0 <= k < cs.len() && #[trigger] cs[k] == c,
    decreases cs.len(),
{
    if cs.len() > 0 && !spec_rpu_crc_valid(cs[0]) {
        lemma_first_crc_valid_in(cs.drop_first());
        if first_crc_valid(cs) is Some {
            let c = first_crc_valid(cs).unwrap();
            let k = choose|k: int| 0 <= k < cs.drop_first().len() && #[trigger] cs.drop_first()[k] == c;
            assert(cs[k + 1] == c);
        }
    }
}

/// With decryptions that fit the samples, the recovered unit of an RPU unit
/// starts with a four-byte start code and the unit's own NAL header.
proof fn lemma_rpu_result_shape(u: Seq<u8>, ds: Seq<Seq<u8>>)
    requires
        u.len() <= usize::MAX,
        spec_nal_type_from_annexb(u) == NAL_DOLBY_VISION_RPU,
        rpu_decryptions_fit(u, ds),
    ensures
        spec_decrypt_dolby_rpu_unit(u, ds) matches Some(v) && rpu_unit_shape(v, u),
{
    let sc = spec_start_code_length(u).unwrap() as int;
    let prefix = u.subrange(sc, sc + 2);
    let cs = rpu_candidates(prefix, ds);
    assert forall|k: int| 0 <= k < cs.len() implies {
        &&& 2 <= (#[trigger] cs[k]).len() <= u.len() - sc
        &&& cs[k].take(2) == prefix
    } by {
        let p = prefix + ds[k];
        assert(ds[k].len() <= u.len() - sc - 2);
        lemma_trim_keeps_header(p);
        assert(p.take(2) =~= prefix);
    }
    lemma_first_crc_valid_in(cs);
    let body = match first_crc_valid(cs) {
        Some(c) => c,
        None => cs[0],
    };
    assert(2 <= body.len() <= u.len() - sc && body.take(2) == prefix);
    let v = seq![0u8, 0u8, 0u8, 1u8] + body;
    assert(v.take(4) =~= seq![0u8, 0u8, 0u8, 1u8]);
    assert(v.subrange(4, 6) =~= body.take(2));
}

/// Recovers a Dolby Vision RPU unit from its decryptions: `decrypted[k]`
/// is the decryption of the `k`-th sample that `rpu_decryption_inputs`
/// gives, with the IV it gives.
pub fn decrypt_dolby_rpu_unit(unit: &[u8], decrypted: &Vec<Vec<u8>>) -> (r: Option<Vec<u8>>)
    requires
        spec_nal_type_from_annexb(unit@) == NAL_DOLBY_VISION_RPU ==> rpu_decryptions_fit(
            unit@,
            byte_strings(decrypted@),
        ),
    ensures
        match r {
            None => spec_decrypt_dolby_rpu_unit(unit@, byte_strings(decrypted@)) is None,
            Some(v) => spec_decrypt_dolby_rpu_unit(unit@, byte_strings(decrypted@)) == Some(v@),
        },
        r is None <==> spec_nal_type_from_annexb(unit@) != NAL_DOLBY_VISION_RPU,
        r matches Some(v) ==> rpu_unit_shape(v@, unit@),
{
    let unit_len = unit.len();
    proof {
        if spec_nal_type_from_annexb(unit@) == NAL_DOLBY_VISION_RPU {
            lemma_rpu_result_shape(unit@, byte_strings(decrypted@));
        }
    }
    if hevc_nal_type_from_annexb_unit(unit) != NAL_DOLBY_VISION_RPU {
        return None;
    }
    let start_code_length: usize = if unit.len() >= 4 && unit[0] == 0 && unit[1] == 0 && unit[2] == 0
        && unit[3] == 1 {
        4
    } else {
        3
    };
    let nal_prefix = &unit[start_code_length..start_code_length + 2];
    let ghost prefix = nal_prefix@;
    let ghost ds = byte_strings(decrypted@);
    let ghost cs = rpu_candidates(prefix, ds);
    assert(prefix == unit@.subrange(start_code_length as int, start_code_length + 2));
    let mut best: Option<Vec<u8>> = None;
    let mut k: usize = 0;
    assert(cs.skip(0) =~= cs);
    let ghost fallback = if ds.len() > 0 {
        cs[0]
    } else {
        unit@
    };
    assert(spec_decrypt_dolby_rpu_unit(unit@, ds) == Some(
        seq![0u8, 0u8, 0u8, 1u8] + match first_crc_valid(cs) {
            Some(c) => c,
            None => fallback,
        },
    ));
    while k < decrypted.len()
        invariant
            spec_decrypt_dolby_rpu_unit(unit@, ds) == Some(
                seq![0u8, 0u8, 0u8, 1u8] + match first_crc_valid(cs) {
                    Some(c) => c,
                    None => fallback,
                },
            ),
            k <= decrypted.len(),
            ds == byte_strings(decrypted@),
            spec_decrypt_dolby_rpu_unit(unit@, ds) matches Some(v) && rpu_unit_shape(v, unit@),
            cs == rpu_candidates(prefix, ds),
            prefix == nal_prefix@,
            first_crc_valid(cs) == first_crc_valid(cs.skip(k as int)),
            k == 0 <==> best is None,
            best matches Some(b) ==> b@ == cs[0],
        decreases decrypted.len() - k,
    {
        assert(cs.skip(k as int)[0] == cs[k as int]);
        assert(cs.skip(k as int).drop_first() =~= cs.skip(k + 1));
        let mut candidate: Vec<u8> = Vec::new();
        extend_bytes(&mut candidate, nal_prefix);
        extend_bytes(&mut candidate, decrypted[k].as_slice());
        assert(candidate@ =~= prefix + ds[k as int]);
        let trimmed = trim_dolby_rpu_nal_payload(candidate.as_slice());
        if best.is_none() {
            best = Some(copy_bytes(trimmed.as_slice()));
        }
        if dolby_rpu_payload_is_crc_valid(trimmed.as_slice()) {
            let mut result: Vec<u8> = Vec::new();
            result.push(0x00);
            result.push(0x00);
            result.push(0x00);
            result.push(0x01);
            extend_bytes(&mut result, trimmed.as_slice());
            assert(result@ =~= seq![0u8, 0u8, 0u8, 1u8] + cs[k as int]);
            return Some(result);
        }
        k += 1;
    }
    assert(cs.skip(k as int) =~= Seq::<Seq<u8>>::empty());
    let mut result: Vec<u8> = Vec::new();
    result.push(0x00);
    result.push(0x00);
    result.push(0x00);
    result.push(0x01);
    match best {
        Some(b) => {
            extend_bytes(&mut result, b.as_slice());
        },
        None => {
            extend_bytes(&mut result, unit);
        },
    }
    assert(result@ =~= spec_decrypt_dolby_rpu_unit(unit@, ds).unwrap());
    Some(result)
}

/// Whether the recovered unit holds an RPU closed by a valid CRC.
pub open spec fn spec_is_valid_dolby_rpu_unit(u: Seq<u8>, ds: Seq<Seq<u8>>) -> bool {
    match spec_decrypt_dolby_rpu_unit(u, ds) {
        None => false,
        Some(v) => match spec_start_code_length(v) {
            None => false,
            Some(l) => spec_rpu_crc_valid(v.skip(l as int)),
        },
    }
}

/// Whether the RPU unit recovered from the decryptions is closed by a valid CRC.
pub fn is_valid_dolby_rpu_unit(unit: &[u8], decrypted: &Vec<Vec<u8>>) -> (r: bool)
    requires
        spec_nal_type_from_annexb(unit@) == NAL_DOLBY_VISION_RPU ==> rpu_decryptions_fit(
            unit@,
            byte_strings(decrypted@),
        ),
    ensures
        r == spec_is_valid_dolby_rpu_unit(unit@, byte_strings(decrypted@)),
{
    let recovered = match decrypt_dolby_rpu_unit(unit, decrypted) {
        None => {
            return false;
        },
        Some(v) => v,
    };
    let start_code_length: usize = if recovered.len() >= 4 && recovered[0] == 0 && recovered[1] == 0
        && recovered[2] == 0 && recovered[3] == 1 {
        4
    } else if recovered.len() >= 3 && recovered[0] == 0 && recovered[1] == 0 && recovered[2] == 1 {
        3
    } else {
        return false;
    };
    let payload = &recovered[start_code_length..recovered.len()];
    assert(payload@ =~= recovered@.skip(start_code_length as int));
    dolby_rpu_payload_is_crc_valid(payload)
}

/// The tail lengths cut from the encrypted bytes of an RPU unit, in the
/// order the decryptions are tried.
pub open spec fn rpu_tail_drops() -> Seq<usize> {
    seq![4usize, 0, 2, 1, 3, 5, 6, 7, 8, 12, 16]
}

/// The encrypted bytes of RPU unit `u` (after its start code and NAL header)
/// with `drop` bytes cut from the end, none left when there are fewer.
pub open spec fn rpu_encrypted_source(u: Seq<u8>, drop: int) -> Seq<u8> {
    let scl = spec_start_code_length(u).unwrap() as int;
    let full = u.skip(scl + 2);
    full.take(if full.len() >= drop { full.len() - drop } else { 0 })
}

/// What `decrypt_dolby_rpu_unit` expects to be decrypted: for an RPU unit,
/// the encrypted bytes cut by each tail length in turn, and the IV made of
/// the block key's first 12 bytes and four zero bytes.
pub open spec fn spec_rpu_decryption_inputs(u: Seq<u8>, block_key: Seq<u8>) -> Option<(Seq<Seq<u8>>, Seq<u8>)> {
    if spec_nal_type_from_annexb(u) != NAL_DOLBY_VISION_RPU {
        None
    } else {
        Some((Seq::new(11, |k: int| rpu_encrypted_source(u, rpu_tail_drops()[k] as int)), iv_from(block_key)))
    }
}

/// The samples to decrypt for `decrypt_dolby_rpu_unit` and the IV to
/// decrypt them with (see `spec_rpu_decryption_inputs`).
pub fn rpu_decryption_inputs(unit: &[u8], block_key: &[u8; 16]) -> (r: Option<(Vec<Vec<u8>>, [u8; 16])>)
    ensures
        match spec_rpu_decryption_inputs(unit@, block_key@) {
            None => r is None,
            Some((sources, iv)) => r matches Some((v, k)) && byte_strings(v@) == sources && k@ == iv,
        },
{
    if hevc_nal_type_from_annexb_unit(unit) != NAL_DOLBY_VISION_RPU {
        return None;
    }
    let start_code_length: usize = if unit.len() >= 4 && unit[0] == 0 && unit[1] == 0 && unit[2] == 0
        && unit[3] == 1 {
        4
    } else {
        3
    };
    let full = &unit[start_code_length + 2..unit.len()];
    assert(full@ =~= unit@.skip(start_code_length + 2));
    let drops: [usize; 11] = [4, 0, 2, 1, 3, 5, 6, 7, 8, 12, 16];
    assert(drops@ == rpu_tail_drops());
    let mut sources: Vec<Vec<u8>> = Vec::new();
    let mut k: usize = 0;
    while k < 11
        invariant
            k <= 11,
            drops@ == rpu_tail_drops(),
            full@ == unit@.skip(start_code_length + 2),
            spec_start_code_length(unit@) == Some(start_code_length),
            sources@.len() == k,
            forall|q: int| 0 <= q < k ==> (#[trigger] sources@[q])@ == rpu_encrypted_source(unit@, drops@[q] as int),
        decreases 11 - k,
    {
        let drop = drops[k];
        let end = if full.len() >= drop { full.len() - drop } else { 0 };
        let source = copy_bytes(&full[0..end]);
        assert(full@.subrange(0, end as int) =~= full@.take(end as int));
        sources.push(source);
        k += 1;
    }
    assert(byte_strings(sources@) =~= Seq::new(
        11,
        |q: int| rpu_encrypted_source(unit@, rpu_tail_drops()[q] as int),
    ));
    Some((sources, iv_from_key(block_key)))
}

} // verus!
