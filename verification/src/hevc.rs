use crate::crypto::{
    decrypt_es_sparse_with_emulation_removal, lemma_decrypt_es_sparse_len, spec_decrypt_es_sparse,
    AesBlockEncryptor,
};
use crate::nal::{copy_bytes, extend_bytes};
use vstd::prelude::*;

verus! {

/// Stream type of H.264 video in a PMT.
pub const STREAM_TYPE_H264: u8 = 0x1B;

/// Length of the NAL unit header for a stream type: one byte for H.264,
/// two for HEVC and anything else.
pub open spec fn nal_header_len(stream_type: u8) -> int {
    if stream_type == STREAM_TYPE_H264 {
        1
    } else {
        2
    }
}

/// Whether a three-byte start code `00 00 01` begins at index `i`.
pub open spec fn is_start_code_at(p: Seq<u8>, i: int) -> bool {
    0 <= i && i + 2 < p.len() && p[i] == 0 && p[i + 1] == 0 && p[i + 2] == 1
}

/// A NAL unit `p[a..b]` that is followed by another start code at `b`:
/// when it is long enough, the bytes after its start code and NAL header
/// are decrypted, except a trailer of two bytes (three when the next start
/// code has a leading zero byte).
pub open spec fn inner_segment(p: Seq<u8>, nhl: int, key: Seq<u8>, iv: Seq<u8>, a: int, b: int) -> Seq<u8> {
    let s = a + 3 + nhl;
    if b >= 2 && b - 2 > s {
        let t = if p[b - 1] == 0 && b >= 3 {
            b - 3
        } else {
            b - 2
        };
        p.subrange(a, s) + spec_decrypt_es_sparse(key, iv, p.subrange(s, t)) + p.subrange(t, b)
    } else {
        p.subrange(a, b)
    }
}

/// The last NAL unit `p[a..]` of a PES packet: when it is long enough, the
/// bytes after its start code and NAL header are decrypted, except the
/// last two.
pub open spec fn last_segment(p: Seq<u8>, nhl: int, key: Seq<u8>, iv: Seq<u8>, a: int) -> Seq<u8> {
    let s = a + 3 + nhl;
    let n = p.len() as int;
    if n >= 2 && n - 2 > s {
        p.subrange(a, s) + spec_decrypt_es_sparse(key, iv, p.subrange(s, n - 2)) + p.subrange(n - 2, n)
    } else {
        p.subrange(a, n)
    }
}

/// The decrypted NAL units of `p` from the unit that starts at `a`, with
/// start codes searched for from index `i` on.
pub open spec fn pes_units(p: Seq<u8>, nhl: int, key: Seq<u8>, iv: Seq<u8>, a: int, i: int) -> Seq<u8>
    decreases p.len() - i,
{
    if i < 0 || i >= p.len() {
        Seq::empty()
    } else if i == p.len() - 1 {
        last_segment(p, nhl, key, iv, a)
    } else if is_start_code_at(p, i) && i != a {
        inner_segment(p, nhl, key, iv, a, i) + pes_units(p, nhl, key, iv, i, i + 1)
    } else {
        pes_units(p, nhl, key, iv, a, i + 1)
    }
}

/// A PES packet with the payload of each NAL unit decrypted; packets too
/// short for their header are kept as they are.
pub open spec fn spec_decrypt_pes_normal(p: Seq<u8>, stream_type: u8, key: Seq<u8>, iv: Seq<u8>) -> Seq<u8> {
    if p.len() < 9 {
        p
    } else {
        let header_end = 9 + p[8];
        if header_end > p.len() {
            p
        } else {
            p.take(header_end) + pes_units(p, nal_header_len(stream_type), key, iv, header_end, header_end)
        }
    }
}

proof fn lemma_decrypt_empty(key: Seq<u8>, iv: Seq<u8>, es: Seq<u8>)
    requires
        es.len() == 0,
    ensures
        spec_decrypt_es_sparse(key, iv, es) == es,
{
    assert(spec_decrypt_es_sparse(key, iv, es) =~= es);
}

fn push_decrypted(
    out: &mut Vec<u8>,
    es: &[u8],
    encryptor: &AesBlockEncryptor,
    iv_snap: &[u8; 16],
)
    ensures
        final(out)@ == old(out)@ + spec_decrypt_es_sparse(encryptor.key(), iv_snap@, es@),
{
    if es.len() > 0 {
        let decrypted = decrypt_es_sparse_with_emulation_removal(es, encryptor, iv_snap);
        extend_bytes(out, decrypted.as_slice());
    } else {
        proof {
            lemma_decrypt_empty(encryptor.key(), iv_snap@, es@);
        }
        assert(old(out)@ + es@ =~= old(out)@);
    }
}

fn push_inner_segment(
    out: &mut Vec<u8>,
    pes: &[u8],
    nal_hdr_len: usize,
    encryptor: &AesBlockEncryptor,
    iv_snap: &[u8; 16],
    a: usize,
    b: usize,
)
    requires
        nal_hdr_len <= 2,
        a < b <= pes.len(),
    ensures
        final(out)@ == old(out)@ + inner_segment(
            pes@,
            nal_hdr_len as int,
            encryptor.key(),
            iv_snap@,
            a as int,
            b as int,
        ),
{
    if b >= 2 && b - 2 >= a && b - 2 - a > 3 + nal_hdr_len {
        let s = a + 3 + nal_hdr_len;
        extend_bytes(out, &pes[a..s]);
        let t = if pes[b - 1] == 0 && b >= 3 {
            b - 3
        } else {
            b - 2
        };
        push_decrypted(out, &pes[s..t], encryptor, iv_snap);
        extend_bytes(out, &pes[t..b]);
    } else {
        extend_bytes(out, &pes[a..b]);
    }
    assert(final(out)@ =~= old(out)@ + inner_segment(
        pes@,
        nal_hdr_len as int,
        encryptor.key(),
        iv_snap@,
        a as int,
        b as int,
    ));
}

fn push_last_segment(
    out: &mut Vec<u8>,
    pes: &[u8],
    nal_hdr_len: usize,
    encryptor: &AesBlockEncryptor,
    iv_snap: &[u8; 16],
    a: usize,
)
    requires
        nal_hdr_len <= 2,
        a <= pes.len(),
    ensures
        final(out)@ == old(out)@ + last_segment(pes@, nal_hdr_len as int, encryptor.key(), iv_snap@, a as int),
{
    let n = pes.len();
    if n >= 2 && n - 2 >= a && n - 2 - a > 3 + nal_hdr_len {
        let s = a + 3 + nal_hdr_len;
        extend_bytes(out, &pes[a..s]);
        push_decrypted(out, &pes[s..n - 2], encryptor, iv_snap);
        extend_bytes(out, &pes[n - 2..n]);
    } else {
        extend_bytes(out, &pes[a..n]);
    }
    assert(final(out)@ =~= old(out)@ + last_segment(
        pes@,
        nal_hdr_len as int,
        encryptor.key(),
        iv_snap@,
        a as int,
    ));
}

/// Decrypts the NAL units of one video PES packet: each unit's bytes after
/// its start code and NAL header are decrypted with the sparse CTR scheme,
/// keeping a short trailer; the PES header and the start codes stay.
pub fn decrypt_pes_normal(
    pes: &[u8],
    stream_type: u8,
    encryptor: &AesBlockEncryptor,
    iv_snap: &[u8; 16],
) -> (r: Vec<u8>)
    ensures
        r@ == spec_decrypt_pes_normal(pes@, stream_type, encryptor.key(), iv_snap@),
        r@.len() == pes@.len(),
{
    proof {
        lemma_decrypt_pes_keeps_length(pes@, stream_type, encryptor.key(), iv_snap@);
    }
    if pes.len() < 9 {
        return copy_bytes(pes);
    }
    let pes_header_len = pes[8] as usize;
    let header_end = 9 + pes_header_len;
    if header_end > pes.len() {
        return copy_bytes(pes);
    }
    let ghost key = encryptor.key();
    let ghost iv = iv_snap@;
    let nal_hdr_len: usize = if stream_type == STREAM_TYPE_H264 {
        1
    } else {
        2
    };
    let ghost nhl = nal_hdr_len as int;
    let ghost target = spec_decrypt_pes_normal(pes@, stream_type, key, iv);
    let mut new_pes = copy_bytes(&pes[0..header_end]);
    assert(pes@.subrange(0, header_end as int) =~= pes@.take(header_end as int));
    let mut pos_st = header_end;
    let mut i = pos_st;
    while i < pes.len()
        invariant
            header_end <= pos_st <= i,
            i <= pes.len(),
            nhl == nal_hdr_len,
            nal_hdr_len <= 2,
            key == encryptor.key(),
            iv == iv_snap@,
            new_pes@ + pes_units(pes@, nhl, key, iv, pos_st as int, i as int) == target,
        decreases pes.len() - i,
    {
        let ghost before = new_pes@;
        if i == pes.len() - 1 {
            push_last_segment(&mut new_pes, pes, nal_hdr_len, encryptor, iv_snap, pos_st);
            assert(pes_units(pes@, nhl, key, iv, pos_st as int, i + 1) =~= Seq::<u8>::empty());
            assert(new_pes@ + pes_units(pes@, nhl, key, iv, pos_st as int, i + 1) =~= target);
        } else if i + 2 < pes.len() && pes[i] == 0 && pes[i + 1] == 0 && pes[i + 2] == 1 {
            if i != pos_st {
                push_inner_segment(&mut new_pes, pes, nal_hdr_len, encryptor, iv_snap, pos_st, i);
                assert(new_pes@ + pes_units(pes@, nhl, key, iv, i as int, i + 1) =~= target);
                pos_st = i;
            }
        }
        i += 1;
    }
    assert(pes_units(pes@, nhl, key, iv, pos_st as int, i as int) =~= Seq::<u8>::empty());
    assert(new_pes@ =~= target);
    new_pes
}

proof fn lemma_pes_units_len(p: Seq<u8>, nhl: int, key: Seq<u8>, iv: Seq<u8>, a: int, i: int)
    requires
        0 <= nhl,
        0 <= a <= i,
        i < p.len() || (a == i && i == p.len()),
    ensures
        pes_units(p, nhl, key, iv, a, i).len() == p.len() - a,
    decreases p.len() - i,
{
    let s = a + 3 + nhl;
    let n = p.len() as int;
    if i < p.len() {
        if i == n - 1 {
            if n >= 2 && n - 2 > s {
                lemma_decrypt_es_sparse_len(key, iv, p.subrange(s, n - 2));
            }
        } else if is_start_code_at(p, i) && i != a {
            lemma_pes_units_len(p, nhl, key, iv, i, i + 1);
            if i >= 2 && i - 2 > s {
                let t = if p[i - 1] == 0 && i >= 3 {
                    i - 3
                } else {
                    i - 2
                };
                lemma_decrypt_es_sparse_len(key, iv, p.subrange(s, t));
            }
        } else {
            lemma_pes_units_len(p, nhl, key, iv, a, i + 1);
        }
    }
}

/// Decrypting a PES packet keeps its length: every byte is replaced in
/// place.
pub proof fn lemma_decrypt_pes_keeps_length(p: Seq<u8>, stream_type: u8, key: Seq<u8>, iv: Seq<u8>)
    ensures
        spec_decrypt_pes_normal(p, stream_type, key, iv).len() == p.len(),
{
    if p.len() >= 9 {
        let header_end = 9 + p[8];
        if header_end <= p.len() {
            lemma_pes_units_len(p, nal_header_len(stream_type), key, iv, header_end, header_end);
        }
    }
}

/// A NAL unit `p[a..b]` that the next start code at `b` ends keeps its
/// length and its start code and NAL header. When that start code has a
/// leading zero byte (`p[b - 1] == 0`) the three bytes before `b` are kept
/// and the bytes between the header and them are decrypted, whatever the
/// NAL header length (one byte for H.264, two for HEVC); otherwise the two
/// bytes before `b` are kept.
pub proof fn lemma_inner_segment_trailer(p: Seq<u8>, nhl: int, key: Seq<u8>, iv: Seq<u8>, a: int, b: int)
    requires
        1 <= nhl <= 2,
        0 <= a,
        a + 3 <= b <= p.len(),
    ensures
        inner_segment(p, nhl, key, iv, a, b).len() == b - a,
        p[b - 1] == 0 ==> inner_segment(p, nhl, key, iv, a, b).subrange(b - a - 3, b - a) == p.subrange(
            b - 3,
            b,
        ),
        p[b - 1] != 0 ==> inner_segment(p, nhl, key, iv, a, b).subrange(b - a - 2, b - a) == p.subrange(
            b - 2,
            b,
        ),
        b - 3 >= a + 3 + nhl ==> inner_segment(p, nhl, key, iv, a, b).take(3 + nhl) == p.subrange(a, a + 3 + nhl),
        p[b - 1] == 0 && b - 2 > a + 3 + nhl ==> inner_segment(p, nhl, key, iv, a, b).subrange(
            3 + nhl,
            b - a - 3,
        ) == spec_decrypt_es_sparse(key, iv, p.subrange(a + 3 + nhl, b - 3)),
        p[b - 1] != 0 && b - 2 > a + 3 + nhl ==> inner_segment(p, nhl, key, iv, a, b).subrange(
            3 + nhl,
            b - a - 2,
        ) == spec_decrypt_es_sparse(key, iv, p.subrange(a + 3 + nhl, b - 2)),
{
    let s = a + 3 + nhl;
    let out = inner_segment(p, nhl, key, iv, a, b);
    if b - 2 > s {
        let t = if p[b - 1] == 0 {
            b - 3
        } else {
            b - 2
        };
        let d = spec_decrypt_es_sparse(key, iv, p.subrange(s, t));
        lemma_decrypt_es_sparse_len(key, iv, p.subrange(s, t));
        assert(d.len() == t - s);
        assert(out == p.subrange(a, s) + d + p.subrange(t, b));
        if p[b - 1] == 0 {
            assert(out.subrange(b - a - 3, b - a) =~= p.subrange(b - 3, b));
            assert(out.subrange(3 + nhl, b - a - 3) =~= d);
        } else {
            assert(out.subrange(b - a - 2, b - a) =~= p.subrange(b - 2, b));
            assert(out.subrange(3 + nhl, b - a - 2) =~= d);
        }
        assert(out.take(3 + nhl) =~= p.subrange(a, a + 3 + nhl));
    } else {
        assert(out =~= p.subrange(a, b));
        assert(out.subrange(b - a - 3, b - a) =~= p.subrange(b - 3, b));
        assert(out.subrange(b - a - 2, b - a) =~= p.subrange(b - 2, b));
    }
}

proof fn lemma_inner_segment_len(p: Seq<u8>, nhl: int, key: Seq<u8>, iv: Seq<u8>, a: int, b: int)
    requires
        1 <= nhl <= 2,
        0 <= a < b <= p.len(),
    ensures
        inner_segment(p, nhl, key, iv, a, b).len() == b - a,
        b < a + 3 ==> inner_segment(p, nhl, key, iv, a, b) == p.subrange(a, b),
{
    if b >= a + 3 {
        lemma_inner_segment_trailer(p, nhl, key, iv, a, b);
    }
}

proof fn lemma_last_segment_len(p: Seq<u8>, nhl: int, key: Seq<u8>, iv: Seq<u8>, a: int)
    requires
        1 <= nhl <= 2,
        0 <= a <= p.len(),
    ensures
        last_segment(p, nhl, key, iv, a).len() == p.len() - a,
{
    let s = a + 3 + nhl;
    let n = p.len() as int;
    if n >= 2 && n - 2 > s {
        lemma_decrypt_es_sparse_len(key, iv, p.subrange(s, n - 2));
    }
}

proof fn lemma_pes_units_keep_trailers(p: Seq<u8>, nhl: int, key: Seq<u8>, iv: Seq<u8>, a: int, i: int)
    requires
        1 <= nhl <= 2,
        0 <= a <= i < p.len(),
    ensures
        pes_units(p, nhl, key, iv, a, i).len() == p.len() - a,
        forall|b: int, j: int|
            i <= b < p.len() && b > a && is_start_code_at(p, b) && p[b - 1] == 0 && a <= j && b - 3 <= j < b
                ==> #[trigger] pes_units(p, nhl, key, iv, a, i)[j - a] == p[j] && #[trigger] is_start_code_at(p, b),
    decreases p.len() - i,
{
    let r = pes_units(p, nhl, key, iv, a, i);
    if i == p.len() - 1 {
        lemma_last_segment_len(p, nhl, key, iv, a);
    } else if is_start_code_at(p, i) && i != a {
        lemma_pes_units_keep_trailers(p, nhl, key, iv, i, i + 1);
        lemma_inner_segment_len(p, nhl, key, iv, a, i);
        let seg = inner_segment(p, nhl, key, iv, a, i);
        let u = pes_units(p, nhl, key, iv, i, i + 1);
        assert(r == seg + u);
        if i >= a + 3 {
            lemma_inner_segment_trailer(p, nhl, key, iv, a, i);
        }
        assert forall|b: int, j: int|
            i <= b < p.len() && b > a && is_start_code_at(p, b) && p[b - 1] == 0 && a <= j && b - 3 <= j < b
                implies #[trigger] r[j - a] == p[j] && #[trigger] is_start_code_at(p, b) by {
            if b == i {
                if i >= a + 3 {
                    assert(seg.subrange(i - a - 3, i - a)[j - a - (i - a - 3)] == p.subrange(i - 3, i)[j - (i - 3)]);
                } else {
                    assert(seg[j - a] == p.subrange(a, i)[j - a]);
                }
            } else {
                assert(b >= i + 3);
                assert(u[j - i] == p[j] && is_start_code_at(p, b));
                assert(r[j - a] == u[j - i]);
            }
        }
    } else {
        lemma_pes_units_keep_trailers(p, nhl, key, iv, a, i + 1);
    }
}

/// Decrypting a PES packet keeps its length, and for every start code
/// that has a leading zero byte the three bytes before it (the end of the
/// preceding NAL unit and the zero byte) come out as they went in, for
/// H.264 and HEVC alike.
pub proof fn lemma_decrypt_pes_keeps_zero_byte_trailers(p: Seq<u8>, stream_type: u8, key: Seq<u8>, iv: Seq<u8>)
    ensures
        spec_decrypt_pes_normal(p, stream_type, key, iv).len() == p.len(),
        forall|b: int|
            3 <= b && #[trigger] is_start_code_at(p, b) && p[b - 1] == 0 ==> spec_decrypt_pes_normal(
                p,
                stream_type,
                key,
                iv,
            ).subrange(b - 3, b) == p.subrange(b - 3, b),
{
    let out = spec_decrypt_pes_normal(p, stream_type, key, iv);
    let nhl = nal_header_len(stream_type);
    if p.len() >= 9 && 9 + p[8] <= p.len() {
        let h = 9 + p[8];
        let u = pes_units(p, nhl, key, iv, h, h);
        if h < p.len() {
            lemma_pes_units_keep_trailers(p, nhl, key, iv, h, h);
        } else {
            assert(u.len() == 0);
        }
        assert(out == p.take(h) + u);
        assert forall|b: int| 3 <= b && #[trigger] is_start_code_at(p, b) && p[b - 1] == 0 implies out.subrange(
            b - 3,
            b,
        ) == p.subrange(b - 3, b) by {
            assert forall|j: int| b - 3 <= j < b implies out[j] == p[j] by {
                if j < h {
                } else {
                    assert(b > h);
                    assert(u[j - h] == p[j] && is_start_code_at(p, b));
                }
            }
            assert(out.subrange(b - 3, b) =~= p.subrange(b - 3, b));
        }
    }
}

} // verus!
