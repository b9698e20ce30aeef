//! What reading an SPS RBSP depends on, and what the VUI rewrites leave
//! for a later reader to find.
use crate::common::VideoMode;
use crate::nal::{escape, lemma_unescape_escape, spec_hevc_nal_type, spec_start_code_length};
use crate::sdr::{
    bit_at,
    bits_after,
    bits_value,
    bt709_colour_bits,
    can_read,
    chroma_patched_bits,
    insert_bits,
    lemma_bit_at_le1,
    lemma_bits_to_rbsp_bits,
    lemma_locate_vui_bits,
    lemma_locate_vui_order,
    lemma_locate_vui_positions,
    lemma_ptl_sublayer_bits_nonneg,
    lemma_read_flag,
    lemma_sdr_patch_len,
    lemma_small_codes,
    lemma_ue_zeros_bounds,
    lemma_unescape_len,
    lemma_vui_chroma_bounds,
    lemma_vui_from_order,
    lemma_vui_signal_bounds,
    packed_bit,
    ptl_sublayer_bits,
    replace_bits,
    rps_inter_flags,
    scaling_entry,
    scaling_from,
    sdr_patched_bits,
    sdr_signal_bits,
    skip_long_term_entries,
    skip_se_codes,
    skip_ue_codes,
    skip_ue_flag_pairs,
    spec_bits_to_rbsp,
    spec_inspect_sps,
    spec_locate_vui,
    spec_minimal_vui_bits,
    spec_patch_chroma_type2,
    spec_patch_sdr_colorimetry,
    spec_patch_sps_signaling,
    spec_rbsp_bits,
    spec_read_bits,
    spec_read_se,
    spec_read_ue,
    spec_rebuild_unit,
    spec_set_bits,
    spec_skip_ptl,
    spec_st_rps,
    spec_ue_bits,
    spec_value_bits,
    spec_vui_from,
    sps_coding_tools,
    sps_long_term,
    sps_pcm_tail,
    sps_rbsp,
    sps_to_ordering,
    st_rps_from,
    two_pow,
    ue2_bits,
    ue_after,
    ue_zeros,
    vui_chroma,
    vui_positions_ok,
    vui_signal,
    vui_signal_flag_pos,
    VuiLocation,
};
use vstd::prelude::*;

verus! {

/// The bits of `d1` at `lo..hi` are those of `d2` at `lo + k..hi + k`, and
/// both hold those positions.
pub open spec fn bits_agree(d1: Seq<u8>, d2: Seq<u8>, lo: int, hi: int, k: int) -> bool {
    &&& 0 <= lo
    &&& 0 <= k
    &&& hi <= 8 * d1.len()
    &&& hi + k <= 8 * d2.len()
    &&& forall|i: int| lo <= i < hi ==> #[trigger] bit_at(d1, i) == bit_at(d2, i + k)
}

proof fn lemma_bits_value_agree(d1: Seq<u8>, d2: Seq<u8>, lo: int, hi: int, k: int, pos: int, n: nat)
    requires
        bits_agree(d1, d2, lo, hi, k),
        lo <= pos,
        pos + n <= hi,
    ensures
        bits_value(d2, pos + k, n) == bits_value(d1, pos, n),
    decreases n,
{
    if n > 0 {
        lemma_bits_value_agree(d1, d2, lo, hi, k, pos, (n - 1) as nat);
        assert(bit_at(d1, pos + n - 1) == bit_at(d2, pos + n - 1 + k));
        assert(pos + k + n - 1 == pos + n - 1 + k);
    }
}

proof fn lemma_read_bits_agree(d1: Seq<u8>, d2: Seq<u8>, lo: int, hi: int, k: int, pos: int, n: int)
    requires
        bits_agree(d1, d2, lo, hi, k),
        lo <= pos,
        spec_read_bits(d1, pos, n) is Some,
    ensures
        spec_read_bits(d1, pos, n) == Some((bits_value(d1, pos, n as nat) as u64, pos + n)),
        pos <= pos + n <= 8 * d1.len(),
        pos + n <= hi ==> spec_read_bits(d2, pos + k, n) == Some(
            (bits_value(d1, pos, n as nat) as u64, pos + n + k),
        ),
{
    if pos + n <= hi {
        lemma_bits_value_agree(d1, d2, lo, hi, k, pos, n as nat);
    }
}

proof fn lemma_ue_zeros_agree(d1: Seq<u8>, d2: Seq<u8>, lo: int, hi: int, k: int, pos: int, j: int)
    requires
        bits_agree(d1, d2, lo, hi, k),
        lo <= pos,
        ue_zeros(d1, pos, j) is Some,
        pos + ue_zeros(d1, pos, j).unwrap() < hi,
    ensures
        j <= ue_zeros(d1, pos, j).unwrap(),
        ue_zeros(d2, pos + k, j) == ue_zeros(d1, pos, j),
    decreases 32 - j,
{
    if bit_at(d1, pos + j) != 1 {
        lemma_ue_zeros_agree(d1, d2, lo, hi, k, pos, j + 1);
    }
    assert(bit_at(d1, pos + j) == bit_at(d2, pos + j + k));
    assert(pos + k + j == pos + j + k);
}

/// Reading an Exp-Golomb code depends only on the bits it covers.
pub proof fn lemma_read_ue_agree(d1: Seq<u8>, d2: Seq<u8>, lo: int, hi: int, k: int, pos: int)
    requires
        bits_agree(d1, d2, lo, hi, k),
        lo <= pos,
        spec_read_ue(d1, pos) is Some,
    ensures
        pos < spec_read_ue(d1, pos).unwrap().1 <= 8 * d1.len(),
        spec_read_ue(d1, pos).unwrap().1 <= hi ==> spec_read_ue(d2, pos + k) == Some(
            (spec_read_ue(d1, pos).unwrap().0, spec_read_ue(d1, pos).unwrap().1 + k),
        ),
{
    lemma_ue_zeros_bounds(d1, pos, 0);
    let z = ue_zeros(d1, pos, 0).unwrap();
    let p = spec_read_ue(d1, pos).unwrap().1;
    if p <= hi {
        lemma_ue_zeros_agree(d1, d2, lo, hi, k, pos, 0);
        if z > 0 {
            lemma_bits_value_agree(d1, d2, lo, hi, k, pos + z + 1, z as nat);
            assert(pos + k + z + 1 == pos + z + 1 + k);
        }
    }
}

proof fn lemma_read_se_agree(d1: Seq<u8>, d2: Seq<u8>, lo: int, hi: int, k: int, pos: int)
    requires
        bits_agree(d1, d2, lo, hi, k),
        lo <= pos,
        spec_read_se(d1, pos) is Some,
    ensures
        pos < spec_read_se(d1, pos).unwrap().1 <= 8 * d1.len(),
        spec_read_se(d1, pos).unwrap().1 <= hi ==> spec_read_se(d2, pos + k) == Some(
            (spec_read_se(d1, pos).unwrap().0, spec_read_se(d1, pos).unwrap().1 + k),
        ),
{
    lemma_read_ue_agree(d1, d2, lo, hi, k, pos);
}

proof fn lemma_ue_after_agree(d1: Seq<u8>, d2: Seq<u8>, lo: int, hi: int, pos: int)
    requires
        bits_agree(d1, d2, lo, hi, 0),
        lo <= pos,
        ue_after(d1, Some(pos)) is Some,
    ensures
        pos < ue_after(d1, Some(pos)).unwrap() <= 8 * d1.len(),
        ue_after(d1, Some(pos)).unwrap() <= hi ==> ue_after(d2, Some(pos)) == ue_after(d1, Some(pos)),
{
    lemma_read_ue_agree(d1, d2, lo, hi, 0, pos);
}

proof fn lemma_bits_after_agree(d1: Seq<u8>, d2: Seq<u8>, lo: int, hi: int, pos: int, n: int)
    requires
        bits_agree(d1, d2, lo, hi, 0),
        lo <= pos,
        bits_after(d1, Some(pos), n) is Some,
    ensures
        bits_after(d1, Some(pos), n) == Some(pos + n),
        pos <= pos + n <= 8 * d1.len(),
        pos + n <= hi ==> bits_after(d2, Some(pos), n) == bits_after(d1, Some(pos), n),
{
    lemma_read_bits_agree(d1, d2, lo, hi, 0, pos, n);
}

proof fn lemma_skip_ue_codes_agree(d1: Seq<u8>, d2: Seq<u8>, lo: int, hi: int, pos: int, k: nat)
    requires
        bits_agree(d1, d2, lo, hi, 0),
        lo <= pos <= 8 * d1.len(),
        skip_ue_codes(d1, pos, k) is Some,
    ensures
        pos <= skip_ue_codes(d1, pos, k).unwrap() <= 8 * d1.len(),
        skip_ue_codes(d1, pos, k).unwrap() <= hi ==> skip_ue_codes(d2, pos, k) == skip_ue_codes(d1, pos, k),
    decreases k,
{
    if k > 0 {
        lemma_read_ue_agree(d1, d2, lo, hi, 0, pos);
        let p = spec_read_ue(d1, pos).unwrap().1;
        lemma_skip_ue_codes_agree(d1, d2, lo, hi, p, (k - 1) as nat);
    }
}

proof fn lemma_skip_se_codes_agree(d1: Seq<u8>, d2: Seq<u8>, lo: int, hi: int, pos: int, k: nat)
    requires
        bits_agree(d1, d2, lo, hi, 0),
        lo <= pos <= 8 * d1.len(),
        skip_se_codes(d1, pos, k) is Some,
    ensures
        pos <= skip_se_codes(d1, pos, k).unwrap() <= 8 * d1.len(),
        skip_se_codes(d1, pos, k).unwrap() <= hi ==> skip_se_codes(d2, pos, k) == skip_se_codes(d1, pos, k),
    decreases k,
{
    if k > 0 {
        lemma_read_se_agree(d1, d2, lo, hi, 0, pos);
        let p = spec_read_se(d1, pos).unwrap().1;
        lemma_skip_se_codes_agree(d1, d2, lo, hi, p, (k - 1) as nat);
    }
}

proof fn lemma_ptl_sublayer_bits_agree(d1: Seq<u8>, d2: Seq<u8>, lo: int, hi: int, flags: int, i: int, m: int)
    requires
        bits_agree(d1, d2, lo, hi, 0),
        lo <= flags,
        0 <= i,
        flags + 2 * m <= hi,
    ensures
        ptl_sublayer_bits(d2, flags, i, m) == ptl_sublayer_bits(d1, flags, i, m),
    decreases m - i,
{
    if i < m {
        lemma_ptl_sublayer_bits_agree(d1, d2, lo, hi, flags, i + 1, m);
        assert(bit_at(d1, flags + 2 * i) == bit_at(d2, flags + 2 * i + 0));
        assert(bit_at(d1, flags + 2 * i + 1) == bit_at(d2, flags + 2 * i + 1 + 0));
    }
}

proof fn lemma_skip_ptl_agree(d1: Seq<u8>, d2: Seq<u8>, lo: int, hi: int, pos: int, m: int)
    requires
        bits_agree(d1, d2, lo, hi, 0),
        lo <= pos,
        0 <= m,
        spec_skip_ptl(d1, pos, m) is Some,
    ensures
        pos + 96 + 2 * m <= spec_skip_ptl(d1, pos, m).unwrap() <= 8 * d1.len(),
        spec_skip_ptl(d1, pos, m).unwrap() <= hi ==> spec_skip_ptl(d2, pos, m) == spec_skip_ptl(d1, pos, m),
{
    lemma_ptl_sublayer_bits_nonneg(d1, pos + 96, 0, m);
    if spec_skip_ptl(d1, pos, m).unwrap() <= hi {
        lemma_ptl_sublayer_bits_agree(d1, d2, lo, hi, pos + 96, 0, m);
    }
}

proof fn lemma_scaling_entry_agree(d1: Seq<u8>, d2: Seq<u8>, lo: int, hi: int, pos: int, size_id: int)
    requires
        bits_agree(d1, d2, lo, hi, 0),
        lo <= pos,
        scaling_entry(d1, pos, size_id) is Some,
    ensures
        pos <= scaling_entry(d1, pos, size_id).unwrap() <= 8 * d1.len(),
        scaling_entry(d1, pos, size_id).unwrap() <= hi ==> scaling_entry(d2, pos, size_id)
            == scaling_entry(d1, pos, size_id),
{
    lemma_read_bits_agree(d1, d2, lo, hi, 0, pos, 1);
    let (flag, p1) = spec_read_bits(d1, pos, 1).unwrap();
    if flag == 0 {
        lemma_read_ue_agree(d1, d2, lo, hi, 0, p1);
    } else {
        let coef: nat = if size_id == 0 { 16 } else { 64 };
        if size_id > 1 {
            lemma_read_se_agree(d1, d2, lo, hi, 0, p1);
            let p = spec_read_se(d1, p1).unwrap().1;
            lemma_skip_se_codes_agree(d1, d2, lo, hi, p, coef);
        } else {
            lemma_skip_se_codes_agree(d1, d2, lo, hi, p1, coef);
        }
    }
}

proof fn lemma_scaling_from_agree(
    d1: Seq<u8>,
    d2: Seq<u8>,
    lo: int,
    hi: int,
    pos: int,
    size_id: int,
    matrix_id: int,
)
    requires
        bits_agree(d1, d2, lo, hi, 0),
        lo <= pos <= 8 * d1.len(),
        scaling_from(d1, pos, size_id, matrix_id) is Some,
    ensures
        pos <= scaling_from(d1, pos, size_id, matrix_id).unwrap() <= 8 * d1.len(),
        scaling_from(d1, pos, size_id, matrix_id).unwrap() <= hi ==> scaling_from(
            d2,
            pos,
            size_id,
            matrix_id,
        ) == scaling_from(d1, pos, size_id, matrix_id),
    decreases 4 - size_id, 8 - matrix_id,
{
    if size_id < 0 || size_id >= 4 || matrix_id < 0 || matrix_id > 8 {
    } else if matrix_id >= 6 {
        lemma_scaling_from_agree(d1, d2, lo, hi, pos, size_id + 1, 0);
    } else {
        let step = if size_id == 3 { 3int } else { 1int };
        lemma_scaling_entry_agree(d1, d2, lo, hi, pos, size_id);
        let p = scaling_entry(d1, pos, size_id).unwrap();
        lemma_scaling_from_agree(d1, d2, lo, hi, p, size_id, matrix_id + step);
    }
}

proof fn lemma_pcm_tail_agree(d1: Seq<u8>, d2: Seq<u8>, lo: int, hi: int, pos: int)
    requires
        bits_agree(d1, d2, lo, hi, 0),
        lo <= pos,
        sps_pcm_tail(d1, Some(pos)) is Some,
    ensures
        pos <= sps_pcm_tail(d1, Some(pos)).unwrap() <= 8 * d1.len(),
        sps_pcm_tail(d1, Some(pos)).unwrap() <= hi ==> sps_pcm_tail(d2, Some(pos)) == sps_pcm_tail(
            d1,
            Some(pos),
        ),
{
    lemma_bits_after_agree(d1, d2, lo, hi, pos, 2);
    let p3 = pos + 2;
    lemma_read_bits_agree(d1, d2, lo, hi, 0, p3, 1);
    let (pcm, p4) = spec_read_bits(d1, p3, 1).unwrap();
    if pcm != 0 {
        lemma_bits_after_agree(d1, d2, lo, hi, p4, 8);
        lemma_ue_after_agree(d1, d2, lo, hi, p4 + 8);
        let a = ue_after(d1, Some(p4 + 8)).unwrap();
        lemma_ue_after_agree(d1, d2, lo, hi, a);
        let b = ue_after(d1, Some(a)).unwrap();
        lemma_bits_after_agree(d1, d2, lo, hi, b, 1);
    }
}

proof fn lemma_coding_tools_agree(d1: Seq<u8>, d2: Seq<u8>, lo: int, hi: int, pos: int)
    requires
        bits_agree(d1, d2, lo, hi, 0),
        lo <= pos <= 8 * d1.len(),
        sps_coding_tools(d1, pos) is Some,
    ensures
        pos <= sps_coding_tools(d1, pos).unwrap() <= 8 * d1.len(),
        sps_coding_tools(d1, pos).unwrap() <= hi ==> sps_coding_tools(d2, pos) == sps_coding_tools(d1, pos),
{
    lemma_skip_ue_codes_agree(d1, d2, lo, hi, pos, 6);
    let p0 = skip_ue_codes(d1, pos, 6).unwrap();
    lemma_read_bits_agree(d1, d2, lo, hi, 0, p0, 1);
    let (scaling_enabled, p1) = spec_read_bits(d1, p0, 1).unwrap();
    if scaling_enabled != 0 {
        lemma_read_bits_agree(d1, d2, lo, hi, 0, p1, 1);
        let (present, q) = spec_read_bits(d1, p1, 1).unwrap();
        if present != 0 {
            lemma_scaling_from_agree(d1, d2, lo, hi, q, 0, 0);
            let p2 = scaling_from(d1, q, 0, 0).unwrap();
            lemma_pcm_tail_agree(d1, d2, lo, hi, p2);
        } else {
            lemma_pcm_tail_agree(d1, d2, lo, hi, q);
        }
    } else {
        lemma_pcm_tail_agree(d1, d2, lo, hi, p1);
    }
}

proof fn lemma_rps_inter_flags_agree(
    d1: Seq<u8>,
    d2: Seq<u8>,
    lo: int,
    hi: int,
    pos: int,
    k: nat,
    count: int,
)
    requires
        bits_agree(d1, d2, lo, hi, 0),
        lo <= pos <= 8 * d1.len(),
        rps_inter_flags(d1, pos, k, count) is Some,
    ensures
        pos <= rps_inter_flags(d1, pos, k, count).unwrap().0 <= 8 * d1.len(),
        rps_inter_flags(d1, pos, k, count).unwrap().0 <= hi ==> rps_inter_flags(d2, pos, k, count)
            == rps_inter_flags(d1, pos, k, count),
    decreases k,
{
    if k > 0 {
        lemma_read_bits_agree(d1, d2, lo, hi, 0, pos, 1);
        let (used, p1) = spec_read_bits(d1, pos, 1).unwrap();
        if used != 0 {
            let c = count + 1;
            lemma_rps_inter_flags_agree(d1, d2, lo, hi, p1, (k - 1) as nat, c);
        } else {
            lemma_read_bits_agree(d1, d2, lo, hi, 0, p1, 1);
            let (delta, p2) = spec_read_bits(d1, p1, 1).unwrap();
            let c = if delta != 0 { count + 1 } else { count };
            lemma_rps_inter_flags_agree(d1, d2, lo, hi, p2, (k - 1) as nat, c);
        }
    }
}

proof fn lemma_ue_flag_pairs_agree(d1: Seq<u8>, d2: Seq<u8>, lo: int, hi: int, pos: int, k: nat)
    requires
        bits_agree(d1, d2, lo, hi, 0),
        lo <= pos <= 8 * d1.len(),
        skip_ue_flag_pairs(d1, pos, k) is Some,
    ensures
        pos <= skip_ue_flag_pairs(d1, pos, k).unwrap() <= 8 * d1.len(),
        skip_ue_flag_pairs(d1, pos, k).unwrap() <= hi ==> skip_ue_flag_pairs(d2, pos, k)
            == skip_ue_flag_pairs(d1, pos, k),
    decreases k,
{
    if k > 0 {
        lemma_read_ue_agree(d1, d2, lo, hi, 0, pos);
        let p1 = spec_read_ue(d1, pos).unwrap().1;
        lemma_read_bits_agree(d1, d2, lo, hi, 0, p1, 1);
        let p2 = p1 + 1;
        lemma_ue_flag_pairs_agree(d1, d2, lo, hi, p2, (k - 1) as nat);
    }
}

#[verifier::spinoff_prover]
#[verifier::rlimit(50)]
proof fn lemma_st_rps_agree(d1: Seq<u8>, d2: Seq<u8>, lo: int, hi: int, pos: int, idx: int, ndp: Seq<u32>)
    requires
        bits_agree(d1, d2, lo, hi, 0),
        lo <= pos <= 8 * d1.len(),
        spec_st_rps(d1, pos, idx, ndp) is Some,
    ensures
        pos <= spec_st_rps(d1, pos, idx, ndp).unwrap().0 <= 8 * d1.len(),
        spec_st_rps(d1, pos, idx, ndp).unwrap().0 <= hi ==> spec_st_rps(d2, pos, idx, ndp) == spec_st_rps(
            d1,
            pos,
            idx,
            ndp,
        ),
{
    let p0 = if idx == 0 {
        pos
    } else {
        lemma_read_bits_agree(d1, d2, lo, hi, 0, pos, 1);
        pos + 1
    };
    let inter = idx != 0 && spec_read_bits(d1, pos, 1).unwrap().0 != 0;
    if inter {
        let n = ndp[idx - 1];
        lemma_read_bits_agree(d1, d2, lo, hi, 0, p0, 1);
        let p1 = p0 + 1;
        lemma_read_ue_agree(d1, d2, lo, hi, 0, p1);
        let p2 = spec_read_ue(d1, p1).unwrap().1;
        lemma_rps_inter_flags_agree(d1, d2, lo, hi, p2, (n + 1) as nat, 0);
    } else {
        lemma_read_ue_agree(d1, d2, lo, hi, 0, p0);
        let (neg, p1) = spec_read_ue(d1, p0).unwrap();
        lemma_read_ue_agree(d1, d2, lo, hi, 0, p1);
        let (posc, p2) = spec_read_ue(d1, p1).unwrap();
        lemma_ue_flag_pairs_agree(d1, d2, lo, hi, p2, neg as nat);
        let p3 = skip_ue_flag_pairs(d1, p2, neg as nat).unwrap();
        lemma_ue_flag_pairs_agree(d1, d2, lo, hi, p3, posc as nat);
    }
}

proof fn lemma_st_rps_from_agree(
    d1: Seq<u8>,
    d2: Seq<u8>,
    lo: int,
    hi: int,
    pos: int,
    idx: int,
    n: int,
    ndp: Seq<u32>,
)
    requires
        bits_agree(d1, d2, lo, hi, 0),
        lo <= pos <= 8 * d1.len(),
        st_rps_from(d1, pos, idx, n, ndp) is Some,
    ensures
        pos <= st_rps_from(d1, pos, idx, n, ndp).unwrap() <= 8 * d1.len(),
        st_rps_from(d1, pos, idx, n, ndp).unwrap() <= hi ==> st_rps_from(d2, pos, idx, n, ndp)
            == st_rps_from(d1, pos, idx, n, ndp),
    decreases n - idx,
{
    if idx < n {
        lemma_st_rps_agree(d1, d2, lo, hi, pos, idx, ndp);
        let (p, ndp2) = spec_st_rps(d1, pos, idx, ndp).unwrap();
        lemma_st_rps_from_agree(d1, d2, lo, hi, p, idx + 1, n, ndp2);
    }
}

proof fn lemma_long_term_entries_agree(
    d1: Seq<u8>,
    d2: Seq<u8>,
    lo: int,
    hi: int,
    pos: int,
    k: nat,
    bits: int,
)
    requires
        bits_agree(d1, d2, lo, hi, 0),
        lo <= pos <= 8 * d1.len(),
        skip_long_term_entries(d1, pos, k, bits) is Some,
    ensures
        pos <= skip_long_term_entries(d1, pos, k, bits).unwrap() <= 8 * d1.len(),
        skip_long_term_entries(d1, pos, k, bits).unwrap() <= hi ==> skip_long_term_entries(
            d2,
            pos,
            k,
            bits,
        ) == skip_long_term_entries(d1, pos, k, bits),
    decreases k,
{
    if k > 0 {
        lemma_bits_after_agree(d1, d2, lo, hi, pos, bits);
        lemma_bits_after_agree(d1, d2, lo, hi, pos + bits, 1);
        lemma_long_term_entries_agree(d1, d2, lo, hi, pos + bits + 1, (k - 1) as nat, bits);
    }
}

proof fn lemma_long_term_agree(d1: Seq<u8>, d2: Seq<u8>, lo: int, hi: int, pos: int, log2: int)
    requires
        bits_agree(d1, d2, lo, hi, 0),
        lo <= pos,
        sps_long_term(d1, pos, log2) is Some,
    ensures
        pos <= sps_long_term(d1, pos, log2).unwrap() <= 8 * d1.len(),
        sps_long_term(d1, pos, log2).unwrap() <= hi ==> sps_long_term(d2, pos, log2) == sps_long_term(
            d1,
            pos,
            log2,
        ),
{
    lemma_read_bits_agree(d1, d2, lo, hi, 0, pos, 1);
    let (present, p0) = spec_read_bits(d1, pos, 1).unwrap();
    let p1 = if present != 0 {
        lemma_read_ue_agree(d1, d2, lo, hi, 0, p0);
        let (k, q) = spec_read_ue(d1, p0).unwrap();
        lemma_long_term_entries_agree(d1, d2, lo, hi, q, k as nat, log2 + 4);
        skip_long_term_entries(d1, q, k as nat, log2 + 4).unwrap()
    } else {
        p0
    };
    lemma_bits_after_agree(d1, d2, lo, hi, p1, 1);
    lemma_bits_after_agree(d1, d2, lo, hi, p1 + 1, 1);
}

#[verifier::spinoff_prover]
#[verifier::rlimit(60)]
proof fn lemma_sps_to_ordering_agree(d1: Seq<u8>, d2: Seq<u8>, hi: int)
    requires
        bits_agree(d1, d2, 0, hi, 0),
        sps_to_ordering(d1) is Some,
    ensures
        8 <= sps_to_ordering(d1).unwrap().0 <= 8 * d1.len(),
        sps_to_ordering(d1).unwrap().0 <= hi ==> sps_to_ordering(d2) == sps_to_ordering(d1),
{
    let m = bits_value(d1, 4, 3) as int;
    lemma_skip_ptl_agree(d1, d2, 0, hi, 8, m);
    let p0 = spec_skip_ptl(d1, 8, m).unwrap();
    lemma_ue_after_agree(d1, d2, 0, hi, p0);
    let p1 = ue_after(d1, Some(p0)).unwrap();
    lemma_read_ue_agree(d1, d2, 0, hi, 0, p1);
    let (chroma_format_idc, p2) = spec_read_ue(d1, p1).unwrap();
    let p3 = if chroma_format_idc == 3 {
        lemma_bits_after_agree(d1, d2, 0, hi, p2, 1);
        p2 + 1
    } else {
        p2
    };
    lemma_ue_after_agree(d1, d2, 0, hi, p3);
    let q3 = ue_after(d1, Some(p3)).unwrap();
    lemma_ue_after_agree(d1, d2, 0, hi, q3);
    let p4 = ue_after(d1, Some(q3)).unwrap();
    lemma_read_bits_agree(d1, d2, 0, hi, 0, p4, 1);
    let (window, r) = spec_read_bits(d1, p4, 1).unwrap();
    let p5 = if window != 0 {
        lemma_skip_ue_codes_agree(d1, d2, 0, hi, r, 4);
        skip_ue_codes(d1, r, 4).unwrap()
    } else {
        r
    };
    lemma_ue_after_agree(d1, d2, 0, hi, p5);
    let q5 = ue_after(d1, Some(p5)).unwrap();
    lemma_ue_after_agree(d1, d2, 0, hi, q5);
    let p6 = ue_after(d1, Some(q5)).unwrap();
    lemma_read_ue_agree(d1, d2, 0, hi, 0, p6);
    let (log2, p7) = spec_read_ue(d1, p6).unwrap();
    lemma_read_bits_agree(d1, d2, 0, hi, 0, p7, 1);
    let (present, p8) = spec_read_bits(d1, p7, 1).unwrap();
    let start = if present != 0 { 0 } else { m };
    lemma_skip_ue_codes_agree(d1, d2, 0, hi, p8, (3 * (m - start + 1)) as nat);
    let p9 = sps_to_ordering(d1).unwrap().0;
    if p9 <= hi {
        lemma_bits_value_agree(d1, d2, 0, hi, 0, 4, 3);
        assert(can_read(d2, 0, 8));
    }
}

/// Reading an SPS RBSP through its sub-layer ordering info.
#[verifier::opaque]
pub open spec fn ordering_stage(d: Seq<u8>) -> Option<(int, int, int)> {
    sps_to_ordering(d)
}

/// Reading the coding tool fields of an SPS from `p`.
#[verifier::opaque]
pub open spec fn tools_stage(d: Seq<u8>, p: int) -> Option<int> {
    sps_coding_tools(d, p)
}

/// Reading the short-term reference picture sets of an SPS, their count
/// first, from `p`.
#[verifier::opaque]
pub open spec fn rps_stage(d: Seq<u8>, p: int) -> Option<int> {
    match spec_read_ue(d, p) {
        None => None,
        Some((n, p2)) => st_rps_from(d, p2, 0, n as int, seq![]),
    }
}

/// Reading the long-term reference picture fields of an SPS from `p`.
#[verifier::opaque]
pub open spec fn long_term_stage(d: Seq<u8>, p: int, log2: int) -> Option<int> {
    sps_long_term(d, p, log2)
}

/// The position of the vui_parameters_present_flag of an SPS RBSP.
pub open spec fn vui_flag_position(d: Seq<u8>) -> Option<int> {
    match ordering_stage(d) {
        None => None,
        Some((p0, _m, log2)) => match tools_stage(d, p0) {
            None => None,
            Some(p1) => match rps_stage(d, p1) {
                None => None,
                Some(p3) => long_term_stage(d, p3, log2),
            },
        },
    }
}

proof fn lemma_locate_split(d: Seq<u8>)
    ensures
        spec_locate_vui(d) == (match vui_flag_position(d) {
            None => None,
            Some(p) => spec_vui_from(d, p),
        }),
{
    reveal(spec_locate_vui);
    reveal(ordering_stage);
    reveal(tools_stage);
    reveal(rps_stage);
    reveal(long_term_stage);
}

proof fn lemma_ordering_stage_agree(d1: Seq<u8>, d2: Seq<u8>, hi: int)
    requires
        bits_agree(d1, d2, 0, hi, 0),
        ordering_stage(d1) is Some,
    ensures
        8 <= ordering_stage(d1).unwrap().0 <= 8 * d1.len(),
        ordering_stage(d1).unwrap().0 <= hi ==> ordering_stage(d2) == ordering_stage(d1),
{
    reveal(ordering_stage);
    lemma_sps_to_ordering_agree(d1, d2, hi);
}

proof fn lemma_tools_stage_agree(d1: Seq<u8>, d2: Seq<u8>, hi: int, p: int)
    requires
        bits_agree(d1, d2, 0, hi, 0),
        0 <= p <= 8 * d1.len(),
        tools_stage(d1, p) is Some,
    ensures
        p <= tools_stage(d1, p).unwrap() <= 8 * d1.len(),
        tools_stage(d1, p).unwrap() <= hi ==> tools_stage(d2, p) == tools_stage(d1, p),
{
    reveal(tools_stage);
    lemma_coding_tools_agree(d1, d2, 0, hi, p);
}

proof fn lemma_rps_stage_agree(d1: Seq<u8>, d2: Seq<u8>, hi: int, p: int)
    requires
        bits_agree(d1, d2, 0, hi, 0),
        0 <= p <= 8 * d1.len(),
        rps_stage(d1, p) is Some,
    ensures
        p <= rps_stage(d1, p).unwrap() <= 8 * d1.len(),
        rps_stage(d1, p).unwrap() <= hi ==> rps_stage(d2, p) == rps_stage(d1, p),
{
    reveal(rps_stage);
    lemma_read_ue_agree(d1, d2, 0, hi, 0, p);
    let (n, p2) = spec_read_ue(d1, p).unwrap();
    lemma_st_rps_from_agree(d1, d2, 0, hi, p2, 0, n as int, seq![]);
}

proof fn lemma_long_term_stage_agree(d1: Seq<u8>, d2: Seq<u8>, hi: int, p: int, log2: int)
    requires
        bits_agree(d1, d2, 0, hi, 0),
        0 <= p,
        long_term_stage(d1, p, log2) is Some,
    ensures
        p <= long_term_stage(d1, p, log2).unwrap() <= 8 * d1.len(),
        long_term_stage(d1, p, log2).unwrap() <= hi ==> long_term_stage(d2, p, log2) == long_term_stage(
            d1,
            p,
            log2,
        ),
{
    reveal(long_term_stage);
    lemma_long_term_agree(d1, d2, 0, hi, p, log2);
}

/// Where the vui_parameters_present_flag stands depends only on the bits
/// before it.
proof fn lemma_vui_flag_position_agree(d1: Seq<u8>, d2: Seq<u8>, hi: int)
    requires
        bits_agree(d1, d2, 0, hi, 0),
        vui_flag_position(d1) is Some,
        vui_flag_position(d1).unwrap() <= hi,
    ensures
        vui_flag_position(d2) == vui_flag_position(d1),
        8 <= vui_flag_position(d1).unwrap(),
{
    lemma_ordering_stage_agree(d1, d2, hi);
    let (p0, _m, log2) = ordering_stage(d1).unwrap();
    lemma_tools_stage_agree(d1, d2, hi, p0);
    let p1 = tools_stage(d1, p0).unwrap();
    lemma_rps_stage_agree(d1, d2, hi, p1);
    let p3 = rps_stage(d1, p1).unwrap();
    lemma_long_term_stage_agree(d1, d2, hi, p3, log2);
}

proof fn lemma_signal_flag_pos_agree(d1: Seq<u8>, d2: Seq<u8>, lo: int, hi: int, pos: int)
    requires
        bits_agree(d1, d2, lo, hi, 0),
        lo <= pos,
        vui_signal_flag_pos(d1, pos) is Some,
    ensures
        pos <= vui_signal_flag_pos(d1, pos).unwrap() <= 8 * d1.len(),
        vui_signal_flag_pos(d1, pos).unwrap() <= hi ==> vui_signal_flag_pos(d2, pos) == vui_signal_flag_pos(
            d1,
            pos,
        ),
{
    lemma_read_bits_agree(d1, d2, lo, hi, 0, pos, 1);
    let (aspect, p0) = spec_read_bits(d1, pos, 1).unwrap();
    let p1 = if aspect != 0 {
        lemma_read_bits_agree(d1, d2, lo, hi, 0, p0, 8);
        let (idc, q) = spec_read_bits(d1, p0, 8).unwrap();
        if idc == 255 {
            lemma_bits_after_agree(d1, d2, lo, hi, q, 16);
            lemma_bits_after_agree(d1, d2, lo, hi, q + 16, 16);
            q + 32
        } else {
            q
        }
    } else {
        p0
    };
    lemma_read_bits_agree(d1, d2, lo, hi, 0, p1, 1);
    let (overscan, r) = spec_read_bits(d1, p1, 1).unwrap();
    if overscan != 0 {
        lemma_bits_after_agree(d1, d2, lo, hi, r, 1);
    }
}

proof fn lemma_vui_signal_agree(d1: Seq<u8>, d2: Seq<u8>, lo: int, hi: int, pos: int)
    requires
        bits_agree(d1, d2, lo, hi, 0),
        lo <= pos,
        vui_signal(d1, pos) is Some,
    ensures
        pos < vui_signal(d1, pos).unwrap().11 <= 8 * d1.len(),
        vui_signal(d1, pos).unwrap().11 <= hi ==> vui_signal(d2, pos) == vui_signal(d1, pos),
{
    lemma_read_bits_agree(d1, d2, lo, hi, 0, pos, 1);
    let (present, p0) = spec_read_bits(d1, pos, 1).unwrap();
    if present != 0 {
        lemma_bits_after_agree(d1, d2, lo, hi, p0, 3);
        lemma_bits_after_agree(d1, d2, lo, hi, p0 + 3, 1);
        let p1 = p0 + 4;
        lemma_read_bits_agree(d1, d2, lo, hi, 0, p1, 1);
        let (cd, p2) = spec_read_bits(d1, p1, 1).unwrap();
        if cd != 0 && vui_signal(d1, pos).unwrap().11 <= hi {
            lemma_bits_value_agree(d1, d2, lo, hi, 0, p2, 8);
            lemma_bits_value_agree(d1, d2, lo, hi, 0, p2 + 8, 8);
            lemma_bits_value_agree(d1, d2, lo, hi, 0, p2 + 16, 8);
        }
    }
}

/// An optional position moved on by `k`.
pub open spec fn shifted(o: Option<usize>, k: int) -> Option<usize> {
    match o {
        None => None,
        Some(x) => Some((x + k) as usize),
    }
}

proof fn lemma_vui_chroma_shift(d1: Seq<u8>, d2: Seq<u8>, lo: int, k: int, pos: int)
    requires
        bits_agree(d1, d2, lo, 8 * d1.len() as int, k),
        lo <= pos,
        vui_chroma(d1, pos) is Some,
        d1.len() <= usize::MAX / 8,
    ensures
        ({
            let (present, ts, te, bs, be) = vui_chroma(d1, pos).unwrap();
            vui_chroma(d2, pos + k) == Some(
                (present, shifted(ts, k), shifted(te, k), shifted(bs, k), shifted(be, k)),
            )
        }),
{
    let hi: int = 8 * d1.len() as int;
    lemma_vui_chroma_bounds(d1, pos);
    lemma_read_bits_agree(d1, d2, lo, hi, k, pos, 1);
    let (present, p0) = spec_read_bits(d1, pos, 1).unwrap();
    if present != 0 {
        lemma_read_ue_agree(d1, d2, lo, hi, k, p0);
        let p1 = spec_read_ue(d1, p0).unwrap().1;
        lemma_read_ue_agree(d1, d2, lo, hi, k, p1);
        let p2 = spec_read_ue(d1, p1).unwrap().1;
        assert(vui_chroma(d2, pos + k) == Some(
            (true, Some((p0 + k) as usize), Some((p1 + k) as usize), Some((p1 + k) as usize), Some((p2 + k) as usize)),
        ));
    }
}

proof fn lemma_packed_window(b: Seq<u8>, lo: int, hi: int)
    requires
        0 <= lo <= hi <= b.len(),
        forall|i: int| lo <= i < hi ==> #[trigger] b[i] <= 1,
    ensures
        8 * spec_bits_to_rbsp(b).len() >= b.len(),
        forall|i: int| lo <= i < hi ==> #[trigger] bit_at(spec_bits_to_rbsp(b), i) == b[i],
{
    lemma_bits_to_rbsp_bits(b);
    assert forall|i: int| lo <= i < hi implies #[trigger] bit_at(spec_bits_to_rbsp(b), i) == b[i] by {
        assert(packed_bit(b, i) == b[i] % 2);
    }
}

/// The bits of `d` from `pos` on are those of `s`.
pub open spec fn bits_are(d: Seq<u8>, pos: int, s: Seq<u8>) -> bool {
    &&& 0 <= pos
    &&& pos + s.len() <= 8 * d.len()
    &&& forall|j: int| 0 <= j < s.len() ==> #[trigger] bit_at(d, pos + j) == s[j]
}

proof fn lemma_byte_one(d: Seq<u8>, pos: int)
    requires
        bits_are(d, pos, seq![0u8, 0, 0, 0, 0, 0, 0, 1]),
    ensures
        bits_value(d, pos, 8) == 1,
{
    let s = seq![0u8, 0, 0, 0, 0, 0, 0, 1];
    reveal_with_fuel(bits_value, 9);
    assert(bit_at(d, pos + 0) == s[0]);
    assert(bit_at(d, pos + 1) == s[1]);
    assert(bit_at(d, pos + 2) == s[2]);
    assert(bit_at(d, pos + 3) == s[3]);
    assert(bit_at(d, pos + 4) == s[4]);
    assert(bit_at(d, pos + 5) == s[5]);
    assert(bit_at(d, pos + 6) == s[6]);
    assert(bit_at(d, pos + 7) == s[7]);
}

proof fn lemma_ue2_read(d: Seq<u8>, pos: int)
    requires
        bits_are(d, pos, ue2_bits()),
    ensures
        spec_read_ue(d, pos) == Some((2u32, pos + 3)),
{
    let s = ue2_bits();
    assert(bit_at(d, pos + 0) == s[0]);
    assert(bit_at(d, pos + 1) == s[1]);
    assert(bit_at(d, pos + 2) == s[2]);
    assert(ue_zeros(d, pos, 1) == Some(1int));
    assert(ue_zeros(d, pos, 0) == Some(1int));
    reveal_with_fuel(bits_value, 2);
    assert(bits_value(d, pos + 2, 1) == 1);
    assert(two_pow(1) == 2) by {
        reveal_with_fuel(two_pow, 2);
    }
}

/// A chroma sample location of type 2 for both fields.
pub open spec fn chroma2_bits() -> Seq<u8> {
    seq![1u8] + ue2_bits() + ue2_bits()
}

proof fn lemma_chroma2_read(d: Seq<u8>, cl: int)
    requires
        bits_are(d, cl, chroma2_bits()),
    ensures
        vui_chroma(d, cl) == Some(
            (true, Some((cl + 1) as usize), Some((cl + 4) as usize), Some((cl + 4) as usize), Some((cl + 7) as usize)),
        ),
        spec_read_ue(d, cl + 1) == Some((2u32, cl + 4)),
        spec_read_ue(d, cl + 4) == Some((2u32, cl + 7)),
        bits_are(d, cl + 1, spec_ue_bits(2)),
        bits_are(d, cl + 4, spec_ue_bits(2)),
{
    lemma_small_codes();
    let s = chroma2_bits();
    assert(bit_at(d, cl + 0) == s[0]);
    assert forall|j: int| 0 <= j < 3 implies #[trigger] bit_at(d, cl + 1 + j) == ue2_bits()[j] by {
        assert(bit_at(d, cl + (1 + j)) == s[1 + j]);
    }
    assert forall|j: int| 0 <= j < 3 implies #[trigger] bit_at(d, cl + 4 + j) == ue2_bits()[j] by {
        assert(bit_at(d, cl + (4 + j)) == s[4 + j]);
    }
    lemma_ue2_read(d, cl + 1);
    lemma_ue2_read(d, cl + 4);
    reveal_with_fuel(bits_value, 2);
    assert(bits_value(d, cl, 1) == 1);
}

/// A video signal type present flag followed by video_format 5, limited
/// range and a BT.709 colour description.
pub open spec fn sdr_signal_with_flag() -> Seq<u8> {
    seq![1u8] + sdr_signal_bits()
}

proof fn lemma_sdr_signal_read(d: Seq<u8>, sp: int)
    requires
        bits_are(d, sp, sdr_signal_with_flag()),
    ensures
        vui_signal(d, sp) == Some(
            (
                true,
                Some((sp + 1) as usize),
                Some((sp + 4) as usize),
                Some((sp + 5) as usize),
                true,
                Some((sp + 6) as usize),
                Some(1u8),
                Some((sp + 14) as usize),
                Some(1u8),
                Some((sp + 22) as usize),
                Some(1u8),
                sp + 30,
            ),
        ),
        bits_value(d, sp + 1, 3) == 5,
        bit_at(d, sp + 4) == 0,
{
    let s = sdr_signal_with_flag();
    assert(s.len() == 30);
    assert(bit_at(d, sp + 0) == s[0]);
    assert(bit_at(d, sp + 1) == s[1]);
    assert(bit_at(d, sp + 2) == s[2]);
    assert(bit_at(d, sp + 3) == s[3]);
    assert(bit_at(d, sp + 4) == s[4]);
    assert(bit_at(d, sp + 5) == s[5]);
    assert forall|j: int| 0 <= j < 8 implies #[trigger] bit_at(d, sp + 6 + j) == seq![0u8, 0, 0, 0, 0, 0, 0, 1][j] by {
        assert(bit_at(d, sp + (6 + j)) == s[6 + j]);
    }
    assert forall|j: int| 0 <= j < 8 implies #[trigger] bit_at(d, sp + 14 + j) == seq![0u8, 0, 0, 0, 0, 0, 0, 1][j] by {
        assert(bit_at(d, sp + (14 + j)) == s[14 + j]);
    }
    assert forall|j: int| 0 <= j < 8 implies #[trigger] bit_at(d, sp + 22 + j) == seq![0u8, 0, 0, 0, 0, 0, 0, 1][j] by {
        assert(bit_at(d, sp + (22 + j)) == s[22 + j]);
    }
    lemma_byte_one(d, sp + 6);
    lemma_byte_one(d, sp + 14);
    lemma_byte_one(d, sp + 22);
    reveal_with_fuel(bits_value, 4);
    assert(bits_value(d, sp, 1) == 1);
    assert(bits_value(d, sp + 5, 1) == 1);
    assert(bits_value(d, sp + 1, 3) == 5);
}

proof fn lemma_out_agree(r: Seq<u8>, b: Seq<u8>, lo: int, hi: int, k: int)
    requires
        0 <= lo,
        0 <= k,
        hi <= 8 * r.len(),
        hi + k <= b.len(),
        forall|i: int| lo <= i < hi ==> #[trigger] b[i + k] == spec_rbsp_bits(r)[i],
    ensures
        bits_agree(r, spec_bits_to_rbsp(b), lo, hi, k),
{
    lemma_bits_to_rbsp_bits(b);
    assert forall|i: int| lo <= i < hi implies #[trigger] bit_at(r, i) == bit_at(spec_bits_to_rbsp(b), i + k) by {
        lemma_bit_at_le1(r, i);
        assert(b[i + k] == spec_rbsp_bits(r)[i]);
        assert(packed_bit(b, i + k) == b[i + k] % 2);
    }
}

proof fn lemma_out_bits(b: Seq<u8>, pos: int, s: Seq<u8>)
    requires
        0 <= pos,
        pos + s.len() <= b.len(),
        forall|j: int| 0 <= j < s.len() ==> #[trigger] b[pos + j] == s[j] && s[j] <= 1,
    ensures
        bits_are(spec_bits_to_rbsp(b), pos, s),
{
    lemma_bits_to_rbsp_bits(b);
    assert forall|j: int| 0 <= j < s.len() implies #[trigger] bit_at(spec_bits_to_rbsp(b), pos + j) == s[j] by {
        assert(b[pos + j] == s[j] && s[j] <= 1);
        assert(packed_bit(b, pos + j) == b[pos + j] % 2);
    }
}

/// Locating the VUI of an RBSP whose bits before the located
/// vui_parameters_present_flag of `r` are those of `r` finds the flag at the
/// same place.
proof fn lemma_locate_from_prefix(r: Seq<u8>, out: Seq<u8>, hi: int)
    requires
        spec_locate_vui(r) is Some,
        r.len() <= usize::MAX / 8,
        spec_locate_vui(r).unwrap().vui_present_flag_pos <= hi,
        bits_agree(r, out, 0, hi, 0),
    ensures
        vui_flag_position(r) == Some(spec_locate_vui(r).unwrap().vui_present_flag_pos as int),
        vui_flag_position(out) == vui_flag_position(r),
        spec_locate_vui(out) == spec_vui_from(out, spec_locate_vui(r).unwrap().vui_present_flag_pos as int),
        spec_locate_vui(r) == spec_vui_from(r, spec_locate_vui(r).unwrap().vui_present_flag_pos as int),
{
    lemma_locate_split(r);
    lemma_locate_split(out);
    let p = vui_flag_position(r).unwrap();
    lemma_vui_from_order(r, p);
    lemma_vui_flag_position_agree(r, out, hi);
}

/// A located VUI that holds a BT.709, video_format 5, limited range video
/// signal type.
pub open spec fn sdr_located(l: VuiLocation, d: Seq<u8>) -> bool {
    &&& l.vui_present
    &&& l.video_signal_present
    &&& bits_value(d, l.video_format_pos.unwrap() as int, 3) == 5
    &&& bit_at(d, l.full_range_pos.unwrap() as int) == 0
    &&& l.colour_description_present
    &&& l.colour_primaries_value == Some(1u8)
    &&& l.transfer_characteristics_value == Some(1u8)
    &&& l.matrix_coeffs_value == Some(1u8)
}

#[verifier::spinoff_prover]
#[verifier::rlimit(50)]
proof fn lemma_sdr_tail(r: Seq<u8>, out: Seq<u8>, sp: int, cl0: int, k: int)
    requires
        r.len() <= usize::MAX / 8,
        out.len() <= usize::MAX / 8,
        spec_locate_vui(r) is Some,
        spec_locate_vui(r).unwrap().vui_present,
        spec_locate_vui(r).unwrap().video_signal_present_flag_pos == Some(sp as usize),
        bits_agree(r, out, 0, sp, 0),
        bits_are(out, sp, sdr_signal_with_flag()),
        vui_signal(r, sp) is Some,
        vui_signal(r, sp).unwrap().11 == cl0,
        k == sp + 30 - cl0,
        bits_agree(r, out, cl0, 8 * r.len() as int, k),
    ensures
        spec_locate_vui(out) is Some,
        sdr_located(spec_locate_vui(out).unwrap(), out),
        spec_locate_vui(out).unwrap().vui_present_flag_pos == spec_locate_vui(r).unwrap().vui_present_flag_pos,
{
    let loc = spec_locate_vui(r).unwrap();
    let f = loc.vui_present_flag_pos as int;
    lemma_locate_vui_order(r);
    lemma_locate_from_prefix(r, out, sp);
    lemma_read_bits_agree(r, out, 0, sp, 0, f, 1);
    let p0 = f + 1;
    lemma_signal_flag_pos_agree(r, out, 0, sp, p0);
    assert(vui_signal_flag_pos(r, p0) == Some(sp));
    lemma_sdr_signal_read(out, sp);
    lemma_vui_chroma_shift(r, out, cl0, k, cl0);
    assert(cl0 + k == sp + 30);
}

/// The parts of a present VUI located from its flag at `f`.
proof fn lemma_vui_parts(d: Seq<u8>, f: int)
    requires
        spec_vui_from(d, f) is Some,
        spec_vui_from(d, f).unwrap().vui_present,
        d.len() <= usize::MAX / 8,
    ensures
        spec_read_bits(d, f, 1) == Some((1u64, f + 1)),
        vui_signal_flag_pos(d, f + 1) is Some,
        vui_signal(d, vui_signal_flag_pos(d, f + 1).unwrap()) is Some,
        vui_chroma(d, vui_signal(d, vui_signal_flag_pos(d, f + 1).unwrap()).unwrap().11) is Some,
        spec_vui_from(d, f).unwrap().video_signal_present_flag_pos == Some(
            vui_signal_flag_pos(d, f + 1).unwrap() as usize,
        ),
        spec_vui_from(d, f).unwrap().chroma_loc_info_present_flag_pos == Some(
            vui_signal(d, vui_signal_flag_pos(d, f + 1).unwrap()).unwrap().11 as usize,
        ),
        f + 1 <= vui_signal_flag_pos(d, f + 1).unwrap(),
{
    lemma_read_flag(d, f);
    lemma_signal_flag_pos_agree(d, d, 0, 0, f + 1);
    reveal_with_fuel(bits_value, 2);
}

/// The bits an SDR colorimetry patch writes, all single bits.
proof fn lemma_sdr_patched_bits_01(bits: Seq<u8>, loc: VuiLocation, r: Seq<u8>)
    requires
        bits == spec_rbsp_bits(r),
        vui_positions_ok(loc, bits.len() as int),
    ensures
        forall|i: int| 0 <= i < sdr_patched_bits(bits, loc).len() ==> #[trigger] sdr_patched_bits(bits, loc)[i] <= 1,
        sdr_patched_bits(bits, loc).len() <= bits.len() + 45,
{
    assert forall|i: int| 0 <= i < bits.len() implies #[trigger] bits[i] <= 1 by {
        lemma_bit_at_le1(r, i);
    }
    lemma_small_codes();
    let b = sdr_patched_bits(bits, loc);
    assert forall|i: int| 0 <= i < b.len() implies #[trigger] b[i] <= 1 by {
        if !loc.vui_present {
            let p = loc.vui_present_flag_pos as int;
            let m = spec_minimal_vui_bits(VideoMode::Sdr);
            assert(forall|j: int| 0 <= j < m.len() ==> #[trigger] m[j] <= 1);
        } else if !loc.video_signal_present {
            assert(forall|j: int| 0 <= j < sdr_signal_bits().len() ==> #[trigger] sdr_signal_bits()[j] <= 1);
        } else {
            assert(forall|j: int| 0 <= j < bt709_colour_bits().len() ==> #[trigger] bt709_colour_bits()[j] <= 1);
            assert(forall|j: int| 0 <= j < 8 ==> #[trigger] spec_value_bits(1, 8)[j] <= 1);
            assert(forall|j: int| 0 <= j < 3 ==> #[trigger] spec_value_bits(5, 3)[j] <= 1);
        }
    }
}

#[verifier::spinoff_prover]
#[verifier::rlimit(80)]
proof fn lemma_sdr_case_signal_inserted(r: Seq<u8>, b: Seq<u8>)
    requires
        r.len() <= usize::MAX / 16,
        spec_locate_vui(r) is Some,
        spec_locate_vui(r).unwrap().vui_present,
        !spec_locate_vui(r).unwrap().video_signal_present,
        b == sdr_patched_bits(spec_rbsp_bits(r), spec_locate_vui(r).unwrap()),
    ensures
        spec_locate_vui(spec_bits_to_rbsp(b)) is Some,
        sdr_located(spec_locate_vui(spec_bits_to_rbsp(b)).unwrap(), spec_bits_to_rbsp(b)),
        spec_locate_vui(spec_bits_to_rbsp(b)).unwrap().vui_present_flag_pos
            == spec_locate_vui(r).unwrap().vui_present_flag_pos,
{
    let loc = spec_locate_vui(r).unwrap();
    let bits = spec_rbsp_bits(r);
    let f = loc.vui_present_flag_pos as int;
    lemma_locate_vui_bits(r);
    lemma_locate_vui_order(r);
    lemma_locate_from_prefix(r, r, f);
    lemma_vui_parts(r, f);
    let sp = loc.video_signal_present_flag_pos.unwrap() as int;
    let cl0 = vui_signal(r, sp).unwrap().11;
    assert(cl0 == sp + 1);
    let ins = sdr_signal_bits();
    lemma_sdr_patched_bits_01(bits, loc, r);
    assert(b == insert_bits(bits.update(sp, 1), sp + 1, ins));
    let out = spec_bits_to_rbsp(b);
    assert(b.len() == bits.len() + 29);
    assert forall|i: int| 0 <= i < sp implies #[trigger] b[i + 0] == spec_rbsp_bits(r)[i] by {}
    lemma_out_agree(r, b, 0, sp, 0);
    assert forall|i: int| cl0 <= i < 8 * r.len() implies #[trigger] b[i + 29] == spec_rbsp_bits(r)[i] by {}
    lemma_out_agree(r, b, cl0, 8 * r.len() as int, 29);
    let sf = sdr_signal_with_flag();
    assert forall|j: int| 0 <= j < sf.len() implies #[trigger] b[sp + j] == sf[j] && sf[j] <= 1 by {
        if j > 0 {
            assert(b[sp + j] == ins[j - 1]);
        }
    }
    lemma_out_bits(b, sp, sf);
    lemma_packed_window(b, 0, 0);
    assert(out.len() <= usize::MAX / 8);
    lemma_sdr_tail(r, out, sp, cl0, 29);
}

proof fn lemma_sdr_signal_with_flag_parts()
    ensures
        sdr_signal_with_flag().len() == 30,
        forall|j: int| 0 <= j < 30 ==> #[trigger] sdr_signal_with_flag()[j] <= 1,
        sdr_signal_with_flag()[0] == 1,
        sdr_signal_with_flag()[4] == 0,
        sdr_signal_with_flag()[5] == 1,
        forall|j: int| 1 <= j < 4 ==> #[trigger] sdr_signal_with_flag()[j] == spec_value_bits(5, 3)[j - 1],
        forall|j: int| 6 <= j < 30 ==> #[trigger] sdr_signal_with_flag()[j] == bt709_colour_bits()[j - 6],
        forall|j: int| 0 <= j < 24 ==> #[trigger] bt709_colour_bits()[j] == spec_value_bits(1, 8)[j % 8],
{
    lemma_small_codes();
    let sf = sdr_signal_with_flag();
    assert forall|j: int| 0 <= j < 24 implies #[trigger] bt709_colour_bits()[j] == spec_value_bits(1, 8)[j % 8] by {
        let t = bt709_colour_bits();
        if j < 8 {
        } else if j < 16 {
        } else {
        }
    }
}

proof fn lemma_in_place_layout(bits: Seq<u8>, sp: int, b: Seq<u8>)
    requires
        0 <= sp,
        sp + 30 <= bits.len(),
        bits[sp] == 1,
        bits[sp + 5] == 1,
        b == spec_set_bits(
            spec_set_bits(
                spec_set_bits(spec_set_bits(bits, sp + 1, 3, 5).update(sp + 4, 0), sp + 6, 8, 1),
                sp + 14,
                8,
                1,
            ),
            sp + 22,
            8,
            1,
        ),
    ensures
        b.len() == bits.len(),
        forall|i: int| 0 <= i < b.len() && !(sp <= i < sp + 30) ==> #[trigger] b[i] == bits[i],
        forall|j: int| 0 <= j < 30 ==> #[trigger] b[sp + j] == sdr_signal_with_flag()[j],
{
    lemma_sdr_signal_with_flag_parts();
    let sf = sdr_signal_with_flag();
    assert forall|j: int| 0 <= j < 30 implies #[trigger] b[sp + j] == sf[j] by {
        if 6 <= j < 14 {
            assert(bt709_colour_bits()[j - 6] == spec_value_bits(1, 8)[(j - 6) % 8]);
        } else if 14 <= j < 22 {
            assert(bt709_colour_bits()[j - 6] == spec_value_bits(1, 8)[(j - 6) % 8]);
        } else if 22 <= j < 30 {
            assert(bt709_colour_bits()[j - 6] == spec_value_bits(1, 8)[(j - 6) % 8]);
        }
    }
}

proof fn lemma_colour_inserted_layout(bits: Seq<u8>, sp: int, b: Seq<u8>)
    requires
        0 <= sp,
        sp + 6 <= bits.len(),
        bits[sp] == 1,
        b == insert_bits(
            spec_set_bits(bits, sp + 1, 3, 5).update(sp + 4, 0).update(sp + 5, 1),
            sp + 6,
            bt709_colour_bits(),
        ),
    ensures
        b.len() == bits.len() + 24,
        forall|i: int| 0 <= i < sp ==> #[trigger] b[i] == bits[i],
        forall|i: int| sp + 6 <= i < bits.len() ==> #[trigger] b[i + 24] == bits[i],
        forall|j: int| 0 <= j < 30 ==> #[trigger] b[sp + j] == sdr_signal_with_flag()[j],
{
    lemma_sdr_signal_with_flag_parts();
    let sf = sdr_signal_with_flag();
    assert forall|j: int| 0 <= j < 30 implies #[trigger] b[sp + j] == sf[j] by {
        if 6 <= j {
            assert(b[sp + j] == bt709_colour_bits()[j - 6]);
        }
    }
}

#[verifier::spinoff_prover]
#[verifier::rlimit(80)]
proof fn lemma_sdr_case_in_place(r: Seq<u8>, b: Seq<u8>)
    requires
        r.len() <= usize::MAX / 16,
        spec_locate_vui(r) is Some,
        spec_locate_vui(r).unwrap().vui_present,
        spec_locate_vui(r).unwrap().video_signal_present,
        spec_locate_vui(r).unwrap().colour_description_present,
        b == sdr_patched_bits(spec_rbsp_bits(r), spec_locate_vui(r).unwrap()),
    ensures
        spec_locate_vui(spec_bits_to_rbsp(b)) is Some,
        sdr_located(spec_locate_vui(spec_bits_to_rbsp(b)).unwrap(), spec_bits_to_rbsp(b)),
        spec_locate_vui(spec_bits_to_rbsp(b)).unwrap().vui_present_flag_pos
            == spec_locate_vui(r).unwrap().vui_present_flag_pos,
{
    let loc = spec_locate_vui(r).unwrap();
    let bits = spec_rbsp_bits(r);
    let f = loc.vui_present_flag_pos as int;
    lemma_locate_vui_bits(r);
    lemma_locate_vui_order(r);
    lemma_locate_from_prefix(r, r, f);
    lemma_vui_parts(r, f);
    let sp = loc.video_signal_present_flag_pos.unwrap() as int;
    lemma_vui_signal_bounds(r, sp);
    let cl0 = vui_signal(r, sp).unwrap().11;
    assert(loc.video_format_pos == Some((sp + 1) as usize));
    assert(loc.colour_primaries_pos == Some((sp + 6) as usize));
    assert(cl0 == sp + 30);
    lemma_sdr_patched_bits_01(bits, loc, r);
    assert(bits[sp] == 1);
    assert(bits[sp + 5] == 1);
    assert(b == spec_set_bits(
        spec_set_bits(
            spec_set_bits(spec_set_bits(bits, sp + 1, 3, 5).update(sp + 4, 0), sp + 6, 8, 1),
            sp + 14,
            8,
            1,
        ),
        sp + 22,
        8,
        1,
    )) by {
        assert(loc.video_format_pos.unwrap() as int == sp + 1);
        assert(loc.colour_primaries_pos.unwrap() as int == sp + 6);
    }
    lemma_in_place_layout(bits, sp, b);
    let out = spec_bits_to_rbsp(b);
    assert forall|i: int| 0 <= i < sp implies #[trigger] b[i + 0] == spec_rbsp_bits(r)[i] by {}
    lemma_out_agree(r, b, 0, sp, 0);
    assert forall|i: int| cl0 <= i < 8 * r.len() implies #[trigger] b[i + 0] == spec_rbsp_bits(r)[i] by {}
    lemma_out_agree(r, b, cl0, 8 * r.len() as int, 0);
    lemma_sdr_signal_with_flag_parts();
    lemma_out_bits(b, sp, sdr_signal_with_flag());
    lemma_packed_window(b, 0, 0);
    lemma_sdr_tail(r, spec_bits_to_rbsp(b), sp, cl0, 0);
}

#[verifier::spinoff_prover]
#[verifier::rlimit(50)]
proof fn lemma_sdr_case_colour_inserted(r: Seq<u8>, b: Seq<u8>)
    requires
        r.len() <= usize::MAX / 16,
        spec_locate_vui(r) is Some,
        spec_locate_vui(r).unwrap().vui_present,
        spec_locate_vui(r).unwrap().video_signal_present,
        !spec_locate_vui(r).unwrap().colour_description_present,
        b == sdr_patched_bits(spec_rbsp_bits(r), spec_locate_vui(r).unwrap()),
    ensures
        spec_locate_vui(spec_bits_to_rbsp(b)) is Some,
        sdr_located(spec_locate_vui(spec_bits_to_rbsp(b)).unwrap(), spec_bits_to_rbsp(b)),
        spec_locate_vui(spec_bits_to_rbsp(b)).unwrap().vui_present_flag_pos
            == spec_locate_vui(r).unwrap().vui_present_flag_pos,
{
    let loc = spec_locate_vui(r).unwrap();
    let bits = spec_rbsp_bits(r);
    let f = loc.vui_present_flag_pos as int;
    lemma_locate_vui_bits(r);
    lemma_locate_vui_order(r);
    lemma_locate_from_prefix(r, r, f);
    lemma_vui_parts(r, f);
    let sp = loc.video_signal_present_flag_pos.unwrap() as int;
    lemma_vui_signal_bounds(r, sp);
    let cl0 = vui_signal(r, sp).unwrap().11;
    assert(loc.video_format_pos == Some((sp + 1) as usize));
    assert(cl0 == sp + 6);
    lemma_sdr_patched_bits_01(bits, loc, r);
    assert(bits[sp] == 1);
    lemma_colour_inserted_layout(bits, sp, b);
    let out = spec_bits_to_rbsp(b);
    assert forall|i: int| 0 <= i < sp implies #[trigger] b[i + 0] == spec_rbsp_bits(r)[i] by {}
    lemma_out_agree(r, b, 0, sp, 0);
    assert forall|i: int| cl0 <= i < 8 * r.len() implies #[trigger] b[i + 24] == spec_rbsp_bits(r)[i] by {}
    lemma_out_agree(r, b, cl0, 8 * r.len() as int, 24);
    lemma_sdr_signal_with_flag_parts();
    lemma_out_bits(b, sp, sdr_signal_with_flag());
    lemma_packed_window(b, 0, 0);
    lemma_sdr_tail(r, spec_bits_to_rbsp(b), sp, cl0, 24);
}

/// A located VUI with chroma sample location type 2 for both fields.
pub open spec fn chroma2_located(l: VuiLocation, d: Seq<u8>) -> bool {
    &&& l.vui_present
    &&& l.chroma_loc_info_present
    &&& l.chroma_bottom_ue_start == l.chroma_top_ue_end
    &&& spec_read_ue(d, l.chroma_top_ue_start.unwrap() as int) == Some(
        (2u32, l.chroma_top_ue_end.unwrap() as int),
    )
    &&& spec_read_ue(d, l.chroma_bottom_ue_start.unwrap() as int) == Some(
        (2u32, l.chroma_bottom_ue_end.unwrap() as int),
    )
    &&& bits_are(d, l.chroma_top_ue_start.unwrap() as int, spec_ue_bits(2))
    &&& bits_are(d, l.chroma_bottom_ue_start.unwrap() as int, spec_ue_bits(2))
}

/// No colour values recorded.
pub open spec fn no_colour(l: VuiLocation) -> bool {
    &&& l.colour_primaries_value is None
    &&& l.transfer_characteristics_value is None
    &&& l.matrix_coeffs_value is None
}

#[verifier::spinoff_prover]
#[verifier::rlimit(50)]
proof fn lemma_minimal_vui_read(d: Seq<u8>, f: int, mode: VideoMode)
    requires
        bits_are(d, f, seq![1u8] + spec_minimal_vui_bits(mode)),
        d.len() <= usize::MAX / 8,
    ensures
        spec_vui_from(d, f) is Some,
        spec_vui_from(d, f).unwrap().vui_present_flag_pos == f,
        chroma2_located(spec_vui_from(d, f).unwrap(), d),
        mode == VideoMode::Sdr ==> sdr_located(spec_vui_from(d, f).unwrap(), d),
        mode != VideoMode::Sdr ==> no_colour(spec_vui_from(d, f).unwrap()),
{
    let m = seq![1u8] + spec_minimal_vui_bits(mode);
    assert(bit_at(d, f + 0) == m[0]);
    assert(bit_at(d, f + 1) == m[1]);
    assert(bit_at(d, f + 2) == m[2]);
    assert(bit_at(d, f + 3) == m[3]);
    reveal_with_fuel(bits_value, 2);
    assert(bits_value(d, f, 1) == 1);
    assert(bits_value(d, f + 1, 1) == 0);
    assert(bits_value(d, f + 2, 1) == 0);
    assert(vui_signal_flag_pos(d, f + 1) == Some(f + 3));
    if mode == VideoMode::Sdr {
        let sf = sdr_signal_with_flag();
        assert forall|j: int| 0 <= j < sf.len() implies #[trigger] bit_at(d, f + 3 + j) == sf[j] by {
            assert(bit_at(d, f + (3 + j)) == m[3 + j]);
        }
        lemma_sdr_signal_read(d, f + 3);
        let c2 = chroma2_bits();
        assert forall|j: int| 0 <= j < c2.len() implies #[trigger] bit_at(d, f + 33 + j) == c2[j] by {
            assert(bit_at(d, f + (33 + j)) == m[33 + j]);
        }
        lemma_chroma2_read(d, f + 33);
    } else {
        assert(bits_value(d, f + 3, 1) == 0);
        assert(vui_signal(d, f + 3).unwrap().0 == false);
        assert(vui_signal(d, f + 3).unwrap().6 is None);
        assert(vui_signal(d, f + 3).unwrap().8 is None);
        assert(vui_signal(d, f + 3).unwrap().10 is None);
        assert(vui_signal(d, f + 3).unwrap().11 == f + 4);
        let c2 = chroma2_bits();
        assert forall|j: int| 0 <= j < c2.len() implies #[trigger] bit_at(d, f + 4 + j) == c2[j] by {
            assert(bit_at(d, f + (4 + j)) == m[4 + j]);
        }
        lemma_chroma2_read(d, f + 4);
    }
}

proof fn lemma_vui_inserted_layout(bits: Seq<u8>, f: int, b: Seq<u8>, mode: VideoMode)
    requires
        0 <= f < bits.len(),
        b == insert_bits(bits.update(f, 1), f + 1, spec_minimal_vui_bits(mode)),
    ensures
        forall|i: int| 0 <= i < f ==> #[trigger] b[i + 0] == bits[i],
        forall|j: int| 0 <= j < 1 + spec_minimal_vui_bits(mode).len() ==> #[trigger] b[f + j] == (seq![1u8]
            + spec_minimal_vui_bits(mode))[j] && (seq![1u8] + spec_minimal_vui_bits(mode))[j] <= 1,
        f + 1 + spec_minimal_vui_bits(mode).len() <= b.len(),
{
    let m = seq![1u8] + spec_minimal_vui_bits(mode);
    assert forall|j: int| 0 <= j < m.len() implies #[trigger] b[f + j] == m[j] && m[j] <= 1 by {
        if j > 0 {
            assert(b[f + j] == spec_minimal_vui_bits(mode)[j - 1]);
        }
    }
}

#[verifier::spinoff_prover]
#[verifier::rlimit(50)]
proof fn lemma_case_vui_inserted(r: Seq<u8>, b: Seq<u8>, mode: VideoMode)
    requires
        r.len() <= usize::MAX / 16,
        spec_locate_vui(r) is Some,
        !spec_locate_vui(r).unwrap().vui_present,
        b == insert_bits(
            spec_rbsp_bits(r).update(spec_locate_vui(r).unwrap().vui_present_flag_pos as int, 1),
            spec_locate_vui(r).unwrap().vui_present_flag_pos + 1,
            spec_minimal_vui_bits(mode),
        ),
    ensures
        spec_locate_vui(spec_bits_to_rbsp(b)) is Some,
        spec_locate_vui(spec_bits_to_rbsp(b)).unwrap().vui_present_flag_pos
            == spec_locate_vui(r).unwrap().vui_present_flag_pos,
        chroma2_located(spec_locate_vui(spec_bits_to_rbsp(b)).unwrap(), spec_bits_to_rbsp(b)),
        mode == VideoMode::Sdr ==> sdr_located(
            spec_locate_vui(spec_bits_to_rbsp(b)).unwrap(),
            spec_bits_to_rbsp(b),
        ),
        mode != VideoMode::Sdr ==> no_colour(spec_locate_vui(spec_bits_to_rbsp(b)).unwrap()),
{
    let loc = spec_locate_vui(r).unwrap();
    let bits = spec_rbsp_bits(r);
    let f = loc.vui_present_flag_pos as int;
    lemma_locate_vui_positions(r);
    lemma_vui_inserted_layout(bits, f, b, mode);
    let out = spec_bits_to_rbsp(b);
    assert(b.len() == bits.len() + spec_minimal_vui_bits(mode).len());
    assert(spec_minimal_vui_bits(mode).len() <= 45);
    lemma_out_agree(r, b, 0, f, 0);
    let m = seq![1u8] + spec_minimal_vui_bits(mode);
    lemma_out_bits(b, f, m);
    lemma_packed_window(b, 0, 0);
    lemma_locate_from_prefix(r, out, f);
    lemma_minimal_vui_read(out, f, mode);
}

#[verifier::spinoff_prover]
#[verifier::rlimit(50)]
proof fn lemma_sdr_case_vui_inserted(r: Seq<u8>, b: Seq<u8>)
    requires
        r.len() <= usize::MAX / 16,
        spec_locate_vui(r) is Some,
        !spec_locate_vui(r).unwrap().vui_present,
        b == sdr_patched_bits(spec_rbsp_bits(r), spec_locate_vui(r).unwrap()),
    ensures
        spec_locate_vui(spec_bits_to_rbsp(b)) is Some,
        sdr_located(spec_locate_vui(spec_bits_to_rbsp(b)).unwrap(), spec_bits_to_rbsp(b)),
        spec_locate_vui(spec_bits_to_rbsp(b)).unwrap().vui_present_flag_pos
            == spec_locate_vui(r).unwrap().vui_present_flag_pos,
{
    lemma_case_vui_inserted(r, b, VideoMode::Sdr);
}

/// Patching the colorimetry to SDR leaves an RBSP in which the VUI is
/// found at the same vui_parameters_present_flag, present, with a video
/// signal type of video_format 5, limited range, and BT.709 primaries,
/// transfer characteristics and matrix coefficients.
#[verifier::spinoff_prover]
#[verifier::rlimit(50)]
pub proof fn lemma_patch_sdr_locates_bt709(r: Seq<u8>)
    requires
        r.len() <= usize::MAX / 16,
    ensures
        spec_patch_sdr_colorimetry(r) matches Some(out) ==> {
            &&& spec_locate_vui(out) is Some
            &&& sdr_located(spec_locate_vui(out).unwrap(), out)
            &&& spec_locate_vui(out).unwrap().vui_present_flag_pos == spec_locate_vui(r).unwrap().vui_present_flag_pos
        },
{
    if spec_locate_vui(r) is Some {
        let loc = spec_locate_vui(r).unwrap();
        let b = sdr_patched_bits(spec_rbsp_bits(r), loc);
        if !loc.vui_present {
            lemma_sdr_case_vui_inserted(r, b);
        } else if !loc.video_signal_present {
            lemma_sdr_case_signal_inserted(r, b);
        } else if loc.colour_description_present {
            lemma_sdr_case_in_place(r, b);
        } else {
            lemma_sdr_case_colour_inserted(r, b);
        }
    }
}

/// The colour values recorded by two located VUIs are the same.
pub open spec fn same_colour(l1: VuiLocation, l2: VuiLocation) -> bool {
    &&& l1.colour_primaries_value == l2.colour_primaries_value
    &&& l1.transfer_characteristics_value == l2.transfer_characteristics_value
    &&& l1.matrix_coeffs_value == l2.matrix_coeffs_value
}

#[verifier::spinoff_prover]
#[verifier::rlimit(50)]
proof fn lemma_chroma_tail(r: Seq<u8>, out: Seq<u8>, cl: int)
    requires
        r.len() <= usize::MAX / 8,
        out.len() <= usize::MAX / 8,
        spec_locate_vui(r) is Some,
        spec_locate_vui(r).unwrap().vui_present,
        spec_locate_vui(r).unwrap().chroma_loc_info_present_flag_pos == Some(cl as usize),
        bits_agree(r, out, 0, cl, 0),
        bits_are(out, cl, chroma2_bits()),
    ensures
        spec_locate_vui(out) is Some,
        chroma2_located(spec_locate_vui(out).unwrap(), out),
        spec_locate_vui(out).unwrap().vui_present_flag_pos == spec_locate_vui(r).unwrap().vui_present_flag_pos,
        same_colour(spec_locate_vui(out).unwrap(), spec_locate_vui(r).unwrap()),
{
    let loc = spec_locate_vui(r).unwrap();
    let f = loc.vui_present_flag_pos as int;
    lemma_locate_vui_order(r);
    lemma_locate_from_prefix(r, r, f);
    lemma_vui_parts(r, f);
    let sp = vui_signal_flag_pos(r, f + 1).unwrap();
    lemma_vui_signal_bounds(r, sp);
    assert(vui_signal(r, sp).unwrap().11 == cl);
    lemma_locate_from_prefix(r, out, cl);
    lemma_read_bits_agree(r, out, 0, cl, 0, f, 1);
    lemma_signal_flag_pos_agree(r, out, 0, cl, f + 1);
    lemma_vui_signal_agree(r, out, 0, cl, sp);
    lemma_chroma2_read(out, cl);
}

proof fn lemma_chroma_inserted_layout(bits: Seq<u8>, cl: int, b: Seq<u8>)
    requires
        0 <= cl < bits.len(),
        b == insert_bits(bits.update(cl, 1), cl + 1, ue2_bits() + ue2_bits()),
    ensures
        b.len() == bits.len() + 6,
        forall|i: int| 0 <= i < cl ==> #[trigger] b[i + 0] == bits[i],
        forall|j: int| 0 <= j < 7 ==> #[trigger] b[cl + j] == chroma2_bits()[j] && chroma2_bits()[j] <= 1,
{
    let c2 = chroma2_bits();
    assert forall|j: int| 0 <= j < 7 implies #[trigger] b[cl + j] == c2[j] && c2[j] <= 1 by {
        if j > 0 {
            assert(b[cl + j] == (ue2_bits() + ue2_bits())[j - 1]);
        }
    }
}

proof fn lemma_chroma_replaced_layout(bits: Seq<u8>, cl: int, t1: int, b1: int, b: Seq<u8>)
    requires
        0 <= cl,
        cl + 1 <= t1 <= b1 <= bits.len(),
        bits[cl] == 1,
        b == replace_bits(replace_bits(bits, t1, b1, ue2_bits()), cl + 1, t1, ue2_bits()),
    ensures
        cl + 7 <= b.len(),
        forall|i: int| 0 <= i < cl ==> #[trigger] b[i + 0] == bits[i],
        forall|j: int| 0 <= j < 7 ==> #[trigger] b[cl + j] == chroma2_bits()[j] && chroma2_bits()[j] <= 1,
{
    let c2 = chroma2_bits();
    let inner = replace_bits(bits, t1, b1, ue2_bits());
    assert(inner.len() == bits.len() - (b1 - t1) + 3);
    assert(b.len() == cl + 1 + 3 + (inner.len() - t1));
    assert forall|j: int| 0 <= j < 7 implies #[trigger] b[cl + j] == c2[j] && c2[j] <= 1 by {
        if j == 0 {
            assert(b[cl] == inner[cl]);
        } else if j < 4 {
            assert(b[cl + j] == ue2_bits()[j - 1]);
        } else {
            assert(b[cl + j] == inner[t1 + (j - 4)]);
            assert(inner[t1 + (j - 4)] == ue2_bits()[j - 4]);
        }
    }
}

#[verifier::spinoff_prover]
#[verifier::rlimit(80)]
proof fn lemma_chroma_case_present(r: Seq<u8>, b: Seq<u8>, mode: VideoMode)
    requires
        r.len() <= usize::MAX / 16,
        spec_locate_vui(r) is Some,
        spec_locate_vui(r).unwrap().vui_present,
        b == chroma_patched_bits(spec_rbsp_bits(r), spec_locate_vui(r).unwrap(), mode),
    ensures
        spec_locate_vui(spec_bits_to_rbsp(b)) is Some,
        chroma2_located(spec_locate_vui(spec_bits_to_rbsp(b)).unwrap(), spec_bits_to_rbsp(b)),
        spec_locate_vui(spec_bits_to_rbsp(b)).unwrap().vui_present_flag_pos
            == spec_locate_vui(r).unwrap().vui_present_flag_pos,
        same_colour(spec_locate_vui(spec_bits_to_rbsp(b)).unwrap(), spec_locate_vui(r).unwrap()),
{
    let loc = spec_locate_vui(r).unwrap();
    let bits = spec_rbsp_bits(r);
    lemma_locate_vui_bits(r);
    let cl = loc.chroma_loc_info_present_flag_pos.unwrap() as int;
    assert forall|i: int| 0 <= i < bits.len() implies #[trigger] bits[i] <= 1 by {
        lemma_bit_at_le1(r, i);
    }
    if !loc.chroma_loc_info_present {
        lemma_chroma_inserted_layout(bits, cl, b);
    } else {
        let f = loc.vui_present_flag_pos as int;
        lemma_locate_vui_order(r);
        lemma_locate_from_prefix(r, r, f);
        lemma_vui_parts(r, f);
        lemma_vui_chroma_bounds(r, cl);
        assert(loc.chroma_top_ue_start == Some((cl + 1) as usize));
        let t1 = loc.chroma_top_ue_end.unwrap() as int;
        let b1 = loc.chroma_bottom_ue_end.unwrap() as int;
        assert(bits[cl] == 1);
        lemma_chroma_replaced_layout(bits, cl, t1, b1, b);
    }
    lemma_out_agree(r, b, 0, cl, 0);
    lemma_out_bits(b, cl, chroma2_bits());
    lemma_packed_window(b, 0, 0);
    assert(b.len() <= bits.len() + 6);
    lemma_chroma_tail(r, spec_bits_to_rbsp(b), cl);
}

/// Setting the chroma sample location leaves an RBSP in which the VUI is
/// found at the same vui_parameters_present_flag with chroma sample
/// location type 2 for both fields; the colour values found are those of
/// the input where it had a VUI or the mode is not SDR, and a BT.709 video
/// signal type where an SDR VUI was inserted.
#[verifier::spinoff_prover]
#[verifier::rlimit(50)]
pub proof fn lemma_patch_chroma_locates_type2(r: Seq<u8>, mode: VideoMode)
    requires
        r.len() <= usize::MAX / 16,
    ensures
        spec_patch_chroma_type2(r, mode) matches Some(out) ==> {
            let l0 = spec_locate_vui(r).unwrap();
            &&& spec_locate_vui(out) is Some
            &&& chroma2_located(spec_locate_vui(out).unwrap(), out)
            &&& spec_locate_vui(out).unwrap().vui_present_flag_pos == l0.vui_present_flag_pos
            &&& (l0.vui_present || mode != VideoMode::Sdr) ==> same_colour(spec_locate_vui(out).unwrap(), l0)
            &&& (!l0.vui_present && mode == VideoMode::Sdr) ==> sdr_located(spec_locate_vui(out).unwrap(), out)
        },
{
    if spec_locate_vui(r) is Some {
        let loc = spec_locate_vui(r).unwrap();
        let b = chroma_patched_bits(spec_rbsp_bits(r), loc, mode);
        if !loc.vui_present {
            lemma_locate_vui_bits(r);
            lemma_case_vui_inserted(r, b, mode);
        } else {
            lemma_chroma_case_present(r, b, mode);
        }
    }
}

proof fn lemma_chroma_patch_len(r: Seq<u8>, mode: VideoMode)
    requires
        spec_patch_chroma_type2(r, mode) is Some,
        r.len() <= usize::MAX / 8,
    ensures
        spec_patch_chroma_type2(r, mode).unwrap().len() <= r.len() + 6,
{
    lemma_locate_vui_positions(r);
    let loc = spec_locate_vui(r).unwrap();
    let bits = spec_rbsp_bits(r);
    let n = chroma_patched_bits(bits, loc, mode).len();
    assert(n <= 8 * r.len() + 45);
    assert((n + 7) / 8 <= r.len() + 6);
}

proof fn lemma_rebuilt_rbsp(unit: Seq<u8>, f: Seq<u8>)
    requires
        sps_rbsp(unit) is Some,
        f.len() >= 1,
        spec_rebuild_unit(unit, f) is Some,
    ensures
        sps_rbsp(spec_rebuild_unit(unit, f).unwrap()) == Some(f),
{
    let out = spec_rebuild_unit(unit, f).unwrap();
    let sc = spec_start_code_length(unit).unwrap() as int;
    let e = escape(f, 0);
    lemma_unescape_escape(f, 0);
    lemma_unescape_len(e, 0);
    assert(out == unit.take(sc + 2) + e);
    assert(out.len() >= sc + 3);
    assert(out[0] == unit[0] && out[1] == unit[1] && out[2] == unit[2] && out[3] == unit[3]);
    assert(spec_start_code_length(out) == spec_start_code_length(unit));
    assert(out[sc] == unit[sc]);
    assert(spec_hevc_nal_type(out) == spec_hevc_nal_type(unit));
    assert(out.skip(sc + 2) =~= e);
}

/// Rewriting the signalling of an SPS unit for SDR leaves a unit whose
/// colour description reads BT.709 (1) for primaries, transfer
/// characteristics and matrix coefficients; for another mode, the colour
/// description it reads is that of the input.
#[verifier::spinoff_prover]
#[verifier::rlimit(50)]
pub proof fn lemma_patch_sps_inspect(unit: Seq<u8>, mode: VideoMode)
    requires
        unit.len() <= usize::MAX / 32,
    ensures
        spec_patch_sps_signaling(unit, mode) matches Some(out) ==> {
            &&& spec_inspect_sps(out) is Some
            &&& mode == VideoMode::Sdr ==> {
                &&& spec_inspect_sps(out).unwrap().colour_primaries == Some(1u8)
                &&& spec_inspect_sps(out).unwrap().transfer_characteristics == Some(1u8)
                &&& spec_inspect_sps(out).unwrap().matrix_coeffs == Some(1u8)
            }
            &&& mode != VideoMode::Sdr ==> {
                &&& spec_inspect_sps(unit) is Some
                &&& spec_inspect_sps(out).unwrap().colour_primaries == spec_inspect_sps(unit).unwrap().colour_primaries
                &&& spec_inspect_sps(out).unwrap().transfer_characteristics
                    == spec_inspect_sps(unit).unwrap().transfer_characteristics
                &&& spec_inspect_sps(out).unwrap().matrix_coeffs == spec_inspect_sps(unit).unwrap().matrix_coeffs
            }
        },
{
    if spec_patch_sps_signaling(unit, mode) is Some {
        let rbsp = sps_rbsp(unit).unwrap();
        let sc = spec_start_code_length(unit).unwrap() as int;
        lemma_unescape_len(unit.skip(sc + 2), 0);
        assert(rbsp.len() <= usize::MAX / 32);
        let a = if mode == VideoMode::Sdr {
            spec_patch_sdr_colorimetry(rbsp).unwrap()
        } else {
            rbsp
        };
        if mode == VideoMode::Sdr {
            lemma_sdr_patch_len(rbsp);
            lemma_patch_sdr_locates_bt709(rbsp);
        }
        assert(a.len() <= usize::MAX / 16);
        let fin = spec_patch_chroma_type2(a, mode).unwrap();
        lemma_patch_chroma_locates_type2(a, mode);
        lemma_chroma_patch_len(a, mode);
        lemma_locate_vui_positions(fin);
        lemma_rebuilt_rbsp(unit, fin);
    }
}

} // verus!
