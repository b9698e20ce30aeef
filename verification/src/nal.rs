use vstd::prelude::*;

verus! {

/// Length of the Annex B start code (`00 00 00 01` or `00 00 01`) that a
/// NAL unit begins with.
pub open spec fn spec_start_code_length(u: Seq<u8>) -> Option<usize> {
    if u.len() >= 4 && u[0] == 0 && u[1] == 0 && u[2] == 0 && u[3] == 1 {
        Some(4)
    } else if u.len() >= 3 && u[0] == 0 && u[1] == 0 && u[2] == 1 {
        Some(3)
    } else {
        None
    }
}

/// Length of the Annex B start code that `unit` begins with.
pub fn start_code_length(unit: &[u8]) -> (r: Option<usize>)
    ensures
        r == spec_start_code_length(unit@),
{
    if unit.len() >= 4 && unit[0] == 0 && unit[1] == 0 && unit[2] == 0 && unit[3] == 1 {
        Some(4)
    } else if unit.len() >= 3 && unit[0] == 0 && unit[1] == 0 && unit[2] == 1 {
        Some(3)
    } else {
        None
    }
}

/// The HEVC NAL unit type in the header byte after the start code.
pub open spec fn spec_hevc_nal_type(u: Seq<u8>) -> Option<u8> {
    match spec_start_code_length(u) {
        None => None,
        Some(o) => if o < u.len() {
            Some((u[o as int] >> 1u8) & 0x3f)
        } else {
            None
        },
    }
}

/// The HEVC NAL unit type after the start code.
pub fn hevc_nal_type(unit: &[u8]) -> (r: Option<u8>)
    ensures
        r == spec_hevc_nal_type(unit@),
{
    let offset = start_code_length(unit)?;
    if offset < unit.len() {
        Some((unit[offset] >> 1) & 0x3f)
    } else {
        None
    }
}

/// The zero-run count after byte `v`, capped at 2.
pub open spec fn next_zeros(z: int, v: u8) -> int {
    if v == 0 {
        if z + 1 > 2 { 2 } else { z + 1 }
    } else {
        0
    }
}

/// `s` with emulation prevention bytes removed: a `03` that follows two
/// zero bytes is dropped; `z` is the number of zero bytes (at most 2) just
/// before `s`.
pub open spec fn unescape(s: Seq<u8>, z: int) -> Seq<u8>
    decreases s.len(),
{
    if s.len() == 0 {
        s
    } else if z >= 2 && s[0] == 3 {
        unescape(s.drop_first(), 0)
    } else {
        seq![s[0]] + unescape(s.drop_first(), next_zeros(z, s[0]))
    }
}

/// `s` with emulation prevention bytes inserted: a `03` goes before any byte
/// up to `03` that follows two zero bytes.
pub open spec fn escape(s: Seq<u8>, z: int) -> Seq<u8>
    decreases s.len(),
{
    if s.len() == 0 {
        s
    } else if z >= 2 && s[0] <= 3 {
        seq![3u8, s[0]] + escape(s.drop_first(), next_zeros(0, s[0]))
    } else {
        seq![s[0]] + escape(s.drop_first(), next_zeros(z, s[0]))
    }
}

/// Removes emulation prevention bytes.
pub fn ebsp_to_rbsp(ebsp: &[u8]) -> (r: Vec<u8>)
    ensures
        r@ == unescape(ebsp@, 0),
{
    let mut rbsp: Vec<u8> = Vec::new();
    let mut zeros: usize = 0;
    let mut i: usize = 0;
    assert(ebsp@.skip(0) =~= ebsp@);
    while i < ebsp.len()
        invariant
            i <= ebsp.len(),
            zeros <= 2,
            rbsp@ + unescape(ebsp@.skip(i as int), zeros as int) == unescape(ebsp@, 0),
        decreases ebsp.len() - i,
    {
        let value = ebsp[i];
        assert(ebsp@.skip(i as int).drop_first() =~= ebsp@.skip(i + 1));
        if zeros >= 2 && value == 0x03 {
            zeros = 0;
        } else {
            let ghost before = rbsp@;
            rbsp.push(value);
            if value == 0x00 {
                zeros = if zeros + 1 > 2 { 2 } else { zeros + 1 };
            } else {
                zeros = 0;
            }
            assert(rbsp@ =~= before + seq![value]);
        }
        i += 1;
    }
    assert(ebsp@.skip(i as int) =~= Seq::<u8>::empty());
    assert(rbsp@ =~= unescape(ebsp@, 0));
    rbsp
}

/// Inserts emulation prevention bytes.
pub fn rbsp_to_ebsp(rbsp: &[u8]) -> (r: Vec<u8>)
    ensures
        r@ == escape(rbsp@, 0),
{
    let mut ebsp: Vec<u8> = Vec::new();
    let mut zeros: usize = 0;
    let mut i: usize = 0;
    assert(rbsp@.skip(0) =~= rbsp@);
    while i < rbsp.len()
        invariant
            i <= rbsp.len(),
            zeros <= 2,
            ebsp@ + escape(rbsp@.skip(i as int), zeros as int) == escape(rbsp@, 0),
        decreases rbsp.len() - i,
    {
        let value = rbsp[i];
        assert(rbsp@.skip(i as int).drop_first() =~= rbsp@.skip(i + 1));
        let ghost before = ebsp@;
        if zeros >= 2 && value <= 0x03 {
            ebsp.push(0x03);
            zeros = 0;
        }
        ebsp.push(value);
        if value == 0x00 {
            zeros = if zeros + 1 > 2 { 2 } else { zeros + 1 };
        } else {
            zeros = 0;
        }
        i += 1;
    }
    assert(rbsp@.skip(i as int) =~= Seq::<u8>::empty());
    assert(ebsp@ =~= escape(rbsp@, 0));
    ebsp
}

/// Removing emulation prevention undoes inserting it: for every byte
/// string and every starting zero-run count.
pub proof fn lemma_unescape_escape(s: Seq<u8>, z: int)
    requires
        0 <= z <= 2,
    ensures
        unescape(escape(s, z), z) == s,
    decreases s.len(),
{
    if s.len() > 0 {
        let v = s[0];
        let rest = s.drop_first();
        if z >= 2 && v <= 3 {
            let e = escape(rest, next_zeros(0, v));
            lemma_unescape_escape(rest, next_zeros(0, v));
            let full = seq![3u8, v] + e;
            assert(full.drop_first() =~= seq![v] + e);
            assert((seq![v] + e).drop_first() =~= e);
            assert(unescape(full, z) == unescape(seq![v] + e, 0));
            assert(unescape(seq![v] + e, 0) == seq![v] + unescape(e, next_zeros(0, v)));
        } else {
            let e = escape(rest, next_zeros(z, v));
            lemma_unescape_escape(rest, next_zeros(z, v));
            let full = seq![v] + e;
            assert(full.drop_first() =~= e);
        }
        assert(s =~= seq![v] + rest);
    }
}

/// Appends the bytes of `src` to `dst`.
pub fn extend_bytes(dst: &mut Vec<u8>, src: &[u8])
    ensures
        final(dst)@ == old(dst)@ + src@,
{
    let mut i: usize = 0;
    while i < src.len()
        invariant
            i <= src.len(),
            dst@ == old(dst)@ + src@.take(i as int),
        decreases src.len() - i,
    {
        dst.push(src[i]);
        i += 1;
        assert(dst@ =~= old(dst)@ + src@.take(i as int));
    }
    assert(src@.take(i as int) =~= src@);
}

/// A new vector holding the bytes of `src`.
pub fn copy_bytes(src: &[u8]) -> (r: Vec<u8>)
    ensures
        r@ == src@,
{
    let mut out: Vec<u8> = Vec::with_capacity(src.len());
    extend_bytes(&mut out, src);
    assert(out@ =~= src@);
    out
}

/// The byte strings held by a list of byte vectors.
pub open spec fn byte_strings(v: Seq<Vec<u8>>) -> Seq<Seq<u8>> {
    Seq::new(v.len(), |i: int| v[i]@)
}

/// Whether `s` holds the three bytes `00 00 03` anywhere.
pub open spec fn has_emulation_window(s: Seq<u8>) -> bool {
    exists|i: int| 0 <= i && i + 2 < s.len() && #[trigger] s[i] == 0 && s[i + 1] == 0 && s[i + 2] == 3
}

proof fn lemma_unescape_plain_from(s: Seq<u8>, z: int)
    requires
        0 <= z <= 2,
        !has_emulation_window(s),
        !(z >= 2 && s.len() > 0 && s[0] == 3),
        !(z >= 1 && s.len() > 1 && s[0] == 0 && s[1] == 3),
    ensures
        unescape(s, z) == s,
    decreases s.len(),
{
    if s.len() > 0 {
        let rest = s.drop_first();
        let nz = next_zeros(z, s[0]);
        assert(!has_emulation_window(rest)) by {
            if has_emulation_window(rest) {
                let i = choose|i: int| 0 <= i && i + 2 < rest.len() && #[trigger] rest[i] == 0 && rest[i + 1] == 0 && rest[i + 2] == 3;
                assert(s[i + 1] == 0 && s[i + 2] == 0 && s[i + 3] == 3);
            }
        }
        if s.len() > 2 && s[0] == 0 && s[1] == 0 {
            assert(s[2] != 3);
        }
        lemma_unescape_plain_from(rest, nz);
        assert(s =~= seq![s[0]] + rest);
    }
}

/// Removing emulation prevention leaves a byte string without any
/// `00 00 03` unchanged.
pub proof fn lemma_unescape_plain(s: Seq<u8>)
    requires
        !has_emulation_window(s),
    ensures
        unescape(s, 0) == s,
{
    lemma_unescape_plain_from(s, 0);
}

} // verus!
