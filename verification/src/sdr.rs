use crate::common::VideoMode;
pub use crate::nal::{ebsp_to_rbsp, hevc_nal_type, rbsp_to_ebsp, start_code_length};
use crate::nal::{escape, extend_bytes, spec_hevc_nal_type, spec_start_code_length, unescape};
use vstd::prelude::*;

verus! {

/// `2^n`.
pub open spec fn two_pow(n: nat) -> nat
    decreases n,
{
    if n == 0 {
        1
    } else {
        2 * two_pow((n - 1) as nat)
    }
}

/// Bit `pos` of `d`, most significant bit of each byte first.
pub open spec fn bit_at(d: Seq<u8>, pos: int) -> nat {
    ((d[pos / 8] >> ((7 - pos % 8) as u8)) & 1u8) as nat
}

/// The `n` bits of `d` from bit `pos` on, read as a big-endian number.
pub open spec fn bits_value(d: Seq<u8>, pos: int, n: nat) -> nat
    decreases n,
{
    if n == 0 {
        0
    } else {
        bits_value(d, pos, (n - 1) as nat) * 2 + bit_at(d, pos + n - 1)
    }
}

/// True when `n` bits can be read from bit `pos` of `d`.
pub open spec fn can_read(d: Seq<u8>, pos: int, n: int) -> bool {
    0 <= pos && 0 <= n && pos + n <= 8 * d.len()
}

/// Reading `n <= 64` bits at `pos`: the value and the position after it.
pub open spec fn spec_read_bits(d: Seq<u8>, pos: int, n: int) -> Option<(u64, int)> {
    if n > 64 || !can_read(d, pos, n) {
        None
    } else {
        Some((bits_value(d, pos, n as nat) as u64, pos + n))
    }
}

/// Number of zero bits before the first one bit of an Exp-Golomb code at
/// `pos`, counting from `z`; none when more than 31 zeros precede it or the
/// data ends first.
pub open spec fn ue_zeros(d: Seq<u8>, pos: int, z: int) -> Option<int>
    decreases 32 - z,
{
    if z < 0 || z > 31 || !can_read(d, pos + z, 1) {
        None
    } else if bit_at(d, pos + z) == 1 {
        Some(z)
    } else if z + 1 > 31 {
        None
    } else {
        ue_zeros(d, pos, z + 1)
    }
}

/// The unsigned Exp-Golomb code at `pos`: its value and the position after
/// it.
pub open spec fn spec_read_ue(d: Seq<u8>, pos: int) -> Option<(u32, int)> {
    match ue_zeros(d, pos, 0) {
        None => None,
        Some(z) => {
            if z == 0 {
                Some((0u32, pos + 1))
            } else if !can_read(d, pos + z + 1, z) {
                None
            } else {
                Some(
                    (
                        (two_pow(z as nat) - 1 + bits_value(d, pos + z + 1, z as nat)) as u32,
                        pos + 2 * z + 1,
                    ),
                )
            }
        },
    }
}

/// The signed Exp-Golomb code at `pos`.
pub open spec fn spec_read_se(d: Seq<u8>, pos: int) -> Option<(i32, int)> {
    match spec_read_ue(d, pos) {
        None => None,
        Some((k, p)) => Some(
            (
                if k % 2 == 0 {
                    -((k / 2) as int)
                } else {
                    (k as int + 1) / 2
                } as i32,
                p,
            ),
        ),
    }
}

proof fn lemma_two_pow_pos(n: nat)
    ensures
        two_pow(n) >= 1,
    decreases n,
{
    if n > 0 {
        lemma_two_pow_pos((n - 1) as nat);
    }
}

proof fn lemma_two_pow_mono(a: nat, b: nat)
    requires
        a <= b,
    ensures
        two_pow(a) <= two_pow(b),
    decreases b,
{
    if a < b {
        lemma_two_pow_mono(a, (b - 1) as nat);
        lemma_two_pow_pos((b - 1) as nat);
    }
}

pub(crate) proof fn lemma_bit_at_le1(d: Seq<u8>, pos: int)
    ensures
        bit_at(d, pos) <= 1,
{
    let b = d[pos / 8];
    let k = (7 - pos % 8) as u8;
    assert((b >> k) & 1u8 <= 1) by (bit_vector);
}

proof fn lemma_bits_value_bound(d: Seq<u8>, pos: int, n: nat)
    ensures
        bits_value(d, pos, n) < two_pow(n),
    decreases n,
{
    if n > 0 {
        lemma_bits_value_bound(d, pos, (n - 1) as nat);
        lemma_bit_at_le1(d, pos + n - 1);
    }
}

proof fn lemma_two_pow_64()
    ensures
        two_pow(64) == 0x1_0000_0000_0000_0000,
        two_pow(32) == 0x1_0000_0000,
        two_pow(31) == 0x8000_0000,
{
    reveal_with_fuel(two_pow, 65);
}

/// Reads a bitstream most significant bit first.
pub struct BitReader<'a> {
    data: &'a [u8],
    bitpos: usize,
}

impl<'a> BitReader<'a> {
    pub closed spec fn data(&self) -> Seq<u8> {
        self.data@
    }

    pub closed spec fn pos(&self) -> int {
        self.bitpos as int
    }

    /// The data's bit count fits in `usize`, and the position is within it.
    pub closed spec fn wf(&self) -> bool {
        self.data@.len() <= usize::MAX / 8 && self.bitpos <= 8 * self.data@.len()
    }

    /// A reader at the first bit of `data`.
    pub fn new(data: &'a [u8]) -> (r: Self)
        requires
            data@.len() <= usize::MAX / 8,
        ensures
            r.data() == data@,
            r.pos() == 0,
            r.wf(),
    {
        Self { data, bitpos: 0 }
    }

    /// The position of the next bit to read.
    pub fn bitpos(&self) -> (r: usize)
        ensures
            r == self.pos(),
    {
        self.bitpos
    }

    /// Reads `n` bits as an unsigned number, most significant first.
    pub fn read_bits(&mut self, n: usize) -> (r: Option<u64>)
        requires
            old(self).wf(),
        ensures
            final(self).wf(),
            final(self).data() == old(self).data(),
            match spec_read_bits(old(self).data(), old(self).pos(), n as int) {
                None => r is None && final(self).pos() == old(self).pos(),
                Some((v, p)) => r == Some(v) && final(self).pos() == p,
            },
    {
        if n > 64 {
            return None;
        }
        let end = match self.bitpos.checked_add(n) {
            Some(e) => e,
            None => {
                return None;
            },
        };
        if end > self.data.len() * 8 {
            return None;
        }
        let ghost start = self.bitpos as int;
        let mut value: u64 = 0;
        let mut i: usize = 0;
        while i < n
            invariant
                i <= n <= 64,
                self.bitpos == start + i,
                start + n <= 8 * self.data@.len(),
                self.data@.len() <= usize::MAX / 8,
                self.data@ == old(self).data(),
                start == old(self).pos(),
                start >= 0,
                value == bits_value(self.data@, start, i as nat),
            decreases n - i,
        {
            let p = self.bitpos;
            assert(p >> 3usize == p / 8) by (bit_vector);
            assert(p & 7usize == p % 8) by (bit_vector);
            let byte_index = self.bitpos >> 3;
            let bit_index = 7 - (self.bitpos & 7);
            let bit = ((self.data[byte_index] >> (bit_index as u8)) & 1) as u64;
            proof {
                lemma_bits_value_bound(self.data@, start, i as nat);
                lemma_two_pow_mono(i as nat, 63);
                reveal_with_fuel(two_pow, 64);
                lemma_bit_at_le1(self.data@, start + i);
                assert(bit == bit_at(self.data@, start + i));
                assert(value < 0x8000_0000_0000_0000) by {
                    lemma_two_pow_64();
                }
                assert(bit <= 1);
                assert((value << 1u64) | bit == value * 2 + bit) by (bit_vector)
                    requires
                        value < 0x8000_0000_0000_0000,
                        bit <= 1,
                ;
            }
            value = (value << 1) | bit;
            self.bitpos += 1;
            i += 1;
        }
        Some(value)
    }

    /// Reads one bit as a flag.
    pub fn read_bool(&mut self) -> (r: Option<bool>)
        requires
            old(self).wf(),
        ensures
            final(self).wf(),
            final(self).data() == old(self).data(),
            match spec_read_bits(old(self).data(), old(self).pos(), 1) {
                None => r is None,
                Some((v, p)) => r == Some(v != 0) && final(self).pos() == p,
            },
    {
        Some(self.read_bits(1)? != 0)
    }

    /// Reads an unsigned Exp-Golomb code.
    pub fn read_ue(&mut self) -> (r: Option<u32>)
        requires
            old(self).wf(),
        ensures
            final(self).wf(),
            final(self).data() == old(self).data(),
            match spec_read_ue(old(self).data(), old(self).pos()) {
                None => r is None,
                Some((v, p)) => r == Some(v) && final(self).pos() == p,
            },
    {
        let ghost d = self.data();
        let ghost start = self.pos();
        let mut zeros: usize = 0;
        loop
            invariant_except_break
                self.pos() == start + zeros,
                ue_zeros(d, start, zeros as int) == ue_zeros(d, start, 0),
            invariant
                self.wf(),
                self.data() == d,
                d == old(self).data(),
                start == old(self).pos(),
                zeros <= 31,
                start >= 0,
            ensures
                self.wf(),
                self.data() == d,
                zeros <= 31,
                self.pos() == start + zeros + 1,
                ue_zeros(d, start, 0) == Some(zeros as int),
            decreases 32 - zeros,
        {
            let b = match self.read_bits(1) {
                Some(b) => b,
                None => {
                    return None;
                },
            };
            proof {
                lemma_bit_at_le1(d, start + zeros);
                reveal_with_fuel(bits_value, 2);
            }
            if b != 0 {
                break;
            }
            zeros += 1;
            if zeros > 31 {
                return None;
            }
        }
        if zeros == 0 {
            return Some(0);
        }
        let info = match self.read_bits(zeros) {
            Some(v) => v,
            None => {
                return None;
            },
        };
        proof {
            lemma_bits_value_bound(d, start + zeros + 1, zeros as nat);
            lemma_shl_two_pow(zeros as u32);
            lemma_two_pow_mono(zeros as nat, 31);
            lemma_two_pow_64();
        }
        let info = info as u32;
        let base: u32 = (1u32 << (zeros as u32)) - 1;
        Some(base.checked_add(info)?)
    }

    /// Reads a signed Exp-Golomb code.
    pub fn read_se(&mut self) -> (r: Option<i32>)
        requires
            old(self).wf(),
        ensures
            final(self).wf(),
            final(self).data() == old(self).data(),
            match spec_read_se(old(self).data(), old(self).pos()) {
                None => r is None,
                Some((v, p)) => r == Some(v) && final(self).pos() == p,
            },
    {
        let code_num = self.read_ue()?;
        if code_num & 1 == 0 {
            assert(code_num & 1 == 0 ==> code_num % 2 == 0) by (bit_vector);
            Some(-((code_num / 2) as i32))
        } else {
            assert(code_num & 1 != 0 ==> code_num % 2 == 1) by (bit_vector);
            Some(((code_num as u64 + 1) / 2) as i32)
        }
    }
}

/// Bits that the sub-layer entries `i..m` of a profile_tier_level
/// structure take, given the presence flag pairs at `flags`.
pub open spec fn ptl_sublayer_bits(d: Seq<u8>, flags: int, i: int, m: int) -> int
    decreases m - i,
{
    if i >= m {
        0
    } else {
        (if bit_at(d, flags + 2 * i) == 1 { 88int } else { 0int }) + (if bit_at(d, flags + 2 * i + 1)
            == 1 { 8int } else { 0int }) + ptl_sublayer_bits(d, flags, i + 1, m)
    }
}

/// The position after a profile_tier_level structure with `m` sub-layers
/// that starts at `pos`.
pub open spec fn spec_skip_ptl(d: Seq<u8>, pos: int, m: int) -> Option<int> {
    let flags = pos + 96;
    if !can_read(d, pos, 96 + 2 * m) {
        None
    } else {
        let after = flags + 2 * m + (if 0 < m < 8 { 2 * (8 - m) } else { 0 }) + ptl_sublayer_bits(
            d,
            flags,
            0,
            m,
        );
        if !can_read(d, pos, after - pos) {
            None
        } else {
            Some(after)
        }
    }
}

pub(crate) proof fn lemma_ptl_sublayer_bits_nonneg(d: Seq<u8>, flags: int, i: int, m: int)
    ensures
        ptl_sublayer_bits(d, flags, i, m) >= 0,
    decreases m - i,
{
    if i < m {
        lemma_ptl_sublayer_bits_nonneg(d, flags, i + 1, m);
    }
}

/// Reads past a profile_tier_level structure.
pub fn skip_profile_tier_level(br: &mut BitReader<'_>, max_sub_layers_minus1: usize) -> (r: Option<()>)
    requires
        old(br).wf(),
    ensures
        final(br).wf(),
        final(br).data() == old(br).data(),
        match spec_skip_ptl(old(br).data(), old(br).pos(), max_sub_layers_minus1 as int) {
            None => r is None,
            Some(p) => r is Some && final(br).pos() == p,
        },
{
    let ghost d = br.data();
    let ghost p0 = br.pos();
    let ghost m = max_sub_layers_minus1 as int;
    proof {
        lemma_ptl_sublayer_bits_nonneg(d, p0 + 96, 0, m);
    }
    br.read_bits(2)?;
    br.read_bits(1)?;
    br.read_bits(5)?;
    br.read_bits(32)?;
    br.read_bits(48)?;
    br.read_bits(8)?;
    let mut profile_present: Vec<bool> = Vec::new();
    let mut level_present: Vec<bool> = Vec::new();
    let mut i: usize = 0;
    while i < max_sub_layers_minus1
        invariant
            br.wf(),
            br.data() == d,
            d == old(br).data(),
            p0 == old(br).pos(),
            m == max_sub_layers_minus1,
            i <= m,
            br.pos() == p0 + 96 + 2 * i,
            profile_present@.len() == i,
            level_present@.len() == i,
            forall|j: int| 0 <= j < i ==> #[trigger] profile_present@[j] == (bit_at(d, p0 + 96 + 2 * j) == 1),
            forall|j: int| 0 <= j < i ==> #[trigger] level_present@[j] == (bit_at(d, p0 + 96 + 2 * j + 1) == 1),
            ptl_sublayer_bits(d, p0 + 96, 0, m) >= 0,
        decreases m - i,
    {
        let a = match br.read_bool() {
            Some(v) => v,
            None => {
                return None;
            },
        };
        let b = match br.read_bool() {
            Some(v) => v,
            None => {
                return None;
            },
        };
        proof {
            reveal_with_fuel(bits_value, 2);
            lemma_bit_at_le1(d, p0 + 96 + 2 * i);
            lemma_bit_at_le1(d, p0 + 96 + 2 * i + 1);
        }
        profile_present.push(a);
        level_present.push(b);
        i += 1;
    }
    let ghost after = p0 + 96 + 2 * m + (if 0 < m < 8 { 2 * (8 - m) } else { 0 }) + ptl_sublayer_bits(
        d,
        p0 + 96,
        0,
        m,
    );
    if max_sub_layers_minus1 > 0 {
        let mut k = max_sub_layers_minus1;
        while k < 8
            invariant
                br.wf(),
                br.data() == d,
                d == old(br).data(),
                p0 == old(br).pos(),
                m == max_sub_layers_minus1,
                0 < m,
                m <= k,
                k <= 8 || k == m,
                br.pos() == p0 + 96 + 2 * m + 2 * (k - m),
                after == p0 + 96 + 2 * m + (if 0 < m < 8 { 2 * (8 - m) } else { 0 }) + ptl_sublayer_bits(
                    d,
                    p0 + 96,
                    0,
                    m,
                ),
                ptl_sublayer_bits(d, p0 + 96, 0, m) >= 0,
            decreases 8 - k,
        {
            br.read_bits(2)?;
            k += 1;
        }
    }
    let mut j: usize = 0;
    while j < max_sub_layers_minus1
        invariant
            br.wf(),
            br.data() == d,
            d == old(br).data(),
            p0 == old(br).pos(),
            m == max_sub_layers_minus1,
            j <= m,
            profile_present@.len() == m,
            level_present@.len() == m,
            forall|q: int| 0 <= q < m ==> #[trigger] profile_present@[q] == (bit_at(d, p0 + 96 + 2 * q) == 1),
            forall|q: int| 0 <= q < m ==> #[trigger] level_present@[q] == (bit_at(d, p0 + 96 + 2 * q + 1) == 1),
            after == p0 + 96 + 2 * m + (if 0 < m < 8 { 2 * (8 - m) } else { 0 }) + ptl_sublayer_bits(
                d,
                p0 + 96,
                0,
                m,
            ),
            br.pos() + ptl_sublayer_bits(d, p0 + 96, j as int, m) == after,
            ptl_sublayer_bits(d, p0 + 96, j as int, m) >= 0,
        decreases m - j,
    {
        proof {
            lemma_ptl_sublayer_bits_nonneg(d, p0 + 96, j + 1, m);
        }
        if profile_present[j] {
            br.read_bits(2)?;
            br.read_bits(1)?;
            br.read_bits(5)?;
            br.read_bits(32)?;
            br.read_bits(48)?;
        }
        if level_present[j] {
            br.read_bits(8)?;
        }
        j += 1;
    }
    Some(())
}

/// The position after `k` signed Exp-Golomb codes from `pos`.
pub open spec fn skip_se_codes(d: Seq<u8>, pos: int, k: nat) -> Option<int>
    decreases k,
{
    if k == 0 {
        Some(pos)
    } else {
        match spec_read_se(d, pos) {
            None => None,
            Some((_, p)) => skip_se_codes(d, p, (k - 1) as nat),
        }
    }
}

/// The position after one scaling list entry of size class `size_id`
/// that starts at `pos`.
pub open spec fn scaling_entry(d: Seq<u8>, pos: int, size_id: int) -> Option<int> {
    match spec_read_bits(d, pos, 1) {
        None => None,
        Some((flag, p1)) => {
            if flag == 0 {
                match spec_read_ue(d, p1) {
                    None => None,
                    Some((_, p)) => Some(p),
                }
            } else {
                let coef: nat = if size_id == 0 { 16 } else { 64 };
                let q = if size_id > 1 {
                    match spec_read_se(d, p1) {
                        None => None,
                        Some((_, p)) => Some(p),
                    }
                } else {
                    Some(p1)
                };
                match q {
                    None => None,
                    Some(p) => skip_se_codes(d, p, coef),
                }
            }
        },
    }
}

/// The position after the entries of a scaling_list_data structure from
/// `(size_id, matrix_id)` on.
pub open spec fn scaling_from(d: Seq<u8>, pos: int, size_id: int, matrix_id: int) -> Option<int>
    decreases 4 - size_id, 8 - matrix_id,
{
    if size_id < 0 || size_id >= 4 || matrix_id < 0 || matrix_id > 8 {
        Some(pos)
    } else if matrix_id >= 6 {
        scaling_from(d, pos, size_id + 1, 0)
    } else {
        let step = if size_id == 3 { 3int } else { 1int };
        match scaling_entry(d, pos, size_id) {
            None => None,
            Some(p) => scaling_from(d, p, size_id, matrix_id + step),
        }
    }
}

fn skip_scaling_entry(br: &mut BitReader<'_>, size_id: usize) -> (r: Option<()>)
    requires
        old(br).wf(),
        size_id < 4,
    ensures
        final(br).wf(),
        final(br).data() == old(br).data(),
        match scaling_entry(old(br).data(), old(br).pos(), size_id as int) {
            None => r is None,
            Some(p) => r is Some && final(br).pos() == p,
        },
{
    let ghost d = br.data();
    proof {
        reveal_with_fuel(bits_value, 2);
        lemma_bit_at_le1(d, old(br).pos());
    }
    let pred_mode_flag = br.read_bool()?;
    if !pred_mode_flag {
        br.read_ue()?;
    } else {
        assert(size_id < 4 ==> (size_id << 1usize) <= 6) by (bit_vector);
        let shifted: usize = 1usize << (4 + (size_id << 1));
        let coef_num = if 64 < shifted { 64 } else { shifted };
        assert(coef_num == (if size_id == 0 { 16usize } else { 64usize })) by {
            assert(size_id < 4 ==> (1usize << (4 + (size_id << 1usize))) == (if size_id == 0 {
                16usize
            } else if size_id == 1 {
                64usize
            } else if size_id == 2 {
                256usize
            } else {
                1024usize
            })) by (bit_vector);
        }
        if size_id > 1 {
            br.read_se()?;
        }
        let ghost q = br.pos();
        let mut c: usize = 0;
        while c < coef_num
            invariant
                br.wf(),
                br.data() == d,
                c <= coef_num,
                d == old(br).data(),
                skip_se_codes(d, br.pos(), (coef_num - c) as nat) == skip_se_codes(
                    d,
                    q,
                    coef_num as nat,
                ),
                skip_se_codes(d, q, coef_num as nat) == scaling_entry(d, old(br).pos(), size_id as int),
            decreases coef_num - c,
        {
            br.read_se()?;
            c += 1;
        }
    }
    Some(())
}

/// Reads past scaling_list_data.
pub fn skip_scaling_list_data(br: &mut BitReader<'_>) -> (r: Option<()>)
    requires
        old(br).wf(),
    ensures
        final(br).wf(),
        final(br).data() == old(br).data(),
        match scaling_from(old(br).data(), old(br).pos(), 0, 0) {
            None => r is None,
            Some(p) => r is Some && final(br).pos() == p,
        },
{
    let ghost d = br.data();
    let mut size_id: usize = 0;
    while size_id < 4
        invariant
            br.wf(),
            br.data() == d,
            d == old(br).data(),
            size_id <= 4,
            scaling_from(d, br.pos(), size_id as int, 0) == scaling_from(d, old(br).pos(), 0, 0),
        decreases 4 - size_id,
    {
        let step: usize = if size_id == 3 { 3 } else { 1 };
        let mut matrix_id: usize = 0;
        while matrix_id < 6
            invariant
                br.wf(),
                br.data() == d,
                d == old(br).data(),
                size_id < 4,
                matrix_id <= 8,
                step == (if size_id == 3 { 3usize } else { 1usize }),
                scaling_from(d, br.pos(), size_id as int, matrix_id as int) == scaling_from(
                    d,
                    old(br).pos(),
                    0,
                    0,
                ),
            decreases 8 - matrix_id,
        {
            skip_scaling_entry(br, size_id)?;
            matrix_id += step;
        }
        size_id += 1;
    }
    Some(())
}

/// Reading `k` used_by_curr_pic / use_delta flag pairs of an inter-predicted
/// short-term reference picture set from `pos`, counting from `count` the
/// entries in use: the position after them and the count, which must fit
/// in 32 bits.
pub open spec fn rps_inter_flags(d: Seq<u8>, pos: int, k: nat, count: int) -> Option<(int, int)>
    decreases k,
{
    if k == 0 {
        Some((pos, count))
    } else {
        match spec_read_bits(d, pos, 1) {
            None => None,
            Some((used, p1)) => {
                let step = if used != 0 {
                    Some((p1, true))
                } else {
                    match spec_read_bits(d, p1, 1) {
                        None => None,
                        Some((delta, p2)) => Some((p2, delta != 0)),
                    }
                };
                match step {
                    None => None,
                    Some((p, counted)) => {
                        let c = if counted { count + 1 } else { count };
                        if c > u32::MAX {
                            None
                        } else {
                            rps_inter_flags(d, p, (k - 1) as nat, c)
                        }
                    },
                }
            },
        }
    }
}

/// The position after `k` (delta_poc_minus1, used_flag) pairs from `pos`.
pub open spec fn skip_ue_flag_pairs(d: Seq<u8>, pos: int, k: nat) -> Option<int>
    decreases k,
{
    if k == 0 {
        Some(pos)
    } else {
        match spec_read_ue(d, pos) {
            None => None,
            Some((_, p1)) => match spec_read_bits(d, p1, 1) {
                None => None,
                Some((_, p2)) => skip_ue_flag_pairs(d, p2, (k - 1) as nat),
            },
        }
    }
}

/// Reading short-term reference picture set number `idx` at `pos`, given
/// the delta-POC counts `ndp` of the earlier sets: the position after it
/// and the counts with its own appended.
pub open spec fn spec_st_rps(d: Seq<u8>, pos: int, idx: int, ndp: Seq<u32>) -> Option<(int, Seq<u32>)> {
    let flag = if idx == 0 {
        Some((false, pos))
    } else {
        match spec_read_bits(d, pos, 1) {
            None => None,
            Some((v, p)) => Some((v != 0, p)),
        }
    };
    match flag {
        None => None,
        Some((inter, p0)) => {
            if inter {
                if idx - 1 >= ndp.len() {
                    None
                } else {
                    let n = ndp[idx - 1];
                    match spec_read_bits(d, p0, 1) {
                        None => None,
                        Some((_, p1)) => match spec_read_ue(d, p1) {
                            None => None,
                            Some((_, p2)) => match rps_inter_flags(d, p2, (n + 1) as nat, 0) {
                                None => None,
                                Some((p3, count)) => Some((p3, ndp.push(count as u32))),
                            },
                        },
                    }
                }
            } else {
                match spec_read_ue(d, p0) {
                    None => None,
                    Some((neg, p1)) => match spec_read_ue(d, p1) {
                        None => None,
                        Some((posc, p2)) => match skip_ue_flag_pairs(d, p2, neg as nat) {
                            None => None,
                            Some(p3) => match skip_ue_flag_pairs(d, p3, posc as nat) {
                                None => None,
                                Some(p4) => {
                                    if neg + posc > u32::MAX {
                                        None
                                    } else {
                                        Some((p4, ndp.push((neg + posc) as u32)))
                                    }
                                },
                            },
                        },
                    },
                }
            }
        },
    }
}

fn skip_rps_inter_flags(br: &mut BitReader<'_>, ndp: u32) -> (r: Option<u32>)
    requires
        old(br).wf(),
    ensures
        final(br).wf(),
        final(br).data() == old(br).data(),
        match rps_inter_flags(old(br).data(), old(br).pos(), (ndp + 1) as nat, 0) {
            None => r is None,
            Some((p, c)) => r == Some(c as u32) && final(br).pos() == p,
        },
{
    let ghost d = br.data();
    let ghost target = rps_inter_flags(d, br.pos(), (ndp + 1) as nat, 0);
    let mut count: u32 = 0;
    let mut j: u64 = 0;
    while j <= ndp as u64
        invariant
            br.wf(),
            br.data() == d,
            d == old(br).data(),
            j <= ndp as u64 + 1,
            target == rps_inter_flags(d, old(br).pos(), (ndp + 1) as nat, 0),
            rps_inter_flags(d, br.pos(), (ndp as u64 + 1 - j) as nat, count as int) == target,
        decreases ndp as u64 + 1 - j,
    {
        let ghost pj = br.pos();
        proof {
            reveal_with_fuel(bits_value, 2);
            lemma_bit_at_le1(d, pj);
            lemma_bit_at_le1(d, pj + 1);
        }
        let used_by_curr_pic_flag = br.read_bool()?;
        let use_delta_flag = if used_by_curr_pic_flag {
            true
        } else {
            br.read_bool()?
        };
        if used_by_curr_pic_flag || use_delta_flag {
            count = count.checked_add(1)?;
        }
        j += 1;
    }
    Some(count)
}

fn skip_ue_flag_run(br: &mut BitReader<'_>, k: u32) -> (r: Option<()>)
    requires
        old(br).wf(),
    ensures
        final(br).wf(),
        final(br).data() == old(br).data(),
        match skip_ue_flag_pairs(old(br).data(), old(br).pos(), k as nat) {
            None => r is None,
            Some(p) => r is Some && final(br).pos() == p,
        },
{
    let ghost d = br.data();
    let ghost target = skip_ue_flag_pairs(d, br.pos(), k as nat);
    let mut a: u32 = 0;
    while a < k
        invariant
            br.wf(),
            br.data() == d,
            d == old(br).data(),
            a <= k,
            target == skip_ue_flag_pairs(d, old(br).pos(), k as nat),
            skip_ue_flag_pairs(d, br.pos(), (k - a) as nat) == target,
        decreases k - a,
    {
        br.read_ue()?;
        br.read_bool()?;
        a += 1;
    }
    Some(())
}

/// Reads past one st_ref_pic_set and records its number of delta POCs.
pub fn skip_short_term_ref_pic_set(
    br: &mut BitReader<'_>,
    st_rps_idx: usize,
    num_delta_pocs: &mut Vec<u32>,
) -> (r: Option<()>)
    requires
        old(br).wf(),
    ensures
        final(br).wf(),
        final(br).data() == old(br).data(),
        match spec_st_rps(old(br).data(), old(br).pos(), st_rps_idx as int, old(num_delta_pocs)@) {
            None => r is None,
            Some((p, ndp)) => r is Some && final(br).pos() == p && final(num_delta_pocs)@ == ndp,
        },
{
    let ghost d = br.data();
    proof {
        reveal_with_fuel(bits_value, 2);
        lemma_bit_at_le1(d, old(br).pos());
    }
    let inter_ref_pic_set_prediction_flag = if st_rps_idx == 0 {
        false
    } else {
        br.read_bool()?
    };
    if inter_ref_pic_set_prediction_flag {
        let ref_rps_idx = st_rps_idx - 1;
        if ref_rps_idx >= num_delta_pocs.len() {
            return None;
        }
        let ndp = num_delta_pocs[ref_rps_idx];
        br.read_bool()?;
        br.read_ue()?;
        let current_num_delta_pocs = skip_rps_inter_flags(br, ndp)?;
        num_delta_pocs.push(current_num_delta_pocs);
    } else {
        let num_negative_pics = br.read_ue()?;
        let num_positive_pics = br.read_ue()?;
        skip_ue_flag_run(br, num_negative_pics)?;
        skip_ue_flag_run(br, num_positive_pics)?;
        num_delta_pocs.push(num_negative_pics.checked_add(num_positive_pics)?);
    }
    Some(())
}

/// The position after an unsigned Exp-Golomb code at `p`.
pub open spec fn ue_after(d: Seq<u8>, p: Option<int>) -> Option<int> {
    match p {
        None => None,
        Some(q) => match spec_read_ue(d, q) {
            None => None,
            Some((_, r)) => Some(r),
        },
    }
}

/// The position after `n` bits at `p`.
pub open spec fn bits_after(d: Seq<u8>, p: Option<int>, n: int) -> Option<int> {
    match p {
        None => None,
        Some(q) => match spec_read_bits(d, q, n) {
            None => None,
            Some((_, r)) => Some(r),
        },
    }
}

/// The position after `k` unsigned Exp-Golomb codes from `pos`.
pub open spec fn skip_ue_codes(d: Seq<u8>, pos: int, k: nat) -> Option<int>
    decreases k,
{
    if k == 0 {
        Some(pos)
    } else {
        match spec_read_ue(d, pos) {
            None => None,
            Some((_, p)) => skip_ue_codes(d, p, (k - 1) as nat),
        }
    }
}

/// Reading an HEVC sequence parameter set RBSP from its start through the
/// sub-layer ordering info: the position reached, the sub-layer count
/// minus one, and log2_max_pic_order_cnt_lsb_minus4.
pub open spec fn sps_to_ordering(d: Seq<u8>) -> Option<(int, int, int)> {
    if !can_read(d, 0, 8) {
        None
    } else {
        let m = bits_value(d, 4, 3) as int;
        match spec_skip_ptl(d, 8, m) {
            None => None,
            Some(p0) => match ue_after(d, Some(p0)) {
                None => None,
                Some(p1) => match spec_read_ue(d, p1) {
                    None => None,
                    Some((chroma_format_idc, p2)) => {
                        let p3 = if chroma_format_idc == 3 { bits_after(d, Some(p2), 1) } else { Some(p2) };
                        let p4 = ue_after(d, ue_after(d, p3));
                        let p5 = match p4 {
                            None => None,
                            Some(q) => match spec_read_bits(d, q, 1) {
                                None => None,
                                Some((window, r)) => if window != 0 { skip_ue_codes(d, r, 4) } else { Some(r) },
                            },
                        };
                        match ue_after(d, ue_after(d, p5)) {
                            None => None,
                            Some(p6) => match spec_read_ue(d, p6) {
                                None => None,
                                Some((log2, p7)) => match spec_read_bits(d, p7, 1) {
                                    None => None,
                                    Some((present, p8)) => {
                                        let start = if present != 0 { 0 } else { m };
                                        match skip_ue_codes(d, p8, (3 * (m - start + 1)) as nat) {
                                            None => None,
                                            Some(p9) => Some((p9, m, log2 as int)),
                                        }
                                    },
                                },
                            },
                        }
                    },
                },
            },
        }
    }
}

/// Reading the coding tool fields of an SPS, from the six size and depth
/// codes through the PCM fields, from `pos`.
pub open spec fn sps_coding_tools(d: Seq<u8>, pos: int) -> Option<int> {
    match skip_ue_codes(d, pos, 6) {
        None => None,
        Some(p0) => match spec_read_bits(d, p0, 1) {
            None => None,
            Some((scaling_enabled, p1)) => {
                let p2 = if scaling_enabled != 0 {
                    match spec_read_bits(d, p1, 1) {
                        None => None,
                        Some((present, q)) => if present != 0 { scaling_from(d, q, 0, 0) } else { Some(q) },
                    }
                } else {
                    Some(p1)
                };
                sps_pcm_tail(d, p2)
            },
        },
    }
}

/// The position after the AMP and SAO flags and the PCM information of an
/// SPS that continue at `p`.
pub open spec fn sps_pcm_tail(d: Seq<u8>, p: Option<int>) -> Option<int> {
    match bits_after(d, p, 2) {
        None => None,
        Some(p3) => match spec_read_bits(d, p3, 1) {
            None => None,
            Some((pcm, p4)) => {
                if pcm != 0 {
                    bits_after(d, ue_after(d, ue_after(d, bits_after(d, Some(p4), 8))), 1)
                } else {
                    Some(p4)
                }
            },
        },
    }
}

/// Reading short-term reference picture sets `idx..n` from `pos`.
pub open spec fn st_rps_from(d: Seq<u8>, pos: int, idx: int, n: int, ndp: Seq<u32>) -> Option<int>
    decreases n - idx,
{
    if idx >= n {
        Some(pos)
    } else {
        match spec_st_rps(d, pos, idx, ndp) {
            None => None,
            Some((p, ndp2)) => st_rps_from(d, p, idx + 1, n, ndp2),
        }
    }
}

/// The position after `k` long-term reference picture entries of
/// `bits`-bit POC LSBs and a flag each.
pub open spec fn skip_long_term_entries(d: Seq<u8>, pos: int, k: nat, bits: int) -> Option<int>
    decreases k,
{
    if k == 0 {
        Some(pos)
    } else {
        match bits_after(d, bits_after(d, Some(pos), bits), 1) {
            None => None,
            Some(p) => skip_long_term_entries(d, p, (k - 1) as nat, bits),
        }
    }
}

/// Reading the long-term reference picture fields of an SPS and the two
/// flags after them, from `pos`.
pub open spec fn sps_long_term(d: Seq<u8>, pos: int, log2: int) -> Option<int> {
    match spec_read_bits(d, pos, 1) {
        None => None,
        Some((present, p0)) => {
            let p1 = if present != 0 {
                match spec_read_ue(d, p0) {
                    None => None,
                    Some((k, q)) => if log2 + 4 > usize::MAX {
                        None
                    } else {
                        skip_long_term_entries(d, q, k as nat, log2 + 4)
                    },
                }
            } else {
                Some(p0)
            };
            bits_after(d, bits_after(d, p1, 1), 1)
        },
    }
}

/// Where the fields of a VUI that this library rewrites stand, as bit
/// positions in the SPS RBSP, and the colour description values.
#[derive(Clone, Copy, Debug, PartialEq, Eq, Structural)]
pub struct VuiLocation {
    pub vui_present_flag_pos: usize,
    pub vui_present: bool,
    pub video_signal_present_flag_pos: Option<usize>,
    pub video_signal_present: bool,
    pub video_format_pos: Option<usize>,
    pub full_range_pos: Option<usize>,
    pub colour_description_flag_pos: Option<usize>,
    pub colour_description_present: bool,
    pub colour_primaries_pos: Option<usize>,
    pub transfer_characteristics_pos: Option<usize>,
    pub matrix_coeffs_pos: Option<usize>,
    pub colour_primaries_value: Option<u8>,
    pub transfer_characteristics_value: Option<u8>,
    pub matrix_coeffs_value: Option<u8>,
    pub chroma_loc_info_present_flag_pos: Option<usize>,
    pub chroma_loc_info_present: bool,
    pub chroma_top_ue_start: Option<usize>,
    pub chroma_top_ue_end: Option<usize>,
    pub chroma_bottom_ue_start: Option<usize>,
    pub chroma_bottom_ue_end: Option<usize>,
}

/// The position of video_signal_type_present_flag in a VUI whose
/// aspect ratio info starts at `pos`.
pub open spec fn vui_signal_flag_pos(d: Seq<u8>, pos: int) -> Option<int> {
    match spec_read_bits(d, pos, 1) {
        None => None,
        Some((aspect, p0)) => {
            let p1 = if aspect != 0 {
                match spec_read_bits(d, p0, 8) {
                    None => None,
                    Some((idc, q)) => if idc == 255 { bits_after(d, bits_after(d, Some(q), 16), 16) } else { Some(q) },
                }
            } else {
                Some(p0)
            };
            match p1 {
                None => None,
                Some(q) => match spec_read_bits(d, q, 1) {
                    None => None,
                    Some((overscan, r)) => if overscan != 0 { bits_after(d, Some(r), 1) } else { Some(r) },
                },
            }
        },
    }
}

/// The video signal type fields of a VUI from their present flag at `pos`:
/// (present, video_format, full_range, colour description flag, colour
/// description present, primaries position and value, transfer position
/// and value, matrix position and value) and the position after them.
pub open spec fn vui_signal(d: Seq<u8>, pos: int) -> Option<(bool, Option<usize>, Option<usize>, Option<usize>, bool, Option<usize>, Option<u8>, Option<usize>, Option<u8>, Option<usize>, Option<u8>, int)> {
    match spec_read_bits(d, pos, 1) {
        None => None,
        Some((present, p0)) => {
            if present == 0 {
                Some((false, None, None, None, false, None, None, None, None, None, None, p0))
            } else {
                match bits_after(d, bits_after(d, Some(p0), 3), 1) {
                    None => None,
                    Some(p1) => match spec_read_bits(d, p1, 1) {
                        None => None,
                        Some((cd, p2)) => {
                            if cd == 0 {
                                Some((true, Some(p0 as usize), Some((p0 + 3) as usize), Some(p1 as usize), false, None, None, None, None, None, None, p2))
                            } else if !can_read(d, p2, 24) {
                                None
                            } else {
                                Some((true, Some(p0 as usize), Some((p0 + 3) as usize), Some(p1 as usize), true,
                                    Some(p2 as usize), Some(bits_value(d, p2, 8) as u8),
                                    Some((p2 + 8) as usize), Some(bits_value(d, p2 + 8, 8) as u8),
                                    Some((p2 + 16) as usize), Some(bits_value(d, p2 + 16, 8) as u8),
                                    p2 + 24))
                            }
                        },
                    },
                }
            }
        },
    }
}

/// The chroma sample location fields of a VUI from their present flag at
/// `pos`: (present, top code start and end, bottom code start and end).
pub open spec fn vui_chroma(d: Seq<u8>, pos: int) -> Option<(bool, Option<usize>, Option<usize>, Option<usize>, Option<usize>)> {
    match spec_read_bits(d, pos, 1) {
        None => None,
        Some((present, p0)) => {
            if present == 0 {
                Some((false, None, None, None, None))
            } else {
                match ue_after(d, Some(p0)) {
                    None => None,
                    Some(p1) => match ue_after(d, Some(p1)) {
                        None => None,
                        Some(p2) => Some((true, Some(p0 as usize), Some(p1 as usize), Some(p1 as usize), Some(p2 as usize))),
                    },
                }
            }
        },
    }
}

/// The VUI fields located from the vui_parameters_present_flag at `pos`.
pub open spec fn spec_vui_from(d: Seq<u8>, pos: int) -> Option<VuiLocation> {
    match spec_read_bits(d, pos, 1) {
        None => None,
        Some((present, p0)) => {
            if present == 0 {
                Some(VuiLocation {
                    vui_present_flag_pos: pos as usize,
                    vui_present: false,
                    video_signal_present_flag_pos: None,
                    video_signal_present: false,
                    video_format_pos: None,
                    full_range_pos: None,
                    colour_description_flag_pos: None,
                    colour_description_present: false,
                    colour_primaries_pos: None,
                    transfer_characteristics_pos: None,
                    matrix_coeffs_pos: None,
                    colour_primaries_value: None,
                    transfer_characteristics_value: None,
                    matrix_coeffs_value: None,
                    chroma_loc_info_present_flag_pos: None,
                    chroma_loc_info_present: false,
                    chroma_top_ue_start: None,
                    chroma_top_ue_end: None,
                    chroma_bottom_ue_start: None,
                    chroma_bottom_ue_end: None,
                })
            } else {
                match vui_signal_flag_pos(d, p0) {
                    None => None,
                    Some(sp) => match vui_signal(d, sp) {
                        None => None,
                        Some((vs, vf, fr, cdf, cd, cpp, cpv, tcp, tcv, mcp, mcv, cl)) => match vui_chroma(d, cl) {
                            None => None,
                            Some((clp, ts, te, bs, be)) => Some(VuiLocation {
                                vui_present_flag_pos: pos as usize,
                                vui_present: true,
                                video_signal_present_flag_pos: Some(sp as usize),
                                video_signal_present: vs,
                                video_format_pos: vf,
                                full_range_pos: fr,
                                colour_description_flag_pos: cdf,
                                colour_description_present: cd,
                                colour_primaries_pos: cpp,
                                transfer_characteristics_pos: tcp,
                                matrix_coeffs_pos: mcp,
                                colour_primaries_value: cpv,
                                transfer_characteristics_value: tcv,
                                matrix_coeffs_value: mcv,
                                chroma_loc_info_present_flag_pos: Some(cl as usize),
                                chroma_loc_info_present: clp,
                                chroma_top_ue_start: ts,
                                chroma_top_ue_end: te,
                                chroma_bottom_ue_start: bs,
                                chroma_bottom_ue_end: be,
                            }),
                        },
                    },
                }
            }
        },
    }
}

/// Where the VUI fields of an HEVC SPS RBSP stand: the SPS is read up to
/// its vui_parameters_present_flag, then the VUI up to its chroma sample
/// location fields.
#[verifier::opaque]
pub open spec fn spec_locate_vui(d: Seq<u8>) -> Option<VuiLocation> {
    match sps_to_ordering(d) {
        None => None,
        Some((p0, _m, log2)) => match sps_coding_tools(d, p0) {
            None => None,
            Some(p1) => match spec_read_ue(d, p1) {
                None => None,
                Some((n, p2)) => match st_rps_from(d, p2, 0, n as int, seq![]) {
                    None => None,
                    Some(p3) => match sps_long_term(d, p3, log2) {
                        None => None,
                        Some(p4) => spec_vui_from(d, p4),
                    },
                },
            },
        },
    }
}

fn skip_ue_run(br: &mut BitReader<'_>, k: usize) -> (r: Option<()>)
    requires
        old(br).wf(),
    ensures
        final(br).wf(),
        final(br).data() == old(br).data(),
        match skip_ue_codes(old(br).data(), old(br).pos(), k as nat) {
            None => r is None,
            Some(p) => r is Some && final(br).pos() == p,
        },
{
    let ghost d = br.data();
    let ghost target = skip_ue_codes(d, br.pos(), k as nat);
    let mut i: usize = 0;
    while i < k
        invariant
            br.wf(),
            br.data() == d,
            d == old(br).data(),
            i <= k,
            target == skip_ue_codes(d, old(br).pos(), k as nat),
            skip_ue_codes(d, br.pos(), (k - i) as nat) == target,
        decreases k - i,
    {
        br.read_ue()?;
        i += 1;
    }
    Some(())
}

fn read_sps_to_ordering(br: &mut BitReader<'_>) -> (r: Option<(usize, usize)>)
    requires
        old(br).wf(),
        old(br).pos() == 0,
    ensures
        final(br).wf(),
        final(br).data() == old(br).data(),
        match sps_to_ordering(old(br).data()) {
            None => r is None,
            Some((p, m, log2)) => r == Some((m as usize, log2 as usize)) && final(br).pos() == p,
        },
{
    let ghost d = br.data();
    br.read_bits(4)?;
    let max_sub_layers_minus1 = br.read_bits(3)? as usize;
    br.read_bits(1)?;
    proof {
        lemma_bits_value_bound(d, 4, 3);
        reveal_with_fuel(two_pow, 4);
    }
    skip_profile_tier_level(br, max_sub_layers_minus1)?;
    br.read_ue()?;
    let chroma_format_idc = br.read_ue()?;
    if chroma_format_idc == 3 {
        br.read_bits(1)?;
    }
    br.read_ue()?;
    br.read_ue()?;
    proof {
        reveal_with_fuel(bits_value, 2);
        lemma_bit_at_le1(d, br.pos());
    }
    if br.read_bool()? {
        skip_ue_run(br, 4)?;
    }
    br.read_ue()?;
    br.read_ue()?;
    let log2_max_pic_order_cnt_lsb_minus4 = br.read_ue()? as usize;
    proof {
        lemma_bit_at_le1(d, br.pos());
    }
    let sub_layer_ordering_info_present = br.read_bool()?;
    let start = if sub_layer_ordering_info_present { 0 } else { max_sub_layers_minus1 };
    skip_ue_run(br, 3 * (max_sub_layers_minus1 - start + 1))?;
    Some((max_sub_layers_minus1, log2_max_pic_order_cnt_lsb_minus4))
}

fn skip_sps_coding_tools(br: &mut BitReader<'_>) -> (r: Option<()>)
    requires
        old(br).wf(),
    ensures
        final(br).wf(),
        final(br).data() == old(br).data(),
        match sps_coding_tools(old(br).data(), old(br).pos()) {
            None => r is None,
            Some(p) => r is Some && final(br).pos() == p,
        },
{
    let ghost d = br.data();
    skip_ue_run(br, 6)?;
    proof {
        reveal_with_fuel(bits_value, 2);
        lemma_bit_at_le1(d, br.pos());
        lemma_bit_at_le1(d, br.pos() + 1);
    }
    if br.read_bool()? {
        if br.read_bool()? {
            skip_scaling_list_data(br)?;
        }
    }
    skip_pcm_tail(br)
}

fn skip_pcm_tail(br: &mut BitReader<'_>) -> (r: Option<()>)
    requires
        old(br).wf(),
    ensures
        final(br).wf(),
        final(br).data() == old(br).data(),
        match sps_pcm_tail(old(br).data(), Some(old(br).pos() as int)) {
            None => r is None,
            Some(p) => r is Some && final(br).pos() == p,
        },
{
    let ghost d = br.data();
    br.read_bool()?;
    br.read_bool()?;
    proof {
        reveal_with_fuel(bits_value, 2);
        lemma_bit_at_le1(d, br.pos());
    }
    if br.read_bool()? {
        br.read_bits(4)?;
        br.read_bits(4)?;
        br.read_ue()?;
        br.read_ue()?;
        br.read_bool()?;
    }
    Some(())
}

fn skip_long_term_ref_pics(br: &mut BitReader<'_>, log2_max_pic_order_cnt_lsb_minus4: usize) -> (r: Option<()>)
    requires
        old(br).wf(),
    ensures
        final(br).wf(),
        final(br).data() == old(br).data(),
        match sps_long_term(old(br).data(), old(br).pos(), log2_max_pic_order_cnt_lsb_minus4 as int) {
            None => r is None,
            Some(p) => r is Some && final(br).pos() == p,
        },
{
    let ghost d = br.data();
    proof {
        reveal_with_fuel(bits_value, 2);
        lemma_bit_at_le1(d, br.pos());
    }
    if br.read_bool()? {
        let num_long_term_ref_pics_sps = br.read_ue()?;
        let poc_lsb_bits = log2_max_pic_order_cnt_lsb_minus4.checked_add(4)?;
        let ghost q = br.pos();
        let ghost target = skip_long_term_entries(d, q, num_long_term_ref_pics_sps as nat, poc_lsb_bits as int);
        let mut i: u32 = 0;
        while i < num_long_term_ref_pics_sps
            invariant
                br.wf(),
                br.data() == d,
                d == old(br).data(),
                i <= num_long_term_ref_pics_sps,
                skip_long_term_entries(d, br.pos(), (num_long_term_ref_pics_sps - i) as nat, poc_lsb_bits as int) == target,
                sps_long_term(d, old(br).pos(), log2_max_pic_order_cnt_lsb_minus4 as int) == bits_after(d, bits_after(d, target, 1), 1),
            decreases num_long_term_ref_pics_sps - i,
        {
            br.read_bits(poc_lsb_bits)?;
            br.read_bool()?;
            i += 1;
        }
    }
    br.read_bool()?;
    br.read_bool()?;
    Some(())
}

fn skip_to_video_signal_flag(br: &mut BitReader<'_>) -> (r: Option<()>)
    requires
        old(br).wf(),
    ensures
        final(br).wf(),
        final(br).data() == old(br).data(),
        match vui_signal_flag_pos(old(br).data(), old(br).pos()) {
            None => r is None,
            Some(p) => r is Some && final(br).pos() == p,
        },
{
    let ghost d = br.data();
    proof {
        reveal_with_fuel(bits_value, 2);
        lemma_bit_at_le1(d, br.pos());
    }
    if br.read_bool()? {
        let aspect_ratio_idc = br.read_bits(8)?;
        if aspect_ratio_idc == 255 {
            br.read_bits(16)?;
            br.read_bits(16)?;
        }
    }
    proof {
        lemma_bit_at_le1(d, br.pos());
    }
    if br.read_bool()? {
        br.read_bool()?;
    }
    Some(())
}

fn read_u8_field(br: &mut BitReader<'_>) -> (r: Option<u8>)
    requires
        old(br).wf(),
    ensures
        final(br).wf(),
        final(br).data() == old(br).data(),
        match spec_read_bits(old(br).data(), old(br).pos(), 8) {
            None => r is None,
            Some((v, p)) => r == Some(bits_value(old(br).data(), old(br).pos(), 8) as u8)
                && final(br).pos() == p,
        },
{
    proof {
        lemma_bits_value_bound(br.data(), br.pos(), 8);
        reveal_with_fuel(two_pow, 9);
    }
    let v = br.read_bits(8)?;
    assert(v < 256);
    Some(v as u8)
}

fn skip_short_term_ref_pic_sets(br: &mut BitReader<'_>, count: usize) -> (r: Option<()>)
    requires
        old(br).wf(),
    ensures
        final(br).wf(),
        final(br).data() == old(br).data(),
        match st_rps_from(old(br).data(), old(br).pos(), 0, count as int, seq![]) {
            None => r is None,
            Some(p) => r is Some && final(br).pos() == p,
        },
{
    let ghost d = br.data();
    let ghost target = st_rps_from(d, br.pos(), 0, count as int, seq![]);
    let mut num_delta_pocs: Vec<u32> = Vec::new();
    let mut idx: usize = 0;
    while idx < count
        invariant
            br.wf(),
            br.data() == d,
            d == old(br).data(),
            idx <= count,
            target == st_rps_from(d, old(br).pos(), 0, count as int, seq![]),
            st_rps_from(d, br.pos(), idx as int, count as int, num_delta_pocs@) == target,
        decreases count - idx,
    {
        skip_short_term_ref_pic_set(br, idx, &mut num_delta_pocs)?;
        idx += 1;
    }
    Some(())
}

type SignalFields = (bool, Option<usize>, Option<usize>, Option<usize>, bool, Option<usize>, Option<u8>, Option<usize>, Option<u8>, Option<usize>, Option<u8>);

fn read_video_signal(br: &mut BitReader<'_>) -> (r: Option<SignalFields>)
    requires
        old(br).wf(),
    ensures
        final(br).wf(),
        final(br).data() == old(br).data(),
        match vui_signal(old(br).data(), old(br).pos()) {
            None => r is None,
            Some((a, b, c, e, f, g, h, i, j, k, l, p)) => r == Some((a, b, c, e, f, g, h, i, j, k, l)) && final(br).pos() == p,
        },
{
    let ghost d = br.data();
    proof {
        reveal_with_fuel(bits_value, 2);
        lemma_bit_at_le1(d, br.pos());
    }
    let video_signal_present = br.read_bool()?;
    if !video_signal_present {
        return Some((false, None, None, None, false, None, None, None, None, None, None));
    }
    let video_format_pos = br.bitpos();
    br.read_bits(3)?;
    let full_range_pos = br.bitpos();
    br.read_bool()?;
    let colour_description_flag_pos = br.bitpos();
    proof {
        lemma_bit_at_le1(d, br.pos());
    }
    let colour_description_present = br.read_bool()?;
    if !colour_description_present {
        return Some((true, Some(video_format_pos), Some(full_range_pos), Some(colour_description_flag_pos), false, None, None, None, None, None, None));
    }
    let ghost p2 = br.pos();
    let colour_primaries_pos = br.bitpos();
    let colour_primaries_value = read_u8_field(br)?;
    let transfer_characteristics_pos = br.bitpos();
    let transfer_characteristics_value = read_u8_field(br)?;
    let matrix_coeffs_pos = br.bitpos();
    let matrix_coeffs_value = read_u8_field(br)?;
    assert(can_read(d, p2, 24));
    assert(colour_primaries_pos == p2);
    assert(transfer_characteristics_pos == p2 + 8);
    assert(matrix_coeffs_pos == p2 + 16);
    assert(colour_primaries_value == bits_value(d, p2, 8) as u8);
    assert(transfer_characteristics_value == bits_value(d, p2 + 8, 8) as u8);
    assert(matrix_coeffs_value == bits_value(d, p2 + 16, 8) as u8);
    assert(video_format_pos + 3 == full_range_pos);
    Some((true, Some(video_format_pos), Some(full_range_pos), Some(colour_description_flag_pos), true,
        Some(colour_primaries_pos), Some(colour_primaries_value),
        Some(transfer_characteristics_pos), Some(transfer_characteristics_value),
        Some(matrix_coeffs_pos), Some(matrix_coeffs_value)))
}

fn read_chroma_location(br: &mut BitReader<'_>) -> (r: Option<(bool, Option<usize>, Option<usize>, Option<usize>, Option<usize>)>)
    requires
        old(br).wf(),
    ensures
        final(br).wf(),
        final(br).data() == old(br).data(),
        r == vui_chroma(old(br).data(), old(br).pos()),
{
    let ghost d = br.data();
    proof {
        reveal_with_fuel(bits_value, 2);
        lemma_bit_at_le1(d, br.pos());
    }
    let chroma_loc_info_present = br.read_bool()?;
    if !chroma_loc_info_present {
        return Some((false, None, None, None, None));
    }
    let chroma_top_ue_start = br.bitpos();
    br.read_ue()?;
    let chroma_top_ue_end = br.bitpos();
    let chroma_bottom_ue_start = br.bitpos();
    br.read_ue()?;
    let chroma_bottom_ue_end = br.bitpos();
    Some((true, Some(chroma_top_ue_start), Some(chroma_top_ue_end), Some(chroma_bottom_ue_start), Some(chroma_bottom_ue_end)))
}

fn read_vui_fields(br: &mut BitReader<'_>) -> (r: Option<VuiLocation>)
    requires
        old(br).wf(),
    ensures
        r == spec_vui_from(old(br).data(), old(br).pos()),
{
    let ghost d = br.data();
    let vui_present_flag_pos = br.bitpos();
    proof {
        reveal_with_fuel(bits_value, 2);
        lemma_bit_at_le1(d, br.pos());
    }
    let vui_present = br.read_bool()?;
    if !vui_present {
        return Some(
            VuiLocation {
                vui_present_flag_pos,
                vui_present,
                video_signal_present_flag_pos: None,
                video_signal_present: false,
                video_format_pos: None,
                full_range_pos: None,
                colour_description_flag_pos: None,
                colour_description_present: false,
                colour_primaries_pos: None,
                transfer_characteristics_pos: None,
                matrix_coeffs_pos: None,
                colour_primaries_value: None,
                transfer_characteristics_value: None,
                matrix_coeffs_value: None,
                chroma_loc_info_present_flag_pos: None,
                chroma_loc_info_present: false,
                chroma_top_ue_start: None,
                chroma_top_ue_end: None,
                chroma_bottom_ue_start: None,
                chroma_bottom_ue_end: None,
            },
        );
    }
    skip_to_video_signal_flag(br)?;
    let video_signal_present_flag_pos = br.bitpos();
    let (video_signal_present, video_format_pos, full_range_pos, colour_description_flag_pos,
        colour_description_present, colour_primaries_pos, colour_primaries_value,
        transfer_characteristics_pos, transfer_characteristics_value, matrix_coeffs_pos,
        matrix_coeffs_value) = read_video_signal(br)?;
    let chroma_loc_info_present_flag_pos = br.bitpos();
    let (chroma_loc_info_present, chroma_top_ue_start, chroma_top_ue_end, chroma_bottom_ue_start,
        chroma_bottom_ue_end) = read_chroma_location(br)?;
    Some(
        VuiLocation {
            vui_present_flag_pos,
            vui_present,
            video_signal_present_flag_pos: Some(video_signal_present_flag_pos),
            video_signal_present,
            video_format_pos,
            full_range_pos,
            colour_description_flag_pos,
            colour_description_present,
            colour_primaries_pos,
            transfer_characteristics_pos,
            matrix_coeffs_pos,
            colour_primaries_value,
            transfer_characteristics_value,
            matrix_coeffs_value,
            chroma_loc_info_present_flag_pos: Some(chroma_loc_info_present_flag_pos),
            chroma_loc_info_present,
            chroma_top_ue_start,
            chroma_top_ue_end,
            chroma_bottom_ue_start,
            chroma_bottom_ue_end,
        },
    )
}

/// Locates the VUI fields of an HEVC SPS RBSP.
pub fn locate_vui(rbsp: &[u8]) -> (r: Option<VuiLocation>)
    requires
        rbsp@.len() <= usize::MAX / 8,
    ensures
        r == spec_locate_vui(rbsp@),
{
    reveal(spec_locate_vui);
    let mut br = BitReader::new(rbsp);
    let (_max_sub_layers_minus1, log2_max_pic_order_cnt_lsb_minus4) = read_sps_to_ordering(&mut br)?;
    skip_sps_coding_tools(&mut br)?;
    let num_short_term_ref_pic_sets = br.read_ue()? as usize;
    skip_short_term_ref_pic_sets(&mut br, num_short_term_ref_pic_sets)?;
    skip_long_term_ref_pics(&mut br, log2_max_pic_order_cnt_lsb_minus4)?;
    read_vui_fields(&mut br)
}

/// The bits of `r`, one per element, most significant bit of each byte
/// first.
pub open spec fn spec_rbsp_bits(r: Seq<u8>) -> Seq<u8> {
    Seq::new(8 * r.len(), |i: int| bit_at(r, i) as u8)
}

/// The bits of `rbsp`, most significant first.
pub fn rbsp_to_bits(rbsp: &[u8]) -> (r: Vec<u8>)
    requires
        rbsp@.len() <= usize::MAX / 8,
    ensures
        r@ == spec_rbsp_bits(rbsp@),
{
    let mut bits: Vec<u8> = Vec::new();
    let mut k: usize = 0;
    while k < rbsp.len()
        invariant
            k <= rbsp.len(),
            rbsp@.len() <= usize::MAX / 8,
            bits@.len() == 8 * k,
            forall|i: int| 0 <= i < 8 * k ==> #[trigger] bits@[i] == bit_at(rbsp@, i) as u8,
        decreases rbsp.len() - k,
    {
        let byte = rbsp[k];
        let mut j: usize = 0;
        while j < 8
            invariant
                k < rbsp.len(),
                rbsp@.len() <= usize::MAX / 8,
                byte == rbsp@[k as int],
                j <= 8,
                bits@.len() == 8 * k + j,
                forall|i: int| 0 <= i < 8 * k + j ==> #[trigger] bits@[i] == bit_at(rbsp@, i) as u8,
            decreases 8 - j,
        {
            let shift = (7 - j) as u8;
            proof {
                let i = 8 * k + j;
                assert(i / 8 == k as int && i % 8 == j as int) by (nonlinear_arith)
                    requires
                        i == 8 * k + j,
                        j < 8,
                ;
                assert((byte >> shift) & 1u8 <= 1) by (bit_vector);
            }
            bits.push((byte >> shift) & 1);
            j += 1;
        }
        k += 1;
    }
    assert(bits@ =~= spec_rbsp_bits(rbsp@));
    bits
}

/// The value of the up to 8 bits of `bits` from `start` on, a missing bit
/// counting as 0 and each bit as its lowest bit; after `j` of them.
pub open spec fn packed_prefix(bits: Seq<u8>, start: int, j: nat) -> nat
    decreases j,
{
    if j == 0 {
        0
    } else {
        let i = start + j - 1;
        packed_prefix(bits, start, (j - 1) as nat) * 2 + (if i < bits.len() { (bits[i] % 2) as nat } else { 0 })
    }
}

/// `bits` packed eight to a byte, most significant first, the last byte
/// padded with zero bits.
pub open spec fn spec_bits_to_rbsp(bits: Seq<u8>) -> Seq<u8> {
    Seq::new(((bits.len() + 7) / 8) as nat, |k: int| packed_prefix(bits, 8 * k, 8) as u8)
}

proof fn lemma_packed_prefix_bound(bits: Seq<u8>, start: int, j: nat)
    ensures
        packed_prefix(bits, start, j) < two_pow(j),
    decreases j,
{
    if j > 0 {
        lemma_packed_prefix_bound(bits, start, (j - 1) as nat);
    }
}

/// Packs bits into bytes, padding the last byte with zeros.
pub fn bits_to_rbsp(bits: &[u8]) -> (r: Vec<u8>)
    requires
        bits@.len() + 7 <= usize::MAX,
    ensures
        r@ == spec_bits_to_rbsp(bits@),
{
    let nbytes = bits.len() / 8 + if bits.len() % 8 == 0 { 0 } else { 1 };
    assert(nbytes == (bits@.len() + 7) / 8);
    let mut output: Vec<u8> = Vec::new();
    let mut k: usize = 0;
    while k < nbytes
        invariant
            k <= nbytes,
            nbytes == (bits@.len() + 7) / 8,
            bits@.len() + 7 <= usize::MAX,
            output@.len() == k,
            forall|q: int| 0 <= q < k ==> #[trigger] output@[q] == packed_prefix(bits@, 8 * q, 8) as u8,
        decreases nbytes - k,
    {
        let index = 8 * k;
        let mut value: u8 = 0;
        let mut bit_index: usize = 0;
        while bit_index < 8
            invariant
                bit_index <= 8,
                index == 8 * k,
                k < nbytes,
                nbytes == (bits@.len() + 7) / 8,
                bits@.len() + 7 <= usize::MAX,
                value == packed_prefix(bits@, index as int, bit_index as nat),
            decreases 8 - bit_index,
        {
            proof {
                lemma_packed_prefix_bound(bits@, index as int, bit_index as nat);
                lemma_two_pow_mono(bit_index as nat, 7);
                reveal_with_fuel(two_pow, 8);
            }
            let source_index = index + bit_index;
            let b: u8 = if source_index < bits.len() { bits[source_index] & 1 } else { 0 };
            proof {
                if source_index < bits.len() {
                    let x = bits@[source_index as int];
                    assert(x & 1u8 == x % 2) by (bit_vector);
                }
                assert(value < 128);
                assert(b <= 1);
                assert((value << 1u8) | b == value * 2 + b) by (bit_vector)
                    requires
                        value < 128,
                        b <= 1,
                ;
            }
            value = (value << 1) | b;
            bit_index += 1;
        }
        output.push(value);
        k += 1;
    }
    assert(output@ =~= spec_bits_to_rbsp(bits@));
    output
}

/// The `width` low bits of `value`, most significant first.
pub open spec fn spec_value_bits(value: u32, width: int) -> Seq<u8> {
    Seq::new(width as nat, |i: int| ((value >> ((width - 1 - i) as u32)) & 1u32) as u8)
}

/// The low `width` bits of `value`, most significant first.
pub fn value_bits(value: u32, width: usize) -> (r: Vec<u8>)
    requires
        width <= 32,
    ensures
        r@ == spec_value_bits(value, width as int),
{
    let mut bits: Vec<u8> = Vec::new();
    let mut i: usize = 0;
    while i < width
        invariant
            i <= width <= 32,
            bits@ =~= spec_value_bits(value, width as int).take(i as int),
        decreases width - i,
    {
        let shift = (width - 1 - i) as u32;
        bits.push(((value >> shift) & 1) as u8);
        i += 1;
    }
    bits
}

/// The number of significant bits of `c`.
pub open spec fn significant_bits(c: nat) -> nat
    decreases c,
{
    if c == 0 {
        0
    } else {
        1 + significant_bits(c / 2)
    }
}

/// The Exp-Golomb code of `value` (its successor saturating at the top of
/// the `u32` range), one bit per element.
pub open spec fn spec_ue_bits(value: u32) -> Seq<u8> {
    let code_num = if value == u32::MAX { u32::MAX } else { (value + 1) as u32 };
    let bit_len = significant_bits(code_num as nat);
    Seq::new((if bit_len >= 1 { bit_len - 1 } else { 0 }) as nat, |_i: int| 0u8) + spec_value_bits(
        code_num,
        bit_len as int,
    )
}

proof fn lemma_significant_bits_bound(c: nat, k: nat)
    requires
        c < two_pow(k),
    ensures
        significant_bits(c) <= k,
    decreases c,
{
    if c > 0 {
        assert(k > 0) by {
            if k == 0 {
                assert(two_pow(0) == 1);
            }
        }
        lemma_significant_bits_bound(c / 2, (k - 1) as nat);
    }
}

/// The Exp-Golomb code of `value`.
pub fn ue_to_bits(value: u32) -> (r: Vec<u8>)
    ensures
        r@ == spec_ue_bits(value),
{
    let code_num = value.saturating_add(1);
    let mut c = code_num;
    let mut bit_len: usize = 0;
    proof {
        lemma_two_pow_64();
    }
    while c > 0
        invariant
            bit_len + significant_bits(c as nat) == significant_bits(code_num as nat),
            bit_len <= 32,
            c < two_pow((32 - bit_len) as nat),
        decreases c,
    {
        proof {
            lemma_significant_bits_bound(c as nat, (32 - bit_len) as nat);
        }
        assert(c >> 1u32 == c / 2) by (bit_vector);
        c = c >> 1;
        bit_len += 1;
        assert(c < two_pow((32 - bit_len) as nat));
    }
    let zeros = if bit_len >= 1 { bit_len - 1 } else { 0 };
    let mut bits: Vec<u8> = Vec::new();
    let mut i: usize = 0;
    while i < zeros
        invariant
            i <= zeros,
            bits@ == Seq::new(i as nat, |_i: int| 0u8),
        decreases zeros - i,
    {
        bits.push(0);
        i += 1;
        assert(bits@ =~= Seq::new(i as nat, |_i: int| 0u8));
    }
    let tail = value_bits(code_num, bit_len);
    let mut j: usize = 0;
    let ghost head = bits@;
    while j < tail.len()
        invariant
            j <= tail.len(),
            bits@ == head + tail@.take(j as int),
        decreases tail.len() - j,
    {
        bits.push(tail[j]);
        j += 1;
        assert(bits@ =~= head + tail@.take(j as int));
    }
    assert(tail@.take(j as int) =~= tail@);
    bits
}

/// Sets bit `position` of `bits` to the low bit of `value`; `None`, with
/// `bits` unchanged, where the position is outside.
pub fn set_bit(bits: &mut Vec<u8>, position: usize, value: u8) -> (r: Option<()>)
    ensures
        r is Some <==> position < old(bits)@.len(),
        r is Some ==> final(bits)@ == old(bits)@.update(position as int, value % 2),
        r is None ==> final(bits)@ == old(bits)@,
{
    if position >= bits.len() {
        return None;
    }
    assert(value & 1u8 == value % 2) by (bit_vector);
    bits.set(position, value & 1);
    Some(())
}

/// `bits` with the `width` low bits of `value` written from `position`.
pub open spec fn spec_set_bits(bits: Seq<u8>, position: int, width: int, value: u32) -> Seq<u8> {
    Seq::new(
        bits.len(),
        |i: int|
            if position <= i < position + width {
                spec_value_bits(value, width)[i - position]
            } else {
                bits[i]
            },
    )
}

/// Writes the `width` low bits of `value` from bit `position` on; `None`,
/// with `bits` unchanged, where they do not fit.
pub fn set_bits(bits: &mut Vec<u8>, position: usize, width: usize, value: u32) -> (r: Option<()>)
    requires
        width <= 32 || position + width > old(bits)@.len(),
    ensures
        r is Some <==> position + width <= old(bits)@.len(),
        r is Some ==> final(bits)@ == spec_set_bits(old(bits)@, position as int, width as int, value),
        r is None ==> final(bits)@ == old(bits)@,
{
    let len = bits.len();
    let end = position.checked_add(width)?;
    if end > len {
        return None;
    }
    let mut i: usize = 0;
    while i < width
        invariant
            i <= width <= 32,
            end == position + width,
            position + width <= bits@.len(),
            bits@.len() == old(bits)@.len(),
            forall|q: int| 0 <= q < bits@.len() ==> #[trigger] bits@[q] == (if position <= q < position + i {
                spec_value_bits(value, width as int)[q - position]
            } else {
                old(bits)@[q]
            }),
        decreases width - i,
    {
        let shift = (width - 1 - i) as u32;
        bits.set(position + i, ((value >> shift) & 1) as u8);
        i += 1;
    }
    assert(bits@ =~= spec_set_bits(old(bits)@, position as int, width as int, value));
    Some(())
}

proof fn lemma_byte_from_bits(b: u8)
    ensures
        b as int == ((((((((b >> 7u8) & 1u8) as int * 2 + ((b >> 6u8) & 1u8) as int) * 2 + ((b >> 5u8)
            & 1u8) as int) * 2 + ((b >> 4u8) & 1u8) as int) * 2 + ((b >> 3u8) & 1u8) as int) * 2 + ((b
            >> 2u8) & 1u8) as int) * 2 + ((b >> 1u8) & 1u8) as int) * 2 + ((b >> 0u8) & 1u8) as int,
{
    assert(b as int == ((((((((b >> 7u8) & 1u8) as int * 2 + ((b >> 6u8) & 1u8) as int) * 2 + ((b
        >> 5u8) & 1u8) as int) * 2 + ((b >> 4u8) & 1u8) as int) * 2 + ((b >> 3u8) & 1u8) as int) * 2
        + ((b >> 2u8) & 1u8) as int) * 2 + ((b >> 1u8) & 1u8) as int) * 2 + ((b >> 0u8) & 1u8) as int)
        by (bit_vector);
}

pub(crate) proof fn lemma_bit_of(r: Seq<u8>, k: int, j: int)
    requires
        0 <= k < r.len(),
        0 <= j < 8,
    ensures
        spec_rbsp_bits(r)[8 * k + j] % 2 == (r[k] >> ((7 - j) as u8)) & 1u8,
{
    let i = 8 * k + j;
    assert(i / 8 == k && i % 8 == j) by (nonlinear_arith)
        requires
            i == 8 * k + j,
            0 <= j < 8,
    ;
    assert(0 <= i < 8 * r.len()) by (nonlinear_arith)
        requires
            i == 8 * k + j,
            0 <= j < 8,
            0 <= k < r.len(),
    ;
    let b = r[k];
    let sh = (7 - j) as u8;
    assert(((b >> sh) & 1u8) % 2 == (b >> sh) & 1u8) by (bit_vector);
}

/// Packing the bits of a byte string gives the byte string back.
pub proof fn lemma_bits_roundtrip(r: Seq<u8>)
    ensures
        spec_bits_to_rbsp(spec_rbsp_bits(r)) == r,
{
    let bits = spec_rbsp_bits(r);
    assert((8 * r.len() + 7) / 8 == r.len()) by (nonlinear_arith);
    assert forall|k: int| 0 <= k < r.len() implies #[trigger] spec_bits_to_rbsp(bits)[k] == r[k] by {
        reveal_with_fuel(packed_prefix, 9);
        lemma_bit_of(r, k, 0);
        lemma_bit_of(r, k, 1);
        lemma_bit_of(r, k, 2);
        lemma_bit_of(r, k, 3);
        lemma_bit_of(r, k, 4);
        lemma_bit_of(r, k, 5);
        lemma_bit_of(r, k, 6);
        lemma_bit_of(r, k, 7);
        assert(bits[8 * k + 0] % 2 == (r[k] >> 7u8) & 1u8);
        assert(bits[8 * k + 1] % 2 == (r[k] >> 6u8) & 1u8);
        assert(bits[8 * k + 2] % 2 == (r[k] >> 5u8) & 1u8);
        assert(bits[8 * k + 3] % 2 == (r[k] >> 4u8) & 1u8);
        assert(bits[8 * k + 4] % 2 == (r[k] >> 3u8) & 1u8);
        assert(bits[8 * k + 5] % 2 == (r[k] >> 2u8) & 1u8);
        assert(bits[8 * k + 6] % 2 == (r[k] >> 1u8) & 1u8);
        assert(bits[8 * k + 7] % 2 == (r[k] >> 0u8) & 1u8);
        lemma_byte_from_bits(r[k]);
    }
    assert(spec_bits_to_rbsp(bits) =~= r);
}

/// The located VUI positions lie within `nbits` bits and are laid out as
/// the syntax puts them.
pub open spec fn vui_positions_ok(loc: VuiLocation, nbits: int) -> bool {
    &&& loc.vui_present_flag_pos + 1 <= nbits
    &&& loc.vui_present ==> {
        &&& loc.video_signal_present_flag_pos is Some
        &&& loc.video_signal_present_flag_pos.unwrap() + 1 <= nbits
        &&& loc.chroma_loc_info_present_flag_pos is Some
        &&& loc.chroma_loc_info_present_flag_pos.unwrap() + 1 <= nbits
        &&& loc.video_signal_present ==> {
            let a = loc.video_format_pos.unwrap();
            &&& loc.video_format_pos is Some
            &&& a + 5 <= nbits
            &&& loc.full_range_pos == Some((a + 3) as usize)
            &&& loc.colour_description_flag_pos == Some((a + 4) as usize)
            &&& loc.colour_description_present ==> {
                let c = loc.colour_primaries_pos.unwrap();
                &&& loc.colour_primaries_pos is Some
                &&& c + 24 <= nbits
                &&& loc.transfer_characteristics_pos == Some((c + 8) as usize)
                &&& loc.matrix_coeffs_pos == Some((c + 16) as usize)
            }
        }
        &&& loc.chroma_loc_info_present ==> {
            let t0 = loc.chroma_top_ue_start.unwrap();
            let t1 = loc.chroma_top_ue_end.unwrap();
            let b1 = loc.chroma_bottom_ue_end.unwrap();
            &&& loc.chroma_top_ue_start is Some
            &&& loc.chroma_top_ue_end is Some
            &&& loc.chroma_bottom_ue_start == Some(t1)
            &&& loc.chroma_bottom_ue_end is Some
            &&& t0 <= t1 <= b1 <= nbits
        }
    }
}

pub(crate) proof fn lemma_ue_zeros_bounds(d: Seq<u8>, pos: int, z: int)
    requires
        ue_zeros(d, pos, z) is Some,
    ensures
        ue_zeros(d, pos, z) matches Some(w) && 0 <= w <= 31 && can_read(d, pos + w, 1),
    decreases 32 - z,
{
    if !(z < 0 || z > 31 || !can_read(d, pos + z, 1)) && bit_at(d, pos + z) != 1 && z + 1 <= 31 {
        lemma_ue_zeros_bounds(d, pos, z + 1);
    }
}

proof fn lemma_ue_bounds(d: Seq<u8>, pos: int)
    requires
        ue_after(d, Some(pos)) is Some,
    ensures
        0 <= pos < ue_after(d, Some(pos)).unwrap() <= 8 * d.len(),
{
    lemma_ue_zeros_bounds(d, pos, 0);
}

pub(crate) proof fn lemma_vui_signal_bounds(d: Seq<u8>, sp: int)
    requires
        vui_signal(d, sp) is Some,
        d.len() <= usize::MAX / 8,
    ensures
        ({
            let (vs, vf, fr, cdf, cd, cpp, cpv, tcp, tcv, mcp, mcv, cl) = vui_signal(d, sp).unwrap();
            &&& 0 <= sp
            &&& sp + 1 <= cl <= 8 * d.len()
            &&& vs ==> {
                &&& vf == Some((sp + 1) as usize)
                &&& fr == Some((sp + 4) as usize)
                &&& cdf == Some((sp + 5) as usize)
                &&& sp + 6 <= cl
                &&& cd ==> {
                    &&& cpp == Some((sp + 6) as usize)
                    &&& tcp == Some((sp + 14) as usize)
                    &&& mcp == Some((sp + 22) as usize)
                    &&& sp + 30 <= cl
                }
            }
        }),
{
}

#[verifier::rlimit(60)]
pub(crate) proof fn lemma_vui_chroma_bounds(d: Seq<u8>, cl: int)
    requires
        vui_chroma(d, cl) is Some,
        d.len() <= usize::MAX / 8,
    ensures
        ({
            let (present, ts, te, bs, be) = vui_chroma(d, cl).unwrap();
            &&& 0 <= cl
            &&& cl + 1 <= 8 * d.len()
            &&& present ==> {
                &&& ts == Some((cl + 1) as usize)
                &&& te is Some
                &&& bs == te
                &&& be is Some
                &&& cl + 1 <= te.unwrap() <= be.unwrap() <= 8 * d.len()
            }
        }),
{
    let (present, p0) = spec_read_bits(d, cl, 1).unwrap();
    if present != 0 {
        assert(ue_after(d, Some(p0)) is Some);
        lemma_ue_bounds(d, p0);
        let p1 = ue_after(d, Some(p0)).unwrap();
        assert(ue_after(d, Some(p1)) is Some);
        lemma_ue_bounds(d, p1);
        let p2 = ue_after(d, Some(p1)).unwrap();
        assert(vui_chroma(d, cl) == Some((true, Some(p0 as usize), Some(p1 as usize), Some(p1 as usize), Some(p2 as usize))));
    }
}

pub(crate) proof fn lemma_vui_positions(d: Seq<u8>, pos: int)
    requires
        spec_vui_from(d, pos) is Some,
        d.len() <= usize::MAX / 8,
    ensures
        vui_positions_ok(spec_vui_from(d, pos).unwrap(), 8 * d.len() as int),
{
    let (present, p0) = spec_read_bits(d, pos, 1).unwrap();
    if present != 0 {
        let sp = vui_signal_flag_pos(d, p0).unwrap();
        lemma_vui_signal_bounds(d, sp);
        let cl = vui_signal(d, sp).unwrap().11;
        lemma_vui_chroma_bounds(d, cl);
    }
}

pub(crate) proof fn lemma_locate_vui_positions(d: Seq<u8>)
    requires
        spec_locate_vui(d) is Some,
        d.len() <= usize::MAX / 8,
    ensures
        vui_positions_ok(spec_locate_vui(d).unwrap(), 8 * d.len() as int),
{
    reveal(spec_locate_vui);
    let (p0, _m, log2) = sps_to_ordering(d).unwrap();
    let p1 = sps_coding_tools(d, p0).unwrap();
    let (n, p2) = spec_read_ue(d, p1).unwrap();
    let p3 = st_rps_from(d, p2, 0, n as int, seq![]).unwrap();
    let p4 = sps_long_term(d, p3, log2).unwrap();
    lemma_vui_positions(d, p4);
}

/// Three 8-bit codes of value 1 (BT.709 primaries, transfer and matrix).
pub open spec fn bt709_colour_bits() -> Seq<u8> {
    seq![0u8, 0, 0, 0, 0, 0, 0, 1, 0, 0, 0, 0, 0, 0, 0, 1, 0, 0, 0, 0, 0, 0, 0, 1]
}

/// The Exp-Golomb code of 2 (chroma sample location type 2).
pub open spec fn ue2_bits() -> Seq<u8> {
    seq![0u8, 1, 1]
}

/// A video signal type with video_format 5, limited range and a BT.709
/// colour description.
pub open spec fn sdr_signal_bits() -> Seq<u8> {
    seq![1u8, 0, 1, 0, 1] + bt709_colour_bits()
}

/// The VUI written where an SPS has none: no aspect ratio or overscan
/// info; for SDR a BT.709 video signal type; chroma sample location type 2
/// for both fields; no timing, bitstream restriction or other fields.
pub open spec fn spec_minimal_vui_bits(mode: VideoMode) -> Seq<u8> {
    seq![0u8, 0] + (if mode == VideoMode::Sdr {
        seq![1u8] + sdr_signal_bits()
    } else {
        seq![0u8]
    }) + seq![1u8] + ue2_bits() + ue2_bits() + seq![0u8, 0, 0, 0, 0, 0]
}

pub(crate) proof fn lemma_small_codes()
    ensures
        spec_value_bits(5, 3) == seq![1u8, 0, 1],
        spec_value_bits(1, 8) == seq![0u8, 0, 0, 0, 0, 0, 0, 1],
        spec_ue_bits(2) == ue2_bits(),
{
    assert((5u32 >> 2u32) & 1u32 == 1 && (5u32 >> 1u32) & 1u32 == 0 && (5u32 >> 0u32) & 1u32 == 1) by (bit_vector);
    assert(spec_value_bits(5, 3) =~= seq![1u8, 0, 1]);
    assert((1u32 >> 7u32) & 1u32 == 0 && (1u32 >> 6u32) & 1u32 == 0 && (1u32 >> 5u32) & 1u32 == 0
        && (1u32 >> 4u32) & 1u32 == 0 && (1u32 >> 3u32) & 1u32 == 0 && (1u32 >> 2u32) & 1u32 == 0
        && (1u32 >> 1u32) & 1u32 == 0 && (1u32 >> 0u32) & 1u32 == 1) by (bit_vector);
    assert(spec_value_bits(1, 8) =~= seq![0u8, 0, 0, 0, 0, 0, 0, 1]);
    reveal_with_fuel(significant_bits, 4);
    assert(significant_bits(3) == 2);
    assert((3u32 >> 1u32) & 1u32 == 1 && (3u32 >> 0u32) & 1u32 == 1) by (bit_vector);
    assert(spec_value_bits(3, 2) =~= seq![1u8, 1]);
    assert(spec_ue_bits(2) =~= ue2_bits());
}

/// A minimal VUI for `mode` with chroma sample location type 2.
pub fn minimal_vui_bits(mode: VideoMode) -> (r: Vec<u8>)
    ensures
        r@ == spec_minimal_vui_bits(mode),
{
    proof {
        lemma_small_codes();
    }
    let mut bits: Vec<u8> = Vec::new();
    bits.push(0);
    bits.push(0);
    if mode == VideoMode::Sdr {
        bits.push(1);
        extend_bytes(&mut bits, value_bits(5, 3).as_slice());
        bits.push(0);
        bits.push(1);
        extend_bytes(&mut bits, value_bits(1, 8).as_slice());
        extend_bytes(&mut bits, value_bits(1, 8).as_slice());
        extend_bytes(&mut bits, value_bits(1, 8).as_slice());
    } else {
        bits.push(0);
    }
    bits.push(1);
    let type2 = ue_to_bits(2);
    extend_bytes(&mut bits, type2.as_slice());
    extend_bytes(&mut bits, type2.as_slice());
    bits.push(0);
    bits.push(0);
    bits.push(0);
    bits.push(0);
    bits.push(0);
    bits.push(0);
    assert(bits@ =~= spec_minimal_vui_bits(mode));
    bits
}

/// A NAL unit with its header kept and its payload replaced by `rbsp`
/// with emulation prevention inserted.
pub open spec fn spec_rebuild_unit(unit: Seq<u8>, rbsp: Seq<u8>) -> Option<Seq<u8>> {
    match spec_start_code_length(unit) {
        None => None,
        Some(start) => if unit.len() < start + 2 {
            None
        } else {
            Some(unit.take(start + 2) + escape(rbsp, 0))
        },
    }
}

/// `unit` with its payload replaced by `rbsp` with emulation prevention.
pub fn rebuild_unit(unit: &[u8], rbsp: &[u8]) -> (r: Option<Vec<u8>>)
    ensures
        match spec_rebuild_unit(unit@, rbsp@) {
            None => r is None,
            Some(u) => r matches Some(v) && v@ == u,
        },
{
    let start = start_code_length(unit)?;
    if unit.len() < start + 2 {
        return None;
    }
    let header_end = start + 2;
    let new_ebsp = rbsp_to_ebsp(rbsp);
    let mut output: Vec<u8> = Vec::new();
    let mut i: usize = 0;
    while i < header_end
        invariant
            i <= header_end <= unit.len(),
            output@ == unit@.take(i as int),
        decreases header_end - i,
    {
        output.push(unit[i]);
        i += 1;
        assert(output@ =~= unit@.take(i as int));
    }
    extend_bytes(&mut output, new_ebsp.as_slice());
    Some(output)
}

/// `bits` with `ins` inserted before position `at`.
pub open spec fn insert_bits(bits: Seq<u8>, at: int, ins: Seq<u8>) -> Seq<u8> {
    bits.take(at) + ins + bits.skip(at)
}

/// `bits` with positions `from..to` replaced by `ins`.
pub open spec fn replace_bits(bits: Seq<u8>, from: int, to: int, ins: Seq<u8>) -> Seq<u8> {
    bits.take(from) + ins + bits.skip(to)
}

fn splice_bits(bits: &Vec<u8>, from: usize, to: usize, ins: &Vec<u8>) -> (r: Vec<u8>)
    requires
        from <= to <= bits.len(),
    ensures
        r@ == replace_bits(bits@, from as int, to as int, ins@),
{
    let mut out: Vec<u8> = Vec::new();
    let mut i: usize = 0;
    while i < from
        invariant
            i <= from <= to <= bits.len(),
            out@ == bits@.take(i as int),
        decreases from - i,
    {
        out.push(bits[i]);
        i += 1;
        assert(out@ =~= bits@.take(i as int));
    }
    extend_bytes(&mut out, ins.as_slice());
    let ghost mid = out@;
    let mut j = to;
    while j < bits.len()
        invariant
            to <= j <= bits.len(),
            out@ == mid + bits@.subrange(to as int, j as int),
        decreases bits.len() - j,
    {
        out.push(bits[j]);
        j += 1;
        assert(out@ =~= mid + bits@.subrange(to as int, j as int));
    }
    assert(bits@.subrange(to as int, j as int) =~= bits@.skip(to as int));
    out
}

/// The bits of an SPS RBSP with a BT.709, limited-range, video_format 5
/// colorimetry written into its VUI at the located fields; a missing VUI
/// or video signal type is inserted with its present flag set.
pub open spec fn sdr_patched_bits(bits: Seq<u8>, loc: VuiLocation) -> Seq<u8> {
    if !loc.vui_present {
        let p = loc.vui_present_flag_pos as int;
        insert_bits(bits.update(p, 1), p + 1, spec_minimal_vui_bits(VideoMode::Sdr))
    } else if !loc.video_signal_present {
        let p = loc.video_signal_present_flag_pos.unwrap() as int;
        insert_bits(bits.update(p, 1), p + 1, sdr_signal_bits())
    } else {
        let a = loc.video_format_pos.unwrap() as int;
        let b = spec_set_bits(bits, a, 3, 5).update(a + 3, 0);
        if loc.colour_description_present {
            let c = loc.colour_primaries_pos.unwrap() as int;
            spec_set_bits(spec_set_bits(spec_set_bits(b, c, 8, 1), c + 8, 8, 1), c + 16, 8, 1)
        } else {
            insert_bits(b.update(a + 4, 1), a + 5, bt709_colour_bits())
        }
    }
}

/// An SPS RBSP with SDR (BT.709) colorimetry signalled.
pub open spec fn spec_patch_sdr_colorimetry(r: Seq<u8>) -> Option<Seq<u8>> {
    match spec_locate_vui(r) {
        None => None,
        Some(loc) => Some(spec_bits_to_rbsp(sdr_patched_bits(spec_rbsp_bits(r), loc))),
    }
}

/// Sets the SPS colour signalling to BT.709 limited range (see `spec_patch_sdr_colorimetry`).
pub fn patch_sdr_colorimetry(rbsp: &[u8]) -> (r: Option<Vec<u8>>)
    requires
        rbsp@.len() <= usize::MAX / 16,
    ensures
        match spec_patch_sdr_colorimetry(rbsp@) {
            None => r is None,
            Some(v) => r matches Some(x) && x@ == v,
        },
{
    let loc = locate_vui(rbsp)?;
    proof {
        lemma_locate_vui_positions(rbsp@);
        lemma_small_codes();
    }
    let mut bits = rbsp_to_bits(rbsp);
    let ghost b0 = bits@;
    if !loc.vui_present {
        set_bit(&mut bits, loc.vui_present_flag_pos, 1);
        let insertion = minimal_vui_bits(VideoMode::Sdr);
        let at = loc.vui_present_flag_pos + 1;
        let patched = splice_bits(&bits, at, at, &insertion);
        return Some(bits_to_rbsp(&patched));
    }
    if !loc.video_signal_present {
        let flag_pos = match loc.video_signal_present_flag_pos {
            Some(p) => p,
            None => {
                return None;
            },
        };
        set_bit(&mut bits, flag_pos, 1);
        let mut insertion: Vec<u8> = Vec::new();
        extend_bytes(&mut insertion, value_bits(5, 3).as_slice());
        insertion.push(0);
        insertion.push(1);
        extend_bytes(&mut insertion, value_bits(1, 8).as_slice());
        extend_bytes(&mut insertion, value_bits(1, 8).as_slice());
        extend_bytes(&mut insertion, value_bits(1, 8).as_slice());
        assert(insertion@ =~= sdr_signal_bits());
        let patched = splice_bits(&bits, flag_pos + 1, flag_pos + 1, &insertion);
        return Some(bits_to_rbsp(&patched));
    }
    if let Some(position) = loc.video_format_pos {
        set_bits(&mut bits, position, 3, 5)?;
    }
    if let Some(position) = loc.full_range_pos {
        set_bit(&mut bits, position, 0)?;
    }
    let colour_flag_pos = match loc.colour_description_flag_pos {
        Some(p) => p,
        None => {
            return None;
        },
    };
    if loc.colour_description_present {
        let cp = match loc.colour_primaries_pos {
            Some(p) => p,
            None => {
                return None;
            },
        };
        let tc = match loc.transfer_characteristics_pos {
            Some(p) => p,
            None => {
                return None;
            },
        };
        let mc = match loc.matrix_coeffs_pos {
            Some(p) => p,
            None => {
                return None;
            },
        };
        set_bits(&mut bits, cp, 8, 1)?;
        set_bits(&mut bits, tc, 8, 1)?;
        set_bits(&mut bits, mc, 8, 1)?;
        assert(bits@ == sdr_patched_bits(b0, loc));
        Some(bits_to_rbsp(&bits))
    } else {
        set_bit(&mut bits, colour_flag_pos, 1)?;
        let mut insertion: Vec<u8> = Vec::new();
        extend_bytes(&mut insertion, value_bits(1, 8).as_slice());
        extend_bytes(&mut insertion, value_bits(1, 8).as_slice());
        extend_bytes(&mut insertion, value_bits(1, 8).as_slice());
        assert(insertion@ =~= bt709_colour_bits());
        let patched = splice_bits(&bits, colour_flag_pos + 1, colour_flag_pos + 1, &insertion);
        assert(patched@ == sdr_patched_bits(b0, loc));
        Some(bits_to_rbsp(&patched))
    }
}

/// The bits of an SPS RBSP with chroma sample location type 2 signalled
/// for both fields; a missing VUI (the minimal one for `mode`) or missing
/// chroma location fields are inserted with their present flag set.
pub open spec fn chroma_patched_bits(bits: Seq<u8>, loc: VuiLocation, mode: VideoMode) -> Seq<u8> {
    if !loc.vui_present {
        let p = loc.vui_present_flag_pos as int;
        insert_bits(bits.update(p, 1), p + 1, spec_minimal_vui_bits(mode))
    } else if !loc.chroma_loc_info_present {
        let f = loc.chroma_loc_info_present_flag_pos.unwrap() as int;
        insert_bits(bits.update(f, 1), f + 1, ue2_bits() + ue2_bits())
    } else {
        let t0 = loc.chroma_top_ue_start.unwrap() as int;
        let t1 = loc.chroma_top_ue_end.unwrap() as int;
        let b1 = loc.chroma_bottom_ue_end.unwrap() as int;
        replace_bits(replace_bits(bits, t1, b1, ue2_bits()), t0, t1, ue2_bits())
    }
}

/// An SPS RBSP with chroma sample location type 2 signalled.
pub open spec fn spec_patch_chroma_type2(r: Seq<u8>, mode: VideoMode) -> Option<Seq<u8>> {
    match spec_locate_vui(r) {
        None => None,
        Some(loc) => Some(spec_bits_to_rbsp(chroma_patched_bits(spec_rbsp_bits(r), loc, mode))),
    }
}

/// Sets both SPS chroma sample locations to type 2 (see `spec_patch_chroma_type2`).
pub fn patch_chroma_type2(rbsp: &[u8], mode: VideoMode) -> (r: Option<Vec<u8>>)
    requires
        rbsp@.len() <= usize::MAX / 16,
    ensures
        match spec_patch_chroma_type2(rbsp@, mode) {
            None => r is None,
            Some(v) => r matches Some(x) && x@ == v,
        },
{
    let loc = locate_vui(rbsp)?;
    proof {
        lemma_locate_vui_positions(rbsp@);
        lemma_small_codes();
    }
    let mut bits = rbsp_to_bits(rbsp);
    let ghost b0 = bits@;
    if !loc.vui_present {
        set_bit(&mut bits, loc.vui_present_flag_pos, 1);
        let insertion = minimal_vui_bits(mode);
        let at = loc.vui_present_flag_pos + 1;
        let patched = splice_bits(&bits, at, at, &insertion);
        return Some(bits_to_rbsp(&patched));
    }
    let flag_pos = match loc.chroma_loc_info_present_flag_pos {
        Some(p) => p,
        None => {
            return None;
        },
    };
    let new_ue = ue_to_bits(2);
    if !loc.chroma_loc_info_present {
        set_bit(&mut bits, flag_pos, 1);
        let mut insertion: Vec<u8> = Vec::new();
        extend_bytes(&mut insertion, new_ue.as_slice());
        extend_bytes(&mut insertion, new_ue.as_slice());
        let patched = splice_bits(&bits, flag_pos + 1, flag_pos + 1, &insertion);
        return Some(bits_to_rbsp(&patched));
    }
    let b0_pos = match loc.chroma_bottom_ue_start {
        Some(p) => p,
        None => {
            return None;
        },
    };
    let b1_pos = match loc.chroma_bottom_ue_end {
        Some(p) => p,
        None => {
            return None;
        },
    };
    let step1 = splice_bits(&bits, b0_pos, b1_pos, &new_ue);
    let t0 = match loc.chroma_top_ue_start {
        Some(p) => p,
        None => {
            return None;
        },
    };
    let t1 = match loc.chroma_top_ue_end {
        Some(p) => p,
        None => {
            return None;
        },
    };
    let step2 = splice_bits(&step1, t0, t1, &new_ue);
    Some(bits_to_rbsp(&step2))
}

/// The colour description of an SPS.
#[derive(Clone, Copy, Debug, PartialEq, Eq, Structural)]
pub struct SpsInfo {
    pub colour_primaries: Option<u8>,
    pub transfer_characteristics: Option<u8>,
    pub matrix_coeffs: Option<u8>,
}

/// The RBSP of an HEVC SPS NAL unit (type 33) of at least 3 bytes after its
/// start code.
pub open spec fn sps_rbsp(unit: Seq<u8>) -> Option<Seq<u8>> {
    match spec_start_code_length(unit) {
        None => None,
        Some(start) => if spec_hevc_nal_type(unit) != Some(33u8) || unit.len() < start + 3 {
            None
        } else {
            Some(unescape(unit.skip(start + 2), 0))
        },
    }
}

/// The colour description that an SPS NAL unit's VUI holds.
pub open spec fn spec_inspect_sps(unit: Seq<u8>) -> Option<SpsInfo> {
    match sps_rbsp(unit) {
        None => None,
        Some(rbsp) => match spec_locate_vui(rbsp) {
            None => None,
            Some(loc) => Some(SpsInfo {
                colour_primaries: loc.colour_primaries_value,
                transfer_characteristics: loc.transfer_characteristics_value,
                matrix_coeffs: loc.matrix_coeffs_value,
            }),
        },
    }
}

pub proof fn lemma_unescape_len(s: Seq<u8>, z: int)
    ensures
        unescape(s, z).len() <= s.len(),
    decreases s.len(),
{
    if s.len() > 0 {
        if z >= 2 && s[0] == 3 {
            lemma_unescape_len(s.drop_first(), 0);
        } else {
            lemma_unescape_len(s.drop_first(), crate::nal::next_zeros(z, s[0]));
        }
    }
}

fn sps_payload_rbsp(unit: &[u8]) -> (r: Option<Vec<u8>>)
    ensures
        match sps_rbsp(unit@) {
            None => r is None,
            Some(v) => r matches Some(x) && x@ == v && v.len() <= unit@.len(),
        },
{
    let start = start_code_length(unit)?;
    match hevc_nal_type(unit) {
        Some(t) => {
            if t != 33 {
                return None;
            }
        },
        None => {
            return None;
        },
    }
    if unit.len() < start + 3 {
        return None;
    }
    let payload = &unit[start + 2..unit.len()];
    assert(payload@ =~= unit@.skip(start + 2));
    proof {
        lemma_unescape_len(payload@, 0);
    }
    Some(ebsp_to_rbsp(payload))
}

/// The colour description of an SPS unit.
pub fn inspect_sps(unit: &[u8]) -> (r: Option<SpsInfo>)
    requires
        unit@.len() <= usize::MAX / 8,
    ensures
        r == spec_inspect_sps(unit@),
{
    let rbsp = sps_payload_rbsp(unit)?;
    let loc = locate_vui(&rbsp)?;
    Some(
        SpsInfo {
            colour_primaries: loc.colour_primaries_value,
            transfer_characteristics: loc.transfer_characteristics_value,
            matrix_coeffs: loc.matrix_coeffs_value,
        },
    )
}

/// An SPS NAL unit with its signalling rewritten for `mode`: SDR
/// colorimetry first where the mode is SDR, then chroma location type 2.
pub open spec fn spec_patch_sps_signaling(unit: Seq<u8>, mode: VideoMode) -> Option<Seq<u8>> {
    match sps_rbsp(unit) {
        None => None,
        Some(rbsp) => {
            let after_color = if mode == VideoMode::Sdr {
                spec_patch_sdr_colorimetry(rbsp)
            } else {
                Some(rbsp)
            };
            match after_color {
                None => None,
                Some(a) => match spec_patch_chroma_type2(a, mode) {
                    None => None,
                    Some(f) => spec_rebuild_unit(unit, f),
                },
            }
        },
    }
}

pub(crate) proof fn lemma_sdr_patch_len(r: Seq<u8>)
    requires
        spec_patch_sdr_colorimetry(r) is Some,
        r.len() <= usize::MAX / 8,
    ensures
        spec_patch_sdr_colorimetry(r).unwrap().len() <= r.len() + 6,
{
    lemma_locate_vui_positions(r);
    let loc = spec_locate_vui(r).unwrap();
    let bits = spec_rbsp_bits(r);
    let n = sdr_patched_bits(bits, loc).len();
    assert(n <= 8 * r.len() + 45);
    assert((n + 7) / 8 <= r.len() + 6);
}

/// Rewrites the colour and chroma signalling of an SPS unit for `mode`.
pub fn patch_sps_signaling(unit: &[u8], mode: VideoMode) -> (r: Option<Vec<u8>>)
    requires
        unit@.len() <= usize::MAX / 32,
    ensures
        match spec_patch_sps_signaling(unit@, mode) {
            None => r is None,
            Some(v) => r matches Some(x) && x@ == v,
        },
{
    let rbsp_original = sps_payload_rbsp(unit)?;
    let rbsp_after_color = if mode == VideoMode::Sdr {
        proof {
            if spec_patch_sdr_colorimetry(rbsp_original@) is Some {
                lemma_sdr_patch_len(rbsp_original@);
            }
        }
        patch_sdr_colorimetry(&rbsp_original)?
    } else {
        rbsp_original
    };
    let rbsp_final = patch_chroma_type2(&rbsp_after_color, mode)?;
    rebuild_unit(unit, &rbsp_final)
}

proof fn lemma_shl_two_pow(z: u32)
    requires
        z < 32,
    ensures
        (1u32 << z) == two_pow(z as nat),
    decreases z,
{
    if z == 0 {
        assert(1u32 << 0u32 == 1) by (bit_vector);
    } else {
        lemma_shl_two_pow((z - 1) as u32);
        let y = (z - 1) as u32;
        assert(y < 31 ==> (1u32 << (y + 1) as u32) == (1u32 << y) * 2) by (bit_vector);
    }
}

proof fn lemma_unpack_byte(b0: u8, b1: u8, b2: u8, b3: u8, b4: u8, b5: u8, b6: u8, b7: u8)
    requires
        b0 <= 1 && b1 <= 1 && b2 <= 1 && b3 <= 1 && b4 <= 1 && b5 <= 1 && b6 <= 1 && b7 <= 1,
    ensures
        ({
            let v = (b0 * 128 + b1 * 64 + b2 * 32 + b3 * 16 + b4 * 8 + b5 * 4 + b6 * 2 + b7) as u8;
            &&& (v >> 7u8) & 1u8 == b0
            &&& (v >> 6u8) & 1u8 == b1
            &&& (v >> 5u8) & 1u8 == b2
            &&& (v >> 4u8) & 1u8 == b3
            &&& (v >> 3u8) & 1u8 == b4
            &&& (v >> 2u8) & 1u8 == b5
            &&& (v >> 1u8) & 1u8 == b6
            &&& (v >> 0u8) & 1u8 == b7
        }),
{
    assert({
        let v = (b0 * 128 + b1 * 64 + b2 * 32 + b3 * 16 + b4 * 8 + b5 * 4 + b6 * 2 + b7) as u8;
        &&& (v >> 7u8) & 1u8 == b0
        &&& (v >> 6u8) & 1u8 == b1
        &&& (v >> 5u8) & 1u8 == b2
        &&& (v >> 4u8) & 1u8 == b3
        &&& (v >> 3u8) & 1u8 == b4
        &&& (v >> 2u8) & 1u8 == b5
        &&& (v >> 1u8) & 1u8 == b6
        &&& (v >> 0u8) & 1u8 == b7
    }) by (bit_vector)
        requires
            b0 <= 1 && b1 <= 1 && b2 <= 1 && b3 <= 1 && b4 <= 1 && b5 <= 1 && b6 <= 1 && b7 <= 1,
    ;
}

/// The bit of `bits` at `i` as packing takes it: its lowest bit, zero past
/// the end.
pub open spec fn packed_bit(bits: Seq<u8>, i: int) -> u8 {
    if 0 <= i < bits.len() {
        bits[i] % 2
    } else {
        0
    }
}

/// Packing bits into bytes puts each bit, as its lowest bit, at its own
/// position, most significant first, and pads the last byte with zeros.
pub proof fn lemma_bits_to_rbsp_bits(bits: Seq<u8>)
    ensures
        spec_bits_to_rbsp(bits).len() == (bits.len() + 7) / 8,
        forall|k: int|
            0 <= k < 8 * spec_bits_to_rbsp(bits).len() ==> bit_at(spec_bits_to_rbsp(bits), k)
                == #[trigger] packed_bit(bits, k),
{
    let out = spec_bits_to_rbsp(bits);
    assert forall|k: int| 0 <= k < 8 * out.len() implies bit_at(out, k) == #[trigger] packed_bit(bits, k) by {
        let q = k / 8;
        let j = k % 8;
        assert(0 <= q < out.len());
        let s = 8 * q;
        reveal_with_fuel(packed_prefix, 9);
        lemma_unpack_byte(
            packed_bit(bits, s),
            packed_bit(bits, s + 1),
            packed_bit(bits, s + 2),
            packed_bit(bits, s + 3),
            packed_bit(bits, s + 4),
            packed_bit(bits, s + 5),
            packed_bit(bits, s + 6),
            packed_bit(bits, s + 7),
        );
        assert(packed_prefix(bits, s, 8) == packed_bit(bits, s) * 128 + packed_bit(bits, s + 1) * 64
            + packed_bit(bits, s + 2) * 32 + packed_bit(bits, s + 3) * 16 + packed_bit(bits, s + 4) * 8
            + packed_bit(bits, s + 5) * 4 + packed_bit(bits, s + 6) * 2 + packed_bit(bits, s + 7));
        assert(k == s + j);
    }
}

/// The located VUI flags and colour values are the bits of `d` at the
/// located positions, and an absent VUI records nothing else.
pub open spec fn vui_matches_bits(loc: VuiLocation, d: Seq<u8>) -> bool {
    &&& bit_at(d, loc.vui_present_flag_pos as int) == (if loc.vui_present { 1nat } else { 0nat })
    &&& !loc.vui_present ==> {
        &&& loc.video_signal_present_flag_pos is None
        &&& !loc.video_signal_present
        &&& loc.video_format_pos is None
        &&& loc.full_range_pos is None
        &&& loc.colour_description_flag_pos is None
        &&& !loc.colour_description_present
        &&& loc.colour_primaries_pos is None
        &&& loc.transfer_characteristics_pos is None
        &&& loc.matrix_coeffs_pos is None
        &&& loc.colour_primaries_value is None
        &&& loc.transfer_characteristics_value is None
        &&& loc.matrix_coeffs_value is None
        &&& loc.chroma_loc_info_present_flag_pos is None
        &&& !loc.chroma_loc_info_present
        &&& loc.chroma_top_ue_start is None
        &&& loc.chroma_top_ue_end is None
        &&& loc.chroma_bottom_ue_start is None
        &&& loc.chroma_bottom_ue_end is None
    }
    &&& loc.vui_present ==> {
        &&& bit_at(d, loc.video_signal_present_flag_pos.unwrap() as int) == (if loc.video_signal_present { 1nat } else { 0nat })
        &&& bit_at(d, loc.chroma_loc_info_present_flag_pos.unwrap() as int) == (if loc.chroma_loc_info_present { 1nat } else { 0nat })
        &&& !loc.video_signal_present ==> !loc.colour_description_present && loc.colour_primaries_value is None
            && loc.transfer_characteristics_value is None && loc.matrix_coeffs_value is None
        &&& loc.video_signal_present ==> bit_at(d, loc.colour_description_flag_pos.unwrap() as int) == (if loc.colour_description_present { 1nat } else { 0nat })
        &&& loc.colour_description_present ==> {
            &&& loc.colour_primaries_value == Some(bits_value(d, loc.colour_primaries_pos.unwrap() as int, 8) as u8)
            &&& loc.transfer_characteristics_value == Some(bits_value(d, loc.transfer_characteristics_pos.unwrap() as int, 8) as u8)
            &&& loc.matrix_coeffs_value == Some(bits_value(d, loc.matrix_coeffs_pos.unwrap() as int, 8) as u8)
        }
        &&& !loc.colour_description_present ==> loc.colour_primaries_value is None
            && loc.transfer_characteristics_value is None && loc.matrix_coeffs_value is None
    }
}

pub(crate) proof fn lemma_read_flag(d: Seq<u8>, pos: int)
    requires
        spec_read_bits(d, pos, 1) is Some,
    ensures
        bits_value(d, pos, 1) == bit_at(d, pos),
        (spec_read_bits(d, pos, 1).unwrap().0 != 0) == (bit_at(d, pos) == 1),
{
    lemma_bit_at_le1(d, pos);
    reveal_with_fuel(bits_value, 2);
    assert(bits_value(d, pos, 0) == 0);
    assert(bits_value(d, pos, 1) == bit_at(d, pos));
}

pub(crate) proof fn lemma_vui_from_bits(d: Seq<u8>, pos: int)
    requires
        spec_vui_from(d, pos) is Some,
        d.len() <= usize::MAX / 8,
    ensures
        vui_matches_bits(spec_vui_from(d, pos).unwrap(), d),
{
    lemma_read_flag(d, pos);
    lemma_vui_positions(d, pos);
    let (present, p0) = spec_read_bits(d, pos, 1).unwrap();
    if present != 0 {
        let sp = vui_signal_flag_pos(d, p0).unwrap();
        lemma_vui_signal_bounds(d, sp);
        lemma_read_flag(d, sp);
        let (vs, vf, fr, cdf, cd, cpp, cpv, tcp, tcv, mcp, mcv, cl) = vui_signal(d, sp).unwrap();
        if vs {
            let (_p1) = bits_after(d, bits_after(d, Some(sp + 1), 3), 1).unwrap();
            lemma_read_flag(d, sp + 5);
        }
        lemma_vui_chroma_bounds(d, cl);
        lemma_read_flag(d, cl);
    }
}

/// What `locate_vui` records is read off the input: each located flag is
/// the input's bit at its position, each colour value the input's 8 bits
/// at its position, every position lies within the input, and an absent
/// VUI records no further field.
pub proof fn lemma_locate_vui_bits(d: Seq<u8>)
    requires
        spec_locate_vui(d) is Some,
        d.len() <= usize::MAX / 8,
    ensures
        vui_positions_ok(spec_locate_vui(d).unwrap(), 8 * d.len() as int),
        vui_matches_bits(spec_locate_vui(d).unwrap(), d),
{
    lemma_locate_vui_positions(d);
    reveal(spec_locate_vui);
    let (p0, _m, log2) = sps_to_ordering(d).unwrap();
    let p1 = sps_coding_tools(d, p0).unwrap();
    let (n, p2) = spec_read_ue(d, p1).unwrap();
    let p3 = st_rps_from(d, p2, 0, n as int, seq![]).unwrap();
    let p4 = sps_long_term(d, p3, log2).unwrap();
    lemma_vui_from_bits(d, p4);
}

/// Every field a located VUI records comes after its present flag.
pub open spec fn vui_fields_after_flag(loc: VuiLocation) -> bool {
    let f = loc.vui_present_flag_pos as int;
    loc.vui_present ==> {
        &&& loc.video_signal_present_flag_pos.unwrap() > f
        &&& loc.chroma_loc_info_present_flag_pos.unwrap() > f
        &&& loc.video_signal_present ==> loc.video_format_pos.unwrap() > f
        &&& loc.colour_description_present ==> loc.colour_primaries_pos.unwrap() > f
        &&& loc.chroma_loc_info_present ==> loc.chroma_top_ue_start.unwrap() > f
    }
}

pub(crate) proof fn lemma_vui_from_order(d: Seq<u8>, pos: int)
    requires
        spec_vui_from(d, pos) is Some,
        d.len() <= usize::MAX / 8,
    ensures
        vui_fields_after_flag(spec_vui_from(d, pos).unwrap()),
        spec_vui_from(d, pos).unwrap().vui_present_flag_pos == pos,
{
    lemma_vui_positions(d, pos);
    let (present, p0) = spec_read_bits(d, pos, 1).unwrap();
    if present != 0 {
        let sp = vui_signal_flag_pos(d, p0).unwrap();
        assert(sp >= p0);
        lemma_vui_signal_bounds(d, sp);
        let cl = vui_signal(d, sp).unwrap().11;
        lemma_vui_chroma_bounds(d, cl);
    }
}

pub(crate) proof fn lemma_locate_vui_order(d: Seq<u8>)
    requires
        spec_locate_vui(d) is Some,
        d.len() <= usize::MAX / 8,
    ensures
        vui_fields_after_flag(spec_locate_vui(d).unwrap()),
{
    reveal(spec_locate_vui);
    let (p0, _m, log2) = sps_to_ordering(d).unwrap();
    let p1 = sps_coding_tools(d, p0).unwrap();
    let (n, p2) = spec_read_ue(d, p1).unwrap();
    let p3 = st_rps_from(d, p2, 0, n as int, seq![]).unwrap();
    let p4 = sps_long_term(d, p3, log2).unwrap();
    lemma_vui_from_order(d, p4);
}

proof fn lemma_packed_prefix_kept(r: Seq<u8>, b: Seq<u8>, n: int)
    requires
        0 <= n <= 8 * r.len(),
        n <= b.len(),
        forall|k: int| 0 <= k < n ==> b[k] == spec_rbsp_bits(r)[k],
    ensures
        8 * spec_bits_to_rbsp(b).len() >= b.len(),
        forall|k: int| 0 <= k < n ==> #[trigger] bit_at(spec_bits_to_rbsp(b), k) == bit_at(r, k),
{
    lemma_bits_to_rbsp_bits(b);
    assert forall|k: int| 0 <= k < n implies #[trigger] bit_at(spec_bits_to_rbsp(b), k) == bit_at(r, k) by {
        lemma_bit_at_le1(r, k);
        assert(packed_bit(b, k) == b[k] % 2);
    }
}

/// Patching the colorimetry fails exactly when the VUI cannot be located,
/// and keeps every bit before the vui_parameters_present_flag.
pub proof fn lemma_patch_sdr_keeps_prefix(r: Seq<u8>)
    requires
        r.len() <= usize::MAX / 8,
    ensures
        spec_patch_sdr_colorimetry(r) is None <==> spec_locate_vui(r) is None,
        spec_patch_sdr_colorimetry(r) matches Some(out) ==> {
            let f = spec_locate_vui(r).unwrap().vui_present_flag_pos as int;
            &&& f < 8 * out.len()
            &&& forall|k: int| 0 <= k < f ==> #[trigger] bit_at(out, k) == bit_at(r, k)
        },
{
    if spec_locate_vui(r) is Some {
        let loc = spec_locate_vui(r).unwrap();
        lemma_locate_vui_positions(r);
        lemma_locate_vui_order(r);
        let bits = spec_rbsp_bits(r);
        let b = sdr_patched_bits(bits, loc);
        let f = loc.vui_present_flag_pos as int;
        assert(b.len() >= bits.len());
        assert(b.len() > f);
        assert forall|k: int| 0 <= k < f implies b[k] == bits[k] by {}
        lemma_packed_prefix_kept(r, b, f);
    }
}

/// Patching the chroma sample location fails exactly when the VUI cannot be
/// located, and keeps every bit before the vui_parameters_present_flag.
pub proof fn lemma_patch_chroma_keeps_prefix(r: Seq<u8>, mode: VideoMode)
    requires
        r.len() <= usize::MAX / 8,
    ensures
        spec_patch_chroma_type2(r, mode) is None <==> spec_locate_vui(r) is None,
        spec_patch_chroma_type2(r, mode) matches Some(out) ==> {
            let f = spec_locate_vui(r).unwrap().vui_present_flag_pos as int;
            &&& f < 8 * out.len()
            &&& forall|k: int| 0 <= k < f ==> #[trigger] bit_at(out, k) == bit_at(r, k)
        },
{
    if spec_locate_vui(r) is Some {
        let loc = spec_locate_vui(r).unwrap();
        lemma_locate_vui_positions(r);
        lemma_locate_vui_order(r);
        let bits = spec_rbsp_bits(r);
        let b = chroma_patched_bits(bits, loc, mode);
        let f = loc.vui_present_flag_pos as int;
        assert(b.len() > f);
        assert forall|k: int| 0 <= k < f implies b[k] == bits[k] by {}
        lemma_packed_prefix_kept(r, b, f);
    }
}

/// Patching an SPS unit keeps its start code and NAL header.
pub proof fn lemma_patch_sps_keeps_header(unit: Seq<u8>, mode: VideoMode)
    ensures
        spec_patch_sps_signaling(unit, mode) matches Some(out) ==> {
            let sc = spec_start_code_length(unit).unwrap() as int;
            out.take(sc + 2) == unit.take(sc + 2)
        },
{
    if spec_patch_sps_signaling(unit, mode) is Some {
        let out = spec_patch_sps_signaling(unit, mode).unwrap();
        let sc = spec_start_code_length(unit).unwrap() as int;
        assert(out.take(sc + 2) =~= unit.take(sc + 2));
    }
}


proof fn lemma_significant_bits_range(c: nat)
    requires
        c >= 1,
    ensures
        significant_bits(c) >= 1,
        two_pow((significant_bits(c) - 1) as nat) <= c < two_pow(significant_bits(c)),
    decreases c,
{
    let h = c / 2;
    assert(significant_bits(c) == 1 + significant_bits(h));
    if c >= 2 {
        lemma_significant_bits_range(h);
        let m = significant_bits(h);
        assert(two_pow(m) == two_pow((m - 1) as nat) * 2) by {
            assert(two_pow(((m - 1) + 1) as nat) == 2 * two_pow((m - 1) as nat));
        }
        assert(two_pow(m + 1) == 2 * two_pow(m));
        assert((1 + m - 1) as nat == m);
    } else {
        assert(significant_bits(0) == 0);
        assert(two_pow(0) == 1);
        assert(two_pow(1) == 2) by {
            assert(two_pow(1) == 2 * two_pow(0));
        }
    }
}

proof fn lemma_shift_top(c: u32, z: u32)
    requires
        z < 32,
        (1u32 << z) <= c,
        z == 31 || c < (1u32 << (z + 1) as u32),
    ensures
        c >> z == 1u32,
        c >> 0u32 == c,
{
    assert(c >> z == 1u32 && c >> 0u32 == c) by (bit_vector)
        requires
            z < 32,
            (1u32 << z) <= c,
            z == 31 || c < (1u32 << (z + 1) as u32),
    ;
}

proof fn lemma_shift_step(c: u32, s: u32)
    requires
        s < 31,
    ensures
        (c >> s) == 2 * (c >> (s + 1) as u32) + ((c >> s) & 1u32),
{
    assert(s < 31 ==> (c >> s) == 2 * (c >> (s + 1) as u32) + ((c >> s) & 1u32)) by (bit_vector);
}

proof fn lemma_ue_zeros_run(d: Seq<u8>, j: int, z: int)
    requires
        0 <= j <= z <= 31,
        z < 8 * d.len(),
        forall|i: int| j <= i < z ==> #[trigger] bit_at(d, i) == 0,
        bit_at(d, z) == 1,
    ensures
        ue_zeros(d, 0, j) == Some(z),
    decreases z - j,
{
    if j < z {
        lemma_ue_zeros_run(d, j + 1, z);
    }
}

proof fn lemma_ue_code_bits(value: u32, z: int)
    requires
        value < u32::MAX,
        z == significant_bits(value as nat + 1) - 1,
        0 <= z <= 31,
    ensures
        spec_ue_bits(value).len() == 2 * z + 1,
        8 * spec_bits_to_rbsp(spec_ue_bits(value)).len() >= 2 * z + 1,
        forall|k: int| 0 <= k < 2 * z + 1 ==> #[trigger] bit_at(spec_bits_to_rbsp(spec_ue_bits(value)), k)
            == (if k < z {
            0nat
        } else {
            (((value + 1) as u32 >> ((2 * z - k) as u32)) & 1u32) as nat
        }),
{
    let c: u32 = (value + 1) as u32;
    let b = spec_ue_bits(value);
    let out = spec_bits_to_rbsp(b);
    lemma_bits_to_rbsp_bits(b);
    assert forall|k: int| 0 <= k < 2 * z + 1 implies #[trigger] bit_at(out, k) == (if k < z {
        0nat
    } else {
        ((c >> ((2 * z - k) as u32)) & 1u32) as nat
    }) by {
        assert(packed_bit(b, k) == b[k] % 2);
        if k >= z {
            let x = c >> ((2 * z - k) as u32);
            assert(b[k] == (x & 1u32) as u8);
            assert((x & 1u32) <= 1u32) by (bit_vector);
        }
    }
}

/// Reading back an Exp-Golomb code that was written for `value` gives
/// `value` and ends after the whole code, `2 * significant_bits(value + 1) - 1`
/// bits long.
pub proof fn lemma_read_ue_of_ue_bits(value: u32)
    requires
        value < u32::MAX,
    ensures
        spec_ue_bits(value).len() == 2 * significant_bits(value as nat + 1) - 1,
        spec_read_ue(spec_bits_to_rbsp(spec_ue_bits(value)), 0) == Some(
            (value, spec_ue_bits(value).len() as int),
        ),
{
    let c: u32 = (value + 1) as u32;
    let n = significant_bits(c as nat);
    lemma_significant_bits_range(c as nat);
    lemma_two_pow_64();
    lemma_significant_bits_bound(c as nat, 32);
    let z = (n - 1) as int;
    let out = spec_bits_to_rbsp(spec_ue_bits(value));
    lemma_ue_code_bits(value, z);
    let zu = z as u32;
    lemma_shl_two_pow(zu);
    if zu < 31 {
        lemma_shl_two_pow((zu + 1) as u32);
    }
    lemma_shift_top(c, zu);
    assert(bit_at(out, z) == 1) by {
        assert(bit_at(out, z) == ((c >> zu) & 1u32) as nat);
        assert((1u32 & 1u32) == 1u32) by (bit_vector);
    }
    lemma_ue_zeros_run(out, 0, z);
    lemma_bits_value_after_marker(out, c, z, z as nat);
    assert(((z - z) as u32) == 0u32);
    assert(bits_value(out, z + 1, z as nat) + two_pow(z as nat) == c as nat);
}

proof fn lemma_bits_value_after_marker(out: Seq<u8>, c: u32, z: int, m: nat)
    requires
        0 <= z <= 31,
        m <= z,
        c >> (z as u32) == 1u32,
        forall|k: int| 0 <= k < 2 * z + 1 ==> #[trigger] bit_at(out, k) == (if k < z {
            0nat
        } else {
            ((c >> ((2 * z - k) as u32)) & 1u32) as nat
        }),
    ensures
        bits_value(out, z + 1, m) + two_pow(m) == (c >> ((z - m) as u32)) as nat,
    decreases m,
{
    if m > 0 {
        lemma_bits_value_after_marker(out, c, z, (m - 1) as nat);
        let s = (z - m) as u32;
        assert(bit_at(out, z + 1 + m - 1) == ((c >> s) & 1u32) as nat);
        lemma_shift_step(c, s);
        assert((s + 1) as u32 == (z - (m - 1)) as u32);
    }
}

} // verus!
