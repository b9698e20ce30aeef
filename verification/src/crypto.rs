use aes::cipher::generic_array::GenericArray;
use aes::cipher::{BlockEncrypt, KeyInit};
use aes::Aes128;
use crate::nal::{next_zeros, unescape};
use vstd::prelude::*;
use vstd::utf8::*;

verus! {

#[verifier::external_type_specification]
#[verifier::external_body]
pub struct ExAes128(Aes128);

/// The AES-128 encryption of the 16-byte block `block` under the 16-byte
/// key `key` (FIPS-197).
pub uninterp spec fn aes128_encrypt(key: Seq<u8>, block: Seq<u8>) -> Seq<u8>;

/// An AES-128 block cipher keyed once and used for many blocks.
pub struct AesBlockEncryptor {
    cipher: Aes128,
    key: [u8; 16],
}

impl AesBlockEncryptor {
    /// The key this cipher was made with.
    pub closed spec fn key(&self) -> Seq<u8> {
        self.key@
    }

    /// Keys the cipher (`aes::Aes128::new`); the cipher then encrypts
    /// under `key`.
    #[verifier::external_body]
    pub fn new(key: &[u8; 16]) -> (s: Self)
        ensures
            s.key() == key@,
    {
        Self { cipher: Aes128::new(GenericArray::from_slice(key)), key: *key }
    }

    /// Encrypts one block (`BlockEncrypt::encrypt_block` of `aes::Aes128`):
    /// the result is the AES-128 encryption of `input` under the key the
    /// cipher was made with.
    #[verifier::external_body]
    pub fn encrypt_block(&self, input: &[u8; 16]) -> (out: [u8; 16])
        ensures
            out@ == aes128_encrypt(self.key(), input@),
    {
        let mut block = GenericArray::clone_from_slice(input);
        self.cipher.encrypt_block(&mut block);
        let mut output = [0u8; 16];
        output.copy_from_slice(&block);
        output
    }
}

/// Value of an ASCII hexadecimal digit, if `b` is one.
pub open spec fn hex_value(b: u8) -> Option<u8> {
    if 0x30 <= b <= 0x39 {
        Some((b - 0x30) as u8)
    } else if 0x61 <= b <= 0x66 {
        Some((b - 0x61 + 10) as u8)
    } else if 0x41 <= b <= 0x46 {
        Some((b - 0x41 + 10) as u8)
    } else {
        None
    }
}

/// Value of an ASCII hexadecimal digit, if `value` is one.
pub fn hex_nibble(value: u8) -> (r: Option<u8>)
    ensures
        r == hex_value(value),
{
    if 0x30 <= value && value <= 0x39 {
        Some(value - 0x30)
    } else if 0x61 <= value && value <= 0x66 {
        Some(value - 0x61 + 10)
    } else if 0x41 <= value && value <= 0x46 {
        Some(value - 0x41 + 10)
    } else {
        None
    }
}


/// True when every byte of `s` is an ASCII hexadecimal digit.
pub open spec fn all_hex(s: Seq<u8>) -> bool {
    forall|i: int| 0 <= i < s.len() ==> (#[trigger] hex_value(s[i])) is Some
}

/// The byte written by the hex digits at positions `2 * i` and `2 * i + 1`.
pub open spec fn hex_pair(s: Seq<u8>, i: int) -> u8 {
    (hex_value(s[2 * i]).unwrap() * 16 + hex_value(s[2 * i + 1]).unwrap()) as u8
}

/// The bytes that a string of hex digit pairs denotes.
pub open spec fn decode_hex(s: Seq<u8>) -> Seq<u8> {
    Seq::new(s.len() / 2, |i: int| hex_pair(s, i))
}

/// The 16 bytes written by exactly 32 hex digits, if `s` is that.
pub open spec fn hex16(s: Seq<u8>) -> Option<Seq<u8>> {
    if s.len() == 32 && all_hex(s) {
        Some(decode_hex(s))
    } else {
        None
    }
}

proof fn lemma_nibbles(hi: u8, lo: u8)
    requires
        hi < 16,
        lo < 16,
    ensures
        (hi << 4u8) | lo == hi * 16 + lo,
{
    assert((hi << 4u8) | lo == hi * 16 + lo) by (bit_vector)
        requires
            hi < 16,
            lo < 16,
    ;
}

/// The 16 bytes written by exactly 32 hex digits.
pub fn decode_hex_16(value: &[u8]) -> (r: Option<[u8; 16]>)
    ensures
        r is Some <==> hex16(value@) is Some,
        r matches Some(k) ==> k@ == hex16(value@).unwrap(),
{
    if value.len() != 32 {
        return None;
    }
    let mut out = [0u8; 16];
    let mut i: usize = 0;
    while i < 16
        invariant
            0 <= i <= 16,
            value@.len() == 32,
            forall|j: int| 0 <= j < 2 * i ==> (#[trigger] hex_value(value@[j])) is Some,
            forall|j: int| 0 <= j < i ==> out@[j] == #[trigger] hex_pair(value@, j),
        decreases 16 - i,
    {
        let hi = match hex_nibble(value[i * 2]) {
            Some(v) => v,
            None => {
                return None;
            },
        };
        let lo = match hex_nibble(value[i * 2 + 1]) {
            Some(v) => v,
            None => {
                return None;
            },
        };
        proof {
            lemma_nibbles(hi, lo);
        }
        out[i] = (hi << 4) | lo;
        i += 1;
    }
    assert(out@ =~= decode_hex(value@));
    Some(out)
}


/// Adds one to the big-endian number held in `c[0..i]`, the carry out of
/// the top byte being dropped.
pub open spec fn increment_prefix(c: Seq<u8>, i: int) -> Seq<u8>
    decreases i,
{
    if i <= 0 {
        c
    } else if c[i - 1] == 255 {
        increment_prefix(c.update(i - 1, 0), i - 1)
    } else {
        c.update(i - 1, (c[i - 1] + 1) as u8)
    }
}

/// The successor of a 16-byte big-endian counter block.
pub open spec fn ctr_next(c: Seq<u8>) -> Seq<u8> {
    increment_prefix(c, 16)
}

/// The counter block reached from `c` after `n` increments.
pub open spec fn ctr_advance(c: Seq<u8>, n: nat) -> Seq<u8>
    decreases n,
{
    if n == 0 {
        c
    } else {
        ctr_next(ctr_advance(c, (n - 1) as nat))
    }
}

/// Increments a 16-byte big-endian counter block, wrapping at 2^128.
pub fn ctr_inc(counter: &mut [u8; 16])
    ensures
        final(counter)@ == ctr_next(old(counter)@),
{
    let mut carry: u16 = 1;
    let mut index: usize = 16;
    let ghost start = counter@;
    while index > 0
        invariant_except_break
            0 <= index <= 16,
            carry == 1,
            counter@.len() == 16,
            increment_prefix(counter@, index as int) == ctr_next(start),
        ensures
            counter@ == ctr_next(start),
        decreases index,
    {
        let value: u16 = counter[index - 1] as u16 + carry;
        let byte: u8 = (value & 0xff) as u8;
        assert(value < 256 ==> value & 0xff == value) by (bit_vector);
        assert(value == 256 ==> value & 0xff == 0 && value >> 8u16 == 1) by (bit_vector);
        assert(value < 256 ==> value >> 8u16 == 0) by (bit_vector);
        counter[index - 1] = byte;
        carry = value >> 8;
        if carry == 0 {
            break;
        }
        index -= 1;
    }
}


/// Unicode `White_Space` characters, the ones that `str::trim` removes.
pub open spec fn is_unicode_whitespace(c: char) -> bool {
    let v = c as u32;
    ||| 9 <= v <= 13
    ||| v == 32
    ||| v == 0x85
    ||| v == 0xA0
    ||| v == 0x1680
    ||| 0x2000 <= v <= 0x200A
    ||| v == 0x2028
    ||| v == 0x2029
    ||| v == 0x202F
    ||| v == 0x205F
    ||| v == 0x3000
}

/// `s` without its leading whitespace.
pub open spec fn trim_start(s: Seq<char>) -> Seq<char>
    decreases s.len(),
{
    if s.len() > 0 && is_unicode_whitespace(s[0]) {
        trim_start(s.drop_first())
    } else {
        s
    }
}

/// `s` without its trailing whitespace.
pub open spec fn trim_end(s: Seq<char>) -> Seq<char>
    decreases s.len(),
{
    if s.len() > 0 && is_unicode_whitespace(s.last()) {
        trim_end(s.drop_last())
    } else {
        s
    }
}

/// `s` without leading and trailing whitespace.
pub open spec fn trim(s: Seq<char>) -> Seq<char> {
    trim_end(trim_start(s))
}

/// Whether `c` is Unicode white space.
pub fn is_whitespace_char(c: char) -> (r: bool)
    ensures
        r == is_unicode_whitespace(c),
{
    let v = c as u32;
    (9 <= v && v <= 13) || v == 32 || v == 0x85 || v == 0xA0 || v == 0x1680 || (0x2000 <= v
        && v <= 0x200A) || v == 0x2028 || v == 0x2029 || v == 0x202F || v == 0x205F || v == 0x3000
}

/// The characters of a string slice, in order.
pub fn str_chars(value: &str) -> (r: Vec<char>)
    ensures
        r@ == value@,
{
    let mut out: Vec<char> = Vec::new();
    for c in it: value.chars()
        invariant
            it.seq() == value@,
            out@ == it.seq().take(it.index() as int),
    {
        out.push(c);
    }
    assert(out@ =~= value@);
    out
}

/// Bounds `[start, end)` of `s` without its leading and trailing whitespace.
pub fn trim_bounds(s: &Vec<char>, from: usize, to: usize) -> (r: (usize, usize))
    requires
        from <= to <= s.len(),
    ensures
        from <= r.0 <= r.1 <= to,
        s@.subrange(r.0 as int, r.1 as int) == trim(s@.subrange(from as int, to as int)),
{
    let ghost full = s@.subrange(from as int, to as int);
    let mut start = from;
    while start < to && is_whitespace_char(s[start])
        invariant
            from <= start <= to <= s.len(),
            trim_start(full) == trim_start(s@.subrange(start as int, to as int)),
        decreases to - start,
    {
        assert(s@.subrange(start as int, to as int).drop_first() =~= s@.subrange(
            start + 1,
            to as int,
        ));
        start += 1;
    }
    assert(trim_start(full) == s@.subrange(start as int, to as int));
    let mut end = to;
    while end > start && is_whitespace_char(s[end - 1])
        invariant
            from <= start <= end <= to <= s.len(),
            trim(full) == trim_end(s@.subrange(start as int, end as int)),
        decreases end - start,
    {
        assert(s@.subrange(start as int, end as int).drop_last() =~= s@.subrange(
            start as int,
            end - 1,
        ));
        end -= 1;
    }
    (start, end)
}

/// Why a hex key text was refused.
#[derive(Clone, Copy, Debug, PartialEq, Eq, Structural)]
pub enum HexKeyError {
    /// The text is not 32 bytes long.
    WrongLength,
    /// The text holds a byte that is not a hex digit.
    NotHex,
}

/// What a 128-bit hex key text denotes: the bytes of its trimmed UTF-8
/// encoding must be exactly 32 hex digits.
pub open spec fn spec_hex_key(text: Seq<char>) -> Result<Seq<u8>, HexKeyError> {
    let bytes = encode_utf8(trim(text));
    if bytes.len() != 32 {
        Err(HexKeyError::WrongLength)
    } else if all_hex(bytes) {
        Ok(decode_hex(bytes))
    } else {
        Err(HexKeyError::NotHex)
    }
}

/// Number of bytes in the UTF-8 encoding of `c`.
fn utf8_width(c: char) -> (r: usize)
    ensures
        r == encode_scalar(c as u32).len(),
        r == 1 <==> (c as u32) < 0x80,
{
    proof {
        char_is_scalar(c);
    }
    let v = c as u32;
    if v < 0x80 {
        1
    } else if v < 0x800 {
        2
    } else if v < 0x10000 {
        3
    } else {
        4
    }
}

proof fn lemma_encode_utf8_push(s: Seq<char>, c: char)
    ensures
        encode_utf8(s.push(c)) == encode_utf8(s) + encode_scalar(c as u32),
    decreases s.len(),
{
    if s.len() == 0 {
        assert(s.push(c).drop_first() =~= Seq::<char>::empty());
        assert(encode_utf8(Seq::<char>::empty()) == Seq::<u8>::empty());
        assert(encode_utf8(s.push(c)) =~= encode_scalar(c as u32));
    } else {
        lemma_encode_utf8_push(s.drop_first(), c);
        assert(s.push(c).drop_first() =~= s.drop_first().push(c));
        assert(encode_utf8(s.push(c)) =~= encode_utf8(s) + encode_scalar(c as u32));
    }
}

proof fn lemma_non_ascii_leading_byte(c: char)
    requires
        (c as u32) >= 0x80,
    ensures
        encode_scalar(c as u32).len() >= 2,
        encode_scalar(c as u32)[0] >= 0xC0,
{
    char_is_scalar(c);
    let v = c as u32;
    if has_width_2_encoding(v) {
        assert(0xC0u8 | ((v >> 6u32) & 0x1Fu32) as u8 >= 0xC0) by (bit_vector);
    } else if has_width_3_encoding(v) {
        assert(0xE0u8 | ((v >> 12u32) & 0x0Fu32) as u8 >= 0xC0) by (bit_vector);
    } else {
        assert(0xF0u8 | ((v >> 18u32) & 0x7u32) as u8 >= 0xC0) by (bit_vector);
    }
}

/// Parses 32 hex digits (surrounding whitespace allowed) into 16 bytes.
pub fn parse_hex_key(value: &Vec<char>, from: usize, to: usize) -> (r: Result<[u8; 16], HexKeyError>)
    requires
        from <= to <= value.len(),
    ensures
        match spec_hex_key(value@.subrange(from as int, to as int)) {
            Ok(k) => r matches Ok(key) && key@ == k,
            Err(e) => r == Err::<[u8; 16], HexKeyError>(e),
        },
{
    let (start, end) = trim_bounds(value, from, to);
    let ghost t = value@.subrange(start as int, end as int);
    // byte length of the encoding of the trimmed text, capped above 32
    let mut width: usize = 0;
    let mut ascii = true;
    let mut i = start;
    while i < end && width <= 32
        invariant
            start <= i <= end <= value.len(),
            t == value@.subrange(start as int, end as int),
            width == encode_utf8(value@.subrange(start as int, i as int)).len(),
            width <= 36,
            ascii <==> is_ascii_chars(value@.subrange(start as int, i as int)),
        decreases end - i,
    {
        let w = utf8_width(value[i]);
        proof {
            assert(value@.subrange(start as int, i + 1) =~= value@.subrange(
                start as int,
                i as int,
            ).push(value@[i as int]));
            lemma_encode_utf8_push(value@.subrange(start as int, i as int), value@[i as int]);
        }
        width += w;
        if w != 1 {
            ascii = false;
        }
        proof {
            let p = value@.subrange(start as int, i as int);
            let q = value@.subrange(start as int, i + 1);
            assert(q =~= p.push(value@[i as int]));
            if is_ascii_chars(q) {
                assert(q[i - start] == value@[i as int]);
            }
            if ascii && w == 1 {
                assert forall|j| 0 <= j < q.len() implies '\0' <= #[trigger] q[j] <= '\u{7f}' by {
                    if j < p.len() {
                        assert(q[j] == p[j]);
                    } else {
                        assert(q[j] == value@[i as int]);
                        lemma_ascii_char(value@[i as int]);
                    }
                }
            }
            if !ascii && w == 1 && is_ascii_chars(q) {
                assert forall|j| 0 <= j < p.len() implies '\0' <= #[trigger] p[j] <= '\u{7f}' by {
                    assert(q[j] == p[j]);
                }
            }
        }
        i += 1;
    }
    if width != 32 || i != end {
        proof {
            if i != end {
                // the encoding of the whole is at least that of a prefix
                lemma_encode_prefix_len(t, (i - start) as int);
                assert(value@.subrange(start as int, i as int) =~= t.take((i - start) as int));
            }
        }
        return Err(HexKeyError::WrongLength);
    }
    assert(value@.subrange(start as int, i as int) =~= t);
    if !ascii {
        proof {
            lemma_non_ascii_non_hex(t);
        }
        return Err(HexKeyError::NotHex);
    }
    proof {
        is_ascii_chars_encode_utf8(t);
    }
    let mut out = [0u8; 16];
    let mut k: usize = 0;
    while k < 16
        invariant
            0 <= k <= 16,
            end == start + 32,
            end <= value.len(),
            t == value@.subrange(start as int, end as int),
            from <= to <= value.len(),
            t == trim(value@.subrange(from as int, to as int)),
            is_ascii_chars(t),
            encode_utf8(t).len() == 32,
            forall|j: int| 0 <= j < 32 ==> t[j] as u8 == #[trigger] encode_utf8(t)[j],
            forall|j: int| 0 <= j < 2 * k ==> (#[trigger] hex_value(encode_utf8(t)[j])) is Some,
            forall|j: int| 0 <= j < k ==> out@[j] == #[trigger] hex_pair(encode_utf8(t), j),
        decreases 16 - k,
    {
        let c_hi = value[start + 2 * k];
        let c_lo = value[start + 2 * k + 1];
        assert(c_hi == t[2 * k as int]);
        assert(c_lo == t[2 * k + 1]);
        proof {
            is_ascii_chars_nat_bound(t);
        }
        assert(encode_utf8(t)[2 * k as int] == c_hi as u8);
        assert(encode_utf8(t)[2 * k + 1] == c_lo as u8);
        let hi = match hex_nibble(c_hi as u8) {
            Some(v) => v,
            None => {
                return Err(HexKeyError::NotHex);
            },
        };
        let lo = match hex_nibble(c_lo as u8) {
            Some(v) => v,
            None => {
                return Err(HexKeyError::NotHex);
            },
        };
        proof {
            lemma_nibbles(hi, lo);
        }
        out[k] = (hi << 4) | lo;
        k += 1;
    }
    assert(out@ =~= decode_hex(encode_utf8(t)));
    Ok(out)
}

proof fn lemma_encode_prefix_len(t: Seq<char>, n: int)
    requires
        0 <= n <= t.len(),
    ensures
        encode_utf8(t.take(n)).len() <= encode_utf8(t).len(),
    decreases t.len() - n,
{
    if n == t.len() {
        assert(t.take(n) =~= t);
    } else {
        lemma_encode_prefix_len(t, n + 1);
        assert(t.take(n + 1) =~= t.take(n).push(t[n]));
        lemma_encode_utf8_push(t.take(n), t[n]);
    }
}

proof fn lemma_ascii_char(c: char)
    requires
        (c as u32) < 0x80,
    ensures
        '\0' <= c <= '\u{7f}',
{
}

proof fn lemma_non_ascii_non_hex(t: Seq<char>)
    requires
        !is_ascii_chars(t),
    ensures
        !all_hex(encode_utf8(t)),
    decreases t.len(),
{
    if t.len() > 0 {
        if (t[0] as u32) >= 0x80 {
            lemma_non_ascii_leading_byte(t[0]);
            assert(encode_utf8(t)[0] == encode_scalar(t[0] as u32)[0]);
            assert(hex_value(encode_utf8(t)[0]) is None);
        } else {
            assert(!is_ascii_chars(t.drop_first())) by {
                if is_ascii_chars(t.drop_first()) {
                    assert forall|i| 0 <= i < t.len() implies '\0' <= #[trigger] t[i] <= '\u{7f}' by {
                        if i > 0 {
                            assert(t[i] == t.drop_first()[i - 1]);
                        } else {
                            lemma_ascii_char(t[0]);
                        }
                    }
                }
            }
            lemma_non_ascii_non_hex(t.drop_first());
            let w = encode_scalar(t[0] as u32).len() as int;
            let j = choose|j: int|
                0 <= j < encode_utf8(t.drop_first()).len() && !(#[trigger] hex_value(
                    encode_utf8(t.drop_first())[j],
                ) is Some);
            assert(encode_utf8(t)[w + j] == encode_utf8(t.drop_first())[j]);
        }
    }
}


/// Why a `KID:KEY` text was refused.
#[derive(Clone, Copy, Debug, PartialEq, Eq, Structural)]
pub enum KeySpecError {
    /// The text is not two parts joined by a single `:`.
    Format,
    /// The key id is not 32 hex digits.
    Kid(HexKeyError),
    /// The AES key is not 32 hex digits.
    Key(HexKeyError),
}

/// True when `i` is the position of the first `c` in `s`.
pub open spec fn is_first_index(s: Seq<char>, c: char, i: int) -> bool {
    0 <= i < s.len() && s[i] == c && forall|j: int| 0 <= j < i ==> s[j] != c
}

/// What a `KID:KEY` text denotes: the AES key, after the key id has been
/// checked too.
pub open spec fn spec_key_spec(text: Seq<char>) -> Result<Seq<u8>, KeySpecError> {
    let t = trim(text);
    if !t.contains(':') {
        Err(KeySpecError::Format)
    } else {
        let i = choose|i: int| is_first_index(t, ':', i);
        let kid = t.take(i);
        let key = t.skip(i + 1);
        if key.contains(':') {
            Err(KeySpecError::Format)
        } else {
            match spec_hex_key(kid) {
                Err(e) => Err(KeySpecError::Kid(e)),
                Ok(_) => match spec_hex_key(key) {
                    Err(e) => Err(KeySpecError::Key(e)),
                    Ok(k) => Ok(k),
                },
            }
        }
    }
}

/// Parses a `KID:KEY` pair of 32-hex-digit fields and returns the key.
pub fn parse_key_spec(value: &str) -> (r: Result<[u8; 16], KeySpecError>)
    ensures
        match spec_key_spec(value@) {
            Ok(k) => r matches Ok(key) && key@ == k,
            Err(e) => r == Err::<[u8; 16], KeySpecError>(e),
        },
{
    let chars = str_chars(value);
    let (start, end) = trim_bounds(&chars, 0, chars.len());
    let ghost t = chars@.subrange(start as int, end as int);
    assert(chars@.subrange(0, chars@.len() as int) =~= value@);
    let mut i = start;
    while i < end && chars[i] != ':'
        invariant
            start <= i <= end <= chars.len(),
            forall|j: int| start <= j < i ==> chars@[j] != ':',
        decreases end - i,
    {
        i += 1;
    }
    if i == end {
        assert forall|j: int| 0 <= j < t.len() implies t[j] != ':' by {
            assert(t[j] == chars@[start + j]);
        }
        return Err(KeySpecError::Format);
    }
    assert(is_first_index(t, ':', i - start)) by {
        assert forall|j: int| 0 <= j < i - start implies t[j] != ':' by {
            assert(t[j] == chars@[start + j]);
        }
    }
    assert(t.contains(':')) by {
        assert(t[i - start] == ':');
    }
    let ghost ci = choose|c: int| is_first_index(t, ':', c);
    assert(ci == i - start) by {
        if ci < i - start {
            assert(t[ci] == chars@[start + ci]);
        }
        if ci > i - start {
            assert(t[i - start] == ':');
        }
    }
    let mut j = i + 1;
    while j < end
        invariant
            start <= i < j <= end <= chars.len(),
            t == chars@.subrange(start as int, end as int),
            t == trim(value@),
            t.contains(':'),
            ci == i - start,
            is_first_index(t, ':', ci),
            forall|m: int| i < m < j ==> chars@[m] != ':',
        decreases end - j,
    {
        if chars[j] == ':' {
            assert(t.skip(i - start + 1)[j - i - 1] == ':');
            return Err(KeySpecError::Format);
        }
        j += 1;
    }
    let ghost rest = t.skip(i - start + 1);
    assert(!rest.contains(':')) by {
        assert forall|m: int| 0 <= m < rest.len() implies #[trigger] rest[m] != ':' by {
            assert(rest[m] == chars@[i + 1 + m]);
        }
    }
    assert(chars@.subrange(start as int, i as int) =~= t.take(i - start));
    assert(chars@.subrange(i + 1, end as int) =~= t.skip(i - start + 1));
    match parse_hex_key(&chars, start, i) {
        Err(e) => {
            return Err(KeySpecError::Kid(e));
        },
        Ok(_) => {},
    }
    match parse_hex_key(&chars, i + 1, end) {
        Err(e) => Err(KeySpecError::Key(e)),
        Ok(k) => Ok(k),
    }
}


/// `s` with every `00 00 03` triple, scanned left to right without
/// overlap, replaced by `00 00`.
pub open spec fn strip_emulation(s: Seq<u8>) -> Seq<u8>
    decreases s.len(),
{
    if s.len() == 0 {
        s
    } else if s.len() >= 3 && s[0] == 0 && s[1] == 0 && s[2] == 3 {
        seq![0u8, 0u8] + strip_emulation(s.skip(3))
    } else {
        seq![s[0]] + strip_emulation(s.skip(1))
    }
}

proof fn lemma_strip_emulation_len(s: Seq<u8>)
    ensures
        strip_emulation(s).len() <= s.len(),
    decreases s.len(),
{
    if s.len() == 0 {
    } else if s.len() >= 3 && s[0] == 0 && s[1] == 0 && s[2] == 3 {
        lemma_strip_emulation_len(s.skip(3));
    } else {
        lemma_strip_emulation_len(s.skip(1));
    }
}

/// The keystream block used for the `k`-th 16-byte block of a sample of
/// `len` bytes: every tenth block, and the last one, is the AES encryption
/// of the counter; the others are the counter itself.
pub open spec fn sparse_keystream_block(key: Seq<u8>, iv: Seq<u8>, k: int, len: int) -> Seq<u8> {
    let counter = ctr_advance(iv, (k + 1) as nat);
    if len - 16 * k <= 16 || k % 10 == 0 {
        aes128_encrypt(key, counter)
    } else {
        counter
    }
}

/// `data` XORed with the sparse keystream.
pub open spec fn sparse_ctr_xor(key: Seq<u8>, iv: Seq<u8>, data: Seq<u8>) -> Seq<u8> {
    Seq::new(
        data.len(),
        |j: int| data[j] ^ sparse_keystream_block(key, iv, j / 16, data.len() as int)[j % 16],
    )
}

/// What decrypting an elementary stream sample gives: emulation prevention
/// removed, the sparse keystream applied, and the tail of the input
/// appended so that the length is kept.
pub open spec fn spec_decrypt_es_sparse(key: Seq<u8>, iv: Seq<u8>, es: Seq<u8>) -> Seq<u8> {
    let stripped = strip_emulation(es);
    sparse_ctr_xor(key, iv, stripped) + es.subrange(stripped.len() as int, es.len() as int)
}

proof fn lemma_ctr_len(c: Seq<u8>, i: int)
    requires
        0 <= i <= c.len(),
    ensures
        increment_prefix(c, i).len() == c.len(),
    decreases i,
{
    if i > 0 {
        if c[i - 1] == 255 {
            lemma_ctr_len(c.update(i - 1, 0), i - 1);
        }
    }
}

proof fn lemma_ctr_advance_len(c: Seq<u8>, n: nat)
    requires
        c.len() == 16,
    ensures
        ctr_advance(c, n).len() == 16,
    decreases n,
{
    if n > 0 {
        lemma_ctr_advance_len(c, (n - 1) as nat);
        lemma_ctr_len(ctr_advance(c, (n - 1) as nat), 16);
    }
}

fn strip_emulation_prevention(es: &[u8]) -> (r: Vec<u8>)
    ensures
        r@ == strip_emulation(es@),
{
    let mut stripped: Vec<u8> = Vec::with_capacity(es.len());
    let mut index: usize = 0;
    assert(es@.skip(0) =~= es@);
    assert(stripped@ + strip_emulation(es@) =~= strip_emulation(es@));
    while index < es.len()
        invariant
            index <= es.len(),
            stripped@ + strip_emulation(es@.skip(index as int)) == strip_emulation(es@),
        decreases es.len() - index,
    {
        let ghost rest = es@.skip(index as int);
        if es.len() - index > 2 && es[index] == 0x00 && es[index + 1] == 0x00 && es[index + 2]
            == 0x03 {
            assert(rest.skip(3) =~= es@.skip(index + 3));
            assert(strip_emulation(rest) == seq![0u8, 0u8] + strip_emulation(rest.skip(3)));
            stripped.push(0x00);
            stripped.push(0x00);
            index += 3;
            assert(stripped@ + strip_emulation(es@.skip(index as int)) =~= strip_emulation(es@));
        } else {
            assert(rest.skip(1) =~= es@.skip(index + 1));
            assert(strip_emulation(rest) == seq![es@[index as int]] + strip_emulation(rest.skip(1)));
            stripped.push(es[index]);
            index += 1;
            assert(stripped@ + strip_emulation(es@.skip(index as int)) =~= strip_emulation(es@));
        }
    }
    assert(es@.skip(index as int) =~= Seq::<u8>::empty());
    assert(stripped@ =~= strip_emulation(es@));
    stripped
}

/// Decrypts one sample: removes emulation prevention, applies the sparse
/// AES-CTR keystream starting after `iv_start`, and keeps the length.
pub fn decrypt_es_sparse_with_emulation_removal(
    es: &[u8],
    encryptor: &AesBlockEncryptor,
    iv_start: &[u8; 16],
) -> (r: Vec<u8>)
    ensures
        r@ == spec_decrypt_es_sparse(encryptor.key(), iv_start@, es@),
        r@.len() == es@.len(),
{
    let stripped = strip_emulation_prevention(es);
    proof {
        lemma_strip_emulation_len(es@);
    }
    let ghost plain = stripped@;
    let ghost key = encryptor.key();
    let ghost iv = iv_start@;
    let len = stripped.len();
    let mut counter_iv = *iv_start;
    let mut output = stripped;
    let mut position: usize = 0;
    let mut counter: usize = 0;
    while position < len
        invariant
            len == plain.len(),
            output@.len() == len,
            position == 16 * counter || position == len,
            position <= len,
            position < len ==> position == 16 * counter,
            counter_iv@ == ctr_advance(iv, counter as nat),
            forall|j: int| 0 <= j < position ==> output@[j] == #[trigger] sparse_ctr_xor(key, iv, plain)[j],
            forall|j: int| position <= j < len ==> output@[j] == plain[j],
            key == encryptor.key(),
        decreases len - position,
    {
        ctr_inc(&mut counter_iv);
        let remaining = len - position;
        let mut temporary = counter_iv;
        if remaining <= 16 || counter % 10 == 0 {
            temporary = encryptor.encrypt_block(&temporary);
        }
        assert(temporary@ == sparse_keystream_block(key, iv, counter as int, len as int));
        let decrypt_length = if remaining < 16 { remaining } else { 16 };
        let mut byte_index: usize = 0;
        while byte_index < decrypt_length
            invariant
                len == plain.len(),
                output@.len() == len,
                position == 16 * counter,
                position + decrypt_length <= len,
                decrypt_length <= 16,
                byte_index <= decrypt_length,
                temporary@ == sparse_keystream_block(key, iv, counter as int, len as int),
                forall|j: int| 0 <= j < position + byte_index ==> output@[j] == #[trigger] sparse_ctr_xor(key, iv, plain)[j],
                forall|j: int| position + byte_index <= j < len ==> output@[j] == plain[j],
            decreases decrypt_length - byte_index,
        {
            let p = position + byte_index;
            let v = output[p] ^ temporary[byte_index];
            assert(p / 16 == counter as int && p % 16 == byte_index as int) by (nonlinear_arith)
                requires
                    p == 16 * counter + byte_index,
                    byte_index < 16,
            ;
            output.set(p, v);
            byte_index += 1;
        }
        position += decrypt_length;
        counter += 1;
    }
    assert(output@ =~= sparse_ctr_xor(key, iv, plain));
    if output.len() != es.len() {
        let diff = es.len() - output.len();
        if diff > 0 {
            let mut k = es.len() - diff;
            while k < es.len()
                invariant
                    es.len() - diff <= k <= es.len(),
                    diff == es.len() - len,
                    output@ == sparse_ctr_xor(key, iv, plain) + es@.subrange(
                        (es.len() - diff) as int,
                        k as int,
                    ),
                decreases es.len() - k,
            {
                output.push(es[k]);
                k += 1;
                assert(output@ =~= sparse_ctr_xor(key, iv, plain) + es@.subrange(
                    (es.len() - diff) as int,
                    k as int,
                ));
            }
        }
    }
    assert(output@ =~= spec_decrypt_es_sparse(key, iv, es@));
    output
}

/// Decrypting a sample keeps its length.
pub proof fn lemma_decrypt_es_sparse_len(key: Seq<u8>, iv: Seq<u8>, es: Seq<u8>)
    ensures
        spec_decrypt_es_sparse(key, iv, es).len() == es.len(),
{
    lemma_strip_emulation_len(es);
}

/// `256` to the power `i`.
pub open spec fn pow256(i: nat) -> nat
    decreases i,
{
    if i == 0 {
        1
    } else {
        pow256((i - 1) as nat) * 256
    }
}

/// The number that the first `i` bytes of `s` spell in big-endian order.
pub open spec fn be_prefix(s: Seq<u8>, i: nat) -> nat
    decreases i,
{
    if i == 0 {
        0
    } else {
        be_prefix(s, (i - 1) as nat) * 256 + s[i - 1] as nat
    }
}

proof fn lemma_be_prefix_bound(s: Seq<u8>, i: nat)
    ensures
        be_prefix(s, i) < pow256(i),
    decreases i,
{
    if i > 0 {
        lemma_be_prefix_bound(s, (i - 1) as nat);
        let p = be_prefix(s, (i - 1) as nat);
        let m = pow256((i - 1) as nat);
        let d = s[i - 1] as nat;
        assert(p * 256 + d < m * 256) by (nonlinear_arith)
            requires
                p < m,
                d < 256,
        ;
    }
}

proof fn lemma_be_prefix_same(a: Seq<u8>, b: Seq<u8>, i: nat)
    requires
        i <= a.len(),
        i <= b.len(),
        forall|k: int| 0 <= k < i ==> a[k] == b[k],
    ensures
        be_prefix(a, i) == be_prefix(b, i),
    decreases i,
{
    if i > 0 {
        lemma_be_prefix_same(a, b, (i - 1) as nat);
    }
}

proof fn lemma_increment_prefix(c: Seq<u8>, i: nat)
    requires
        i <= c.len(),
    ensures
        increment_prefix(c, i as int).len() == c.len(),
        forall|k: int| i <= k < c.len() ==> #[trigger] increment_prefix(c, i as int)[k] == c[k],
        be_prefix(increment_prefix(c, i as int), i) == (be_prefix(c, i) + 1) % pow256(i),
    decreases i,
{
    if i == 0 {
    } else {
        let j = (i - 1) as nat;
        let p = be_prefix(c, j);
        lemma_be_prefix_bound(c, j);
        let m = pow256(j);
        if c[i - 1] == 255 {
            let c2 = c.update(i - 1, 0);
            lemma_increment_prefix(c2, j);
            let r = increment_prefix(c2, j as int);
            assert(r[i - 1] == 0);
            lemma_be_prefix_same(c2, c, j);
            assert(be_prefix(r, i) == be_prefix(r, j) * 256);
            assert(be_prefix(c, i) == p * 256 + 255);
            if p + 1 < m {
                assert((p + 1) % m == p + 1) by (nonlinear_arith)
                    requires
                        p + 1 < m,
                ;
                assert((p * 256 + 255 + 1) % (m * 256) == (p + 1) * 256) by (nonlinear_arith)
                    requires
                        p + 1 < m,
                ;
            } else {
                assert(p + 1 == m);
                assert((p + 1) % m == 0) by (nonlinear_arith)
                    requires
                        p + 1 == m,
                        m > 0,
                ;
                assert((p * 256 + 255 + 1) % (m * 256) == 0) by (nonlinear_arith)
                    requires
                        p + 1 == m,
                        m > 0,
                ;
            }
        } else {
            let r = c.update(i - 1, (c[i - 1] + 1) as u8);
            lemma_be_prefix_same(r, c, j);
            let d = c[i - 1] as nat;
            assert(be_prefix(r, i) == p * 256 + d + 1);
            assert((p * 256 + d + 1) % (m * 256) == p * 256 + d + 1) by (nonlinear_arith)
                requires
                    p < m,
                    d < 255,
            ;
        }
    }
}

/// Incrementing a counter block adds one to the 128-bit big-endian number
/// it holds, wrapping around at 2^128.
pub proof fn lemma_ctr_next_adds_one(c: Seq<u8>)
    requires
        c.len() == 16,
    ensures
        ctr_next(c).len() == 16,
        be_prefix(ctr_next(c), 16) == (be_prefix(c, 16) + 1) % pow256(16),
{
    lemma_increment_prefix(c, 16);
}

/// Applying the sparse CTR keystream twice gives the data back: the same
/// operation encrypts and decrypts.
pub proof fn lemma_sparse_ctr_involution(key: Seq<u8>, iv: Seq<u8>, data: Seq<u8>)
    ensures
        sparse_ctr_xor(key, iv, sparse_ctr_xor(key, iv, data)) == data,
{
    let once = sparse_ctr_xor(key, iv, data);
    let twice = sparse_ctr_xor(key, iv, once);
    assert forall|j: int| 0 <= j < data.len() implies #[trigger] twice[j] == data[j] by {
        let k = sparse_keystream_block(key, iv, j / 16, data.len() as int)[j % 16];
        let d = data[j];
        assert(once[j] == d ^ k);
        assert((d ^ k) ^ k == d) by (bit_vector);
    }
    assert(twice =~= data);
}

/// An IV made of the first 12 bytes of `k` and four zero bytes.
pub open spec fn iv_from(k: Seq<u8>) -> Seq<u8> {
    k.take(12) + seq![0u8, 0u8, 0u8, 0u8]
}

/// The IV made of the first 12 bytes of `key` and four zero bytes.
pub fn iv_from_key(key: &[u8; 16]) -> (r: [u8; 16])
    ensures
        r@ == iv_from(key@),
{
    let mut iv = [0u8; 16];
    let mut k: usize = 0;
    while k < 12
        invariant
            k <= 12,
            forall|j: int| 0 <= j < k ==> iv@[j] == key@[j],
            forall|j: int| 12 <= j < 16 ==> iv@[j] == 0,
        decreases 12 - k,
    {
        iv[k] = key[k];
        k += 1;
    }
    assert(iv@ =~= iv_from(key@));
    iv
}

/// The keystream of a sample: block `k` of the sample (its bytes
/// `16 * k .. 16 * k + 16`) is XORed with the counter advanced `k + 1` times
/// from the IV, encrypted with AES under the key when `k` is a multiple of
/// 10 or the block is the sample's last, and as it is otherwise. The bytes
/// decrypted are those left once emulation prevention is removed, and the
/// input's tail fills the output up to the input's length.
pub proof fn lemma_sparse_keystream_schedule(key: Seq<u8>, iv: Seq<u8>, es: Seq<u8>)
    ensures
        spec_decrypt_es_sparse(key, iv, es).len() == es.len(),
        forall|j: int|
            0 <= j < strip_emulation(es).len() && (j / 16) % 10 == 0 ==> #[trigger] spec_decrypt_es_sparse(
                key,
                iv,
                es,
            )[j] == strip_emulation(es)[j] ^ aes128_encrypt(key, ctr_advance(iv, (j / 16 + 1) as nat))[j % 16],
        forall|j: int|
            0 <= j < strip_emulation(es).len() && 16 * (j / 16) + 16 >= strip_emulation(es).len()
                ==> #[trigger] spec_decrypt_es_sparse(key, iv, es)[j] == strip_emulation(es)[j]
                ^ aes128_encrypt(key, ctr_advance(iv, (j / 16 + 1) as nat))[j % 16],
        forall|j: int|
            0 <= j < strip_emulation(es).len() && (j / 16) % 10 != 0 && 16 * (j / 16) + 16
                < strip_emulation(es).len() ==> #[trigger] spec_decrypt_es_sparse(key, iv, es)[j]
                == strip_emulation(es)[j] ^ ctr_advance(iv, (j / 16 + 1) as nat)[j % 16],
        forall|j: int|
            strip_emulation(es).len() <= j < es.len() ==> #[trigger] spec_decrypt_es_sparse(key, iv, es)[j]
                == es[j],
{
    lemma_strip_emulation_len(es);
    let s = strip_emulation(es);
    let out = spec_decrypt_es_sparse(key, iv, es);
    let n = s.len() as int;
    assert forall|j: int| 0 <= j < n implies #[trigger] out[j] == s[j] ^ sparse_keystream_block(
        key,
        iv,
        j / 16,
        n,
    )[j % 16] by {}
}

/// `z` zero bytes.
pub open spec fn zero_run(z: int) -> Seq<u8> {
    Seq::new(z as nat, |_i: int| 0u8)
}

proof fn lemma_strip_after_zeros(t: Seq<u8>, z: int)
    requires
        0 <= z <= 2,
    ensures
        strip_emulation(zero_run(z) + t) == zero_run(z) + unescape(t, z),
    decreases t.len(), z,
{
    let s = zero_run(z) + t;
    if t.len() == 0 {
        assert(s =~= zero_run(z));
        let e = Seq::<u8>::empty();
        assert(strip_emulation(e) == e);
        if z == 0 {
            assert(s =~= e);
        } else if z == 1 {
            assert(s.skip(1) =~= e);
            assert(strip_emulation(s) == seq![s[0]] + strip_emulation(s.skip(1)));
        } else {
            let one = zero_run(1);
            assert(one.skip(1) =~= e);
            assert(strip_emulation(one) == seq![one[0]] + strip_emulation(one.skip(1)));
            assert(s.skip(1) =~= one);
            assert(strip_emulation(s) == seq![s[0]] + strip_emulation(s.skip(1)));
        }
        assert(unescape(t, z) =~= e);
        assert(strip_emulation(s) =~= zero_run(z) + unescape(t, z));
    } else if z == 2 && t[0] == 3 {
        assert(s.skip(3) =~= t.drop_first());
        lemma_strip_after_zeros(t.drop_first(), 0);
        assert(zero_run(0) + t.drop_first() =~= t.drop_first());
        assert(seq![0u8, 0u8] =~= zero_run(2));
        assert(zero_run(0) + unescape(t.drop_first(), 0) =~= unescape(t.drop_first(), 0));
        assert(s.len() >= 3 && s[0] == 0 && s[1] == 0 && s[2] == 3);
        assert(strip_emulation(s) =~= zero_run(z) + unescape(t, z));
    } else if z == 0 {
        if t.len() >= 3 && t[0] == 0 && t[1] == 0 && t[2] == 3 {
            lemma_strip_after_zeros(t.drop_first(), 1);
            assert(zero_run(1) + t.drop_first() =~= t);
            assert(zero_run(0) + t =~= t);
            assert(zero_run(0) + unescape(t, 0) =~= unescape(t, 0));
            assert(strip_emulation(s) =~= zero_run(z) + unescape(t, z));
        } else {
            let z1 = next_zeros(0, t[0]);
            lemma_strip_after_zeros(t.drop_first(), z1);
            assert(zero_run(0) + t =~= t);
            assert(s.skip(1) =~= t.drop_first());
            if t[0] == 0 {
                assert(zero_run(1) + t.drop_first() =~= t);
                assert(seq![0u8] + unescape(t.drop_first(), 1) =~= zero_run(1) + unescape(t.drop_first(), 1));
                assert(strip_emulation(t) == zero_run(1) + unescape(t.drop_first(), 1));
            } else {
                assert(zero_run(0) + t.drop_first() =~= t.drop_first());
                assert(zero_run(0) + unescape(t.drop_first(), 0) =~= unescape(t.drop_first(), 0));
            }
            assert(strip_emulation(s) =~= zero_run(z) + unescape(t, z));
        }
    } else if z == 1 && t.len() >= 2 && t[0] == 0 && t[1] == 3 {
        assert(s.len() >= 3 && s[0] == 0 && s[1] == 0 && s[2] == 3);
        lemma_strip_after_zeros(t.skip(2), 0);
        assert(s.skip(3) =~= t.skip(2));
        assert(zero_run(0) + t.skip(2) =~= t.skip(2));
        assert(t.drop_first().drop_first() =~= t.skip(2));
        assert(unescape(t, 1) == seq![0u8] + unescape(t.drop_first(), 2));
        assert(unescape(t.drop_first(), 2) == unescape(t.skip(2), 0));
        assert(zero_run(0) + unescape(t.skip(2), 0) =~= unescape(t.skip(2), 0));
        assert(strip_emulation(s) =~= zero_run(z) + unescape(t, z));
    } else {
        lemma_strip_after_zeros(t, z - 1);
        assert(s.skip(1) =~= zero_run(z - 1) + t);
        assert(!(s.len() >= 3 && s[0] == 0 && s[1] == 0 && s[2] == 3));
        lemma_unescape_context(t, z);
        assert(zero_run(z) =~= seq![0u8] + zero_run(z - 1));
        assert(strip_emulation(s) =~= zero_run(z) + unescape(t, z));
    }
}

proof fn lemma_unescape_context(t: Seq<u8>, z: int)
    requires
        1 <= z <= 2,
        z == 2 ==> t.len() == 0 || t[0] != 3,
        z == 1 ==> !(t.len() >= 2 && t[0] == 0 && t[1] == 3),
    ensures
        unescape(t, z - 1) == unescape(t, z),
    decreases t.len(),
{
    if t.len() > 0 && z == 1 && t[0] == 0 {
        lemma_unescape_context(t.drop_first(), 2);
    }
}

/// Removing emulation prevention before decryption is the same unescaping
/// as the NAL layer's (`ebsp_to_rbsp`): a `03` that follows two zero bytes
/// is dropped.
pub proof fn lemma_strip_emulation_is_unescape(es: Seq<u8>)
    ensures
        strip_emulation(es) == unescape(es, 0),
{
    lemma_strip_after_zeros(es, 0);
    assert(zero_run(0) + es =~= es);
    assert(zero_run(0) + unescape(es, 0) =~= unescape(es, 0));
}

} // verus!
