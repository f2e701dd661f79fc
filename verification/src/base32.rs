//! The lower-case, unpadded base32 that Tahoe capabilities are written in.
use vstd::prelude::*;

verus! {

/// `2^k` for the bit positions of a byte.
pub open spec fn two_pow(k: int) -> int {
    if k <= 0 {
        1
    } else if k == 1 {
        2
    } else if k == 2 {
        4
    } else if k == 3 {
        8
    } else if k == 4 {
        16
    } else if k == 5 {
        32
    } else if k == 6 {
        64
    } else {
        128
    }
}

/// Bit `j` of `s` read most significant bit first; zero past the end.
pub open spec fn bit_at(s: Seq<u8>, j: int) -> int {
    if 0 <= j < 8 * s.len() {
        (s[j / 8] as int / two_pow(7 - j % 8)) % 2
    } else {
        0
    }
}

/// The 5-bit group number `i` of `s`.
pub open spec fn quintet(s: Seq<u8>, i: int) -> int {
    16 * bit_at(s, 5 * i) + 8 * bit_at(s, 5 * i + 1) + 4 * bit_at(s, 5 * i + 2) + 2 * bit_at(
        s,
        5 * i + 3,
    ) + bit_at(s, 5 * i + 4)
}

/// The RFC 4648 base32 alphabet `A..Z2..7`, as bytes.
pub open spec fn base32_symbol(v: int) -> u8 {
    if v < 26 {
        (65 + v) as u8
    } else {
        (50 + v - 26) as u8
    }
}

/// The number of base32 symbols for `n` bytes without padding.
pub open spec fn base32_len(n: nat) -> nat {
    (8 * n + 4) / 5
}

/// RFC 4648 base32 of `s` without `=` padding, upper case: one symbol for
/// each 5 bits, the last group filled up with zero bits.
pub open spec fn base32_nopad_spec(s: Seq<u8>) -> Seq<u8> {
    Seq::new(base32_len(s.len()), |i: int| base32_symbol(quintet(s, i)))
}

/// Trusted: `data_encoding::BASE32_NOPAD.encode`, with its `String` taken as
/// bytes. The contract claims that the result is the RFC 4648 base32 of
/// the input (alphabet `A..Z2..7`, most significant bits first, no padding),
/// which is what the crate's documentation and its symbol table give for
/// this encoding. `encode_len` panics above `usize::MAX / 512` bytes, hence
/// the `requires`.
#[verifier::external_body]
fn base32_nopad_encode(bytes: &[u8]) -> (r: Vec<u8>)
    requires
        bytes.len() <= usize::MAX / 512,
    ensures
        r@ == base32_nopad_spec(bytes@),
{
    data_encoding::BASE32_NOPAD.encode(bytes).into_bytes()
}

/// Trusted: `String::from_utf8` on bytes that are all ASCII, which std's
/// documentation says succeeds and keeps each byte as the character of
/// that code.
#[verifier::external_body]
fn ascii_to_string(v: Vec<u8>) -> (r: String)
    requires
        forall|i: int| 0 <= i < v@.len() ==> v@[i] < 128,
    ensures
        r@ == v@.map_values(|b: u8| b as char),
{
    String::from_utf8(v).unwrap()
}

/// ASCII lower case of one byte.
pub open spec fn ascii_lower(b: u8) -> u8 {
    if 65 <= b <= 90 {
        (b + 32) as u8
    } else {
        b
    }
}

/// The text of the lower-case base32 of `s`.
pub open spec fn lower_base32_spec(s: Seq<u8>) -> Seq<char> {
    base32_nopad_spec(s).map_values(|b: u8| ascii_lower(b) as char)
}

/// Bytes together with their lower-case unpadded base32 text.
#[derive(Debug, Clone)]
pub struct Base32 {
    pub base32: String,
    pub bytes: Vec<u8>,
}

impl Base32 {
    /// The text form, as `Display` writes it: the base32 text.
    pub fn to_string(&self) -> (r: String)
        ensures
            r@ == self.base32@,
    {
        self.base32.clone()
    }
}

/// Encodes `bytes` in lower-case base32 without padding, and keeps them.
pub fn b2a(bytes: Vec<u8>) -> (r: Base32)
    requires
        bytes.len() <= usize::MAX / 512,
    ensures
        r.bytes@ == bytes@,
        r.base32@ == lower_base32_spec(bytes@),
        r.base32@.len() == (8 * bytes@.len() + 4) / 5,
        forall|i: int|
            0 <= i < r.base32@.len() ==> #[trigger] r.base32@[i] as int == (if quintet(bytes@, i)
                < 26 {
                97 + quintet(bytes@, i)
            } else {
                24 + quintet(bytes@, i)
            }),
{
    let upper = base32_nopad_encode(bytes.as_slice());
    let mut lower: Vec<u8> = Vec::new();
    let mut i: usize = 0;
    while i < upper.len()
        invariant
            i <= upper.len(),
            upper@ == base32_nopad_spec(bytes@),
            lower@.len() == i,
            forall|k: int| 0 <= k < i ==> #[trigger] lower@[k] == ascii_lower(upper@[k]),
            forall|k: int| 0 <= k < i ==> #[trigger] lower@[k] < 128,
        decreases upper.len() - i,
    {
        let b = upper[i];
        assert(b == base32_symbol(quintet(bytes@, i as int)));
        let l = if 65u8 <= b && b <= 90u8 {
            b + 32u8
        } else {
            b
        };
        lower.push(l);
        i = i + 1;
    }
    let ghost lv = lower@;
    let text = ascii_to_string(lower);
    assert(text@ =~= lower_base32_spec(bytes@)) by {
        assert forall|k: int| 0 <= k < text@.len() implies text@[k] == lower_base32_spec(
            bytes@,
        )[k] by {
            assert(lv[k] == ascii_lower(upper@[k]));
        }
    }
    proof {
        lemma_lower_base32_symbols(bytes@);
    }
    Base32 { base32: text, bytes }
}

/// The text that `b2a` gives has eight symbols for every five bytes
/// (rounded up), each a lower-case letter or a digit from 2 to 7.
pub proof fn lemma_lower_base32_shape(s: Seq<u8>)
    ensures
        lower_base32_spec(s).len() == base32_len(s.len()),
        forall|i: int|
            0 <= i < lower_base32_spec(s).len() ==> {
                let c = #[trigger] lower_base32_spec(s)[i];
                ('a' <= c && c <= 'z') || ('2' <= c && c <= '7')
            },
{
    assert forall|i: int| 0 <= i < lower_base32_spec(s).len() implies {
        let c = #[trigger] lower_base32_spec(s)[i];
        ('a' <= c && c <= 'z') || ('2' <= c && c <= '7')
    } by {
        let q = quintet(s, i);
        assert(0 <= q < 32);
    }
}

proof fn lemma_base32_len_injective(m: nat, n: nat)
    requires
        base32_len(m) == base32_len(n),
    ensures
        m == n,
{
}

proof fn lemma_bit_range(s: Seq<u8>, p: int)
    ensures
        0 <= bit_at(s, p) <= 1,
{
}

/// A byte is the sum of its bits, most significant first.
proof fn lemma_byte_from_bits(b: u8)
    ensures
        b as int == 128 * ((b as int / 128) % 2) + 64 * ((b as int / 64) % 2) + 32 * ((b as int
            / 32) % 2) + 16 * ((b as int / 16) % 2) + 8 * ((b as int / 8) % 2) + 4 * ((b as int
            / 4) % 2) + 2 * ((b as int / 2) % 2) + (b as int / 1) % 2,
{
    assert(b == 128 * ((b / 128) % 2) + 64 * ((b / 64) % 2) + 32 * ((b / 32) % 2) + 16 * ((b
        / 16) % 2) + 8 * ((b / 8) % 2) + 4 * ((b / 4) % 2) + 2 * ((b / 2) % 2) + (b / 1) % 2)
        by (bit_vector);
}

proof fn lemma_text_index(s: Seq<u8>, i: int)
    requires
        0 <= i < base32_len(s.len()),
    ensures
        lower_base32_spec(s)[i] == ascii_lower(base32_symbol(quintet(s, i))) as char,
        lower_base32_spec(s).len() == base32_len(s.len()),
{
}

proof fn lemma_symbol_injective(a: int, b: int)
    requires
        0 <= a < 32,
        0 <= b < 32,
        ascii_lower(base32_symbol(a)) as char == ascii_lower(base32_symbol(b)) as char,
    ensures
        a == b,
{
    let ca = ascii_lower(base32_symbol(a));
    let cb = ascii_lower(base32_symbol(b));
    assert((ca as char) as u32 == ca as u32);
    assert((cb as char) as u32 == cb as u32);
}

proof fn lemma_quintet_bits(x: Seq<u8>, y: Seq<u8>, i: int)
    requires
        quintet(x, i) == quintet(y, i),
    ensures
        bit_at(x, 5 * i) == bit_at(y, 5 * i),
        bit_at(x, 5 * i + 1) == bit_at(y, 5 * i + 1),
        bit_at(x, 5 * i + 2) == bit_at(y, 5 * i + 2),
        bit_at(x, 5 * i + 3) == bit_at(y, 5 * i + 3),
        bit_at(x, 5 * i + 4) == bit_at(y, 5 * i + 4),
{
    lemma_bit_range(x, 5 * i);
    lemma_bit_range(x, 5 * i + 1);
    lemma_bit_range(x, 5 * i + 2);
    lemma_bit_range(x, 5 * i + 3);
    lemma_bit_range(x, 5 * i + 4);
    lemma_bit_range(y, 5 * i);
    lemma_bit_range(y, 5 * i + 1);
    lemma_bit_range(y, 5 * i + 2);
    lemma_bit_range(y, 5 * i + 3);
    lemma_bit_range(y, 5 * i + 4);
}

proof fn lemma_bits_equal(x: Seq<u8>, y: Seq<u8>, p: int)
    requires
        x.len() == y.len(),
        0 <= p < 8 * x.len(),
        lower_base32_spec(x) == lower_base32_spec(y),
    ensures
        bit_at(x, p) == bit_at(y, p),
{
    let i = p / 5;
    assert(0 <= i < base32_len(x.len()));
    lemma_text_index(x, i);
    lemma_text_index(y, i);
    lemma_quintet_range(x, i);
    lemma_quintet_range(y, i);
    lemma_symbol_injective(quintet(x, i), quintet(y, i));
    lemma_quintet_bits(x, y, i);
    assert(p == 5 * i || p == 5 * i + 1 || p == 5 * i + 2 || p == 5 * i + 3 || p == 5 * i + 4);
}

proof fn lemma_quintet_range(s: Seq<u8>, i: int)
    ensures
        0 <= quintet(s, i) < 32,
{
    lemma_bit_range(s, 5 * i);
    lemma_bit_range(s, 5 * i + 1);
    lemma_bit_range(s, 5 * i + 2);
    lemma_bit_range(s, 5 * i + 3);
    lemma_bit_range(s, 5 * i + 4);
}

proof fn lemma_bit_of_byte(s: Seq<u8>, j: int, k: int)
    requires
        0 <= j < s.len(),
        0 <= k < 8,
    ensures
        bit_at(s, 8 * j + k) == (s[j] as int / two_pow(7 - k)) % 2,
{
    assert((8 * j + k) / 8 == j);
    assert((8 * j + k) % 8 == k);
}

proof fn lemma_byte_equal(x: Seq<u8>, y: Seq<u8>, j: int)
    requires
        x.len() == y.len(),
        0 <= j < x.len(),
        lower_base32_spec(x) == lower_base32_spec(y),
    ensures
        x[j] == y[j],
{
    lemma_byte_from_bits(x[j]);
    lemma_byte_from_bits(y[j]);
    lemma_bits_equal(x, y, 8 * j + 0);
    lemma_bit_of_byte(x, j, 0);
    lemma_bit_of_byte(y, j, 0);
    lemma_bits_equal(x, y, 8 * j + 1);
    lemma_bit_of_byte(x, j, 1);
    lemma_bit_of_byte(y, j, 1);
    lemma_bits_equal(x, y, 8 * j + 2);
    lemma_bit_of_byte(x, j, 2);
    lemma_bit_of_byte(y, j, 2);
    lemma_bits_equal(x, y, 8 * j + 3);
    lemma_bit_of_byte(x, j, 3);
    lemma_bit_of_byte(y, j, 3);
    lemma_bits_equal(x, y, 8 * j + 4);
    lemma_bit_of_byte(x, j, 4);
    lemma_bit_of_byte(y, j, 4);
    lemma_bits_equal(x, y, 8 * j + 5);
    lemma_bit_of_byte(x, j, 5);
    lemma_bit_of_byte(y, j, 5);
    lemma_bits_equal(x, y, 8 * j + 6);
    lemma_bit_of_byte(x, j, 6);
    lemma_bit_of_byte(y, j, 6);
    lemma_bits_equal(x, y, 8 * j + 7);
    lemma_bit_of_byte(x, j, 7);
    lemma_bit_of_byte(y, j, 7);
    assert(two_pow(7) == 128 && two_pow(6) == 64 && two_pow(5) == 32 && two_pow(4) == 16);
    assert(two_pow(3) == 8 && two_pow(2) == 4 && two_pow(1) == 2 && two_pow(0) == 1);
    assert((x[j] as int / two_pow(7 - 0)) % 2 == (y[j] as int / two_pow(7 - 0)) % 2);
    assert((x[j] as int / two_pow(7 - 1)) % 2 == (y[j] as int / two_pow(7 - 1)) % 2);
    assert((x[j] as int / two_pow(7 - 2)) % 2 == (y[j] as int / two_pow(7 - 2)) % 2);
    assert((x[j] as int / two_pow(7 - 3)) % 2 == (y[j] as int / two_pow(7 - 3)) % 2);
    assert((x[j] as int / two_pow(7 - 4)) % 2 == (y[j] as int / two_pow(7 - 4)) % 2);
    assert((x[j] as int / two_pow(7 - 5)) % 2 == (y[j] as int / two_pow(7 - 5)) % 2);
    assert((x[j] as int / two_pow(7 - 6)) % 2 == (y[j] as int / two_pow(7 - 6)) % 2);
    assert((x[j] as int / two_pow(7 - 7)) % 2 == (y[j] as int / two_pow(7 - 7)) % 2);
}

/// Equal base32 text comes only from equal bytes: `b2a` loses nothing.
pub proof fn lemma_lower_base32_injective(x: Seq<u8>, y: Seq<u8>)
    requires
        lower_base32_spec(x) == lower_base32_spec(y),
    ensures
        x == y,
{
    assert(lower_base32_spec(x).len() == base32_len(x.len()));
    assert(lower_base32_spec(y).len() == base32_len(y.len()));
    lemma_base32_len_injective(x.len(), y.len());
    assert forall|j: int| 0 <= j < x.len() implies x[j] == y[j] by {
        lemma_byte_equal(x, y, j);
    }
    assert(x =~= y);
}

/// Each character of the text is the lower-case RFC 4648 symbol of its
/// 5-bit group `q`: `a` to `z` for 0 to 25, `2` to `7` for 26 to 31.
pub proof fn lemma_lower_base32_symbols(s: Seq<u8>)
    ensures
        lower_base32_spec(s).len() == (8 * s.len() + 4) / 5,
        forall|i: int|
            0 <= i < lower_base32_spec(s).len() ==> 0 <= quintet(s, i) < 32 && #[trigger] lower_base32_spec(
                s,
            )[i] as int == (if quintet(s, i) < 26 {
                97 + quintet(s, i)
            } else {
                24 + quintet(s, i)
            }),
{
    assert forall|i: int| 0 <= i < lower_base32_spec(s).len() implies 0 <= quintet(s, i) < 32
        && #[trigger] lower_base32_spec(s)[i] as int == (if quintet(s, i) < 26 {
        97 + quintet(s, i)
    } else {
        24 + quintet(s, i)
    }) by {
        lemma_quintet_range(s, i);
        let c = ascii_lower(base32_symbol(quintet(s, i)));
        assert((c as char) as int == c as int);
    }
}

} // verus!
