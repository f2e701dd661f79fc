//! ASCII decimal numbers: the byte counts inside URI extension values and
//! the length prefixes of netstrings.
use vstd::prelude::*;

verus! {

/// An ASCII digit `'0'..='9'`.
pub open spec fn is_digit(b: u8) -> bool {
    48 <= b <= 57
}

pub open spec fn all_digits(s: Seq<u8>) -> bool {
    forall|i: int| 0 <= i < s.len() ==> #[trigger] is_digit(s[i])
}

/// The number written by a string of ASCII digits, most significant first.
pub open spec fn digits_value(s: Seq<u8>) -> nat
    decreases s.len(),
{
    if s.len() == 0 {
        0
    } else {
        digits_value(s.drop_last()) * 10 + (s.last() - 48) as nat
    }
}

/// The digits that remain once an optional leading `'+'` is removed.
pub open spec fn unsigned_digits(s: Seq<u8>) -> Seq<u8> {
    if s.len() > 0 && s[0] == 43u8 {
        s.drop_first()
    } else {
        s
    }
}

/// What the standard library's `u32` parsing gives for a byte string:
/// an optional `'+'`, then at least one ASCII digit and nothing else,
/// for a value that fits in 32 bits.
pub open spec fn parse_u32_spec(s: Seq<u8>) -> Option<u32> {
    let d = unsigned_digits(s);
    if d.len() > 0 && all_digits(d) && digits_value(d) <= u32::MAX {
        Some(digits_value(d) as u32)
    } else {
        None
    }
}

/// The shortest ASCII decimal form of `n`.
pub open spec fn decimal(n: nat) -> Seq<u8>
    decreases n,
{
    if n < 10 {
        seq![(48 + n) as u8]
    } else {
        decimal(n / 10).push((48 + n % 10) as u8)
    }
}

/// A prefix of a digit string never writes a larger number than the whole.
proof fn lemma_prefix_value_le(d: Seq<u8>, j: int)
    requires
        all_digits(d),
        0 <= j <= d.len(),
    ensures
        digits_value(d.take(j)) <= digits_value(d),
    decreases d.len(),
{
    if j == d.len() {
        assert(d.take(j) =~= d);
    } else {
        let p = d.drop_last();
        assert(p.take(j) =~= d.take(j));
        assert(all_digits(p)) by {
            assert forall|i: int| 0 <= i < p.len() implies #[trigger] is_digit(p[i]) by {
                assert(is_digit(d[i]));
            }
        }
        lemma_prefix_value_le(p, j);
    }
}

/// Facts about the decimal form: it is a non-empty run of digits that
/// writes `n` back.
pub proof fn lemma_decimal_digits(n: nat)
    ensures
        decimal(n).len() > 0,
        all_digits(decimal(n)),
        digits_value(decimal(n)) == n,
        decimal(n)[0] != 43u8,
    decreases n,
{
    if n < 10 {
        let d = decimal(n);
        assert(d.drop_last() =~= Seq::<u8>::empty());
        assert(digits_value(d.drop_last()) == 0);
    } else {
        lemma_decimal_digits(n / 10);
        let d = decimal(n);
        let p = decimal(n / 10);
        assert(d.drop_last() =~= p);
        assert(d.last() == (48 + n % 10) as u8);
        assert(digits_value(d) == digits_value(p) * 10 + n % 10);
        assert forall|i: int| 0 <= i < d.len() implies #[trigger] is_digit(d[i]) by {
            if i < p.len() {
                assert(is_digit(p[i]));
            }
        }
    }
}

/// Parsing the decimal form of a 32-bit number gives that number back.
pub proof fn lemma_parse_decimal_roundtrip(n: u32)
    ensures
        parse_u32_spec(decimal(n as nat)) == Some(n),
{
    lemma_decimal_digits(n as nat);
}

/// Checks and reads an ASCII decimal byte count as the standard library
/// reads a `u32` from text; `None` on the inputs that it refuses.
pub fn parse_decimal_u32(v: &[u8]) -> (r: Option<u32>)
    ensures
        r == parse_u32_spec(v@),
{
    let mut start: usize = 0;
    if v.len() > 0 && v[0] == 43u8 {
        start = 1;
    }
    let ghost d = unsigned_digits(v@);
    assert(d =~= v@.subrange(start as int, v@.len() as int));
    if start >= v.len() {
        return None;
    }
    let mut acc: u64 = 0;
    let mut i: usize = start;
    while i < v.len()
        invariant
            start <= i <= v.len(),
            start < v.len(),
            d == unsigned_digits(v@),
            d =~= v@.subrange(start as int, v@.len() as int),
            all_digits(v@.subrange(start as int, i as int)),
            acc == digits_value(v@.subrange(start as int, i as int)),
            acc <= u32::MAX,
        decreases v.len() - i,
    {
        let b = v[i];
        if b < 48u8 || b > 57u8 {
            assert(d[i - start] == b);
            assert(!is_digit(d[i - start]));
            assert(!all_digits(d));
            return None;
        }
        let ghost prev = v@.subrange(start as int, i as int);
        let ghost next = v@.subrange(start as int, i + 1);
        assert(next.drop_last() =~= prev);
        assert(all_digits(next)) by {
            assert forall|k: int| 0 <= k < next.len() implies #[trigger] is_digit(next[k]) by {
                if k < prev.len() {
                    assert(is_digit(prev[k]));
                }
            }
        }
        acc = acc * 10 + (b - 48u8) as u64;
        i = i + 1;
        if acc > 0xffff_ffffu64 {
            proof {
                assert(digits_value(next) > u32::MAX);
                if all_digits(d) {
                    assert(d.take(i - start) =~= next);
                    lemma_prefix_value_le(d, i - start);
                    assert(digits_value(d) > u32::MAX);
                }
            }
            return None;
        }
    }
    assert(d =~= v@.subrange(start as int, i as int));
    Some(acc as u32)
}

/// Reads an ASCII decimal byte count that is a `u32` written as text (an
/// optional `+`, then digits). Other input (bytes that are not such text,
/// not UTF-8, empty, signed, or above `u32::MAX`) is left out.
pub fn bytes_to_int(v: &[u8]) -> (r: u32)
    requires
        parse_u32_spec(v@) is Some,
    ensures
        Some(r) == parse_u32_spec(v@),
{
    match parse_decimal_u32(v) {
        Some(n) => n,
        None => {
            assert(false);
            0
        },
    }
}

/// Writes `n` in ASCII decimal at the end of `out`.
pub fn push_decimal(n: usize, out: &mut Vec<u8>)
    ensures
        final(out)@ == old(out)@ + decimal(n as nat),
    decreases n,
{
    if n >= 10 {
        push_decimal(n / 10, out);
    }
    let digit: u8 = (n % 10) as u8;
    out.push(48u8 + digit);
    proof {
        if n < 10 {
            assert(decimal(n as nat) =~= seq![(48 + n) as u8]);
        }
    }
}

} // verus!
