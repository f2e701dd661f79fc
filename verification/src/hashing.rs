//! Netstrings and the tagged double-SHA-256 hashes that Tahoe builds on them.
use crate::decimal::{decimal, push_decimal};
use vstd::prelude::*;

verus! {

/// The 32 bytes that `bitcoin_hashes::sha256d::Hash::hash` (SHA-256 applied
/// twice) yields for `data`.
pub uninterp spec fn sha256d(data: Seq<u8>) -> Seq<u8>;

/// Trusted: calls `bitcoin_hashes::sha256d::Hash::hash` and returns its byte
/// array. The contract claims only that the result is the digest named
/// `sha256d` of exactly the bytes handed in; nothing is said of the digest's
/// value. Feeding the crate's hash engine several slices in turn hashes
/// their concatenation; `Hash::hash` is that engine fed once, so callers
/// hash the concatenated bytes.
#[verifier::external_body]
fn sha256d_digest(data: &[u8]) -> (r: [u8; 32])
    ensures
        r@ == sha256d(data@),
{
    let h = <bitcoin_hashes::sha256d::Hash as bitcoin_hashes::Hash>::hash(data);
    <bitcoin_hashes::sha256d::Hash as bitcoin_hashes::Hash>::to_byte_array(h)
}

/// The netstring framing `<decimal length>:<bytes>,`.
pub open spec fn netstring_spec(s: Seq<u8>) -> Seq<u8> {
    decimal(s.len()) + seq![58u8] + s + seq![44u8]
}

/// The tag that Tahoe hashes crypttext segments (hash tree leaves) under.
pub open spec fn segment_tag() -> Seq<u8> {
    seq![
        97u8, 108, 108, 109, 121, 100, 97, 116, 97, 95, 99, 114, 121, 112, 116, 116, 101, 120,
        116, 95, 115, 101, 103, 109, 101, 110, 116, 95, 118, 49,
    ]
}

/// `allmydata_crypttext_segment_v1`
pub fn segment_tag_bytes() -> (r: Vec<u8>)
    ensures
        r@ == segment_tag(),
{
    let r = vec![
        97u8, 108, 108, 109, 121, 100, 97, 116, 97, 95, 99, 114, 121, 112, 116, 116, 101, 120,
        116, 95, 115, 101, 103, 109, 101, 110, 116, 95, 118, 49,
    ];
    assert(r@ =~= segment_tag());
    r
}

/// The tag of the hash tree's interior nodes.
pub open spec fn interior_tag() -> Seq<u8> {
    seq![
        77u8, 101, 114, 107, 108, 101, 32, 116, 114, 101, 101, 32, 105, 110, 116, 101, 114, 110,
        97, 108, 32, 110, 111, 100, 101,
    ]
}

/// `Merkle tree internal node`
pub fn interior_tag_bytes() -> (r: Vec<u8>)
    ensures
        r@ == interior_tag(),
{
    let r = vec![
        77u8, 101, 114, 107, 108, 101, 32, 116, 114, 101, 101, 32, 105, 110, 116, 101, 114, 110,
        97, 108, 32, 110, 111, 100, 101,
    ];
    assert(r@ =~= interior_tag());
    r
}

/// The tag that the URI extension block is hashed under.
pub open spec fn uri_extension_tag() -> Seq<u8> {
    seq![
        97u8, 108, 108, 109, 121, 100, 97, 116, 97, 95, 117, 114, 105, 95, 101, 120, 116, 101,
        110, 115, 105, 111, 110, 95, 118, 49,
    ]
}

/// `allmydata_uri_extension_v1`
pub fn uri_extension_tag_bytes() -> (r: Vec<u8>)
    ensures
        r@ == uri_extension_tag(),
{
    let r = vec![
        97u8, 108, 108, 109, 121, 100, 97, 116, 97, 95, 117, 114, 105, 95, 101, 120, 116, 101,
        110, 115, 105, 111, 110, 95, 118, 49,
    ];
    assert(r@ =~= uri_extension_tag());
    r
}

/// Appends every byte of `s` to `out`.
fn push_all(out: &mut Vec<u8>, s: &[u8])
    ensures
        final(out)@ == old(out)@ + s@,
{
    let ghost start = out@;
    let mut i: usize = 0;
    while i < s.len()
        invariant
            i <= s.len(),
            out@ == start + s@.take(i as int),
        decreases s.len() - i,
    {
        out.push(s[i]);
        i = i + 1;
        assert(s@.take(i as int) =~= s@.take(i - 1).push(s@[i - 1]));
    }
    assert(s@.take(i as int) =~= s@);
}

/// Frames `s` as a netstring: its length in ASCII decimal, `:`, the bytes
/// themselves, then `,`.
pub fn netstring(s: &[u8]) -> (r: Vec<u8>)
    ensures
        r@ == netstring_spec(s@),
        r@ == decimal(s@.len()) + seq![58u8] + s@ + seq![44u8],
{
    let mut out: Vec<u8> = Vec::new();
    push_decimal(s.len(), &mut out);
    out.push(58u8);
    push_all(&mut out, s);
    out.push(44u8);
    assert(out@ =~= netstring_spec(s@));
    out
}

/// The bytes that `tagged_hash` digests.
pub open spec fn tagged_input(tag: Seq<u8>, val: Seq<u8>) -> Seq<u8> {
    netstring_spec(tag) + val
}

/// The bytes that `tagged_pair_hash` digests.
pub open spec fn tagged_pair_input(tag: Seq<u8>, val0: Seq<u8>, val1: Seq<u8>) -> Seq<u8> {
    netstring_spec(tag) + netstring_spec(val0) + netstring_spec(val1)
}

/// The first `n` bytes of a digest, as a vector.
pub fn truncate_digest(h: &[u8; 32], n: usize) -> (r: Vec<u8>)
    requires
        n <= 32,
    ensures
        r@ == h@.take(n as int),
{
    let mut out: Vec<u8> = Vec::new();
    let mut i: usize = 0;
    while i < n
        invariant
            i <= n <= 32,
            h@.len() == 32,
            out@ == h@.take(i as int),
        decreases n - i,
    {
        out.push(h[i]);
        i = i + 1;
        assert(h@.take(i as int) =~= h@.take(i - 1).push(h@[i - 1]));
    }
    out
}

/// The bytes that a tagged hash digests: the netstring of `tag`, then `val`.
pub fn tagged_hash_input(tag: &[u8], val: &[u8]) -> (r: Vec<u8>)
    ensures
        r@ == tagged_input(tag@, val@),
        r@ == netstring_spec(tag@) + val@,
{
    let mut data = netstring(tag);
    push_all(&mut data, val);
    assert(data@ =~= tagged_input(tag@, val@));
    data
}

/// The bytes that a tagged pair hash digests: the netstrings of `tag`,
/// `val0` and `val1` in turn.
pub fn tagged_pair_hash_input(tag: &[u8], val0: &[u8], val1: &[u8]) -> (r: Vec<u8>)
    ensures
        r@ == tagged_pair_input(tag@, val0@, val1@),
        r@ == netstring_spec(tag@) + netstring_spec(val0@) + netstring_spec(val1@),
{
    let mut data = netstring(tag);
    let n0 = netstring(val0);
    let n1 = netstring(val1);
    push_all(&mut data, n0.as_slice());
    push_all(&mut data, n1.as_slice());
    assert(data@ =~= tagged_pair_input(tag@, val0@, val1@));
    data
}

/// The double SHA-256 of the netstring of `tag` followed by `val`, cut to
/// its first `truncate_to` bytes (at most 32).
pub fn tagged_hash(tag: &[u8], val: &[u8], truncate_to: usize) -> (r: Vec<u8>)
    requires
        truncate_to <= 32,
    ensures
        r@ == sha256d(tagged_input(tag@, val@)).take(truncate_to as int),
        r@ == sha256d(netstring_spec(tag@) + val@).take(truncate_to as int),
        r@.len() == truncate_to,
        sha256d(tagged_input(tag@, val@)).len() == 32,
{
    let data = tagged_hash_input(tag, val);
    let h = sha256d_digest(data.as_slice());
    truncate_digest(&h, truncate_to)
}

/// The double SHA-256 of the netstrings of `tag`, `val0` and `val1` in turn.
pub fn tagged_pair_hash(tag: &[u8], val0: &[u8], val1: &[u8]) -> (r: Vec<u8>)
    ensures
        r@ == sha256d(tagged_pair_input(tag@, val0@, val1@)),
        r@ == sha256d(netstring_spec(tag@) + netstring_spec(val0@) + netstring_spec(val1@)),
        r@.len() == 32,
{
    let data = tagged_pair_hash_input(tag, val0, val1);
    let h = sha256d_digest(data.as_slice());
    let r = truncate_digest(&h, 32);
    assert(h@.take(32) =~= h@);
    r
}

/// Moves a 32-byte vector into an array.
fn to_array32(v: &Vec<u8>) -> (r: [u8; 32])
    requires
        v@.len() == 32,
    ensures
        r@ == v@,
{
    let mut r = [0u8; 32];
    let mut i: usize = 0;
    while i < 32
        invariant
            i <= 32,
            v@.len() == 32,
            r@.len() == 32,
            forall|k: int| 0 <= k < i ==> r@[k] == v@[k],
        decreases 32 - i,
    {
        r[i] = v[i];
        i = i + 1;
    }
    assert(r@ =~= v@);
    r
}

/// The hash of a leaf of the crypttext hash tree (one crypttext segment).
#[derive(Clone)]
pub struct TahoeLeaf {}

/// The hash of an interior node of the crypttext hash tree.
#[derive(Clone)]
pub struct TahoeInside {}

impl TahoeLeaf {
    /// The leaf hash of a segment: its tagged hash under
    /// `allmydata_crypttext_segment_v1`, all 32 bytes.
    pub fn hash(data: &[u8]) -> (r: [u8; 32])
        ensures
            r@ == sha256d(tagged_input(segment_tag(), data@)),
            r@ == sha256d(netstring_spec(segment_tag()) + data@),
    {
        let tag = segment_tag_bytes();
        let h = tagged_hash(tag.as_slice(), data, 32);
        let r = to_array32(&h);
        assert(sha256d(tagged_input(segment_tag(), data@)).take(32) =~= r@);
        r
    }
}

impl TahoeInside {
    /// The interior hash of `data`: its tagged hash under
    /// `Merkle tree internal node`, all 32 bytes.
    pub fn hash(data: &[u8]) -> (r: [u8; 32])
        ensures
            r@ == sha256d(tagged_input(interior_tag(), data@)),
            r@ == sha256d(netstring_spec(interior_tag()) + data@),
    {
        let tag = interior_tag_bytes();
        let h = tagged_hash(tag.as_slice(), data, 32);
        let r = to_array32(&h);
        assert(sha256d(tagged_input(interior_tag(), data@)).take(32) =~= r@);
        r
    }
}

/// The tagged hash of a URI extension block, as the read-cap names it.
pub fn uri_extension_hash(ueb_bytes: &[u8]) -> (r: Vec<u8>)
    ensures
        r@ == sha256d(tagged_input(uri_extension_tag(), ueb_bytes@)),
        r@ == sha256d(netstring_spec(uri_extension_tag()) + ueb_bytes@),
{
    let tag = uri_extension_tag_bytes();
    let r = tagged_hash(tag.as_slice(), ueb_bytes, 32);
    r
}

/// A tagged hash cut shorter is a prefix of one cut longer: cutting only
/// drops bytes from the end of the same 32-byte digest.
pub proof fn lemma_truncation_is_prefix(tag: Seq<u8>, val: Seq<u8>, short: nat, long: nat)
    requires
        short <= long <= 32,
        sha256d(tagged_input(tag, val)).len() == 32,
    ensures
        sha256d(tagged_input(tag, val)).take(short as int) == sha256d(tagged_input(tag, val)).take(
            long as int,
        ).take(short as int),
{
    let d = sha256d(tagged_input(tag, val));
    assert(d.take(short as int) =~= d.take(long as int).take(short as int));
}

/// A netstring is its decimal length, `:`, the bytes, and `,`: two bytes
/// more than the bytes and their length's digits.
pub proof fn lemma_netstring_len(s: Seq<u8>)
    ensures
        netstring_spec(s).len() == decimal(s.len()).len() + s.len() + 2,
        netstring_spec(s).subrange(
            decimal(s.len()).len() + 1 as int,
            decimal(s.len()).len() + 1 + s.len() as int,
        ) == s,
{
    let d = decimal(s.len());
    assert(netstring_spec(s).subrange(d.len() + 1 as int, d.len() + 1 + s.len() as int) =~= s);
}

/// A tagged hash digests the tag's netstring and then the value exactly as
/// given, unframed, whatever its length: the value is the tail of the
/// hashed bytes, right after the tag's netstring.
pub proof fn lemma_tagged_input_layout(tag: Seq<u8>, val: Seq<u8>)
    ensures
        tagged_input(tag, val) == decimal(tag.len()) + seq![58u8] + tag + seq![44u8] + val,
        tagged_input(tag, val).len() == decimal(tag.len()).len() + tag.len() + 2 + val.len(),
        tagged_input(tag, val).skip(decimal(tag.len()).len() + tag.len() + 2 as int) == val,
{
    let t = tagged_input(tag, val);
    assert(t.skip(decimal(tag.len()).len() + tag.len() + 2 as int) =~= val);
}

/// A tagged pair hash digests the netstrings of the tag, the first value
/// and the second value, in that order, whatever their lengths: right after
/// the tag's netstring stand the first value's decimal length, `:`, the
/// first value, and `,`; the second value's netstring ends the input.
pub proof fn lemma_tagged_pair_input_layout(tag: Seq<u8>, a: Seq<u8>, b: Seq<u8>)
    ensures
        tagged_pair_input(tag, a, b) == decimal(tag.len()) + seq![58u8] + tag + seq![44u8]
            + decimal(a.len()) + seq![58u8] + a + seq![44u8] + decimal(b.len()) + seq![58u8] + b
            + seq![44u8],
        ({
            let t = tagged_pair_input(tag, a, b);
            let n = netstring_spec(tag).len() as int;
            let m = netstring_spec(a).len() as int;
            &&& t.subrange(n, n + m) == netstring_spec(a)
            &&& t.skip(n + m) == netstring_spec(b)
            &&& t.subrange(n + decimal(a.len()).len() + 1, n + decimal(a.len()).len() + 1 + a.len())
                == a
        }),
{
    let t = tagged_pair_input(tag, a, b);
    let n = netstring_spec(tag).len() as int;
    let m = netstring_spec(a).len() as int;
    assert(t =~= decimal(tag.len()) + seq![58u8] + tag + seq![44u8] + decimal(a.len())
        + seq![58u8] + a + seq![44u8] + decimal(b.len()) + seq![58u8] + b + seq![44u8]);
    assert(t.subrange(n, n + m) =~= netstring_spec(a));
    assert(t.skip(n + m) =~= netstring_spec(b));
    assert(t.subrange(n + decimal(a.len()).len() + 1, n + decimal(a.len()).len() + 1 + a.len())
        =~= a);
}

} // verus!
