//! The URI extension block ("UEB"): a run of named values, each written as
//! `name:` followed by a netstring, read from the start of the block to
//! its end.
use crate::decimal::{
    decimal, is_digit, lemma_decimal_digits, lemma_parse_decimal_roundtrip,
    parse_decimal_u32, parse_u32_spec,
};
use crate::hashing::netstring_spec;
use vstd::prelude::*;
use vstd::slice::{slice_subrange, slice_to_vec};

verus! {

/// One value of the block: the ASCII byte count that stood before the
/// second colon, the bytes that it counted, and the byte after them.
#[derive(Debug)]
pub struct UEB_Value {
    pub count_of_bytes: Vec<u8>,
    pub pile_of_bytes: Vec<u8>,
    pub trailing_comma: u8,
}

/// One entry of the block: a named value, or five bytes that no name
/// matched.
#[derive(Debug)]
pub enum UEB_chunk {
    CodecName(UEB_Value),
    CodecParams(UEB_Value),
    CryptText(UEB_Value),
    CryptTextRootHash(UEB_Value),
    NeededShares(UEB_Value),
    NumSegments(UEB_Value),
    SegmentSize(UEB_Value),
    ShareRootHash(UEB_Value),
    TailCodecParams(UEB_Value),
    TotalShares(UEB_Value),
    Debug([u8; 5]),
}

/// A URI extension block: its entries in order.
#[derive(Debug)]
pub struct UEB {
    pub vals: Vec<UEB_chunk>,
}

/// What a value holds, as plain sequences.
pub struct ValueView {
    pub count_of_bytes: Seq<u8>,
    pub pile_of_bytes: Seq<u8>,
    pub trailing_comma: u8,
}

/// What an entry holds: the kind of a named value (0 to 9, in the order of
/// the variants of `UEB_chunk`) with the value, or the unmatched bytes.
pub enum ChunkView {
    Named(int, ValueView),
    Unmatched(Seq<u8>),
}

impl View for UEB_Value {
    type V = ValueView;

    open spec fn view(&self) -> ValueView {
        ValueView {
            count_of_bytes: self.count_of_bytes@,
            pile_of_bytes: self.pile_of_bytes@,
            trailing_comma: self.trailing_comma,
        }
    }
}

impl View for UEB_chunk {
    type V = ChunkView;

    open spec fn view(&self) -> ChunkView {
        match self {
            UEB_chunk::CodecName(v) => ChunkView::Named(0, v@),
            UEB_chunk::CodecParams(v) => ChunkView::Named(1, v@),
            UEB_chunk::CryptText(v) => ChunkView::Named(2, v@),
            UEB_chunk::CryptTextRootHash(v) => ChunkView::Named(3, v@),
            UEB_chunk::NeededShares(v) => ChunkView::Named(4, v@),
            UEB_chunk::NumSegments(v) => ChunkView::Named(5, v@),
            UEB_chunk::SegmentSize(v) => ChunkView::Named(6, v@),
            UEB_chunk::ShareRootHash(v) => ChunkView::Named(7, v@),
            UEB_chunk::TailCodecParams(v) => ChunkView::Named(8, v@),
            UEB_chunk::TotalShares(v) => ChunkView::Named(9, v@),
            UEB_chunk::Debug(b) => ChunkView::Unmatched(b@),
        }
    }
}

pub open spec fn chunks_view(cs: Seq<UEB_chunk>) -> Seq<ChunkView> {
    cs.map_values(|c: UEB_chunk| c@)
}

impl View for UEB {
    type V = Seq<ChunkView>;

    open spec fn view(&self) -> Seq<ChunkView> {
        chunks_view(self.vals@)
    }
}

/// How reading one item from the front of some bytes ends: with the item
/// and the number of bytes it took; with a failure, which either ran out of
/// input (`eof`) or met bytes that do not fit; or with the whole read
/// aborted, as happens when a value's byte count is not a number.
pub enum Step<T> {
    Read { value: T, len: int },
    Failed { eof: bool },
    Aborted,
}

/// The name that opens each kind of URI extension value, colon included:
/// `codec_name:`, `codec_params:`, `crypttext_hash:`, `crypttext_root_hash:`,
/// `needed_shares:`, `num_segments:`, `segment_size:`, `share_root_hash:`,
/// `tail_codec_params:`, `total_shares:`, for kinds 0 to 9 in that order.
pub open spec fn magic(k: int) -> Seq<u8> {
    if k == 0 {
        seq![99u8, 111, 100, 101, 99, 95, 110, 97, 109, 101, 58]
    } else if k == 1 {
        seq![99u8, 111, 100, 101, 99, 95, 112, 97, 114, 97, 109, 115, 58]
    } else if k == 2 {
        seq![99u8, 114, 121, 112, 116, 116, 101, 120, 116, 95, 104, 97, 115, 104, 58]
    } else if k == 3 {
        seq![99u8, 114, 121, 112, 116, 116, 101, 120, 116, 95, 114, 111, 111, 116, 95, 104, 97, 115, 104, 58]
    } else if k == 4 {
        seq![110u8, 101, 101, 100, 101, 100, 95, 115, 104, 97, 114, 101, 115, 58]
    } else if k == 5 {
        seq![110u8, 117, 109, 95, 115, 101, 103, 109, 101, 110, 116, 115, 58]
    } else if k == 6 {
        seq![115u8, 101, 103, 109, 101, 110, 116, 95, 115, 105, 122, 101, 58]
    } else if k == 7 {
        seq![115u8, 104, 97, 114, 101, 95, 114, 111, 111, 116, 95, 104, 97, 115, 104, 58]
    } else if k == 8 {
        seq![116u8, 97, 105, 108, 95, 99, 111, 100, 101, 99, 95, 112, 97, 114, 97, 109, 115, 58]
    } else {
        seq![116u8, 111, 116, 97, 108, 95, 115, 104, 97, 114, 101, 115, 58]
    }
}

/// The opening name of value kind `k`, as bytes.
fn magic_bytes(k: usize) -> (r: Vec<u8>)
    requires
        k < 10,
    ensures
        r@ == magic(k as int),
{
    let r = if k == 0 {
        vec![99u8, 111, 100, 101, 99, 95, 110, 97, 109, 101, 58]
    } else if k == 1 {
        vec![99u8, 111, 100, 101, 99, 95, 112, 97, 114, 97, 109, 115, 58]
    } else if k == 2 {
        vec![99u8, 114, 121, 112, 116, 116, 101, 120, 116, 95, 104, 97, 115, 104, 58]
    } else if k == 3 {
        vec![99u8, 114, 121, 112, 116, 116, 101, 120, 116, 95, 114, 111, 111, 116, 95, 104, 97, 115, 104, 58]
    } else if k == 4 {
        vec![110u8, 101, 101, 100, 101, 100, 95, 115, 104, 97, 114, 101, 115, 58]
    } else if k == 5 {
        vec![110u8, 117, 109, 95, 115, 101, 103, 109, 101, 110, 116, 115, 58]
    } else if k == 6 {
        vec![115u8, 101, 103, 109, 101, 110, 116, 95, 115, 105, 122, 101, 58]
    } else if k == 7 {
        vec![115u8, 104, 97, 114, 101, 95, 114, 111, 111, 116, 95, 104, 97, 115, 104, 58]
    } else if k == 8 {
        vec![116u8, 97, 105, 108, 95, 99, 111, 100, 101, 99, 95, 112, 97, 114, 97, 109, 115, 58]
    } else {
        vec![116u8, 111, 116, 97, 108, 95, 115, 104, 97, 114, 101, 115, 58]
    };
    assert(r@ =~= magic(k as int));
    r
}



/// The index of the first `:` in `s`, or -1.
pub open spec fn first_colon(s: Seq<u8>) -> int
    decreases s.len(),
{
    if s.len() == 0 {
        -1
    } else if s[0] == 58u8 {
        0
    } else {
        let r = first_colon(s.drop_first());
        if r < 0 {
            -1
        } else {
            r + 1
        }
    }
}

/// Reading a value after its name: bytes up to the first `:` give the
/// count, which must read as a `u32`; then that many bytes, then one more
/// byte (the comma, which is not checked).
pub open spec fn parse_value(s: Seq<u8>) -> Step<ValueView> {
    let c = first_colon(s);
    if c < 0 {
        Step::Failed { eof: true }
    } else {
        match parse_u32_spec(s.take(c)) {
            None => Step::Aborted,
            Some(n) => {
                let rest = s.skip(c + 1);
                if rest.len() < n + 1 {
                    Step::Failed { eof: true }
                } else {
                    Step::Read {
                        value: ValueView {
                            count_of_bytes: s.take(c),
                            pile_of_bytes: rest.take(n as int),
                            trailing_comma: rest[n as int],
                        },
                        len: c + 1 + n + 1,
                    }
                }
            },
        }
    }
}

/// Trying the named value of kind `k` at the front of `s`.
pub open spec fn try_kind(s: Seq<u8>, k: int) -> Step<ChunkView> {
    let m = magic(k);
    if s.len() < m.len() {
        Step::Failed { eof: true }
    } else if s.take(m.len() as int) != m {
        Step::Failed { eof: false }
    } else {
        match parse_value(s.skip(m.len() as int)) {
            Step::Read { value, len } => Step::Read {
                value: ChunkView::Named(k, value),
                len: m.len() + len,
            },
            Step::Failed { eof } => Step::Failed { eof },
            Step::Aborted => Step::Aborted,
        }
    }
}

/// Reading one entry, trying the kinds from `k` on and then five unmatched
/// bytes; `all_eof` says whether every kind tried so far ran out of input.
pub open spec fn parse_chunk_from(s: Seq<u8>, k: int, all_eof: bool) -> Step<ChunkView>
    decreases 10 - k,
{
    if k >= 10 {
        if s.len() >= 5 {
            Step::Read { value: ChunkView::Unmatched(s.take(5)), len: 5 }
        } else {
            Step::Failed { eof: all_eof }
        }
    } else {
        match try_kind(s, k) {
            Step::Read { value, len } => Step::Read { value, len },
            Step::Aborted => Step::Aborted,
            Step::Failed { eof } => parse_chunk_from(s, k + 1, all_eof && eof),
        }
    }
}

/// Reading one entry at the front of `s`.
pub open spec fn parse_chunk(s: Seq<u8>) -> Step<ChunkView> {
    parse_chunk_from(s, 0, true)
}

/// How reading a whole block ends.
pub enum UebParse {
    Parsed(Seq<ChunkView>),
    Failed,
    Aborted,
}

/// Reading entries until one runs out of input: that one is dropped and
/// the entries before it are the block.
pub open spec fn parse_chunks(s: Seq<u8>) -> UebParse
    decreases s.len(),
{
    match parse_chunk(s) {
        Step::Read { value, len } => if 0 < len <= s.len() {
            match parse_chunks(s.skip(len)) {
                UebParse::Parsed(rest) => UebParse::Parsed(seq![value] + rest),
                other => other,
            }
        } else {
            UebParse::Failed
        },
        Step::Failed { eof } => if eof {
            UebParse::Parsed(Seq::empty())
        } else {
            UebParse::Failed
        },
        Step::Aborted => UebParse::Aborted,
    }
}

/// The colon search stops at the first `:`, or at the end.
proof fn lemma_first_colon(s: Seq<u8>, i: int)
    requires
        0 <= i <= s.len(),
        forall|j: int| 0 <= j < i ==> s[j] != 58u8,
        i == s.len() || s[i] == 58u8,
    ensures
        first_colon(s) == (if i == s.len() {
            -1
        } else {
            i
        }),
    decreases s.len(),
{
    if s.len() > 0 && i > 0 {
        let t = s.drop_first();
        assert forall|j: int| 0 <= j < i - 1 implies t[j] != 58u8 by {
            assert(t[j] == s[j + 1]);
        }
        lemma_first_colon(t, i - 1);
    }
}

proof fn lemma_first_colon_bound(s: Seq<u8>)
    ensures
        -1 <= first_colon(s) < s.len(),
        first_colon(s) >= 0 ==> s[first_colon(s)] == 58u8,
    decreases s.len(),
{
    if s.len() > 0 {
        lemma_first_colon_bound(s.drop_first());
    }
}

/// A read item never takes more bytes than there are, and at least one.
proof fn lemma_value_len(s: Seq<u8>)
    ensures
        parse_value(s) matches Step::Read { len, .. } ==> 0 < len <= s.len(),
{
    lemma_first_colon_bound(s);
}

proof fn lemma_chunk_from_len(s: Seq<u8>, k: int, all_eof: bool)
    ensures
        parse_chunk_from(s, k, all_eof) matches Step::Read { len, .. } ==> 0 < len <= s.len(),
    decreases 10 - k,
{
    if k < 10 {
        let m = magic(k);
        if s.len() >= m.len() {
            lemma_value_len(s.skip(m.len() as int));
        }
        lemma_chunk_from_len(s, k + 1, true);
        lemma_chunk_from_len(s, k + 1, false);
    }
}

/// How an exec read of one item ends; its view is a `Step`.
pub enum Outcome<T> {
    Read(T, usize),
    Failed(bool),
    Aborted,
}

impl<T: View> View for Outcome<T> {
    type V = Step<T::V>;

    open spec fn view(&self) -> Step<T::V> {
        match self {
            Outcome::Read(t, n) => Step::Read { value: t@, len: *n as int },
            Outcome::Failed(e) => Step::Failed { eof: *e },
            Outcome::Aborted => Step::Aborted,
        }
    }
}

/// Reads a value (what follows its name) from `s` at `pos`.
fn read_value(s: &[u8], pos: usize) -> (r: Outcome<UEB_Value>)
    requires
        pos <= s.len(),
    ensures
        r@ == parse_value(s@.skip(pos as int)),
{
    let ghost t = s@.skip(pos as int);
    let mut i: usize = pos;
    while i < s.len() && s[i] != 58u8
        invariant
            pos <= i <= s.len(),
            t == s@.skip(pos as int),
            forall|j: int| 0 <= j < i - pos ==> t[j] != 58u8,
        decreases s.len() - i,
    {
        i = i + 1;
    }
    proof {
        lemma_first_colon(t, i - pos);
    }
    if i == s.len() {
        return Outcome::Failed(true);
    }
    let count = slice_to_vec(slice_subrange(s, pos, i));
    assert(count@ =~= t.take(i - pos));
    match parse_decimal_u32(count.as_slice()) {
        None => Outcome::Aborted,
        Some(n) => {
            let start = i + 1;
            let n = n as usize;
            let ghost rest = t.skip(i - pos + 1);
            assert(rest =~= s@.skip(start as int));
            if s.len() - start <= n {
                return Outcome::Failed(true);
            }
            let pile = slice_to_vec(slice_subrange(s, start, start + n));
            assert(pile@ =~= rest.take(n as int));
            let comma = s[start + n];
            let v = UEB_Value { count_of_bytes: count, pile_of_bytes: pile, trailing_comma: comma };
            Outcome::Read(v, start + n + 1 - pos)
        },
    }
}

/// Whether `s` holds the bytes of `m` at `pos`.
fn has_at(s: &[u8], pos: usize, m: &[u8]) -> (r: bool)
    requires
        pos <= s.len(),
        m.len() <= s.len() - pos,
    ensures
        r == (s@.skip(pos as int).take(m.len() as int) == m@),
{
    let ghost w = s@.skip(pos as int).take(m.len() as int);
    let mut i: usize = 0;
    while i < m.len()
        invariant
            i <= m.len() <= s.len() - pos,
            w == s@.skip(pos as int).take(m.len() as int),
            forall|j: int| 0 <= j < i ==> w[j] == m@[j],
        decreases m.len() - i,
    {
        if s[pos + i] != m[i] {
            assert(w[i as int] != m@[i as int]);
            return false;
        }
        i = i + 1;
    }
    assert(w =~= m@);
    true
}

/// The entry of kind `k` holding `v`.
fn make_chunk(k: usize, v: UEB_Value) -> (r: UEB_chunk)
    requires
        k < 10,
    ensures
        r@ == ChunkView::Named(k as int, v@),
{
    if k == 0 {
        UEB_chunk::CodecName(v)
    } else if k == 1 {
        UEB_chunk::CodecParams(v)
    } else if k == 2 {
        UEB_chunk::CryptText(v)
    } else if k == 3 {
        UEB_chunk::CryptTextRootHash(v)
    } else if k == 4 {
        UEB_chunk::NeededShares(v)
    } else if k == 5 {
        UEB_chunk::NumSegments(v)
    } else if k == 6 {
        UEB_chunk::SegmentSize(v)
    } else if k == 7 {
        UEB_chunk::ShareRootHash(v)
    } else if k == 8 {
        UEB_chunk::TailCodecParams(v)
    } else {
        UEB_chunk::TotalShares(v)
    }
}

/// Reads one entry from `s` at `pos`.
fn read_chunk(s: &[u8], pos: usize) -> (r: Outcome<UEB_chunk>)
    requires
        pos <= s.len(),
    ensures
        r@ == parse_chunk(s@.skip(pos as int)),
{
    let ghost t = s@.skip(pos as int);
    let mut k: usize = 0;
    let mut all_eof = true;
    while k < 10
        invariant
            k <= 10,
            pos <= s.len(),
            t == s@.skip(pos as int),
            parse_chunk(t) == parse_chunk_from(t, k as int, all_eof),
        decreases 10 - k,
    {
        let m = magic_bytes(k);
        if s.len() - pos < m.len() {
            k = k + 1;
        } else if !has_at(s, pos, m.as_slice()) {
            all_eof = false;
            k = k + 1;
        } else {
            assert(t.skip(m.len() as int) =~= s@.skip(pos + m.len()));
            match read_value(s, pos + m.len()) {
                Outcome::Read(v, n) => {
                    proof {
                        lemma_value_len(s@.skip(pos + m.len()));
                    }
                    let c = make_chunk(k, v);
                    return Outcome::Read(c, m.len() + n);
                },
                Outcome::Failed(e) => {
                    all_eof = all_eof && e;
                    k = k + 1;
                },
                Outcome::Aborted => {
                    return Outcome::Aborted;
                },
            }
        }
    }
    if s.len() - pos >= 5 {
        let mut a = [0u8; 5];
        let mut i: usize = 0;
        while i < 5
            invariant
                i <= 5,
                pos + 5 <= s.len(),
                a@.len() == 5,
                forall|j: int| 0 <= j < i ==> a@[j] == s@[pos + j],
            decreases 5 - i,
        {
            a[i] = s[pos + i];
            i = i + 1;
        }
        assert(a@ =~= t.take(5));
        Outcome::Read(UEB_chunk::Debug(a), 5)
    } else {
        Outcome::Failed(all_eof)
    }
}

/// Why a block cannot be read.
#[derive(Debug, Clone, Copy, PartialEq, Eq, Structural)]
pub enum UebError {
    /// A named value's byte count is not a decimal `u32` (the reader aborts).
    InvalidByteCount,
    /// An entry failed for a reason other than running out of input.
    Malformed,
}

/// What `parse_ueb` returns for the block `b`.
pub open spec fn parse_ueb_spec(b: Seq<u8>) -> Result<Seq<ChunkView>, UebError> {
    match parse_chunks(b) {
        UebParse::Parsed(cs) => Ok(cs),
        UebParse::Failed => Err(UebError::Malformed),
        UebParse::Aborted => Err(UebError::InvalidByteCount),
    }
}

/// Prefixes the entries read so far to how the rest of the read ends.
pub open spec fn prepend(done: Seq<ChunkView>, r: UebParse) -> UebParse {
    match r {
        UebParse::Parsed(rest) => UebParse::Parsed(done + rest),
        other => other,
    }
}

/// Reads a URI extension block: entries from the start until one runs out
/// of input.
pub fn parse_ueb(b: &[u8]) -> (r: Result<UEB, UebError>)
    ensures
        match parse_ueb_spec(b@) {
            Ok(cs) => r matches Ok(u) && u@ == cs,
            Err(e) => r matches Err(e2) && e2 == e,
        },
{
    let mut vals: Vec<UEB_chunk> = Vec::new();
    let mut pos: usize = 0;
    assert(b@.skip(0) =~= b@);
    assert(chunks_view(vals@) =~= Seq::<ChunkView>::empty());
    loop
        invariant
            pos <= b.len(),
            parse_chunks(b@) == prepend(chunks_view(vals@), parse_chunks(b@.skip(pos as int))),
        decreases b.len() - pos,
    {
        let ghost t = b@.skip(pos as int);
        match read_chunk(b, pos) {
            Outcome::Read(c, n) => {
                proof {
                    lemma_chunk_from_len(t, 0, true);
                    assert(t.skip(n as int) =~= b@.skip(pos + n));
                    assert(chunks_view(vals@.push(c)) =~= chunks_view(vals@).push(c@));
                    match parse_chunks(t.skip(n as int)) {
                        UebParse::Parsed(rest) => {
                            assert(chunks_view(vals@) + (seq![c@] + rest) =~= chunks_view(vals@).push(c@) + rest);
                        },
                        _ => {},
                    }
                }
                vals.push(c);
                pos = pos + n;
            },
            Outcome::Failed(e) => {
                if e {
                    assert(chunks_view(vals@) + Seq::<ChunkView>::empty() =~= chunks_view(vals@));
                    return Ok(UEB { vals });
                } else {
                    return Err(UebError::Malformed);
                }
            },
            Outcome::Aborted => {
                return Err(UebError::InvalidByteCount);
            },
        }
    }
}

/// Reads a block that `parse_ueb` accepts.
pub fn read_ueb(b: &[u8]) -> (r: UEB)
    requires
        parse_ueb_spec(b@) is Ok,
    ensures
        parse_ueb_spec(b@) == Ok::<Seq<ChunkView>, UebError>(r@),
{
    match parse_ueb(b) {
        Ok(u) => u,
        Err(e) => {
            assert(false);
            UEB { vals: Vec::new() }
        },
    }
}

/// The last value of kind `k` among the entries, if any.
pub open spec fn last_of_kind(cs: Seq<ChunkView>, k: int) -> Option<ValueView>
    decreases cs.len(),
{
    if cs.len() == 0 {
        None
    } else {
        match cs.last() {
            ChunkView::Named(j, v) => if j == k {
                Some(v)
            } else {
                last_of_kind(cs.drop_last(), k)
            },
            ChunkView::Unmatched(_) => last_of_kind(cs.drop_last(), k),
        }
    }
}

/// Whether an entry is a named value of kind `k`.
pub open spec fn is_kind(c: ChunkView, k: int) -> bool {
    c matches ChunkView::Named(j, _) && j == k
}

/// The last value of kind `k` is found exactly when some entry has that
/// kind, and it is the value of the entry of that kind that no later entry
/// of that kind follows; entries of other kinds, named or unmatched, do not
/// matter.
pub proof fn lemma_last_of_kind(cs: Seq<ChunkView>, k: int)
    ensures
        last_of_kind(cs, k) is None <==> (forall|i: int| 0 <= i < cs.len() ==> !#[trigger] is_kind(cs[i], k)),
        last_of_kind(cs, k) matches Some(v) ==> exists|i: int|
            0 <= i < cs.len() && cs[i] == ChunkView::Named(k, v) && (forall|j: int|
                i < j < cs.len() ==> !#[trigger] is_kind(cs[j], k)),
    decreases cs.len(),
{
    if cs.len() > 0 {
        let p = cs.drop_last();
        lemma_last_of_kind(p, k);
        let n = cs.len() - 1;
        assert(forall|i: int| 0 <= i < p.len() ==> p[i] == cs[i]);
        if is_kind(cs[n], k) {
            if let Some(v) = last_of_kind(cs, k) {
                assert(cs[n] == ChunkView::Named(k, v));
            }
        } else {
            if let Some(v) = last_of_kind(cs, k) {
                let i = choose|i: int|
                    0 <= i < p.len() && p[i] == ChunkView::Named(k, v) && (forall|j: int|
                        i < j < p.len() ==> !#[trigger] is_kind(p[j], k));
                assert(cs[i] == ChunkView::Named(k, v));
                assert forall|j: int| i < j < cs.len() implies !#[trigger] is_kind(cs[j], k) by {
                    if j < n {
                        assert(p[j] == cs[j]);
                    }
                }
            }
            if last_of_kind(cs, k) is None {
                assert forall|i: int| 0 <= i < cs.len() implies !#[trigger] is_kind(cs[i], k) by {
                    if i < n {
                        assert(p[i] == cs[i]);
                    }
                }
            } else {
                assert(exists|i: int| 0 <= i < cs.len() && #[trigger] is_kind(cs[i], k));
            }
        }
    }
}

/// Appending an entry that is not of kind `k` keeps the last value of kind
/// `k`; appending one of kind `k` makes it the last.
pub proof fn lemma_last_of_kind_push(cs: Seq<ChunkView>, c: ChunkView, k: int)
    ensures
        !is_kind(c, k) ==> last_of_kind(cs.push(c), k) == last_of_kind(cs, k),
        forall|v: ValueView| c == ChunkView::Named(k, v) ==> last_of_kind(cs.push(c), k) == Some(v),
{
    assert(cs.push(c).drop_last() =~= cs);
}

/// The block's crypttext root hash value: the last `crypttext_root_hash`
/// entry, if there is one.
pub fn crypttext_root_hash(ueb: &UEB) -> (r: Option<&UEB_Value>)
    ensures
        match r {
            Some(v) => last_of_kind(ueb@, 3) == Some(v@),
            None => last_of_kind(ueb@, 3) is None,
        },
        r is None <==> (forall|i: int| 0 <= i < ueb@.len() ==> !#[trigger] is_kind(ueb@[i], 3)),
        r matches Some(v) ==> exists|i: int|
            0 <= i < ueb@.len() && ueb@[i] == ChunkView::Named(3, v@) && (forall|j: int|
                i < j < ueb@.len() ==> !#[trigger] is_kind(ueb@[j], 3)),
{
    proof {
        lemma_last_of_kind(ueb@, 3);
    }
    let mut found: Option<&UEB_Value> = None;
    let mut i: usize = 0;
    while i < ueb.vals.len()
        invariant
            i <= ueb.vals@.len(),
            match found {
                Some(v) => last_of_kind(chunks_view(ueb.vals@.take(i as int)), 3) == Some(v@),
                None => last_of_kind(chunks_view(ueb.vals@.take(i as int)), 3) is None,
            },
        decreases ueb.vals.len() - i,
    {
        let ghost before = chunks_view(ueb.vals@.take(i as int));
        let ghost after = chunks_view(ueb.vals@.take(i + 1));
        assert(after.drop_last() =~= before);
        assert(after.last() == ueb.vals@[i as int]@);
        match &ueb.vals[i] {
            UEB_chunk::CryptTextRootHash(v) => {
                found = Some(v);
            },
            _ => {},
        }
        i = i + 1;
    }
    assert(ueb.vals@.take(i as int) =~= ueb.vals@);
    found
}

/// An index below both lengths where the names of kinds `j < k` differ.
pub open spec fn magic_split(j: int, k: int) -> int {
    if j == 0 && k == 1 {
        6
    } else if j == 0 && k == 2 {
        1
    } else if j == 0 && k == 3 {
        1
    } else if j == 0 && k == 4 {
        0
    } else if j == 0 && k == 5 {
        0
    } else if j == 0 && k == 6 {
        0
    } else if j == 0 && k == 7 {
        0
    } else if j == 0 && k == 8 {
        0
    } else if j == 0 && k == 9 {
        0
    } else if j == 1 && k == 2 {
        1
    } else if j == 1 && k == 3 {
        1
    } else if j == 1 && k == 4 {
        0
    } else if j == 1 && k == 5 {
        0
    } else if j == 1 && k == 6 {
        0
    } else if j == 1 && k == 7 {
        0
    } else if j == 1 && k == 8 {
        0
    } else if j == 1 && k == 9 {
        0
    } else if j == 2 && k == 3 {
        10
    } else if j == 2 && k == 4 {
        0
    } else if j == 2 && k == 5 {
        0
    } else if j == 2 && k == 6 {
        0
    } else if j == 2 && k == 7 {
        0
    } else if j == 2 && k == 8 {
        0
    } else if j == 2 && k == 9 {
        0
    } else if j == 3 && k == 4 {
        0
    } else if j == 3 && k == 5 {
        0
    } else if j == 3 && k == 6 {
        0
    } else if j == 3 && k == 7 {
        0
    } else if j == 3 && k == 8 {
        0
    } else if j == 3 && k == 9 {
        0
    } else if j == 4 && k == 5 {
        1
    } else if j == 4 && k == 6 {
        0
    } else if j == 4 && k == 7 {
        0
    } else if j == 4 && k == 8 {
        0
    } else if j == 4 && k == 9 {
        0
    } else if j == 5 && k == 6 {
        0
    } else if j == 5 && k == 7 {
        0
    } else if j == 5 && k == 8 {
        0
    } else if j == 5 && k == 9 {
        0
    } else if j == 6 && k == 7 {
        1
    } else if j == 6 && k == 8 {
        0
    } else if j == 6 && k == 9 {
        0
    } else if j == 7 && k == 8 {
        0
    } else if j == 7 && k == 9 {
        0
    } else if j == 8 && k == 9 {
        1
    } else {
        0
    }

}

/// No name is a prefix of another: two names differ at `magic_split`.
proof fn lemma_magic_distinct(j: int, k: int)
    requires
        0 <= j < k < 10,
    ensures
        0 <= magic_split(j, k) < magic(j).len(),
        magic_split(j, k) < magic(k).len(),
        magic(j)[magic_split(j, k)] != magic(k)[magic_split(j, k)],
{
}

/// What a value written as a netstring reads back as.
pub open spec fn netstring_value(v: Seq<u8>) -> ValueView {
    ValueView { count_of_bytes: decimal(v.len()), pile_of_bytes: v, trailing_comma: 44u8 }
}

/// A value written as the netstring of `v` reads back as `v`, with the
/// decimal length as its count and the comma after it, whatever follows.
pub proof fn lemma_value_roundtrip(v: Seq<u8>, rest: Seq<u8>)
    requires
        v.len() <= u32::MAX,
    ensures
        parse_value(netstring_spec(v) + rest) == (Step::Read {
            value: netstring_value(v),
            len: netstring_spec(v).len() as int,
        }),
{
    let d = decimal(v.len());
    let s = netstring_spec(v) + rest;
    lemma_decimal_digits(v.len());
    assert forall|j: int| 0 <= j < d.len() implies s[j] != 58u8 by {
        assert(is_digit(d[j]));
        assert(s[j] == d[j]);
    }
    assert(s[d.len() as int] == 58u8);
    lemma_first_colon(s, d.len() as int);
    assert(s.take(d.len() as int) =~= d);
    lemma_parse_decimal_roundtrip(v.len() as u32);
    let r2 = s.skip(d.len() + 1 as int);
    assert(r2 =~= v + seq![44u8] + rest);
    assert(r2.take(v.len() as int) =~= v);
}

/// The bytes of a named value of kind `k` holding `v`.
pub open spec fn encode_entry(k: int, v: Seq<u8>) -> Seq<u8> {
    magic(k) + netstring_spec(v)
}

/// Where the name of kind `k` opens the input, no earlier kind matches.
proof fn lemma_earlier_kind_fails(s: Seq<u8>, j: int, k: int)
    requires
        0 <= j < k < 10,
        s.len() >= magic(k).len(),
        s.take(magic(k).len() as int) == magic(k),
    ensures
        try_kind(s, j) is Failed,
{
    lemma_magic_distinct(j, k);
    let d = magic_split(j, k);
    let mj = magic(j);
    if s.len() >= mj.len() {
        assert(s.take(magic(k).len() as int)[d] == s[d]);
        assert(s.take(mj.len() as int)[d] != mj[d]);
    }
}

proof fn lemma_chunk_reaches(s: Seq<u8>, j: int, k: int, e: bool)
    requires
        0 <= j <= k < 10,
        s.len() >= magic(k).len(),
        s.take(magic(k).len() as int) == magic(k),
        try_kind(s, k) is Read,
    ensures
        parse_chunk_from(s, j, e) == try_kind(s, k),
    decreases k - j,
{
    if j < k {
        lemma_earlier_kind_fails(s, j, k);
        let e2 = match try_kind(s, j) {
            Step::Failed { eof } => e && eof,
            _ => e,
        };
        lemma_chunk_reaches(s, j + 1, k, e2);
    }
}

/// A named value of kind `k` written with the netstring of `v` reads back
/// as that kind and value, whatever follows it.
pub proof fn lemma_entry_roundtrip(k: int, v: Seq<u8>, rest: Seq<u8>)
    requires
        0 <= k < 10,
        v.len() <= u32::MAX,
    ensures
        parse_chunk(encode_entry(k, v) + rest) == (Step::Read {
            value: ChunkView::Named(k, netstring_value(v)),
            len: encode_entry(k, v).len() as int,
        }),
{
    let s = encode_entry(k, v) + rest;
    let m = magic(k);
    assert(s.take(m.len() as int) =~= m);
    assert(s.skip(m.len() as int) =~= netstring_spec(v) + rest);
    lemma_value_roundtrip(v, rest);
    lemma_chunk_reaches(s, 0, k, true);
}

/// Fewer than five bytes hold no entry: every kind and the unmatched
/// bytes run out of input.
proof fn lemma_short_input(s: Seq<u8>, k: int, e: bool)
    requires
        s.len() < 5,
        0 <= k,
    ensures
        parse_chunk_from(s, k, e) == (Step::Failed::<ChunkView> { eof: e }),
    decreases 10 - k,
{
    if k < 10 {
        assert(magic(k).len() >= 11);
        lemma_short_input(s, k + 1, e);
    }
}

/// The bytes of named values written one after another.
pub open spec fn encode_entries(es: Seq<(int, Seq<u8>)>) -> Seq<u8>
    decreases es.len(),
{
    if es.len() == 0 {
        Seq::empty()
    } else {
        encode_entry(es[0].0, es[0].1) + encode_entries(es.drop_first())
    }
}

/// The entries that `encode_entries(es)` reads back as.
pub open spec fn entries_view(es: Seq<(int, Seq<u8>)>) -> Seq<ChunkView> {
    es.map_values(|e: (int, Seq<u8>)| ChunkView::Named(e.0, netstring_value(e.1)))
}

/// Each entry has a kind and a value that a `u32` can count.
pub open spec fn entries_ok(es: Seq<(int, Seq<u8>)>) -> bool {
    forall|i: int| 0 <= i < es.len() ==> 0 <= #[trigger] es[i].0 < 10 && es[i].1.len() <= u32::MAX
}

/// A block written as named values, each a name followed by the netstring
/// of its bytes, reads back as exactly those values in that order.
pub proof fn lemma_block_roundtrip(es: Seq<(int, Seq<u8>)>)
    requires
        entries_ok(es),
    ensures
        parse_ueb_spec(encode_entries(es)) == Ok::<Seq<ChunkView>, UebError>(entries_view(es)),
    decreases es.len(),
{
    let s = encode_entries(es);
    if es.len() == 0 {
        lemma_short_input(s, 0, true);
        assert(entries_view(es) =~= Seq::<ChunkView>::empty());
    } else {
        let tail = es.drop_first();
        assert(entries_ok(tail)) by {
            assert forall|i: int| 0 <= i < tail.len() implies 0 <= #[trigger] tail[i].0 < 10
                && tail[i].1.len() <= u32::MAX by {
                assert(tail[i] == es[i + 1]);
            }
        }
        assert(0 <= es[0].0 < 10 && es[0].1.len() <= u32::MAX);
        let rest = encode_entries(tail);
        lemma_entry_roundtrip(es[0].0, es[0].1, rest);
        let n = encode_entry(es[0].0, es[0].1).len() as int;
        assert(s.skip(n) =~= rest);
        lemma_block_roundtrip(tail);
        assert(entries_view(es) =~= seq![ChunkView::Named(es[0].0, netstring_value(es[0].1))]
            + entries_view(tail));
    }
}

/// Five bytes that begin no name: reading meets them as an unmatched entry.
pub open spec fn opens_no_name(u: Seq<u8>) -> bool {
    u.len() == 5 && forall|k: int| 0 <= k < 10 ==> u != #[trigger] magic(k).take(5)
}

proof fn lemma_unmatched_from(s: Seq<u8>, k: int, e: bool)
    requires
        0 <= k,
        s.len() >= 5,
        opens_no_name(s.take(5)),
    ensures
        parse_chunk_from(s, k, e) == (Step::Read {
            value: ChunkView::Unmatched(s.take(5)),
            len: 5,
        }),
    decreases 10 - k,
{
    if k < 10 {
        let m = magic(k);
        assert(m.len() >= 11);
        if s.len() >= m.len() && s.take(m.len() as int) == m {
            assert(s.take(m.len() as int).take(5) =~= s.take(5));
            assert(s.take(5) == m.take(5));
        }
        let e2 = match try_kind(s, k) {
            Step::Failed { eof } => e && eof,
            _ => e,
        };
        lemma_unmatched_from(s, k + 1, e2);
    }
}

/// Reading is compositional over unknown entries: five bytes that begin no
/// name, put in front of any input, are read as one unmatched entry in
/// front of what that input reads as, and an input that fails still fails
/// the same way.
pub proof fn lemma_unmatched_prefix(u: Seq<u8>, r: Seq<u8>)
    requires
        opens_no_name(u),
    ensures
        parse_ueb_spec(u + r) == (match parse_ueb_spec(r) {
            Ok(cs) => Ok(seq![ChunkView::Unmatched(u)] + cs),
            Err(e) => Err(e),
        }),
{
    let s = u + r;
    assert(s.take(5) =~= u);
    lemma_unmatched_from(s, 0, true);
    assert(s.skip(5) =~= r);
}

/// The bytes that write an entry: a named value as its name and the
/// netstring of its bytes, unmatched bytes as themselves.
pub open spec fn encode_view(c: ChunkView) -> Seq<u8> {
    match c {
        ChunkView::Named(k, v) => magic(k) + netstring_spec(v.pile_of_bytes),
        ChunkView::Unmatched(u) => u,
    }
}

/// The bytes that write entries one after another.
pub open spec fn encode_views(cs: Seq<ChunkView>) -> Seq<u8>
    decreases cs.len(),
{
    if cs.len() == 0 {
        Seq::empty()
    } else {
        encode_view(cs[0]) + encode_views(cs.drop_first())
    }
}

/// An entry that can be written so as to read back: a named value of a
/// known kind whose count is the decimal length of its bytes, followed by
/// a comma, or five bytes that begin no name.
pub open spec fn writable(c: ChunkView) -> bool {
    match c {
        ChunkView::Named(k, v) => 0 <= k < 10 && v.pile_of_bytes.len() <= u32::MAX && v
            == netstring_value(v.pile_of_bytes),
        ChunkView::Unmatched(u) => opens_no_name(u),
    }
}

/// A block that mixes named values with unknown entries (such as
/// `size:2:56,`, two unmatched five-byte pieces) reads back as exactly
/// those entries, in order: every named entry with its kind and value,
/// also after unknown ones.
pub proof fn lemma_mixed_block_roundtrip(cs: Seq<ChunkView>)
    requires
        forall|i: int| 0 <= i < cs.len() ==> #[trigger] writable(cs[i]),
    ensures
        parse_ueb_spec(encode_views(cs)) == Ok::<Seq<ChunkView>, UebError>(cs),
    decreases cs.len(),
{
    let s = encode_views(cs);
    if cs.len() == 0 {
        lemma_short_input(s, 0, true);
        assert(cs =~= Seq::<ChunkView>::empty());
        assert(parse_chunks(s) == UebParse::Parsed(Seq::<ChunkView>::empty()));
    } else {
        let tail = cs.drop_first();
        assert forall|i: int| 0 <= i < tail.len() implies #[trigger] writable(tail[i]) by {
            assert(tail[i] == cs[i + 1]);
            assert(writable(cs[i + 1]));
        }
        lemma_mixed_block_roundtrip(tail);
        let rest = encode_views(tail);
        assert(writable(cs[0]));
        match cs[0] {
            ChunkView::Named(k, v) => {
                lemma_entry_roundtrip(k, v.pile_of_bytes, rest);
                let n = encode_entry(k, v.pile_of_bytes).len() as int;
                assert(s =~= encode_entry(k, v.pile_of_bytes) + rest);
                assert(s.skip(n) =~= rest);
                assert(v == netstring_value(v.pile_of_bytes));
                assert(parse_chunk(s) == (Step::Read { value: cs[0], len: n }));
                assert(0 < n <= s.len());
                assert(parse_chunks(rest) == UebParse::Parsed(tail));
                assert(parse_chunks(s) == UebParse::Parsed(seq![cs[0]] + tail));
                assert(cs =~= seq![cs[0]] + tail);
            },
            ChunkView::Unmatched(u) => {
                lemma_unmatched_prefix(u, rest);
                assert(s =~= u + rest);
                assert(cs =~= seq![cs[0]] + tail);
            },
        }
    }
}

} // verus!
