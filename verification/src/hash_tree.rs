//! The crypttext hash tree as a share stores it: 32-byte node hashes in
//! breadth-first order, the root first, so that the children of node `i`
//! are nodes `2i + 1` and `2i + 2`, and the leaves fill the last half.
use crate::hashing::{
    interior_tag, interior_tag_bytes, segment_tag, sha256d, tagged_input, tagged_pair_hash,
    tagged_pair_input, TahoeLeaf,
};
use vstd::prelude::*;
use vstd::slice::slice_subrange;

verus! {

/// The stored node hashes of a crypttext hash tree.
pub struct CryptTextHashTree<'a> {
    pub raw_data: &'a [u8],
}

/// The number of whole 32-byte nodes in `len` bytes.
pub open spec fn node_count(len: nat) -> nat {
    len / 32
}

/// The hash of node `i` within the stored bytes.
pub open spec fn node_spec(raw: Seq<u8>, i: int) -> Seq<u8> {
    raw.subrange(32 * i, 32 * i + 32)
}

/// Whether two byte strings are equal, compared byte by byte.
pub fn bytes_equal(a: &[u8], b: &[u8]) -> (r: bool)
    ensures
        r == (a@ == b@),
{
    if a.len() != b.len() {
        return false;
    }
    let mut i: usize = 0;
    while i < a.len()
        invariant
            i <= a.len() == b.len(),
            forall|j: int| 0 <= j < i ==> a@[j] == b@[j],
        decreases a.len() - i,
    {
        if a[i] != b[i] {
            return false;
        }
        i = i + 1;
    }
    assert(a@ =~= b@);
    true
}

impl<'a> CryptTextHashTree<'a> {
    /// The 32 bytes of node `node_number` (node 0 is the root).
    pub fn node_hash(&self, node_number: usize) -> (r: &'a [u8])
        requires
            32 * node_number + 32 <= self.raw_data@.len(),
        ensures
            r@ == node_spec(self.raw_data@, node_number as int),
    {
        let _len = self.raw_data.len();
        let start = node_number * 32;
        let end = start + 32;
        slice_subrange(self.raw_data, start, end)
    }

    /// How many nodes the stored bytes hold.
    pub fn nodes(&self) -> (r: usize)
        ensures
            r == node_count(self.raw_data@.len()),
    {
        self.raw_data.len() / 32
    }

    /// How many leaves a complete tree of `nodes()` nodes has: one more
    /// than half of them. Such a tree has an odd number of nodes.
    pub fn leaf_count(&self) -> (r: usize)
        requires
            node_count(self.raw_data@.len()) % 2 == 1,
        ensures
            r == (node_count(self.raw_data@.len()) + 1) / 2,
    {
        let nodes = self.nodes();
        nodes / 2 + 1
    }

    /// Whether node `i` holds the interior hash of its two children, as
    /// Tahoe builds the tree: the tagged pair hash under
    /// `Merkle tree internal node` of nodes `2i + 1` and `2i + 2`.
    pub fn children_match(&self, i: usize) -> (r: bool)
        requires
            2 * i + 2 < node_count(self.raw_data@.len()),
        ensures
            r == (node_spec(self.raw_data@, i as int) == sha256d(
                tagged_pair_input(
                    interior_tag(),
                    node_spec(self.raw_data@, 2 * i + 1),
                    node_spec(self.raw_data@, 2 * i + 2),
                ),
            )),
    {
        let _nodes = self.nodes();
        let tag = interior_tag_bytes();
        let left = self.node_hash(2 * i + 1);
        let right = self.node_hash(2 * i + 2);
        let h = tagged_pair_hash(tag.as_slice(), left, right);
        bytes_equal(self.node_hash(i), h.as_slice())
    }
}

/// In a complete binary tree, stored root first, the leaves are the last
/// `leaf_count` nodes: the first leaf is node `leaf_count - 1` and the last
/// is the last node.
pub proof fn lemma_leaves_fill_the_tail(nodes: nat)
    requires
        nodes % 2 == 1,
    ensures
        ((nodes + 1) / 2 - 1) + (nodes + 1) / 2 == nodes,
        (nodes + 1) / 2 >= 1,
{
}

/// `data` cut into segments of `seg` bytes each, the last one possibly
/// shorter; no segment at all for empty data.
pub open spec fn segments(data: Seq<u8>, seg: nat) -> Seq<Seq<u8>>
    decreases data.len(),
{
    if data.len() == 0 || seg == 0 {
        Seq::empty()
    } else if data.len() <= seg {
        seq![data]
    } else {
        seq![data.take(seg as int)] + segments(data.skip(seg as int), seg)
    }
}

/// The leaf hash of one segment.
pub open spec fn leaf_hash_spec(segment: Seq<u8>) -> Seq<u8> {
    sha256d(tagged_input(segment_tag(), segment))
}

/// The hash tree's leaves for `data`: the leaf hash of each segment of
/// `segment_len` bytes, in order.
pub fn leaf_hashes(data: &[u8], segment_len: usize) -> (r: Vec<[u8; 32]>)
    requires
        segment_len > 0,
    ensures
        r@.len() == segments(data@, segment_len as nat).len(),
        forall|i: int|
            0 <= i < r@.len() ==> #[trigger] r@[i]@ == leaf_hash_spec(
                segments(data@, segment_len as nat)[i],
            ),
{
    let ghost seg = segment_len as nat;
    let ghost mut done: Seq<Seq<u8>> = Seq::empty();
    let mut out: Vec<[u8; 32]> = Vec::new();
    let mut pos: usize = 0;
    assert(data@.skip(0) =~= data@);
    while pos < data.len()
        invariant
            pos <= data.len(),
            seg == segment_len as nat,
            segment_len > 0,
            segments(data@, seg) =~= done + segments(data@.skip(pos as int), seg),
            out@.len() == done.len(),
            forall|i: int| 0 <= i < out@.len() ==> #[trigger] out@[i]@ == leaf_hash_spec(done[i]),
        decreases data.len() - pos,
    {
        let rest = data.len() - pos;
        let n = if rest <= segment_len {
            rest
        } else {
            segment_len
        };
        let piece = slice_subrange(data, pos, pos + n);
        let h = TahoeLeaf::hash(piece);
        let ghost t = data@.skip(pos as int);
        proof {
            if rest <= segment_len {
                assert(piece@ =~= t);
                assert(t.skip(n as int) =~= Seq::<u8>::empty());
                assert(segments(Seq::<u8>::empty(), seg) =~= Seq::<Seq<u8>>::empty());
                assert(segments(t, seg) =~= seq![piece@] + segments(t.skip(n as int), seg));
            } else {
                assert(piece@ =~= t.take(seg as int));
            }
            assert(t.skip(n as int) =~= data@.skip(pos + n));
            assert(done + segments(t, seg) =~= done.push(piece@) + segments(t.skip(n as int), seg));
            done = done.push(piece@);
        }
        out.push(h);
        pos = pos + n;
    }
    assert(data@.skip(pos as int) =~= Seq::<u8>::empty());
    assert(done + segments(Seq::<u8>::empty(), seg) =~= done);
    out
}

/// The concatenation of a sequence of byte strings.
pub open spec fn concat_all(parts: Seq<Seq<u8>>) -> Seq<u8>
    decreases parts.len(),
{
    if parts.len() == 0 {
        Seq::empty()
    } else {
        parts[0] + concat_all(parts.drop_first())
    }
}

/// Segments cover the data exactly: put back together they are the data,
/// each holds between one and `seg` bytes, and all but the last hold `seg`.
pub proof fn lemma_segments_partition(data: Seq<u8>, seg: nat)
    requires
        seg > 0,
    ensures
        concat_all(segments(data, seg)) == data,
        forall|i: int|
            0 <= i < segments(data, seg).len() ==> 0 < #[trigger] segments(data, seg)[i].len()
                <= seg,
        forall|i: int|
            0 <= i < segments(data, seg).len() - 1 ==> #[trigger] segments(data, seg)[i].len()
                == seg,
    decreases data.len(),
{
    let ss = segments(data, seg);
    if data.len() == 0 {
        assert(concat_all(ss) =~= data);
    } else if data.len() <= seg {
        assert(ss.drop_first() =~= Seq::<Seq<u8>>::empty());
        assert(concat_all(ss.drop_first()) =~= Seq::<u8>::empty());
        assert(concat_all(ss) =~= data);
    } else {
        let rest = data.skip(seg as int);
        lemma_segments_partition(rest, seg);
        let rs = segments(rest, seg);
        assert(ss.drop_first() =~= rs);
        assert(data.take(seg as int) + rest =~= data);
        assert forall|i: int| 0 <= i < ss.len() implies 0 < #[trigger] ss[i].len() <= seg by {
            if i > 0 {
                assert(ss[i] == rs[i - 1]);
            }
        }
        assert forall|i: int| 0 <= i < ss.len() - 1 implies #[trigger] ss[i].len() == seg by {
            if i > 0 {
                assert(ss[i] == rs[i - 1]);
            }
        }
    }
}

} // verus!
