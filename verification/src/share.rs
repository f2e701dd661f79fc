//! The share container: a lease header of big-endian `u32` fields, and the
//! URI extension block that the header's offset points at.
use vstd::prelude::*;
use vstd::slice::{slice_subrange, slice_to_vec};

verus! {

/// The header fields of a share, and its URI extension block.
#[derive(Debug)]
pub struct Share {
    pub lease_version: u32,
    pub lease_data_length: u32,
    pub lease_count: u32,
    pub share_version: u32,
    pub block_size: u32,
    pub data_size: u32,
    pub data_offset: u32,
    pub plaintxt_hash_tree_offset: u32,
    pub cryptxt_hash_tree_offset: u32,
    pub block_hashes_offset: u32,
    pub share_hashes_offset: u32,
    pub uri_ext_offset: u32,
    pub uri_ext_size: u32,
    pub uri_ext: Vec<u8>,
}

/// The big-endian `u32` in the four bytes of `s` from `i`.
pub open spec fn be_u32_at(s: Seq<u8>, i: int) -> int {
    s[i] * 16777216 + s[i + 1] * 65536 + s[i + 2] * 256 + s[i + 3]
}

/// Bytes of the lease header before the share's own offsets count: the
/// offsets in the header are relative to the share, which sits inside a
/// lease of three `u32`s.
pub open spec fn lease_header_len() -> int {
    12
}

/// Why a share cannot be read.
#[derive(Debug, Clone, Copy, PartialEq, Eq, Structural)]
pub enum ShareError {
    /// The input ends before a field that the header calls for.
    Truncated,
    /// The URI extension offset plus the lease header does not fit in a
    /// `u32` (the reader's offset arithmetic overflows).
    OffsetOverflow,
}

/// Where the URI extension block's size field stands.
pub open spec fn uri_ext_pos(s: Seq<u8>) -> int {
    be_u32_at(s, 44) + lease_header_len()
}

/// Whether, and why, reading a share from `s` fails.
pub open spec fn share_error(s: Seq<u8>) -> Option<ShareError> {
    if s.len() < 48 {
        Some(ShareError::Truncated)
    } else if uri_ext_pos(s) > u32::MAX {
        Some(ShareError::OffsetOverflow)
    } else if uri_ext_pos(s) + 4 > s.len() {
        Some(ShareError::Truncated)
    } else if uri_ext_pos(s) + 4 + be_u32_at(s, uri_ext_pos(s)) > s.len() {
        Some(ShareError::Truncated)
    } else {
        None
    }
}

/// The fields of `sh` are those that `s` holds: twelve header words, then
/// the block's size and bytes where the offset points.
pub open spec fn share_matches(sh: Share, s: Seq<u8>) -> bool {
    let p = uri_ext_pos(s);
    &&& sh.lease_version == be_u32_at(s, 0)
    &&& sh.lease_data_length == be_u32_at(s, 4)
    &&& sh.lease_count == be_u32_at(s, 8)
    &&& sh.share_version == be_u32_at(s, 12)
    &&& sh.block_size == be_u32_at(s, 16)
    &&& sh.data_size == be_u32_at(s, 20)
    &&& sh.data_offset == be_u32_at(s, 24)
    &&& sh.plaintxt_hash_tree_offset == be_u32_at(s, 28)
    &&& sh.cryptxt_hash_tree_offset == be_u32_at(s, 32)
    &&& sh.block_hashes_offset == be_u32_at(s, 36)
    &&& sh.share_hashes_offset == be_u32_at(s, 40)
    &&& sh.uri_ext_offset == be_u32_at(s, 44)
    &&& sh.uri_ext_size == be_u32_at(s, p)
    &&& sh.uri_ext@ == s.subrange(p + 4, p + 4 + be_u32_at(s, p))
}

/// Reads the big-endian `u32` at `i`.
fn read_u32_be(s: &[u8], i: usize) -> (r: u32)
    requires
        i + 4 <= s.len(),
    ensures
        r == be_u32_at(s@, i as int),
{
    (s[i] as u32) * 16777216u32 + (s[i + 1] as u32) * 65536u32 + (s[i + 2] as u32) * 256u32 + (s[i
        + 3] as u32)
}

/// Reads a share's header and URI extension block from the start of `b`.
pub fn parse_share(b: &[u8]) -> (r: Result<Share, ShareError>)
    ensures
        match share_error(b@) {
            None => r matches Ok(sh) && share_matches(sh, b@),
            Some(e) => r matches Err(e2) && e2 == e,
        },
{
    if b.len() < 48 {
        return Err(ShareError::Truncated);
    }
    let uri_ext_offset = read_u32_be(b, 44);
    if uri_ext_offset > 0xffff_ffffu32 - 12 {
        return Err(ShareError::OffsetOverflow);
    }
    let p = (uri_ext_offset + 12) as usize;
    if p > b.len() || b.len() - p < 4 {
        return Err(ShareError::Truncated);
    }
    let uri_ext_size = read_u32_be(b, p);
    let start = p + 4;
    if b.len() - start < uri_ext_size as usize {
        return Err(ShareError::Truncated);
    }
    let uri_ext = slice_to_vec(slice_subrange(b, start, start + uri_ext_size as usize));
    Ok(
        Share {
            lease_version: read_u32_be(b, 0),
            lease_data_length: read_u32_be(b, 4),
            lease_count: read_u32_be(b, 8),
            share_version: read_u32_be(b, 12),
            block_size: read_u32_be(b, 16),
            data_size: read_u32_be(b, 20),
            data_offset: read_u32_be(b, 24),
            plaintxt_hash_tree_offset: read_u32_be(b, 28),
            cryptxt_hash_tree_offset: read_u32_be(b, 32),
            block_hashes_offset: read_u32_be(b, 36),
            share_hashes_offset: read_u32_be(b, 40),
            uri_ext_offset,
            uri_ext_size,
            uri_ext,
        },
    )
}

/// Reads a share that `parse_share` accepts: the header fits, its offset
/// arithmetic does not overflow, and the URI extension block lies within
/// `b`.
pub fn read_share(b: &[u8]) -> (r: Share)
    requires
        share_error(b@) is None,
    ensures
        share_matches(r, b@),
{
    match parse_share(b) {
        Ok(sh) => sh,
        Err(_) => {
            assert(false);
            Share {
                lease_version: 0,
                lease_data_length: 0,
                lease_count: 0,
                share_version: 0,
                block_size: 0,
                data_size: 0,
                data_offset: 0,
                plaintxt_hash_tree_offset: 0,
                cryptxt_hash_tree_offset: 0,
                block_hashes_offset: 0,
                share_hashes_offset: 0,
                uri_ext_offset: 0,
                uri_ext_size: 0,
                uri_ext: Vec::new(),
            }
        },
    }
}

/// The share's data, `data_size` bytes from `data_offset` (counted, like
/// every offset in the header, after the lease header) in the bytes the
/// share was read from; `None` where they do not lie within `b`.
pub fn share_data<'a>(b: &'a [u8], data_offset: u32, data_size: u32) -> (r: Option<&'a [u8]>)
    ensures
        match r {
            Some(d) => data_offset + lease_header_len() + data_size <= b@.len() && d@ == b@.subrange(
                data_offset + lease_header_len(),
                data_offset + lease_header_len() + data_size,
            ),
            None => data_offset + lease_header_len() + data_size > b@.len(),
        },
{
    let start = data_offset as usize;
    let size = data_size as usize;
    if start > b.len() || b.len() - start < 12 || b.len() - start - 12 < size {
        return None;
    }
    Some(slice_subrange(b, start + 12, start + 12 + size))
}

/// The stored crypttext hash tree: the bytes from the tree's offset up to
/// the offset of the block hashes that follow it (both counted after the
/// lease header); `None` where the offsets are out of order or the region
/// does not lie within `b`.
pub fn crypttext_hash_tree_bytes<'a>(b: &'a [u8], sh: &Share) -> (r: Option<&'a [u8]>)
    ensures
        match r {
            Some(d) => sh.cryptxt_hash_tree_offset <= sh.block_hashes_offset
                && sh.block_hashes_offset + lease_header_len() <= b@.len()
                && d@ == b@.subrange(
                sh.cryptxt_hash_tree_offset + lease_header_len(),
                sh.block_hashes_offset + lease_header_len(),
            ),
            None => sh.cryptxt_hash_tree_offset > sh.block_hashes_offset
                || sh.block_hashes_offset + lease_header_len() > b@.len(),
        },
{
    if sh.cryptxt_hash_tree_offset > sh.block_hashes_offset {
        return None;
    }
    share_data(b, sh.cryptxt_hash_tree_offset, sh.block_hashes_offset - sh.cryptxt_hash_tree_offset)
}

} // verus!
