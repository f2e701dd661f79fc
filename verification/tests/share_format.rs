use tahoe_share::hash_tree::{leaf_hashes, CryptTextHashTree};
use tahoe_share::hashing::{netstring, tagged_hash, tagged_pair_hash, uri_extension_hash, TahoeInside, TahoeLeaf};
use tahoe_share::share::{crypttext_hash_tree_bytes, parse_share, read_share, share_data, ShareError};
use tahoe_share::ueb::{crypttext_root_hash, parse_ueb, read_ueb, UebError, UEB_Value, UEB_chunk};

fn value(v: &UEB_Value) -> (&[u8], &[u8], u8) {
    (&v.count_of_bytes, &v.pile_of_bytes, v.trailing_comma)
}

#[test]
fn ueb_reads_the_demo_input() {
    let ueb = parse_ueb(b"codec_name:3:crs,codec_params:5:8-1-2,").unwrap();
    assert_eq!(ueb.vals.len(), 2);
    match &ueb.vals[0] {
        UEB_chunk::CodecName(v) => assert_eq!(value(v), (&b"3"[..], &b"crs"[..], b',')),
        other => panic!("unexpected {:?}", other),
    }
    match &ueb.vals[1] {
        UEB_chunk::CodecParams(v) => assert_eq!(value(v), (&b"5"[..], &b"8-1-2"[..], b',')),
        other => panic!("unexpected {:?}", other),
    }
}

#[test]
fn ueb_values_may_hold_commas_and_colons() {
    let ueb = read_ueb(b"crypttext_hash:4:a,:b,share_root_hash:2:::,");
    assert_eq!(ueb.vals.len(), 2);
    match &ueb.vals[0] {
        UEB_chunk::CryptText(v) => assert_eq!(v.pile_of_bytes, b"a,:b"),
        other => panic!("unexpected {:?}", other),
    }
    match &ueb.vals[1] {
        UEB_chunk::ShareRootHash(v) => assert_eq!(v.pile_of_bytes, b"::"),
        other => panic!("unexpected {:?}", other),
    }
}

#[test]
fn ueb_every_name_is_recognised() {
    let names: [&[u8]; 10] = [
        b"codec_name:", b"codec_params:", b"crypttext_hash:", b"crypttext_root_hash:",
        b"needed_shares:", b"num_segments:", b"segment_size:", b"share_root_hash:",
        b"tail_codec_params:", b"total_shares:",
    ];
    let mut block = Vec::new();
    for (i, n) in names.iter().enumerate() {
        block.extend_from_slice(n);
        block.extend_from_slice(&netstring(format!("v{}", i).as_bytes()));
    }
    let ueb = parse_ueb(&block).unwrap();
    assert_eq!(ueb.vals.len(), 10);
    for (i, c) in ueb.vals.iter().enumerate() {
        let (k, v) = match c {
            UEB_chunk::CodecName(v) => (0, v),
            UEB_chunk::CodecParams(v) => (1, v),
            UEB_chunk::CryptText(v) => (2, v),
            UEB_chunk::CryptTextRootHash(v) => (3, v),
            UEB_chunk::NeededShares(v) => (4, v),
            UEB_chunk::NumSegments(v) => (5, v),
            UEB_chunk::SegmentSize(v) => (6, v),
            UEB_chunk::ShareRootHash(v) => (7, v),
            UEB_chunk::TailCodecParams(v) => (8, v),
            UEB_chunk::TotalShares(v) => (9, v),
            UEB_chunk::Debug(_) => panic!("unmatched entry"),
        };
        assert_eq!(k, i);
        assert_eq!(v.pile_of_bytes, format!("v{}", i).into_bytes());
        assert_eq!(v.count_of_bytes, b"2");
    }
}

#[test]
fn ueb_unknown_names_are_read_five_bytes_at_a_time() {
    let ueb = parse_ueb(b"size:2:56,ab").unwrap();
    assert_eq!(ueb.vals.len(), 2);
    assert!(matches!(ueb.vals[0], UEB_chunk::Debug(b) if &b == b"size:"));
    assert!(matches!(ueb.vals[1], UEB_chunk::Debug(b) if &b == b"2:56,"));
}

#[test]
fn ueb_truncated_value_falls_back_to_unmatched_bytes() {
    let ueb = parse_ueb(b"codec_name:9:crs,").unwrap();
    let unmatched: Vec<[u8; 5]> = ueb
        .vals
        .iter()
        .map(|c| match c {
            UEB_chunk::Debug(b) => *b,
            other => panic!("unexpected {:?}", other),
        })
        .collect();
    assert_eq!(unmatched, vec![*b"codec", *b"_name", *b":9:cr"]);
}

#[test]
fn ueb_empty_and_short_tails() {
    assert_eq!(parse_ueb(b"").unwrap().vals.len(), 0);
    assert_eq!(parse_ueb(b"abcd").unwrap().vals.len(), 0);
    assert_eq!(parse_ueb(b"codec_name:3:crs,xyz").unwrap().vals.len(), 1);
}

#[test]
fn ueb_non_numeric_count_is_an_error() {
    assert_eq!(parse_ueb(b"codec_name:x:crs,").unwrap_err(), UebError::InvalidByteCount);
    assert_eq!(parse_ueb(b"total_shares::,").unwrap_err(), UebError::InvalidByteCount);
    assert_eq!(
        parse_ueb(b"codec_name:3:crs,needed_shares:-1:2,").unwrap_err(),
        UebError::InvalidByteCount
    );
}

#[test]
fn ueb_crypttext_root_hash_is_the_last_one() {
    let ueb = parse_ueb(b"crypttext_root_hash:1:a,codec_name:1:b,crypttext_root_hash:1:c,").unwrap();
    assert_eq!(crypttext_root_hash(&ueb).unwrap().pile_of_bytes, b"c");
    let ueb = parse_ueb(b"codec_name:1:b,").unwrap();
    assert!(crypttext_root_hash(&ueb).is_none());
}

#[test]
fn uri_extension_hash_uses_its_tag() {
    let ueb = b"codec_name:3:crs,";
    assert_eq!(uri_extension_hash(ueb), tagged_hash(b"allmydata_uri_extension_v1", ueb, 32));
}

fn share_bytes(lease_version: u32, uri_ext_offset: u32, uri_ext: &[u8], total: usize) -> Vec<u8> {
    let mut b = vec![0u8; total];
    b[0..4].copy_from_slice(&lease_version.to_be_bytes());
    for i in 1..11u32 {
        let at = 4 * i as usize;
        b[at..at + 4].copy_from_slice(&(100 + i).to_be_bytes());
    }
    b[44..48].copy_from_slice(&uri_ext_offset.to_be_bytes());
    let p = uri_ext_offset as usize + 12;
    b[p..p + 4].copy_from_slice(&(uri_ext.len() as u32).to_be_bytes());
    b[p + 4..p + 4 + uri_ext.len()].copy_from_slice(uri_ext);
    b
}

#[test]
fn it_works() {
    let ext = vec![7u8; 302];
    let bytes = share_bytes(2, 1600, &ext, 2500);
    let s = parse_share(&bytes).unwrap();
    assert_eq!(s.lease_version, 2);
    assert_eq!(s.uri_ext_offset, 1600);
    assert_eq!(s.uri_ext_size, 302);
}

#[test]
fn share_header_fields_in_order() {
    let bytes = share_bytes(2, 60, b"codec_name:3:crs,", 200);
    let s = parse_share(&bytes).unwrap();
    assert_eq!(
        [
            s.lease_data_length, s.lease_count, s.share_version, s.block_size, s.data_size,
            s.data_offset, s.plaintxt_hash_tree_offset, s.cryptxt_hash_tree_offset,
            s.block_hashes_offset, s.share_hashes_offset,
        ],
        [101, 102, 103, 104, 105, 106, 107, 108, 109, 110]
    );
    assert_eq!(s.uri_ext, b"codec_name:3:crs,");
    assert_eq!(s.uri_ext_size, 17);
}

#[test]
fn share_errors() {
    assert_eq!(parse_share(&[0u8; 47]).unwrap_err(), ShareError::Truncated);
    let mut b = vec![0u8; 48];
    b[44..48].copy_from_slice(&u32::MAX.to_be_bytes());
    assert_eq!(parse_share(&b).unwrap_err(), ShareError::OffsetOverflow);
    let mut b = vec![0u8; 64];
    b[44..48].copy_from_slice(&(u32::MAX - 12).to_be_bytes());
    assert_eq!(parse_share(&b).unwrap_err(), ShareError::Truncated);
    let mut b = share_bytes(2, 40, b"abcdef", 62);
    assert!(parse_share(&b).is_ok());
    b.truncate(61);
    assert_eq!(parse_share(&b).unwrap_err(), ShareError::Truncated);
}

#[test]
fn share_data_range() {
    let b: Vec<u8> = (0u8..40).collect();
    assert_eq!(share_data(&b, 4, 6), Some(&b[16..22]));
    assert_eq!(share_data(&b, 20, 8), Some(&b[32..40]));
    assert_eq!(share_data(&b, 20, 9), None);
    assert_eq!(share_data(&b, u32::MAX, 1), None);
}

fn tree_bytes(leaves: &[[u8; 32]]) -> Vec<[u8; 32]> {
    // nodes in breadth-first order, the leaves last
    let mut level: Vec<[u8; 32]> = leaves.to_vec();
    let mut levels = vec![level.clone()];
    while level.len() > 1 {
        let next: Vec<[u8; 32]> = level
            .chunks(2)
            .map(|p| {
                let h = tagged_pair_hash(b"Merkle tree internal node", &p[0], &p[1]);
                let mut a = [0u8; 32];
                a.copy_from_slice(&h);
                a
            })
            .collect();
        levels.push(next.clone());
        level = next;
    }
    levels.into_iter().rev().flatten().collect()
}

#[test]
fn hash_tree_nodes_and_leaves() {
    let leaves: Vec<[u8; 32]> = (0u8..8).map(|i| TahoeLeaf::hash(&[i; 8])).collect();
    let nodes = tree_bytes(&leaves);
    let raw: Vec<u8> = nodes.iter().flatten().copied().collect();
    let tree = CryptTextHashTree { raw_data: &raw };
    assert_eq!(tree.nodes(), 15);
    assert_eq!(tree.leaf_count(), 8);
    assert_eq!(tree.node_hash(7), &leaves[0][..]);
    assert_eq!(tree.node_hash(14), &leaves[7][..]);
    assert!(tree.children_match(0));
    assert!(tree.children_match(6));
    let mut bad = raw.clone();
    bad[0] ^= 1;
    let tree = CryptTextHashTree { raw_data: &bad };
    assert!(!tree.children_match(0));
    assert!(tree.children_match(1));
}

#[test]
fn hash_tree_partial_node_is_not_counted() {
    let raw = vec![0u8; 32 * 3 + 5];
    let tree = CryptTextHashTree { raw_data: &raw };
    assert_eq!(tree.nodes(), 3);
    assert_eq!(tree.leaf_count(), 2);
}

#[test]
fn leaf_hashes_of_segments() {
    let data: Vec<u8> = (0u8..20).collect();
    let hs = leaf_hashes(&data, 8);
    assert_eq!(hs.len(), 3);
    assert_eq!(hs[0], TahoeLeaf::hash(&data[0..8]));
    assert_eq!(hs[1], TahoeLeaf::hash(&data[8..16]));
    assert_eq!(hs[2], TahoeLeaf::hash(&data[16..20]));
    assert_eq!(leaf_hashes(&[], 8).len(), 0);
    assert_eq!(leaf_hashes(&data[0..8], 8), vec![TahoeLeaf::hash(&data[0..8])]);
    assert_ne!(TahoeInside::hash(&data), TahoeLeaf::hash(&data));
}

#[test]
fn ueb_reads_back_netstring_entries() {
    let values: [&[u8]; 3] = [b"crs", b"", b"\x00,:\xff binary,"];
    let mut block = Vec::new();
    block.extend_from_slice(b"crypttext_root_hash:");
    block.extend_from_slice(&netstring(values[0]));
    block.extend_from_slice(b"needed_shares:");
    block.extend_from_slice(&netstring(values[1]));
    block.extend_from_slice(b"tail_codec_params:");
    block.extend_from_slice(&netstring(values[2]));
    let ueb = parse_ueb(&block).unwrap();
    assert_eq!(ueb.vals.len(), 3);
    let got: Vec<(&[u8], &[u8], u8)> = ueb
        .vals
        .iter()
        .map(|c| match c {
            UEB_chunk::CryptTextRootHash(v) | UEB_chunk::NeededShares(v) | UEB_chunk::TailCodecParams(v) => value(v),
            other => panic!("unexpected {:?}", other),
        })
        .collect();
    assert_eq!(got[0], (&b"3"[..], values[0], b','));
    assert_eq!(got[1], (&b"0"[..], values[1], b','));
    assert_eq!(got[2], (&b"12"[..], values[2], b','));
}

#[test]
fn read_share_and_hash_tree_region() {
    let mut bytes = share_bytes(2, 60, b"ab", 200);
    // tree offset 100, block hashes offset 140: 40 bytes at 112..152
    bytes[32..36].copy_from_slice(&100u32.to_be_bytes());
    bytes[36..40].copy_from_slice(&140u32.to_be_bytes());
    let s = read_share(&bytes);
    assert_eq!(s.uri_ext, b"ab");
    assert_eq!(crypttext_hash_tree_bytes(&bytes, &s), Some(&bytes[112..152]));
    let mut backwards = read_share(&bytes);
    backwards.block_hashes_offset = 99;
    assert_eq!(crypttext_hash_tree_bytes(&bytes, &backwards), None);
    let mut far = read_share(&bytes);
    far.block_hashes_offset = 189;
    assert_eq!(crypttext_hash_tree_bytes(&bytes, &far), None);
}

#[test]
fn b2a_distinct_bytes_give_distinct_text() {
    let a = tahoe_share::base32::b2a(vec![0, 1, 2]);
    let b = tahoe_share::base32::b2a(vec![0, 1, 3]);
    let c = tahoe_share::base32::b2a(vec![0, 1]);
    assert_ne!(a.base32, b.base32);
    assert_ne!(a.base32, c.base32);
}
