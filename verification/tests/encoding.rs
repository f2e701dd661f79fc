use tahoe_share::base32::b2a;
use tahoe_share::decimal::{bytes_to_int, parse_decimal_u32, push_decimal};
use tahoe_share::hashing::{
    netstring, tagged_hash, tagged_hash_input, tagged_pair_hash, tagged_pair_hash_input,
    truncate_digest, TahoeInside, TahoeLeaf,
};

fn sha256d(data: &[u8]) -> Vec<u8> {
    let h = <bitcoin_hashes::sha256d::Hash as bitcoin_hashes::Hash>::hash(data);
    <bitcoin_hashes::sha256d::Hash as bitcoin_hashes::Hash>::to_byte_array(h).to_vec()
}

#[test]
fn bytes_to_int_reads_plain_counts() {
    assert_eq!(bytes_to_int(b"302"), 302);
    assert_eq!(bytes_to_int(b"0"), 0);
    assert_eq!(bytes_to_int(b"007"), 7);
    assert_eq!(bytes_to_int(b"+7"), 7);
    assert_eq!(bytes_to_int(b"4294967295"), u32::MAX);
}

#[test]
fn parse_decimal_u32_refuses_what_u32_parsing_refuses() {
    assert_eq!(parse_decimal_u32(b""), None);
    assert_eq!(parse_decimal_u32(b"+"), None);
    assert_eq!(parse_decimal_u32(b"-1"), None);
    assert_eq!(parse_decimal_u32(b"12a"), None);
    assert_eq!(parse_decimal_u32(b" 12"), None);
    assert_eq!(parse_decimal_u32(&[0xff]), None);
    assert_eq!(parse_decimal_u32(b"4294967296"), None);
    assert_eq!(parse_decimal_u32(b"99999999999999999999"), None);
    for s in ["", "+", "-1", "12a", "4294967296", "302", "+7", "007"] {
        assert_eq!(parse_decimal_u32(s.as_bytes()), s.parse::<u32>().ok());
    }
}

#[test]
fn push_decimal_writes_shortest_form() {
    let mut v = Vec::new();
    push_decimal(0, &mut v);
    assert_eq!(v, b"0");
    let mut v = b"x".to_vec();
    push_decimal(1600, &mut v);
    assert_eq!(v, b"x1600");
    let mut v = Vec::new();
    push_decimal(usize::MAX, &mut v);
    assert_eq!(v, usize::MAX.to_string().into_bytes());
}

#[test]
fn decimal_roundtrip_through_bytes_to_int() {
    for n in [0u32, 9, 10, 99, 100, 302, 65536, u32::MAX] {
        let mut v = Vec::new();
        push_decimal(n as usize, &mut v);
        assert_eq!(parse_decimal_u32(&v), Some(n));
        assert_eq!(bytes_to_int(&v), n);
    }
}

#[test]
fn netstring_frames_bytes() {
    assert_eq!(netstring(b"crs"), b"3:crs,");
    assert_eq!(netstring(b""), b"0:,");
    let long = vec![b','; 26];
    let mut expected = b"26:".to_vec();
    expected.extend_from_slice(&long);
    expected.push(b',');
    assert_eq!(netstring(&long), expected);
}

#[test]
fn tagged_hash_digests_netstring_of_tag_then_value() {
    let h = tagged_hash(b"tag", b"value", 32);
    assert_eq!(h, sha256d(b"3:tag,value"));
    assert_eq!(h.len(), 32);
    let short = tagged_hash(b"tag", b"value", 5);
    assert_eq!(short, h[0..5].to_vec());
    assert_eq!(tagged_hash(b"tag", b"value", 0), Vec::<u8>::new());
    assert_ne!(tagged_hash(b"tag", b"value", 32), tagged_hash(b"tag", b"valuf", 32));
}

#[test]
fn tagged_pair_hash_digests_three_netstrings() {
    let h = tagged_pair_hash(b"Merkle tree internal node", b"ab", b"c");
    assert_eq!(h, sha256d(b"25:Merkle tree internal node,2:ab,1:c,"));
}

#[test]
fn leaf_and_interior_hashes_use_their_tags() {
    let data = b"12345678";
    let leaf = TahoeLeaf::hash(data);
    assert_eq!(leaf.to_vec(), tagged_hash(b"allmydata_crypttext_segment_v1", data, 32));
    assert_eq!(leaf.to_vec(), sha256d(b"30:allmydata_crypttext_segment_v1,12345678"));
    let inside = TahoeInside::hash(data);
    assert_eq!(inside.to_vec(), tagged_hash(b"Merkle tree internal node", data, 32));
    assert_ne!(leaf, inside);
}

#[test]
fn b2a_encodes_rfc4648_vectors_in_lower_case() {
    let cases: [(&[u8], &str); 7] = [
        (b"", ""),
        (b"f", "my"),
        (b"fo", "mzxq"),
        (b"foo", "mzxw6"),
        (b"foob", "mzxw6yq"),
        (b"fooba", "mzxw6ytb"),
        (b"foobar", "mzxw6ytboi"),
    ];
    for (input, text) in cases {
        let b = b2a(input.to_vec());
        assert_eq!(b.base32, text);
        assert_eq!(b.to_string(), text);
        assert_eq!(b.bytes, input.to_vec());
    }
}

#[test]
fn b2a_alphabet_and_length() {
    let bytes: Vec<u8> = (0u8..=255).collect();
    let b = b2a(bytes.clone());
    assert_eq!(b.base32.len(), (8 * bytes.len() + 4) / 5);
    assert!(b.base32.chars().all(|c| c.is_ascii_lowercase() || ('2'..='7').contains(&c)));
}

#[test]
fn tagged_inputs_are_netstring_frames() {
    assert_eq!(tagged_hash_input(b"tag", b"value"), b"3:tag,value");
    assert_eq!(tagged_pair_hash_input(b"t", b"", b"xy"), b"1:t,0:,2:xy,");
    let d: [u8; 32] = core::array::from_fn(|i| i as u8);
    assert_eq!(truncate_digest(&d, 0), Vec::<u8>::new());
    assert_eq!(truncate_digest(&d, 3), vec![0, 1, 2]);
    assert_eq!(truncate_digest(&d, 32), d.to_vec());
}
