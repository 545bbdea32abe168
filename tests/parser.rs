use did_mmap_cache::canonical::{hash_canonical_commit, prepare_canonical_commit};
use did_mmap_cache::car::{extract_from_car, parse_raw_cid_len, read_varint, CarStore};
use did_mmap_cache::cbor::{parse_cbor_bytes, parse_cbor_len, parse_cbor_tag, parse_cbor_text, parse_cbor_uint, skip_cbor_value};
use did_mmap_cache::frame::parse_input;
use sha2::Digest;

#[test]
fn test_ci4_cid_consistency() {
    let raw = [0xa1, 0x63, b'f', b'o', b'o', 0x63, b'b', b'a', b'r'];
    assert!(hash_canonical_commit(&raw).is_some());
}

#[test]
fn canonical_order_drops_sig_and_sorts_by_length_then_bytes() {
    // {"a": 1, "bb": 2, "c": 3, "sig": h'0102'}
    let raw = [
        0xa4, 0x61, b'a', 0x01, 0x62, b'b', b'b', 0x02, 0x61, b'c', 0x03, 0x63, b's', b'i', b'g', 0x42, 0x01, 0x02,
    ];
    let out = prepare_canonical_commit(&raw).unwrap();
    let expected = vec![0xa3, 0x61, b'a', 0x01, 0x61, b'c', 0x03, 0x62, b'b', b'b', 0x02];
    assert_eq!(out, expected);
    let h = hash_canonical_commit(&raw).unwrap();
    let direct: [u8; 32] = sha2::Sha256::digest(&expected).into();
    assert_eq!(h, direct);
}

#[test]
fn canonical_form_keeps_values_verbatim_and_reads_indefinite_maps() {
    // indefinite map {"zz": [1, 2], "y": "t"} then break
    let raw = [0xbf, 0x62, b'z', b'z', 0x82, 0x01, 0x02, 0x61, b'y', 0x61, b't', 0xff];
    let out = prepare_canonical_commit(&raw).unwrap();
    assert_eq!(out, vec![0xa2, 0x61, b'y', 0x61, b't', 0x62, b'z', b'z', 0x82, 0x01, 0x02]);
    assert_eq!(prepare_canonical_commit(&[0xa1, 0x63, b's', b'i', b'g', 0x01]), Some(vec![0xa0]));
    assert_eq!(prepare_canonical_commit(&[]), None);
    assert_eq!(prepare_canonical_commit(&[0xa2, 0x61, b'a']), None);
}

#[test]
fn cbor_heads_decode() {
    assert_eq!(parse_cbor_len(&[0x17], 0), Some((23, 1)));
    assert_eq!(parse_cbor_len(&[0x18, 0xff], 0), Some((255, 2)));
    assert_eq!(parse_cbor_len(&[0x19, 0x01, 0x00], 0), Some((256, 3)));
    assert_eq!(parse_cbor_len(&[0x1a, 0x00, 0x01, 0x00, 0x00], 0), Some((65536, 5)));
    assert_eq!(parse_cbor_len(&[0x1b, 0, 0, 0, 1, 0, 0, 0, 0], 0), Some((1 << 32, 9)));
    assert_eq!(parse_cbor_len(&[0x19, 0x01], 0), None);
    assert_eq!(parse_cbor_len(&[0x1c], 0), None);
    assert_eq!(parse_cbor_uint(&[0x18, 42], 0), Some((42, 2)));
    assert_eq!(parse_cbor_uint(&[0x38, 42], 0), None);
    assert_eq!(parse_cbor_tag(&[0xd8, 0x2a, 0x40], 0), Some((42, 2)));
    let b = [0x43, 1, 2, 3, 0x62, b'h', b'i'];
    assert_eq!(parse_cbor_bytes(&b, 0), Some((&b[1..4], 4)));
    assert_eq!(parse_cbor_text(&b, 4), Some((&b[5..7], 7)));
    assert_eq!(parse_cbor_text(&b, 0), None);
    assert_eq!(parse_cbor_bytes(&[0x45, 1, 2], 0), None);
}

#[test]
fn skip_handles_nesting_tags_and_indefinite_items() {
    assert_eq!(skip_cbor_value(&[0x82, 0x01, 0xa1, 0x61, b'k', 0x02], 0), Some(6));
    assert_eq!(skip_cbor_value(&[0xd8, 0x2a, 0x42, 0x00, 0x01], 0), Some(5));
    assert_eq!(skip_cbor_value(&[0x9f, 0x01, 0x02, 0xff, 0x00], 0), Some(4));
    assert_eq!(skip_cbor_value(&[0x9f, 0x01, 0x02], 0), None);
    assert_eq!(skip_cbor_value(&[0xf6], 0), Some(1));
    assert_eq!(skip_cbor_value(&[0x83, 0x01], 0), None);
    assert_eq!(skip_cbor_value(&[0x1f], 0), None);
}

#[test]
fn varints_and_identifiers() {
    assert_eq!(read_varint(&[0x05], 0), Some((5, 1)));
    assert_eq!(read_varint(&[0xac, 0x02], 0), Some((300, 2)));
    assert_eq!(read_varint(&[0x80, 0x80], 0), None);
    assert_eq!(read_varint(&[0xff; 11], 0), None);
    // version 1, codec 0x71, sha2-256 (0x12), 32-byte digest
    let mut cid = vec![0x01, 0x71, 0x12, 0x20];
    cid.extend_from_slice(&[7u8; 32]);
    assert_eq!(parse_raw_cid_len(&cid), Some(36));
    assert_eq!(parse_raw_cid_len(&[0x00, 0x71, 0x12, 0x20]), None);
}

fn car_with(blocks: &[(&[u8], &[u8])]) -> Vec<u8> {
    let header = [0xa0u8];
    let mut out = vec![header.len() as u8];
    out.extend_from_slice(&header);
    for (cid, data) in blocks {
        out.push((cid.len() + data.len()) as u8);
        out.extend_from_slice(cid);
        out.extend_from_slice(data);
    }
    out
}

fn cid(fill: u8) -> Vec<u8> {
    let mut c = vec![0x01, 0x71, 0x12, 0x04];
    c.extend_from_slice(&[fill; 4]);
    c
}

#[test]
fn block_lookup_by_identifier() {
    let c1 = cid(1);
    let c2 = cid(2);
    let car = car_with(&[(&c1, b"first"), (&c2, b"second")]);
    assert_eq!(extract_from_car(&car, Some(&c2)), Some(&b"second"[..]));
    let mut tagged = vec![0x00];
    tagged.extend_from_slice(&c1);
    assert_eq!(extract_from_car(&car, Some(&tagged)), Some(&b"first"[..]));
    assert_eq!(extract_from_car(&car, None), Some(&b"first"[..]));
    assert_eq!(extract_from_car(&car, Some(&cid(3))), None);
    assert_eq!(extract_from_car(&[], None), None);
}

#[test]
fn frames_decode_into_envelopes() {
    let c1 = cid(9);
    // commit block {"sig": h'0a0b', "did": "did:x"}
    let commit = [0xa2, 0x63, b's', b'i', b'g', 0x42, 0x0a, 0x0b, 0x63, b'd', b'i', b'd', 0x65, b'd', b'i', b'd', b':', b'x'];
    let car = car_with(&[(&c1, &commit)]);
    let mut frame = vec![0xa2, 0x61, b't', 0x67];
    frame.extend_from_slice(b"#commit");
    frame.extend_from_slice(&[0x62, b'o', b'p', 0x01]);
    frame.extend_from_slice(&[0xa5, 0x63]);
    frame.extend_from_slice(b"ops");
    frame.extend_from_slice(&[0x81, 0xa3, 0x66]);
    frame.extend_from_slice(b"action");
    frame.push(0x66);
    frame.extend_from_slice(b"create");
    frame.push(0x64);
    frame.extend_from_slice(b"path");
    frame.push(0x66);
    frame.extend_from_slice(b"post/1");
    frame.push(0x63);
    frame.extend_from_slice(b"cid");
    frame.extend_from_slice(&[0xd8, 0x2a, 0x43, 0x00, 0x01, 0x02]);
    frame.push(0x64);
    frame.extend_from_slice(b"repo");
    frame.push(0x65);
    frame.extend_from_slice(b"did:x");
    frame.extend_from_slice(&[0x63]);
    frame.extend_from_slice(b"seq");
    frame.extend_from_slice(&[0x19, 0x01, 0xf4]);
    frame.extend_from_slice(&[0x66]);
    frame.extend_from_slice(b"blocks");
    frame.extend_from_slice(&[0x58, car.len() as u8]);
    frame.extend_from_slice(&car);
    frame.extend_from_slice(&[0x66]);
    frame.extend_from_slice(b"commit");
    frame.extend_from_slice(&[0xd8, 0x2a, 0x49, 0x00]);
    frame.extend_from_slice(&c1);
    let env = parse_input(&frame).unwrap();
    assert_eq!(env.source_type, "firehose");
    assert_eq!(env.t, Some(&b"#commit"[..]));
    assert_eq!(env.op, Some(1));
    assert_eq!(env.did, Some(&b"did:x"[..]));
    assert_eq!(env.sequence, Some(500));
    assert_eq!(env.commit, Some(&commit[..]));
    assert_eq!(env.signature, Some(&[0x0a, 0x0b][..]));
    assert_eq!(env.ops.len(), 1);
    assert_eq!(env.ops[0].action, "create");
    assert_eq!(env.ops[0].path, "post/1");
    assert_eq!(env.ops[0].cid, Some(vec![0x00, 0x01, 0x02]));
    assert!(parse_input(&[]).is_none());
    assert!(parse_input(&[0x82, 0x01]).is_none());
    let bare = parse_input(&car).unwrap();
    assert!(bare.source_type == "car_file" || bare.source_type == "firehose");
}

#[test]
fn car_store_indexes_blocks() {
    let c1 = cid(1);
    let c2 = cid(2);
    let car = car_with(&[(&c1, b"first"), (&c2, b"second"), (&c1, b"again")]);
    let store = CarStore::new(&car);
    assert_eq!(store.blocks.len(), 3);
    assert_eq!(store.get_block(&c2), Some(&b"second"[..]));
    assert_eq!(store.get_block(&c1), Some(&b"again"[..]));
    let mut tagged = vec![0x00];
    tagged.extend_from_slice(&c2);
    assert_eq!(store.get_block(&tagged), Some(&b"second"[..]));
    assert_eq!(store.get_block(&cid(3)), None);
    assert_eq!(CarStore::new(&[]).blocks.len(), 0);
}

#[test]
fn floats_and_simple_values_are_skipped_whole() {
    let f64_item = [0xfb, 0x40, 0x09, 0x21, 0xfb, 0x54, 0x44, 0x2d, 0x18];
    assert_eq!(skip_cbor_value(&f64_item, 0), Some(9));
    assert_eq!(skip_cbor_value(&f64_item[..5], 0), None);
    assert_eq!(skip_cbor_value(&[0xf9, 0x3c, 0x00], 0), Some(3));
    assert_eq!(skip_cbor_value(&[0xf8, 0x20], 0), Some(2));
    assert_eq!(skip_cbor_value(&[0xfc], 0), None);
    assert_eq!(skip_cbor_value(&[0x63, 0x66], 0), None);
    assert_eq!(skip_cbor_value(&[0xa1, 0x63, 0x66, 0x6f, 0x6f, 0x63, 0x62, 0x61, 0x72], 0), Some(9));
}
