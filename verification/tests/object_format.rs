use cntl::object::{
    decode, encode, hash_bytes, load_blob, load_commit, load_tree, Blob, Commit, ObjectError,
    ObjectRow, Tree, TreeEntry, TreeEntryKind,
};
use cntl::wire::{decode_commit, decode_tree, encode_blob_data};

fn sample_commit() -> Commit {
    Commit {
        parent: Some([7u8; 32]),
        tree: [9u8; 32],
        author_name: "Your Name".to_string(),
        author_email: "you@example.com".to_string(),
        timestamp_utc: 1_780_000_000,
        message: "first commit\nwith a second line — ünïcödé".to_string(),
    }
}

fn sample_tree() -> Tree {
    Tree {
        entries: vec![
            TreeEntry { name: "README.md".to_string(), kind: TreeEntryKind::Blob, hash: [1u8; 32] },
            TreeEntry { name: "src".to_string(), kind: TreeEntryKind::Tree, hash: [2u8; 32] },
        ],
    }
}

#[test]
fn blob_encoding_matches_postcard() {
    let data: Vec<u8> = (0..300u32).map(|i| (i % 251) as u8).collect();
    let ours = encode(&Blob { data: data.clone() });
    let theirs = postcard::to_allocvec(&(data.clone(),)).unwrap();
    assert_eq!(ours, theirs);
    assert_eq!(encode_blob_data(&data), theirs);
}

#[test]
fn empty_blob_is_one_zero_byte() {
    assert_eq!(encode(&Blob { data: vec![] }), vec![0u8]);
}

#[test]
fn blob_length_uses_leb128() {
    let data = vec![0xAAu8; 200];
    let bytes = encode(&Blob { data });
    assert_eq!(bytes[0], 0xC8);
    assert_eq!(bytes[1], 0x01);
    assert_eq!(bytes.len(), 202);
}

#[test]
fn tree_encoding_matches_postcard() {
    let tree = sample_tree();
    let ours = encode(&tree);
    let as_tuples: Vec<(String, u32, [u8; 32])> = tree
        .entries
        .iter()
        .map(|e| {
            let k = match e.kind {
                TreeEntryKind::Blob => 0u32,
                TreeEntryKind::Tree => 1u32,
            };
            (e.name.clone(), k, e.hash)
        })
        .collect();
    let theirs = postcard::to_allocvec(&(as_tuples,)).unwrap();
    assert_eq!(ours, theirs);
}

#[test]
fn commit_encoding_matches_postcard() {
    for c in [
        sample_commit(),
        Commit { parent: None, timestamp_utc: -5, ..sample_commit() },
        Commit { timestamp_utc: i64::MIN, ..sample_commit() },
        Commit { timestamp_utc: i64::MAX, message: String::new(), ..sample_commit() },
    ] {
        let ours = encode(&c);
        let theirs = postcard::to_allocvec(&(
            c.parent,
            c.tree,
            c.author_name.clone(),
            c.author_email.clone(),
            c.timestamp_utc,
            c.message.clone(),
        ))
        .unwrap();
        assert_eq!(ours, theirs);
    }
}

#[test]
fn commit_roundtrip_concrete() {
    let c = sample_commit();
    let bytes = encode(&c);
    let back: Commit = decode(&bytes).unwrap();
    assert_eq!(back.parent, c.parent);
    assert_eq!(back.tree, c.tree);
    assert_eq!(back.author_name, c.author_name);
    assert_eq!(back.author_email, c.author_email);
    assert_eq!(back.timestamp_utc, c.timestamp_utc);
    assert_eq!(back.message, c.message);
}

#[test]
fn tree_roundtrip_concrete() {
    let t = sample_tree();
    let back: Tree = decode(&encode(&t)).unwrap();
    assert_eq!(back.entries.len(), 2);
    assert_eq!(back.entries[0].name, "README.md");
    assert_eq!(back.entries[0].kind, TreeEntryKind::Blob);
    assert_eq!(back.entries[1].name, "src");
    assert_eq!(back.entries[1].kind, TreeEntryKind::Tree);
    assert_eq!(back.entries[1].hash, [2u8; 32]);
}

#[test]
fn blob_roundtrip_concrete() {
    let b: Blob = decode(&encode(&Blob { data: b"hello cntl\n".to_vec() })).unwrap();
    assert_eq!(b.data, b"hello cntl\n".to_vec());
}

#[test]
fn decode_ignores_trailing_bytes() {
    let mut bytes = encode(&sample_commit());
    bytes.extend_from_slice(&[1, 2, 3]);
    let back: Commit = decode(&bytes).unwrap();
    assert_eq!(back.message, sample_commit().message);
}

#[test]
fn decode_reads_what_postcard_writes() {
    let c = sample_commit();
    let theirs = postcard::to_allocvec(&(
        c.parent,
        c.tree,
        c.author_name.clone(),
        c.author_email.clone(),
        c.timestamp_utc,
        c.message.clone(),
    ))
    .unwrap();
    let back = decode_commit(&theirs).unwrap();
    assert_eq!(back.timestamp_utc, c.timestamp_utc);
    assert_eq!(back.message, c.message);
}

#[test]
fn decode_accepts_overlong_varint_like_postcard() {
    // a blob of length 1 whose length is written in two bytes
    let bytes = vec![0x81, 0x00, 0x42];
    let b: Blob = decode(&bytes).unwrap();
    assert_eq!(b.data, vec![0x42]);
    let p: (Vec<u8>,) = postcard::from_bytes(&bytes).unwrap();
    assert_eq!(p.0, vec![0x42]);
}

#[test]
fn decode_errors() {
    // truncated blob
    assert!(matches!(decode::<Blob>(&[5, 1, 2]), Err(ObjectError::Decode)));
    // empty input
    assert!(matches!(decode::<Blob>(&[]), Err(ObjectError::Decode)));
    // varint longer than ten bytes
    let long = vec![0x80u8; 11];
    assert!(matches!(decode::<Blob>(&long), Err(ObjectError::Decode)));
    // tenth varint byte above 1
    let mut too_big = vec![0xFFu8; 9];
    too_big.push(0x02);
    assert!(matches!(decode::<Blob>(&too_big), Err(ObjectError::Decode)));
    assert!(postcard::from_bytes::<(Vec<u8>,)>(&too_big).is_err());
    // invalid UTF-8 in a name
    let mut bad = vec![1u8, 1, 0xFF, 0];
    bad.extend_from_slice(&[0u8; 32]);
    assert!(matches!(decode_tree(&bad), Err(ObjectError::Decode)));
    // unknown entry kind
    let mut kind = vec![1u8, 1, b'a', 2];
    kind.extend_from_slice(&[0u8; 32]);
    assert!(matches!(decode_tree(&kind), Err(ObjectError::Decode)));
    // bad option tag in a commit
    let mut tag = vec![2u8];
    tag.extend_from_slice(&[0u8; 40]);
    assert!(matches!(decode_commit(&tag), Err(ObjectError::Decode)));
}

#[test]
fn blake3_of_empty_input() {
    let h = hash_bytes(b"");
    assert_eq!(
        cntl::hex::hex_full(&h),
        "af1349b9f5f9a1a6a0404dea36dcc9499bcb25c9adc112b7cc9a93cae41f3262"
    );
}

#[test]
fn load_checks_type_and_presence() {
    let hash = [3u8; 32];
    assert!(matches!(load_tree(&hash, None), Err(ObjectError::NotFound { hash: h }) if h == hash));
    let row = ObjectRow { obj_type: "blob".to_string(), data: encode(&sample_tree()) };
    match load_tree(&hash, Some(row)) {
        Err(ObjectError::WrongType { hash: h, found, expected }) => {
            assert_eq!(h, hash);
            assert_eq!(found, "blob");
            assert_eq!(expected, "tree");
        }
        other => panic!("unexpected: {:?}", other),
    }
    let row = ObjectRow { obj_type: "tree".to_string(), data: encode(&sample_tree()) };
    assert_eq!(load_tree(&hash, Some(row)).unwrap().entries.len(), 2);
    let row = ObjectRow { obj_type: "commit".to_string(), data: vec![9] };
    assert!(matches!(load_commit(&hash, Some(row)), Err(ObjectError::Decode)));
    let row = ObjectRow { obj_type: "blob".to_string(), data: vec![1, 7] };
    assert_eq!(load_blob(&hash, Some(row)).unwrap().data, vec![7]);
}

#[test]
fn tree_default_is_empty() {
    let t: Tree = Default::default();
    assert!(t.entries.is_empty());
}
