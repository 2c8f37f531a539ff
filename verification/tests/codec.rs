use rgit::bytes::{spells, write_decimal};
use rgit::digest::{from_hex, object_id, to_hex};
use rgit::object::{GitObject, Malformed, ObjectKind};
use rgit::record::{find_headers, Header, Record};
use rgit::tree::{check_tree, path_before, sort_entries, TreeEntry};

fn header(key: &str, value: &str) -> Header {
    Header { key: key.as_bytes().to_vec(), value: value.as_bytes().to_vec() }
}

fn sample_commit() -> GitObject {
    GitObject::Commit(Record {
        headers: vec![
            header("tree", "29ff16c9c14e2652b22f8b78bb08a5a07930c147"),
            header("parent", "206941306e8a8af65b66eaaaea388a7ae24d49a0"),
            header("parent", "0000000000000000000000000000000000000001"),
            header("author", "Ada Lovelace <ada@example.org> 1527025023 +0200"),
            header("committer", "Ada Lovelace <ada@example.org> 1527025044 +0200"),
        ],
        message: b"Create first draft\n".to_vec(),
    })
}

fn entry(mode: &str, path: &str, fill: u8) -> TreeEntry {
    TreeEntry { mode: mode.as_bytes().to_vec(), path: path.as_bytes().to_vec(), id: vec![fill; 20] }
}

#[test]
fn blob_encoding_is_framed() {
    let blob = GitObject::Blob(b"hello\n".to_vec());
    assert_eq!(blob.encode(), b"blob 6\0hello\n".to_vec());
}

#[test]
fn blob_digest_matches_known_value() {
    let blob = GitObject::Blob(b"hello\n".to_vec());
    assert_eq!(object_id(&blob), b"ce013625030ba8dba906f756967f9e9ca394464a".to_vec());
}

#[test]
fn empty_blob_digest_matches_known_value() {
    let blob = GitObject::Blob(Vec::new());
    assert_eq!(blob.encode(), b"blob 0\0".to_vec());
    assert_eq!(object_id(&blob), b"e69de29bb2d1d6434b8b29ae775ad8c2e48c5391".to_vec());
}

#[test]
fn identical_blobs_share_an_identifier() {
    let a = GitObject::Blob(b"same bytes".to_vec());
    let b = GitObject::Blob(b"same bytes".to_vec());
    let c = GitObject::Blob(b"same bytez".to_vec());
    assert_eq!(object_id(&a), object_id(&b));
    assert_ne!(object_id(&a), object_id(&c));
}

#[test]
fn blob_round_trip() {
    let blob = GitObject::Blob(vec![0, 1, 2, 0, 32, 10, 255]);
    assert_eq!(GitObject::decode(&blob.encode()), Ok(blob));
}

#[test]
fn commit_encoding_and_round_trip() {
    let commit = sample_commit();
    let payload = "tree 29ff16c9c14e2652b22f8b78bb08a5a07930c147\n\
parent 206941306e8a8af65b66eaaaea388a7ae24d49a0\n\
parent 0000000000000000000000000000000000000001\n\
author Ada Lovelace <ada@example.org> 1527025023 +0200\n\
committer Ada Lovelace <ada@example.org> 1527025044 +0200\n\
\n\
Create first draft\n";
    assert_eq!(commit.serialize(), payload.as_bytes().to_vec());
    let mut expected = format!("commit {}\0", payload.len()).into_bytes();
    expected.extend_from_slice(payload.as_bytes());
    assert_eq!(commit.encode(), expected);
    assert_eq!(GitObject::decode(&expected), Ok(commit));
}

#[test]
fn parents_keep_their_order() {
    let commit = sample_commit();
    let decoded = GitObject::decode(&commit.encode()).unwrap();
    match decoded {
        GitObject::Commit(rec) => {
            assert_eq!(rec.headers[1].value, b"206941306e8a8af65b66eaaaea388a7ae24d49a0".to_vec());
            assert_eq!(rec.headers[2].value, b"0000000000000000000000000000000000000001".to_vec());
        }
        _ => panic!("not a commit"),
    }
}

#[test]
fn tag_round_trip() {
    let tag = GitObject::Tag(Record {
        headers: vec![
            header("object", "ce013625030ba8dba906f756967f9e9ca394464a"),
            header("type", "blob"),
            header("tag", "v1"),
            header("tagger", "Ada Lovelace <ada@example.org> 1527025023 +0200"),
        ],
        message: b"first\n\nrelease".to_vec(),
    });
    let bytes = tag.encode();
    assert!(bytes.starts_with(b"tag "));
    assert_eq!(GitObject::decode(&bytes), Ok(tag));
}

#[test]
fn tree_encoding_and_round_trip() {
    let tree = GitObject::Tree(vec![entry("100644", "a.txt", 0), entry("40000", "lib", 0xab)]);
    let mut payload = b"100644 a.txt\0".to_vec();
    payload.extend_from_slice(&[0u8; 20]);
    payload.extend_from_slice(b"40000 lib\0");
    payload.extend_from_slice(&[0xabu8; 20]);
    assert_eq!(tree.serialize(), payload);
    let mut expected = b"tree 63\0".to_vec();
    expected.extend_from_slice(&payload);
    assert_eq!(tree.encode(), expected);
    assert_eq!(GitObject::decode(&expected), Ok(tree));
}

#[test]
fn reencoding_decoded_bytes_gives_them_back() {
    let bytes = b"commit 25\0tree abc\nx  y z\n\nmessage\n".to_vec();
    let decoded = GitObject::decode(&bytes).unwrap();
    assert_eq!(decoded.encode(), bytes);
    match decoded {
        GitObject::Commit(rec) => {
            assert_eq!(rec.headers[1], header("x", " y z"));
            assert_eq!(rec.message, b"message\n".to_vec());
        }
        _ => panic!("not a commit"),
    }
}

#[test]
fn decode_rejects_wrong_length() {
    assert_eq!(GitObject::decode(b"blob 5\0hello\n"), Err(Malformed));
    assert_eq!(GitObject::decode(b"blob 7\0hello\n"), Err(Malformed));
    assert_eq!(GitObject::decode(b"blob \0"), Err(Malformed));
    assert_eq!(GitObject::decode(b"blob x\0h"), Err(Malformed));
    assert_eq!(GitObject::decode(b"blob 99999999999999999999999999\0h"), Err(Malformed));
}

#[test]
fn decode_rejects_noncanonical_length() {
    assert_eq!(GitObject::decode(b"blob 06\0hello\n"), Err(Malformed));
    assert_eq!(GitObject::decode(b"blob 006\0hello\n"), Err(Malformed));
    assert_eq!(GitObject::decode(b"blob +6\0hello\n"), Err(Malformed));
    assert_eq!(GitObject::decode(b"blob 00\0"), Err(Malformed));
    assert_eq!(GitObject::decode(b"blob  6\0hello\n"), Err(Malformed));
    assert_eq!(GitObject::decode(b"blob 0\0"), Ok(GitObject::Blob(Vec::new())));
    assert_eq!(GitObject::decode(b"blob 10\0helloworld"), Ok(GitObject::Blob(b"helloworld".to_vec())));
}

#[test]
fn decode_rejects_unknown_kind_and_bad_framing() {
    assert_eq!(GitObject::decode(b"blub 1\0h"), Err(Malformed));
    assert_eq!(GitObject::decode(b"blob6\0hello\n"), Err(Malformed));
    assert_eq!(GitObject::decode(b"blob 6hello\n"), Err(Malformed));
    assert_eq!(GitObject::decode(b""), Err(Malformed));
    assert_eq!(GitObject::decode(b"\0blob 0"), Err(Malformed));
}

#[test]
fn payload_may_hold_nul_bytes() {
    let bytes = b"blob 3\0\0\0\0".to_vec();
    assert_eq!(GitObject::decode(&bytes), Ok(GitObject::Blob(vec![0, 0, 0])));
}

#[test]
fn decode_rejects_unterminated_headers() {
    assert_eq!(GitObject::decode(b"commit 9\0tree abc\n"), Err(Malformed));
    assert_eq!(GitObject::decode(b"commit 8\0tree abc"), Err(Malformed));
    assert_eq!(GitObject::decode(b"commit 0\0"), Err(Malformed));
    assert_eq!(GitObject::decode(b"tag 6\0novalue\n\n"), Err(Malformed));
}

#[test]
fn decode_rejects_bad_trees() {
    let mut unsorted = b"100644 b\0".to_vec();
    unsorted.extend_from_slice(&[1u8; 20]);
    unsorted.extend_from_slice(b"100644 a\0");
    unsorted.extend_from_slice(&[2u8; 20]);
    assert_eq!(GitObject::deserialize(ObjectKind::Tree, &unsorted), Err(Malformed));
    let mut short = b"100644 a\0".to_vec();
    short.extend_from_slice(&[1u8; 19]);
    assert_eq!(GitObject::deserialize(ObjectKind::Tree, &short), Err(Malformed));
    let mut zero_mode = b"040000 a\0".to_vec();
    zero_mode.extend_from_slice(&[1u8; 20]);
    assert_eq!(GitObject::deserialize(ObjectKind::Tree, &zero_mode), Err(Malformed));
    assert_eq!(GitObject::deserialize(ObjectKind::Tree, b""), Ok(GitObject::Tree(Vec::new())));
}

#[test]
fn prefix_sorts_before_longer_path() {
    assert!(path_before(b"lib", b"lib.rs"));
    assert!(!path_before(b"lib.rs", b"lib"));
    assert!(path_before(b"a", b"b"));
    assert!(!path_before(b"a", b"a"));
    assert!(path_before(b"", b"a"));
    assert!(check_tree(&vec![entry("100644", "lib", 1), entry("100644", "lib.rs", 2)]));
    assert!(!check_tree(&vec![entry("100644", "lib.rs", 1), entry("100644", "lib", 2)]));
    assert!(!check_tree(&vec![entry("100644", "lib", 1), entry("100644", "lib", 2)]));
}

#[test]
fn well_formedness_is_checked() {
    assert!(sample_commit().is_wf());
    let bad = GitObject::Commit(Record { headers: vec![header("a b", "c")], message: Vec::new() });
    assert!(!bad.is_wf());
    let bad = GitObject::Tag(Record { headers: vec![header("a", "c\nd")], message: Vec::new() });
    assert!(!bad.is_wf());
    assert!(!GitObject::Tree(vec![entry("100648", "a", 0)]).is_wf());
    assert!(!GitObject::Tree(vec![entry("100644", "a\0b", 0)]).is_wf());
}

#[test]
fn kinds_and_tags() {
    assert_eq!(ObjectKind::Blob.tag(), b"blob".to_vec());
    assert_eq!(ObjectKind::Tree.tag(), b"tree".to_vec());
    assert_eq!(ObjectKind::Commit.tag(), b"commit".to_vec());
    assert_eq!(ObjectKind::Tag.tag(), b"tag".to_vec());
    assert_eq!(ObjectKind::from_tag(b"commit"), Some(ObjectKind::Commit));
    assert_eq!(ObjectKind::from_tag(b"Commit"), None);
    assert_eq!(sample_commit().kind(), ObjectKind::Commit);
}

#[test]
fn decimal_and_hex() {
    assert_eq!(write_decimal(0), b"0".to_vec());
    assert_eq!(write_decimal(1234567890), b"1234567890".to_vec());
    assert!(spells(b"x120y", 1, 4, 120));
    assert!(!spells(b"x120y", 1, 4, 121));
    assert!(!spells(b"x120y", 1, 1, 0));
    assert!(spells(b"0", 0, 1, 0));
    assert!(!spells(b"00", 0, 2, 0));
    assert!(!spells(b"0120", 0, 4, 120));
    assert!(!spells(b"+12", 0, 3, 12));
    assert_eq!(to_hex(&[0x00, 0x9f, 0xa0, 0xff]), b"009fa0ff".to_vec());
}

#[test]
fn tree_bytes_do_not_depend_on_input_order() {
    let a = vec![entry("100644", "b", 2), entry("40000", "a", 1), entry("100755", "a.c", 3), entry("100644", "", 4)];
    let b = vec![entry("100755", "a.c", 3), entry("100644", "", 4), entry("100644", "b", 2), entry("40000", "a", 1)];
    let ta = GitObject::tree(&a).unwrap();
    let tb = GitObject::tree(&b).unwrap();
    assert_eq!(ta.encode(), tb.encode());
    assert_eq!(
        ta,
        GitObject::Tree(vec![entry("100644", "", 4), entry("40000", "a", 1), entry("100755", "a.c", 3), entry("100644", "b", 2)])
    );
    assert!(ta.is_wf());
    assert_eq!(GitObject::decode(&ta.encode()), Ok(tb));
}

#[test]
fn sorting_refuses_duplicates_and_bad_entries() {
    assert_eq!(sort_entries(&vec![entry("100644", "a", 1), entry("100644", "a", 2)]), None);
    assert_eq!(sort_entries(&vec![entry("0100644", "a", 1)]), None);
    assert_eq!(sort_entries(&vec![entry("", "a", 1)]), None);
    assert_eq!(GitObject::tree(&vec![entry("100644", "a", 1), entry("100644", "a", 1)]), None);
    assert_eq!(sort_entries(&Vec::new()), Some(Vec::new()));
    let mut short = entry("100644", "a", 1);
    short.id.pop();
    assert_eq!(sort_entries(&vec![short]), None);
}

#[test]
fn hex_reads_back() {
    assert_eq!(from_hex(b"009fa0ff"), Some(vec![0x00, 0x9f, 0xa0, 0xff]));
    assert_eq!(from_hex(b""), Some(Vec::new()));
    assert_eq!(from_hex(b"abc"), None);
    assert_eq!(from_hex(b"AB"), None);
    assert_eq!(from_hex(b"0g"), None);
    let raw: Vec<u8> = (0..=255).collect();
    assert_eq!(from_hex(&to_hex(&raw)), Some(raw));
}

#[test]
fn commit_is_built_in_canonical_order() {
    let parents = vec![
        b"206941306e8a8af65b66eaaaea388a7ae24d49a0".to_vec(),
        b"0000000000000000000000000000000000000001".to_vec(),
    ];
    let built = GitObject::commit(
        b"29ff16c9c14e2652b22f8b78bb08a5a07930c147",
        &parents,
        b"Ada Lovelace <ada@example.org> 1527025023 +0200",
        b"Ada Lovelace <ada@example.org> 1527025044 +0200",
        b"Create first draft\n",
    );
    assert_eq!(built, sample_commit());
    match &built {
        GitObject::Commit(rec) => {
            assert_eq!(find_headers(rec, b"parent"), parents);
            assert_eq!(find_headers(rec, b"tree").len(), 1);
            assert_eq!(find_headers(rec, b"none"), Vec::<Vec<u8>>::new());
            assert_eq!(rec.header(b"author"), Some(b"Ada Lovelace <ada@example.org> 1527025023 +0200".to_vec()));
            assert_eq!(rec.header(b"parent"), Some(parents[0].clone()));
            assert_eq!(rec.header(b"gpgsig"), None);
        }
        _ => panic!("not a commit"),
    }
    let root = GitObject::commit(b"29ff16c9c14e2652b22f8b78bb08a5a07930c147", &Vec::new(), b"a 1 +0000", b"c 2 +0000", b"");
    assert_eq!(
        root.serialize(),
        b"tree 29ff16c9c14e2652b22f8b78bb08a5a07930c147\nauthor a 1 +0000\ncommitter c 2 +0000\n\n".to_vec()
    );
}

#[test]
fn tag_is_built_in_canonical_order() {
    let tag = GitObject::tag(
        b"ce013625030ba8dba906f756967f9e9ca394464a",
        ObjectKind::Blob,
        b"v1",
        b"Ada Lovelace <ada@example.org> 1527025023 +0200",
        b"first\n",
    );
    assert_eq!(
        tag.serialize(),
        b"object ce013625030ba8dba906f756967f9e9ca394464a\ntype blob\ntag v1\n\
tagger Ada Lovelace <ada@example.org> 1527025023 +0200\n\nfirst\n"
            .to_vec()
    );
    assert!(tag.is_wf());
    assert_eq!(GitObject::decode(&tag.encode()), Ok(tag));
}
