use mini_git::objects::{CommitContent, ObjectHashTypes, StoreError, TreeNode, TzOffset};
use mini_git::resolver::{get_path_from_hash, resolve_prefix};
use mini_git::store::{read_object, write_object, write_object_hash};

fn zero_hash() -> Vec<u8> {
    vec![b'0'; 40]
}

#[test]
fn blob_digest_matches_reference() {
    let obj = ObjectHashTypes::Blob(b"hello\n".to_vec());
    let (id, _stream) = write_object_hash(&obj);
    assert_eq!(id, b"ce013625030ba8dba906f756967f9e9ca394464a".to_vec());
}

#[test]
fn stored_stream_is_a_zlib_stream() {
    let obj = ObjectHashTypes::Blob(b"hello\n".to_vec());
    let (_id, stream) = write_object_hash(&obj);
    assert_eq!(stream[0], 0x78);
    assert_ne!(stream, b"blob 6\0hello\n".to_vec());
}

#[test]
fn blob_round_trips_through_store_bytes() {
    let obj = ObjectHashTypes::Blob(b"hello world\n".to_vec());
    let (_id, stream) = write_object_hash(&obj);
    match read_object(&stream).unwrap() {
        ObjectHashTypes::Blob(c) => assert_eq!(c, b"hello world\n".to_vec()),
        _ => panic!("expected a blob"),
    }
}

#[test]
fn tree_entry_round_trips() {
    let node = TreeNode { name: b"a.txt".to_vec(), hash: zero_hash(), mode: 100644 };
    let obj = ObjectHashTypes::Tree(vec![node]);
    let (_id, stream) = write_object_hash(&obj);
    match read_object(&stream).unwrap() {
        ObjectHashTypes::Tree(ns) => {
            assert_eq!(ns.len(), 1);
            assert_eq!(ns[0].name, b"a.txt".to_vec());
            assert_eq!(ns[0].mode, 100644);
            assert_eq!(ns[0].hash, zero_hash());
        },
        _ => panic!("expected a tree"),
    }
}

#[test]
fn commit_round_trips_without_parent() {
    let c = CommitContent {
        tree_sha: vec![b'a'; 40],
        parent_sha: None,
        author_name: b"Jane Doe".to_vec(),
        author_email: b"jane@x.com".to_vec(),
        committer: b"Jane Doe".to_vec(),
        committer_email: b"jane@x.com".to_vec(),
        message: b"init".to_vec(),
        timestamp_secs: 1700000000,
        timestamp_tz: TzOffset { negative: false, hours: 0, minutes: 0 },
    };
    let obj = ObjectHashTypes::Commit(c);
    let (_id, stream) = write_object_hash(&obj);
    match read_object(&stream).unwrap() {
        ObjectHashTypes::Commit(d) => {
            assert_eq!(d.tree_sha, vec![b'a'; 40]);
            assert!(d.parent_sha.is_none());
            assert_eq!(d.author_name, b"Jane Doe".to_vec());
            assert_eq!(d.author_email, b"jane@x.com".to_vec());
            assert_eq!(d.message, b"init".to_vec());
            assert_eq!(d.timestamp_secs, 1700000000);
            assert_eq!(d.timestamp_tz, TzOffset { negative: false, hours: 0, minutes: 0 });
        },
        _ => panic!("expected a commit"),
    }
}

#[test]
fn commit_round_trips_with_parent_and_offset() {
    let c = CommitContent {
        tree_sha: vec![b'a'; 40],
        parent_sha: Some(vec![b'b'; 40]),
        author_name: b"A B C".to_vec(),
        author_email: b"a@b".to_vec(),
        committer: b"D".to_vec(),
        committer_email: b"d@e".to_vec(),
        message: b"second".to_vec(),
        timestamp_secs: -5,
        timestamp_tz: TzOffset { negative: true, hours: 5, minutes: 30 },
    };
    let obj = ObjectHashTypes::Commit(c);
    let (_id, stream) = write_object_hash(&obj);
    match read_object(&stream).unwrap() {
        ObjectHashTypes::Commit(d) => {
            assert_eq!(d.parent_sha, Some(vec![b'b'; 40]));
            assert_eq!(d.author_name, b"A B C".to_vec());
            assert_eq!(d.timestamp_secs, -5);
            assert_eq!(d.timestamp_tz, TzOffset { negative: true, hours: 5, minutes: 30 });
        },
        _ => panic!("expected a commit"),
    }
}

#[test]
fn writing_identical_content_twice_gives_one_id() {
    let (id1, s1) = write_object(b"blob 3\0", b"abc");
    let (id2, s2) = write_object(b"blob 3\0", b"abc");
    assert_eq!(id1, id2);
    assert_eq!(s1, s2);
    let obj = ObjectHashTypes::Blob(b"abc".to_vec());
    let (id3, _) = write_object_hash(&obj);
    let (id4, _) = write_object_hash(&ObjectHashTypes::Blob(b"abc".to_vec()));
    assert_eq!(id3, id4);
}

#[test]
fn reading_garbage_is_a_read_error() {
    assert_eq!(read_object(b"not a zlib stream").unwrap_err(), StoreError::StoreReadError);
}

#[test]
fn identifier_splits_into_shard_and_rest() {
    let (dir, rest) = get_path_from_hash("ce013625030ba8dba906f756967f9e9ca394464a");
    assert_eq!(dir, "ce");
    assert_eq!(rest, "013625030ba8dba906f756967f9e9ca394464a");
}

#[test]
fn prefix_resolution_finds_unique_match() {
    let names = vec![
        b"013625030ba8dba906f756967f9e9ca394464a".to_vec(),
        b"99aabbccdd00112233445566778899aabbccdd".to_vec(),
    ];
    let r = resolve_prefix(&names, b"0136").unwrap();
    assert_eq!(r, b"013625030ba8dba906f756967f9e9ca394464a".to_vec());
}

#[test]
fn prefix_resolution_fails_on_no_match() {
    let names = vec![b"99aabbccdd00112233445566778899aabbccdd".to_vec()];
    assert_eq!(resolve_prefix(&names, b"0136").unwrap_err(), StoreError::NotFound);
}

#[test]
fn prefix_resolution_fails_on_two_matches() {
    let names = vec![
        b"0136aa0000000000000000000000000000000000".to_vec(),
        b"0136bb0000000000000000000000000000000000".to_vec(),
    ];
    assert_eq!(resolve_prefix(&names, b"0136").unwrap_err(), StoreError::Ambiguous);
}

#[test]
fn full_length_identifier_resolves_exactly() {
    let names = vec![
        b"0136aa0000000000000000000000000000000000".to_vec(),
        b"0136bb0000000000000000000000000000000000".to_vec(),
    ];
    let r = resolve_prefix(&names, b"0136aa0000000000000000000000000000000000").unwrap();
    assert_eq!(r, names[0]);
}

#[test]
fn tree_digest_matches_reference() {
    // the tree holding the single blob "hello\n" as hello.txt, a digest a
    // standard content-addressed store computes for this exact layout
    let blob = ObjectHashTypes::Blob(b"hello\n".to_vec());
    let (blob_id, _) = write_object_hash(&blob);
    let node = TreeNode { name: b"hello.txt".to_vec(), hash: blob_id, mode: 100644 };
    let tree = ObjectHashTypes::Tree(vec![node]);
    let (tree_id, _) = write_object_hash(&tree);
    assert_eq!(tree_id, b"aaa96ced2d9a1c8e72c56b253a0e2fe78393feb7".to_vec());
}

#[test]
fn commit_message_with_inner_newline_round_trips() {
    let c = CommitContent {
        tree_sha: vec![b'a'; 40],
        parent_sha: None,
        author_name: b"A".to_vec(),
        author_email: b"a@b".to_vec(),
        committer: b"A".to_vec(),
        committer_email: b"a@b".to_vec(),
        message: b"first line\nsecond line".to_vec(),
        timestamp_secs: 1,
        timestamp_tz: TzOffset { negative: false, hours: 2, minutes: 30 },
    };
    let (_id, stream) = write_object_hash(&ObjectHashTypes::Commit(c));
    match read_object(&stream).unwrap() {
        ObjectHashTypes::Commit(d) => {
            assert_eq!(d.message, b"first line\nsecond line".to_vec());
        },
        _ => panic!("expected a commit"),
    }
}

#[test]
fn commit_message_blank_lines_are_dropped() {
    // the decoder joins only the nonempty lines after the separator
    let c = CommitContent {
        tree_sha: vec![b'a'; 40],
        parent_sha: None,
        author_name: b"A".to_vec(),
        author_email: b"a@b".to_vec(),
        committer: b"A".to_vec(),
        committer_email: b"a@b".to_vec(),
        message: b"one\n\ntwo".to_vec(),
        timestamp_secs: 1,
        timestamp_tz: TzOffset { negative: false, hours: 0, minutes: 0 },
    };
    let (_id, stream) = write_object_hash(&ObjectHashTypes::Commit(c));
    match read_object(&stream).unwrap() {
        ObjectHashTypes::Commit(d) => {
            assert_eq!(d.message, b"one\ntwo".to_vec());
        },
        _ => panic!("expected a commit"),
    }
}
