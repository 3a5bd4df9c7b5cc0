use mini_git::builder::{file_mode, is_ignored_dir, lex_le_exec, sort_tree_nodes};
use mini_git::codec::{decode_object, encode_tree, parse_file_metadata};
use mini_git::dec::{i64_to_dec, parse_dec_i64, parse_dec_u64, u64_to_dec};
use mini_git::hex::{hex_decode, hex_encode};
use mini_git::objects::{
    get_commit_author_email, get_commit_author_name, get_commit_comitter_email,
    get_commit_comitter_name, CommitContent, ObjectHashTypes, StoreError, TreeNode, TzOffset,
};

fn zero_hash() -> Vec<u8> {
    vec![b'0'; 40]
}

#[test]
fn hex_encode_renders_lowercase_pairs() {
    assert_eq!(hex_encode(&[0xde, 0xad, 0x00, 0x0f]), b"dead000f".to_vec());
    assert_eq!(hex_encode(&[]), Vec::<u8>::new());
}

#[test]
fn hex_decode_inverts_encode() {
    let raw = vec![1u8, 2, 3, 0xff, 0x7a];
    let h = hex_encode(&raw);
    assert_eq!(hex_decode(&h), raw);
}

#[test]
fn decimal_rendering_exact() {
    assert_eq!(u64_to_dec(0), b"0".to_vec());
    assert_eq!(u64_to_dec(1234567), b"1234567".to_vec());
    assert_eq!(i64_to_dec(-42), b"-42".to_vec());
    assert_eq!(i64_to_dec(i64::MIN), b"-9223372036854775808".to_vec());
}

#[test]
fn decimal_parsing_exact() {
    assert_eq!(parse_dec_u64(b"100644"), Some(100644));
    assert_eq!(parse_dec_u64(b""), None);
    assert_eq!(parse_dec_u64(b"12a"), None);
    assert_eq!(parse_dec_u64(b"18446744073709551615"), Some(u64::MAX));
    assert_eq!(parse_dec_u64(b"18446744073709551616"), None);
    assert_eq!(parse_dec_i64(b"-42"), Some(-42));
    assert_eq!(parse_dec_i64(b"-9223372036854775808"), Some(i64::MIN));
    assert_eq!(parse_dec_i64(b"-"), None);
}

#[test]
fn metadata_splits_on_first_two_tokens() {
    let r = parse_file_metadata(b"blob 1234").unwrap();
    assert_eq!(r.0, b"blob".to_vec());
    assert_eq!(r.1, b"1234".to_vec());
    let r2 = parse_file_metadata(b"tree 9 extra").unwrap();
    assert_eq!(r2.0, b"tree".to_vec());
    assert_eq!(r2.1, b"9".to_vec());
    assert_eq!(parse_file_metadata(b"blob"), Err(StoreError::MalformedHeader));
}

#[test]
fn decode_blob_exact_bytes() {
    let obj = decode_object(b"blob 6\0hello\n").unwrap();
    match obj {
        ObjectHashTypes::Blob(c) => assert_eq!(c, b"hello\n".to_vec()),
        _ => panic!("expected a blob"),
    }
}

#[test]
fn decode_rejects_missing_nul() {
    assert_eq!(
        decode_object(b"blob 6 hello!").unwrap_err(),
        StoreError::MalformedHeader
    );
}

#[test]
fn decode_rejects_one_token_header() {
    assert_eq!(decode_object(b"blob\0").unwrap_err(), StoreError::MalformedHeader);
}

#[test]
fn decode_rejects_bad_length() {
    assert_eq!(decode_object(b"blob x\0abc").unwrap_err(), StoreError::MalformedHeader);
}

#[test]
fn decode_rejects_short_body() {
    assert_eq!(decode_object(b"blob 10\0abc").unwrap_err(), StoreError::TruncatedBody);
}

#[test]
fn decode_rejects_unknown_kind() {
    assert_eq!(
        decode_object(b"weird 0\0").unwrap_err(),
        StoreError::UnsupportedObjectKind
    );
}

#[test]
fn decode_rejects_non_text_blob() {
    assert_eq!(
        decode_object(b"blob 2\0\xff\xfe").unwrap_err(),
        StoreError::InvalidEncoding
    );
}

#[test]
fn decode_accepts_text_blob_with_multibyte() {
    let body = "caf\u{e9}\n".as_bytes();
    let mut obj = b"blob ".to_vec();
    obj.extend_from_slice(body.len().to_string().as_bytes());
    obj.push(0);
    obj.extend_from_slice(body);
    match decode_object(&obj).unwrap() {
        ObjectHashTypes::Blob(c) => assert_eq!(c, body.to_vec()),
        _ => panic!("expected a blob"),
    }
}

#[test]
fn decode_rejects_truncated_tree_entry() {
    assert_eq!(
        decode_object(b"tree 9\0100644 a\0").unwrap_err(),
        StoreError::TruncatedEntry
    );
}

#[test]
fn decode_rejects_commit_without_separator() {
    let body = b"tree 0000000000000000000000000000000000000000";
    let mut obj = b"commit ".to_vec();
    obj.extend_from_slice(body.len().to_string().as_bytes());
    obj.push(0);
    obj.extend_from_slice(body);
    assert_eq!(decode_object(&obj).unwrap_err(), StoreError::MissingSeparator);
}

#[test]
fn decode_rejects_commit_without_tree() {
    let body = b"author A a@b 0 +0000\ncommitter A a@b 0 +0000\n\nmsg";
    let mut obj = b"commit ".to_vec();
    obj.extend_from_slice(body.len().to_string().as_bytes());
    obj.push(0);
    obj.extend_from_slice(body);
    assert_eq!(decode_object(&obj).unwrap_err(), StoreError::MalformedHeader);
}

#[test]
fn tree_entry_encodes_mode_name_and_raw_digest() {
    let node = TreeNode { name: b"a.txt".to_vec(), hash: zero_hash(), mode: 100644 };
    let enc = node.encode();
    let mut expected = b"100644 a.txt\0".to_vec();
    expected.extend_from_slice(&[0u8; 20]);
    assert_eq!(enc, expected);
}

#[test]
fn tree_orders_entries_by_name() {
    let nodes = vec![
        TreeNode { name: b"b.txt".to_vec(), hash: zero_hash(), mode: 100644 },
        TreeNode { name: b"a.txt".to_vec(), hash: zero_hash(), mode: 100644 },
    ];
    let sorted = sort_tree_nodes(nodes);
    assert_eq!(sorted[0].name, b"a.txt".to_vec());
    assert_eq!(sorted[1].name, b"b.txt".to_vec());
    let body = encode_tree(&sorted);
    assert!(body.starts_with(b"100644 a.txt\0"));
}

#[test]
fn tree_encoding_is_order_independent() {
    let a = vec![
        TreeNode { name: b"src".to_vec(), hash: zero_hash(), mode: 40000 },
        TreeNode { name: b"a.txt".to_vec(), hash: zero_hash(), mode: 100644 },
        TreeNode { name: b"zz".to_vec(), hash: zero_hash(), mode: 100755 },
    ];
    let b = vec![
        TreeNode { name: b"zz".to_vec(), hash: zero_hash(), mode: 100755 },
        TreeNode { name: b"src".to_vec(), hash: zero_hash(), mode: 40000 },
        TreeNode { name: b"a.txt".to_vec(), hash: zero_hash(), mode: 100644 },
    ];
    let ea = encode_tree(&sort_tree_nodes(a));
    let eb = encode_tree(&sort_tree_nodes(b));
    assert_eq!(ea, eb);
}

#[test]
fn lex_order_is_bytewise() {
    assert!(lex_le_exec(b"a.txt", b"b.txt"));
    assert!(!lex_le_exec(b"b.txt", b"a.txt"));
    assert!(lex_le_exec(b"a", b"a.txt"));
    assert!(lex_le_exec(b"a", b"a"));
}

#[test]
fn mode_str_names_target_kind() {
    let mut node = TreeNode { name: b"x".to_vec(), hash: zero_hash(), mode: 40000 };
    assert_eq!(node.mode_str(), "tree");
    node.mode = 100644;
    assert_eq!(node.mode_str(), "blob");
    node.mode = 100755;
    assert_eq!(node.mode_str(), "blob");
    node.mode = 120000;
    assert_eq!(node.mode_str(), "blob");
    node.mode = 160000;
    assert_eq!(node.mode_str(), "commit");
    node.mode = 12345;
    assert_eq!(node.mode_str(), "blob");
}

#[test]
fn render_line_pads_mode_to_six() {
    let node = TreeNode { name: b"src".to_vec(), hash: zero_hash(), mode: 40000 };
    let mut expected = b"040000 tree ".to_vec();
    expected.extend_from_slice(&zero_hash());
    expected.push(b'\t');
    expected.extend_from_slice(b"src");
    assert_eq!(node.render_line(), expected);
}

#[test]
fn commit_encodes_header_block_and_message() {
    let c = CommitContent {
        tree_sha: vec![b'a'; 40],
        parent_sha: None,
        author_name: b"Jane Doe".to_vec(),
        author_email: b"jane@x.com".to_vec(),
        committer: b"test_comitter".to_vec(),
        committer_email: b"test_comitter@gmail.com".to_vec(),
        message: b"init".to_vec(),
        timestamp_secs: 1700000000,
        timestamp_tz: TzOffset { negative: false, hours: 0, minutes: 0 },
    };
    let obj = ObjectHashTypes::Commit(c);
    let rendered = obj.render();
    let mut expected = b"tree ".to_vec();
    expected.extend_from_slice(&[b'a'; 40]);
    expected.extend_from_slice(b"\nauthor Jane Doe jane@x.com 1700000000 +0000\n");
    expected.extend_from_slice(b"committer test_comitter test_comitter@gmail.com 1700000000 +0000\n");
    expected.extend_from_slice(b"\ninit");
    assert_eq!(rendered, expected);
}

#[test]
fn file_mode_follows_execute_bits() {
    assert_eq!(file_mode(0o100755), 100755);
    assert_eq!(file_mode(0o100644), 100644);
    assert_eq!(file_mode(0o100444), 100644);
    assert_eq!(file_mode(0o100500), 100755);
}

#[test]
fn ignored_directories_are_fixed() {
    assert!(is_ignored_dir(b".git"));
    assert!(is_ignored_dir(b"target"));
    assert!(!is_ignored_dir(b"src"));
    assert!(!is_ignored_dir(b".gitignore"));
}

#[test]
fn default_identities_are_stable() {
    assert_eq!(get_commit_author_name(), "test_author");
    assert_eq!(get_commit_author_email(), "test_author@gmail.com");
    assert_eq!(get_commit_comitter_name(), "test_comitter");
    assert_eq!(get_commit_comitter_email(), "test_comitter@gmail.com");
}

#[test]
fn tree_listing_renders_one_line_per_entry() {
    let tree = ObjectHashTypes::Tree(vec![
        TreeNode { name: b"a.txt".to_vec(), hash: zero_hash(), mode: 100644 },
        TreeNode { name: b"sub".to_vec(), hash: zero_hash(), mode: 40000 },
    ]);
    let mut expected = b"100644 blob ".to_vec();
    expected.extend_from_slice(&zero_hash());
    expected.extend_from_slice(b"\ta.txt\n040000 tree ");
    expected.extend_from_slice(&zero_hash());
    expected.extend_from_slice(b"\tsub\n");
    assert_eq!(tree.render(), expected);
}
