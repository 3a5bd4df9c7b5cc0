//! The object codec: the byte formats of blob, tree and commit objects,
//! both directions, with the encoding defined by spec functions and the
//! decoder proved against them.
//!
//! An encoded object is `<kind-word> <decimal-length>\0<body>`.  A tree
//! body is a run of `<decimal-mode> <name>\0` followed by the raw 20-byte
//! digest of the entry, one run per entry.  A commit body is a line-based
//! text block: a `tree` line, an optional `parent` line, `author` and
//! `committer` lines, a blank separator line, then the message.

use vstd::prelude::*;
use vstd::utf8::valid_utf8;
use crate::dec::{
    all_dec_digits, dec_of, dec_of_int, dec_val, i64_to_dec, is_dec_digit, is_signed_dec,
    parse_dec_i64, parse_dec_u64, signed_dec_val, u64_to_dec,
};
use crate::hex::{all_hex_digits, is_hex_digit, hex_encode, hex_decode, hex_of, raw_of_hex};
use crate::objects::{
    wf_node, wf_tz, CommitContent, CommitView, ObjectHashTypes, ObjectView, StoreError, TreeNode,
    TreeNodeView, TzOffset,
};
use crate::dec::lemma_dec_of_digits;
use crate::scan::lemma_split_bytes_concat;
use crate::scan::lemma_join_split;
use crate::scan::lemma_split_bytes_len;
use crate::scan::{
    bytes_eq, copy_range, find_byte_from, first_byte_pos, has_byte, join_nonempty,
    join_nonempty_from, join_range, join_with, lemma_first_byte_pos, lemma_first_byte_pos_is,
    split_by, split_bytes, starts_with,
};

verus! {

pub open spec fn blob_word() -> Seq<u8> {
    seq![98u8, 108u8, 111u8, 98u8]
}

pub open spec fn tree_word() -> Seq<u8> {
    seq![116u8, 114u8, 101u8, 101u8]
}

pub open spec fn commit_word() -> Seq<u8> {
    seq![99u8, 111u8, 109u8, 109u8, 105u8, 116u8]
}

pub open spec fn parent_word() -> Seq<u8> {
    seq![112u8, 97u8, 114u8, 101u8, 110u8, 116u8]
}

pub open spec fn author_word() -> Seq<u8> {
    seq![97u8, 117u8, 116u8, 104u8, 111u8, 114u8]
}

pub open spec fn committer_word() -> Seq<u8> {
    seq![99u8, 111u8, 109u8, 109u8, 105u8, 116u8, 116u8, 101u8, 114u8]
}

/// Appends all of `src` to `dst`.
pub fn push_all(dst: &mut Vec<u8>, src: &[u8])
    ensures
        final(dst)@ == old(dst)@ + src@,
{
    let mut i: usize = 0;
    while i < src.len()
        invariant
            0 <= i <= src@.len(),
            dst@ == old(dst)@ + src@.subrange(0, i as int),
        decreases src@.len() - i,
    {
        dst.push(src[i]);
        proof {
            assert(dst@ =~= old(dst)@ + src@.subrange(0, i + 1));
        }
        i = i + 1;
    }
    proof {
        assert(old(dst)@ + src@.subrange(0, src@.len() as int) =~= old(dst)@ + src@);
    }
}

/// The storage header put before a body of `len` bytes:
/// the kind word, a space, the decimal length, and a NUL.
pub open spec fn header_spec(word: Seq<u8>, len: nat) -> Seq<u8> {
    word + seq![32u8] + dec_of(len) + seq![0u8]
}

/// The encoding of one tree entry: decimal mode, space, name, NUL, then
/// the raw 20 bytes the entry's hex hash denotes.
pub open spec fn encode_node_spec(n: TreeNodeView) -> Seq<u8> {
    dec_of(n.mode as nat) + seq![32u8] + n.name + seq![0u8] + raw_of_hex(n.hash)
}

/// The body of a tree object: the entries' encodings, concatenated in
/// order with no delimiter.
pub open spec fn encode_tree_body(ns: Seq<TreeNodeView>) -> Seq<u8>
    decreases ns.len(),
{
    if ns.len() == 0 {
        Seq::empty()
    } else {
        encode_node_spec(ns[0]) + encode_tree_body(ns.skip(1))
    }
}

pub proof fn lemma_encode_tree_body_push(ns: Seq<TreeNodeView>, n: TreeNodeView)
    ensures
        encode_tree_body(ns.push(n)) == encode_tree_body(ns) + encode_node_spec(n),
    decreases ns.len(),
{
    let t = ns.push(n);
    if ns.len() == 0 {
        assert(t[0] == n);
        assert(t.skip(1) =~= Seq::<TreeNodeView>::empty());
        assert(encode_tree_body(t.skip(1)) == Seq::<u8>::empty());
        assert(encode_tree_body(t) =~= encode_tree_body(ns) + encode_node_spec(n));
    } else {
        assert(t[0] == ns[0]);
        assert(t.skip(1) =~= ns.skip(1).push(n));
        lemma_encode_tree_body_push(ns.skip(1), n);
        assert(encode_tree_body(t) =~= encode_tree_body(ns) + encode_node_spec(n));
    }
}

/// A two-digit zero-padded decimal field, as a UTC offset is written.
pub open spec fn pad2(v: u8) -> Seq<u8> {
    if v < 10 {
        seq![48u8, (48 + v) as u8]
    } else {
        dec_of(v as nat)
    }
}

/// A UTC offset as a commit header writes it: sign, two-digit hours,
/// two-digit minutes.
pub open spec fn tz_bytes(tz: TzOffset) -> Seq<u8> {
    seq![if tz.negative {
        45u8
    } else {
        43u8
    }] + pad2(tz.hours) + pad2(tz.minutes)
}

/// An author or committer header line: the field word, the person's name,
/// address, Unix seconds and UTC offset, space-separated, ending in a
/// newline.
pub open spec fn person_line(word: Seq<u8>, name: Seq<u8>, email: Seq<u8>, secs: i64, tz: TzOffset) -> Seq<u8> {
    word + seq![32u8] + name + seq![32u8] + email + seq![32u8] + dec_of_int(secs as int) + seq![
        32u8,
    ] + tz_bytes(tz) + seq![10u8]
}

/// The body of a commit object.
pub open spec fn encode_commit_body(c: CommitView) -> Seq<u8> {
    tree_word() + seq![32u8] + c.tree_sha + seq![10u8] + (match c.parent_sha {
        Some(p) => parent_word() + seq![32u8] + p + seq![10u8],
        None => Seq::empty(),
    }) + person_line(author_word(), c.author_name, c.author_email, c.timestamp_secs, c.timestamp_tz)
        + person_line(
        committer_word(),
        c.committer,
        c.committer_email,
        c.timestamp_secs,
        c.timestamp_tz,
    ) + seq![10u8] + c.message
}

/// The body bytes of an object, before the storage header is prefixed.
pub open spec fn body_spec(o: ObjectView) -> Seq<u8> {
    match o {
        ObjectView::Blob(c) => c,
        ObjectView::Tree(ns) => encode_tree_body(ns),
        ObjectView::Commit(c) => encode_commit_body(c),
    }
}

/// The kind word of an object.
pub open spec fn word_spec(o: ObjectView) -> Seq<u8> {
    match o {
        ObjectView::Blob(_) => blob_word(),
        ObjectView::Tree(_) => tree_word(),
        ObjectView::Commit(_) => commit_word(),
    }
}

/// The full encoding of an object: header, then body.
pub open spec fn encode_object_spec(o: ObjectView) -> Seq<u8> {
    header_spec(word_spec(o), body_spec(o).len()) + body_spec(o)
}

/// A tree whose entries the codec can serialize and read back.
pub open spec fn wf_tree(ns: Seq<TreeNodeView>) -> bool {
    forall|i: int| 0 <= i < ns.len() ==> wf_node(#[trigger] ns[i])
}

/// An object the encoder accepts: tree entries must be well-formed; blob
/// and commit encodings are total.
pub open spec fn wf_object(o: ObjectView) -> bool {
    match o {
        ObjectView::Blob(_) => true,
        ObjectView::Tree(ns) => wf_tree(ns),
        ObjectView::Commit(_) => true,
    }
}

impl TreeNode {
    /// Serializes this entry for a tree body.
    pub fn encode(&self) -> (r: Vec<u8>)
        requires
            wf_node(self@),
        ensures
            r@ == encode_node_spec(self@),
    {
        let mut bytes = u64_to_dec(self.mode as u64);
        bytes.push(32);
        push_all(&mut bytes, self.name.as_slice());
        bytes.push(0);
        let raw = hex_decode(self.hash.as_slice());
        push_all(&mut bytes, raw.as_slice());
        proof {
            assert(bytes@ =~= encode_node_spec(self@));
        }
        bytes
    }
}

/// Serializes a tree body: each entry in order.
pub fn encode_tree(nodes: &Vec<TreeNode>) -> (r: Vec<u8>)
    requires
        wf_tree(nodes.deep_view()),
    ensures
        r@ == encode_tree_body(nodes.deep_view()),
{
    let mut out: Vec<u8> = Vec::new();
    let mut i: usize = 0;
    proof {
        assert(nodes.deep_view().subrange(0, 0) =~= Seq::<TreeNodeView>::empty());
    }
    while i < nodes.len()
        invariant
            0 <= i <= nodes@.len(),
            nodes@.len() == nodes.deep_view().len(),
            wf_tree(nodes.deep_view()),
            out@ == encode_tree_body(nodes.deep_view().subrange(0, i as int)),
        decreases nodes@.len() - i,
    {
        let ghost dv = nodes.deep_view();
        proof {
            assert(dv[i as int] == nodes@[i as int]@);
            assert(wf_node(dv[i as int]));
        }
        let enc = nodes[i].encode();
        push_all(&mut out, enc.as_slice());
        proof {
            assert(dv.subrange(0, i + 1) =~= dv.subrange(0, i as int).push(dv[i as int]));
            lemma_encode_tree_body_push(dv.subrange(0, i as int), dv[i as int]);
        }
        i = i + 1;
    }
    proof {
        assert(nodes.deep_view().subrange(0, nodes.deep_view().len() as int)
            =~= nodes.deep_view());
    }
    out
}

/// Renders a two-digit zero-padded field.
fn pad2_exec(v: u8) -> (r: Vec<u8>)
    ensures
        r@ == pad2(v),
{
    if v < 10 {
        let mut out: Vec<u8> = Vec::new();
        out.push(48);
        out.push(48 + v);
        proof {
            assert(out@ =~= pad2(v));
        }
        out
    } else {
        u64_to_dec(v as u64)
    }
}

/// Serializes a commit body.
#[verifier::rlimit(100)]
#[verifier::spinoff_prover]
pub fn encode_commit(c: &CommitContent) -> (r: Vec<u8>)
    ensures
        r@ == encode_commit_body(c@),
{
    let mut out: Vec<u8> = Vec::new();
    out.push(116);
    out.push(114);
    out.push(101);
    out.push(101);
    out.push(32);
    push_all(&mut out, c.tree_sha.as_slice());
    out.push(10);
    let ghost after_tree = out@;
    proof {
        assert(after_tree =~= tree_word() + seq![32u8] + c.tree_sha@ + seq![10u8]);
    }
    match &c.parent_sha {
        Some(p) => {
            out.push(112);
            out.push(97);
            out.push(114);
            out.push(101);
            out.push(110);
            out.push(116);
            out.push(32);
            push_all(&mut out, p.as_slice());
            out.push(10);
            proof {
                assert(out@ =~= after_tree + (parent_word() + seq![32u8] + p@ + seq![10u8]));
            }
        },
        None => {
            proof {
                assert(out@ =~= after_tree + Seq::<u8>::empty());
            }
        },
    }
    let ghost after_parent = out@;
    out.push(97);
    out.push(117);
    out.push(116);
    out.push(104);
    out.push(111);
    out.push(114);
    proof {
        assert(out@ =~= after_parent + author_word());
    }
    push_person_tail(
        &mut out,
        &c.author_name,
        &c.author_email,
        c.timestamp_secs,
        c.timestamp_tz,
    );
    proof {
        assert(out@ =~= after_parent + person_line(
            author_word(),
            c.author_name@,
            c.author_email@,
            c.timestamp_secs,
            c.timestamp_tz,
        ));
    }
    let ghost after_author = out@;
    out.push(99);
    out.push(111);
    out.push(109);
    out.push(109);
    out.push(105);
    out.push(116);
    out.push(116);
    out.push(101);
    out.push(114);
    proof {
        assert(out@ =~= after_author + committer_word());
    }
    push_person_tail(&mut out, &c.committer, &c.committer_email, c.timestamp_secs, c.timestamp_tz);
    proof {
        assert(out@ =~= after_author + person_line(
            committer_word(),
            c.committer@,
            c.committer_email@,
            c.timestamp_secs,
            c.timestamp_tz,
        ));
    }
    out.push(10);
    push_all(&mut out, c.message.as_slice());
    proof {
        assert(out@ =~= encode_commit_body(c@));
    }
    out
}

/// Appends the rest of a person line after its field word: name, address,
/// seconds and offset, then the newline.
fn push_person_tail(out: &mut Vec<u8>, name: &Vec<u8>, email: &Vec<u8>, secs: i64, tz: TzOffset)
    ensures
        final(out)@ == old(out)@ + seq![32u8] + name@ + seq![32u8] + email@ + seq![32u8] + dec_of_int(
            secs as int,
        ) + seq![32u8] + tz_bytes(tz) + seq![10u8],
{
    out.push(32);
    push_all(out, name.as_slice());
    out.push(32);
    push_all(out, email.as_slice());
    out.push(32);
    let ds = i64_to_dec(secs);
    push_all(out, ds.as_slice());
    out.push(32);
    if tz.negative {
        out.push(45);
    } else {
        out.push(43);
    }
    let hh = pad2_exec(tz.hours);
    push_all(out, hh.as_slice());
    let mm = pad2_exec(tz.minutes);
    push_all(out, mm.as_slice());
    out.push(10);
    proof {
        assert(out@ =~= old(out)@ + seq![32u8] + name@ + seq![32u8] + email@ + seq![32u8]
            + dec_of_int(secs as int) + seq![32u8] + tz_bytes(tz) + seq![10u8]);
    }
}

/// Serializes an object as its storage header and body.
pub fn encode_object(obj: &ObjectHashTypes) -> (r: (Vec<u8>, Vec<u8>))
    requires
        wf_object(obj@),
    ensures
        r.0@ == header_spec(word_spec(obj@), body_spec(obj@).len()),
        r.1@ == body_spec(obj@),
        r.0@ + r.1@ == encode_object_spec(obj@),
{
    let body: Vec<u8> = match obj {
        ObjectHashTypes::Blob(c) => {
            let mut b: Vec<u8> = Vec::new();
            push_all(&mut b, c.as_slice());
            proof {
                assert(b@ =~= body_spec(obj@));
            }
            b
        },
        ObjectHashTypes::Tree(ns) => encode_tree(ns),
        ObjectHashTypes::Commit(c) => encode_commit(c),
    };
    let mut header: Vec<u8> = match obj {
        ObjectHashTypes::Blob(_) => {
            let mut w: Vec<u8> = Vec::new();
            w.push(98);
            w.push(108);
            w.push(111);
            w.push(98);
            proof {
                assert(w@ =~= blob_word());
            }
            w
        },
        ObjectHashTypes::Tree(_) => {
            let mut w: Vec<u8> = Vec::new();
            w.push(116);
            w.push(114);
            w.push(101);
            w.push(101);
            proof {
                assert(w@ =~= tree_word());
            }
            w
        },
        ObjectHashTypes::Commit(_) => {
            let mut w: Vec<u8> = Vec::new();
            w.push(99);
            w.push(111);
            w.push(109);
            w.push(109);
            w.push(105);
            w.push(116);
            proof {
                assert(w@ =~= commit_word());
            }
            w
        },
    };
    header.push(32);
    let len_digits = u64_to_dec(body.len() as u64);
    push_all(&mut header, len_digits.as_slice());
    header.push(0);
    proof {
        assert(header@ =~= header_spec(word_spec(obj@), body_spec(obj@).len()));
    }
    (header, body)
}

/// Relies on std::str::from_utf8: it succeeds exactly on the byte strings
/// that vstd's `valid_utf8` accepts.
#[verifier::external_body]
fn utf8_valid(b: &[u8]) -> (r: bool)
    ensures
        r == valid_utf8(b@),
{
    std::str::from_utf8(b).is_ok()
}

/// The first two space-separated tokens of a metadata string: everything
/// before the first space, and from there to the next space or the end.
/// Nothing when the string holds no space at all.
pub open spec fn split_two_spec(meta: Seq<u8>) -> Option<(Seq<u8>, Seq<u8>)> {
    if !has_byte(meta, 32) {
        None
    } else {
        let sp = first_byte_pos(meta, 32);
        let rest = meta.skip(sp + 1);
        let second = if has_byte(rest, 32) {
            rest.subrange(0, first_byte_pos(rest, 32))
        } else {
            rest
        };
        Some((meta.subrange(0, sp), second))
    }
}

/// Splits a metadata string into its first two tokens, failing with
/// `MalformedHeader` when there is only one.
pub fn parse_file_metadata(meta_data: &[u8]) -> (r: Result<(Vec<u8>, Vec<u8>), StoreError>)
    ensures
        match r {
            Ok(p) => split_two_spec(meta_data@) == Some((p.0@, p.1@)),
            Err(e) => split_two_spec(meta_data@) is None && e == StoreError::MalformedHeader,
        },
{
    let n = meta_data.len();
    let sp = match find_byte_from(meta_data, 0, 32) {
        Some(k) => k,
        None => {
            assert(!has_byte(meta_data@, 32));
            return Err(StoreError::MalformedHeader);
        },
    };
    proof {
        lemma_first_byte_pos_is(meta_data@, 32, sp as int);
    }
    let first = copy_range(meta_data, 0, sp);
    let ghost rest = meta_data@.skip(sp + 1);
    let second = match find_byte_from(meta_data, sp + 1, 32) {
        Some(k2) => {
            proof {
                assert forall|j: int| 0 <= j < rest.len() implies rest[j] == meta_data@[sp + 1 + j]
                    by {}
                lemma_first_byte_pos_is(rest, 32, k2 - sp - 1);
            }
            let v = copy_range(meta_data, sp + 1, k2);
            proof {
                assert(v@ =~= rest.subrange(0, first_byte_pos(rest, 32)));
            }
            v
        },
        None => {
            proof {
                assert forall|j: int| 0 <= j < rest.len() implies rest[j] != 32 by {
                    assert(rest[j] == meta_data@[sp + 1 + j]);
                }
                assert(!has_byte(rest, 32));
            }
            let v = copy_range(meta_data, sp + 1, n);
            proof {
                assert(v@ =~= rest);
            }
            v
        },
    };
    Ok((first, second))
}

/// The decoding of a tree body: entries read front to back until the body
/// is exhausted.  An entry without its NUL delimiter or without its full
/// 20-byte digest is truncated; a malformed `<mode> <name>` run is a
/// malformed entry header.
pub open spec fn parse_tree_spec(b: Seq<u8>) -> Result<Seq<TreeNodeView>, StoreError>
    decreases b.len(),
    via parse_tree_spec_decreases
{
    if b.len() == 0 {
        Ok(Seq::empty())
    } else if !has_byte(b, 0) {
        Err(StoreError::TruncatedEntry)
    } else {
        let z = first_byte_pos(b, 0);
        let meta = b.subrange(0, z);
        if !has_byte(meta, 32) {
            Err(StoreError::MalformedHeader)
        } else {
            let sp = first_byte_pos(meta, 32);
            let mode_s = meta.subrange(0, sp);
            let name = meta.subrange(sp + 1, z);
            if !(mode_s.len() > 0 && all_dec_digits(mode_s) && dec_val(mode_s) <= u32::MAX) {
                Err(StoreError::MalformedHeader)
            } else if b.len() - (z + 1) < 20 {
                Err(StoreError::TruncatedEntry)
            } else {
                let raw = b.subrange(z + 1, z + 21);
                match parse_tree_spec(b.skip(z + 21)) {
                    Ok(rest) => Ok(
                        seq![
                            TreeNodeView {
                                name: name,
                                hash: hex_of(raw),
                                mode: dec_val(mode_s) as u32,
                            },
                        ] + rest,
                    ),
                    Err(e) => Err(e),
                }
            }
        }
    }
}

#[via_fn]
proof fn parse_tree_spec_decreases(b: Seq<u8>) {
    if b.len() != 0 && has_byte(b, 0) {
        lemma_first_byte_pos(b, 0);
    }
}

/// Reads a tree body back into its entries.
pub fn parse_tree(b: &[u8]) -> (r: Result<Vec<TreeNode>, StoreError>)
    ensures
        match r {
            Ok(ns) => parse_tree_spec(b@) == Ok::<Seq<TreeNodeView>, StoreError>(ns.deep_view()),
            Err(e) => parse_tree_spec(b@) == Err::<Seq<TreeNodeView>, StoreError>(e),
        },
{
    let mut nodes: Vec<TreeNode> = Vec::new();
    let mut pos: usize = 0;
    proof {
        assert(b@.skip(0) =~= b@);
        assert(nodes.deep_view() =~= Seq::<TreeNodeView>::empty());
    }
    while pos < b.len()
        invariant
            0 <= pos <= b@.len(),
            parse_tree_spec(b@.skip(pos as int)) is Err ==> parse_tree_spec(b@) == parse_tree_spec(
                b@.skip(pos as int),
            ),
            parse_tree_spec(b@.skip(pos as int)) is Ok ==> parse_tree_spec(b@) == Ok::<
                Seq<TreeNodeView>,
                StoreError,
            >(nodes.deep_view() + parse_tree_spec(b@.skip(pos as int))->Ok_0),
        decreases b@.len() - pos,
    {
        let ghost t = b@.skip(pos as int);
        proof {
            assert(t.len() == b@.len() - pos);
            assert(forall|j: int| 0 <= j < t.len() ==> #[trigger] t[j] == b@[pos + j]);
        }
        let z = match find_byte_from(b, pos, 0) {
            Some(z) => z,
            None => {
                proof {
                    assert(!has_byte(t, 0)) by {
                        if has_byte(t, 0) {
                            let i = choose|i: int| 0 <= i < t.len() && t[i] == 0;
                            assert(b@[pos + i] == 0);
                        }
                    }
                    assert(parse_tree_spec(t) == Err::<Seq<TreeNodeView>, StoreError>(
                        StoreError::TruncatedEntry,
                    ));
                }
                return Err(StoreError::TruncatedEntry);
            },
        };
        proof {
            lemma_first_byte_pos_is(t, 0, z - pos);
        }
        let ghost meta = t.subrange(0, z - pos);
        proof {
            assert(forall|j: int| 0 <= j < meta.len() ==> #[trigger] meta[j] == b@[pos + j]);
        }
        let sp = match find_byte_from(b, pos, 32) {
            Some(k) if k < z => k,
            _ => {
                proof {
                    assert(!has_byte(meta, 32)) by {
                        if has_byte(meta, 32) {
                            let i = choose|i: int| 0 <= i < meta.len() && meta[i] == 32;
                            assert(b@[pos + i] == 32);
                        }
                    }
                    assert(parse_tree_spec(t) == Err::<Seq<TreeNodeView>, StoreError>(
                        StoreError::MalformedHeader,
                    ));
                }
                return Err(StoreError::MalformedHeader);
            },
        };
        proof {
            lemma_first_byte_pos_is(meta, 32, sp - pos);
        }
        let mode_bytes = copy_range(b, pos, sp);
        proof {
            assert(mode_bytes@ =~= meta.subrange(0, sp - pos));
        }
        let mode: u32 = match parse_dec_u64(mode_bytes.as_slice()) {
            Some(v) if v <= u32::MAX as u64 => v as u32,
            _ => {
                proof {
                    assert(parse_tree_spec(t) == Err::<Seq<TreeNodeView>, StoreError>(
                        StoreError::MalformedHeader,
                    ));
                }
                return Err(StoreError::MalformedHeader);
            },
        };
        let name = copy_range(b, sp + 1, z);
        proof {
            assert(name@ =~= meta.subrange(sp - pos + 1, z - pos));
        }
        if b.len() - (z + 1) < 20 {
            proof {
                assert(parse_tree_spec(t) == Err::<Seq<TreeNodeView>, StoreError>(
                    StoreError::TruncatedEntry,
                ));
            }
            return Err(StoreError::TruncatedEntry);
        }
        let raw = copy_range(b, z + 1, z + 21);
        proof {
            assert(raw@ =~= t.subrange(z - pos + 1, z - pos + 21));
        }
        let hash = hex_encode(raw.as_slice());
        let node = TreeNode { name: name, hash: hash, mode: mode };
        let ghost nv = TreeNodeView {
            name: meta.subrange(sp - pos + 1, z - pos),
            hash: hex_of(t.subrange(z - pos + 1, z - pos + 21)),
            mode: dec_val(meta.subrange(0, sp - pos)) as u32,
        };
        proof {
            assert(node@ == nv);
        }
        let ghost old_nodes = nodes.deep_view();
        nodes.push(node);
        proof {
            assert(nodes.deep_view() =~= old_nodes.push(nv));
            assert(t.skip(z - pos + 21) =~= b@.skip(z as int + 21));
            let r2 = parse_tree_spec(b@.skip(z as int + 21));
            if r2 is Ok {
                let rest2 = r2->Ok_0;
                assert(parse_tree_spec(t) == Ok::<Seq<TreeNodeView>, StoreError>(
                    seq![nv] + rest2,
                ));
                assert(nodes.deep_view() + rest2 =~= old_nodes + (seq![nv] + rest2));
                assert(parse_tree_spec(b@) == Ok::<Seq<TreeNodeView>, StoreError>(
                    nodes.deep_view() + rest2,
                ));
            } else {
                let e2 = r2->Err_0;
                assert(parse_tree_spec(t) == Err::<Seq<TreeNodeView>, StoreError>(e2));
            }
        }
        pos = z + 21;
    }
    proof {
        assert(b@.skip(pos as int) =~= Seq::<u8>::empty());
        assert(parse_tree_spec(b@.skip(pos as int)) == Ok::<Seq<TreeNodeView>, StoreError>(
            Seq::<TreeNodeView>::empty(),
        ));
        assert(nodes.deep_view() + Seq::<TreeNodeView>::empty() =~= nodes.deep_view());
    }
    Ok(nodes)
}

pub open spec fn has_empty_line(ls: Seq<Seq<u8>>) -> bool {
    exists|i: int| 0 <= i < ls.len() && ls[i].len() == 0
}

/// Index of the first empty line (meaningful when one exists).
pub open spec fn first_empty_pos(ls: Seq<Seq<u8>>) -> int
    decreases ls.len(),
{
    if ls.len() == 0 {
        0
    } else if ls[0].len() == 0 {
        0
    } else {
        1 + first_empty_pos(ls.skip(1))
    }
}

pub proof fn lemma_first_empty_pos(ls: Seq<Seq<u8>>)
    requires
        has_empty_line(ls),
    ensures
        0 <= first_empty_pos(ls) < ls.len(),
        ls[first_empty_pos(ls)].len() == 0,
        forall|j: int| 0 <= j < first_empty_pos(ls) ==> ls[j].len() != 0,
    decreases ls.len(),
{
    if ls.len() > 0 && ls[0].len() != 0 {
        assert(has_empty_line(ls.skip(1))) by {
            let i = choose|i: int| 0 <= i < ls.len() && ls[i].len() == 0;
            assert(ls.skip(1)[i - 1].len() == 0);
        }
        lemma_first_empty_pos(ls.skip(1));
        assert forall|j: int| 0 <= j < first_empty_pos(ls) implies ls[j].len() != 0 by {
            if j > 0 {
                assert(ls.skip(1)[j - 1].len() != 0);
            }
        }
    }
}

pub proof fn lemma_first_empty_pos_is(ls: Seq<Seq<u8>>, p: int)
    requires
        0 <= p < ls.len(),
        ls[p].len() == 0,
        forall|j: int| 0 <= j < p ==> ls[j].len() != 0,
    ensures
        has_empty_line(ls),
        first_empty_pos(ls) == p,
{
    assert(has_empty_line(ls));
    lemma_first_empty_pos(ls);
    let q = first_empty_pos(ls);
    if q < p {
        assert(ls[q].len() != 0);
    }
    if p < q {
        assert(ls[p].len() != 0);
    }
}

/// Whether a header line carries the given field word: the word, then a
/// space, then the value.
pub open spec fn field_match(line: Seq<u8>, word: Seq<u8>) -> bool {
    line.len() > word.len() && line.subrange(0, word.len() as int) == word && line[word.len() as int]
        == 32
}

/// The value of the first header line carrying the given field word.
pub open spec fn find_field_spec(ls: Seq<Seq<u8>>, word: Seq<u8>) -> Option<Seq<u8>>
    decreases ls.len(),
{
    if ls.len() == 0 {
        None
    } else if field_match(ls[0], word) {
        Some(ls[0].skip(word.len() as int + 1))
    } else {
        find_field_spec(ls.skip(1), word)
    }
}

pub proof fn lemma_find_field_at(ls: Seq<Seq<u8>>, word: Seq<u8>, k: int)
    requires
        0 <= k < ls.len(),
        field_match(ls[k], word),
        forall|j: int| 0 <= j < k ==> !field_match(#[trigger] ls[j], word),
    ensures
        find_field_spec(ls, word) == Some(ls[k].skip(word.len() as int + 1)),
    decreases ls.len(),
{
    if k > 0 {
        assert(!field_match(ls[0], word));
        assert(ls.skip(1)[k - 1] == ls[k]);
        assert forall|j: int| 0 <= j < k - 1 implies !field_match(#[trigger] ls.skip(1)[j], word)
            by {
            assert(ls.skip(1)[j] == ls[j + 1]);
        }
        lemma_find_field_at(ls.skip(1), word, k - 1);
    }
}

pub proof fn lemma_find_field_none(ls: Seq<Seq<u8>>, word: Seq<u8>)
    requires
        forall|j: int| 0 <= j < ls.len() ==> !field_match(#[trigger] ls[j], word),
    ensures
        find_field_spec(ls, word) is None,
    decreases ls.len(),
{
    if ls.len() > 0 {
        assert forall|j: int| 0 <= j < ls.len() - 1 implies !field_match(
            #[trigger] ls.skip(1)[j],
            word,
        ) by {
            assert(ls.skip(1)[j] == ls[j + 1]);
        }
        lemma_find_field_none(ls.skip(1), word);
    }
}

/// Finds the value of the first line among `lines[..upto]` carrying the
/// given field word.
fn find_field(lines: &Vec<Vec<u8>>, upto: usize, word: &[u8]) -> (r: Option<Vec<u8>>)
    requires
        upto <= lines@.len(),
    ensures
        match r {
            Some(v) => find_field_spec(lines.deep_view().subrange(0, upto as int), word@)
                == Some(v@),
            None => find_field_spec(lines.deep_view().subrange(0, upto as int), word@) is None,
        },
{
    let ghost hdr = lines.deep_view().subrange(0, upto as int);
    let mut i: usize = 0;
    while i < upto
        invariant
            0 <= i <= upto <= lines@.len(),
            lines@.len() == lines.deep_view().len(),
            hdr == lines.deep_view().subrange(0, upto as int),
            forall|j: int| 0 <= j < i ==> !field_match(#[trigger] hdr[j], word@),
        decreases upto - i,
    {
        let line = &lines[i];
        proof {
            assert(hdr[i as int] == line@);
        }
        if starts_with(line.as_slice(), word) && line.len() > word.len() {
            let at = line[word.len()];
            if at == 32 {
                proof {
                    assert(line@.subrange(0, word@.len() as int) == word@);
                    assert(field_match(hdr[i as int], word@));
                    lemma_find_field_at(hdr, word@, i as int);
                }
                let v = copy_range(line.as_slice(), word.len() + 1, line.len());
                proof {
                    assert(v@ =~= hdr[i as int].skip(word@.len() as int + 1));
                }
                return Some(v);
            }
        }
        proof {
            assert(!field_match(hdr[i as int], word@));
        }
        i = i + 1;
    }
    proof {
        lemma_find_field_none(hdr, word@);
    }
    None
}

/// A UTC offset field: a sign, two hour digits, two minute digits, within
/// the day.
pub open spec fn parse_tz_spec(s: Seq<u8>) -> Option<TzOffset> {
    if s.len() == 5 && (s[0] == 43 || s[0] == 45) && is_dec_digit(s[1]) && is_dec_digit(s[2])
        && is_dec_digit(s[3]) && is_dec_digit(s[4]) {
        let hh = ((s[1] - 48) * 10 + (s[2] - 48)) as u8;
        let mm = ((s[3] - 48) * 10 + (s[4] - 48)) as u8;
        if hh <= 23 && mm <= 59 {
            Some(TzOffset { negative: s[0] == 45, hours: hh, minutes: mm })
        } else {
            None
        }
    } else {
        None
    }
}

/// Reads a UTC offset field.
fn parse_tz(s: &[u8]) -> (r: Option<TzOffset>)
    ensures
        r == parse_tz_spec(s@),
{
    if s.len() != 5 {
        return None;
    }
    let sign = s[0];
    if sign != 43 && sign != 45 {
        return None;
    }
    let d1 = s[1];
    let d2 = s[2];
    let d3 = s[3];
    let d4 = s[4];
    if d1 < 48 || d1 > 57 || d2 < 48 || d2 > 57 || d3 < 48 || d3 > 57 || d4 < 48 || d4 > 57 {
        return None;
    }
    let hh = (d1 - 48) * 10 + (d2 - 48);
    let mm = (d3 - 48) * 10 + (d4 - 48);
    if hh <= 23 && mm <= 59 {
        Some(TzOffset { negative: sign == 45, hours: hh, minutes: mm })
    } else {
        None
    }
}

/// An author or committer line, tokenized on spaces: the last two tokens
/// are the seconds and the offset, the one before them the address, and
/// everything earlier, rejoined with spaces, the name.
pub open spec fn parse_person_spec(line: Seq<u8>) -> Option<(Seq<u8>, Seq<u8>, i64, TzOffset)> {
    let toks = split_bytes(line, 32);
    let n = toks.len() as int;
    if n < 3 {
        None
    } else {
        let name = join_with(toks.subrange(0, n - 3), 32);
        let email = toks[n - 3];
        let ts = toks[n - 2];
        let tzs = toks[n - 1];
        if !(is_signed_dec(ts) && i64::MIN <= signed_dec_val(ts) <= i64::MAX) {
            None
        } else {
            match parse_tz_spec(tzs) {
                None => None,
                Some(tz) => Some((name, email, signed_dec_val(ts) as i64, tz)),
            }
        }
    }
}

/// The name and address of a committer line; its trailing two tokens are
/// present but not examined further.
pub open spec fn parse_committer_spec(line: Seq<u8>) -> Option<(Seq<u8>, Seq<u8>)> {
    let toks = split_bytes(line, 32);
    let n = toks.len() as int;
    if n < 3 {
        None
    } else {
        Some((join_with(toks.subrange(0, n - 3), 32), toks[n - 3]))
    }
}

/// Reads an author line into name, address, seconds and offset.
fn parse_person(line: &[u8]) -> (r: Option<(Vec<u8>, Vec<u8>, i64, TzOffset)>)
    ensures
        match r {
            Some(t) => parse_person_spec(line@) == Some((t.0@, t.1@, t.2, t.3)),
            None => parse_person_spec(line@) is None,
        },
{
    let toks = split_by(line, 32);
    let n = toks.len();
    if n < 3 {
        return None;
    }
    proof {
        assert(toks.deep_view().len() == toks@.len());
        assert(toks.deep_view()[n - 3] == toks@[n - 3]@);
        assert(toks.deep_view()[n - 2] == toks@[n - 2]@);
        assert(toks.deep_view()[n - 1] == toks@[n - 1]@);
    }
    let name = join_range(&toks, 0, n - 3, 32);
    let email_ref = &toks[n - 3];
    let email = copy_range(email_ref.as_slice(), 0, email_ref.len());
    proof {
        assert(email@ =~= toks.deep_view()[n - 3]);
    }
    let secs = match parse_dec_i64(toks[n - 2].as_slice()) {
        Some(v) => v,
        None => {
            return None;
        },
    };
    let tz = match parse_tz(toks[n - 1].as_slice()) {
        Some(t) => t,
        None => {
            return None;
        },
    };
    Some((name, email, secs, tz))
}

/// Reads a committer line into name and address.
fn parse_committer(line: &[u8]) -> (r: Option<(Vec<u8>, Vec<u8>)>)
    ensures
        match r {
            Some(t) => parse_committer_spec(line@) == Some((t.0@, t.1@)),
            None => parse_committer_spec(line@) is None,
        },
{
    let toks = split_by(line, 32);
    let n = toks.len();
    if n < 3 {
        return None;
    }
    let name = join_range(&toks, 0, n - 3, 32);
    let email_ref = &toks[n - 3];
    let email = copy_range(email_ref.as_slice(), 0, email_ref.len());
    proof {
        assert(email@ =~= toks.deep_view()[n - 3]);
    }
    Some((name, email))
}

/// The decoding of a commit body: the body must be UTF-8 text; its lines
/// up to the first empty one form the header, the nonempty lines after it
/// the message.  The header must carry `tree`, `author` and `committer`
/// fields, and may carry `parent`.
pub open spec fn parse_commit_spec(body: Seq<u8>) -> Result<CommitView, StoreError> {
    if !valid_utf8(body) {
        Err(StoreError::InvalidEncoding)
    } else {
        let lines = split_bytes(body, 10);
        if !has_empty_line(lines) {
            Err(StoreError::MissingSeparator)
        } else {
            let sep = first_empty_pos(lines);
            let header = lines.subrange(0, sep);
            let message = join_nonempty(lines.skip(sep + 1));
            match find_field_spec(header, tree_word()) {
                None => Err(StoreError::MalformedHeader),
                Some(tree_sha) => match find_field_spec(header, author_word()) {
                    None => Err(StoreError::MalformedHeader),
                    Some(author_line) => match find_field_spec(header, committer_word()) {
                        None => Err(StoreError::MalformedHeader),
                        Some(committer_line) => match parse_person_spec(author_line) {
                            None => Err(StoreError::MalformedHeader),
                            Some(person) => match parse_committer_spec(committer_line) {
                                None => Err(StoreError::MalformedHeader),
                                Some(com) => Ok(
                                    CommitView {
                                        tree_sha: tree_sha,
                                        parent_sha: find_field_spec(header, parent_word()),
                                        author_name: person.0,
                                        author_email: person.1,
                                        committer: com.0,
                                        committer_email: com.1,
                                        message: message,
                                        timestamp_secs: person.2,
                                        timestamp_tz: person.3,
                                    },
                                ),
                            },
                        },
                    },
                },
            }
        }
    }
}

/// The word bytes of the `tree` field.
fn tree_word_vec() -> (r: Vec<u8>)
    ensures
        r@ == tree_word(),
{
    let mut w: Vec<u8> = Vec::new();
    w.push(116);
    w.push(114);
    w.push(101);
    w.push(101);
    proof {
        assert(w@ =~= tree_word());
    }
    w
}

/// The word bytes of the `parent` field.
fn parent_word_vec() -> (r: Vec<u8>)
    ensures
        r@ == parent_word(),
{
    let mut w: Vec<u8> = Vec::new();
    w.push(112);
    w.push(97);
    w.push(114);
    w.push(101);
    w.push(110);
    w.push(116);
    proof {
        assert(w@ =~= parent_word());
    }
    w
}

/// The word bytes of the `author` field.
fn author_word_vec() -> (r: Vec<u8>)
    ensures
        r@ == author_word(),
{
    let mut w: Vec<u8> = Vec::new();
    w.push(97);
    w.push(117);
    w.push(116);
    w.push(104);
    w.push(111);
    w.push(114);
    proof {
        assert(w@ =~= author_word());
    }
    w
}

/// The word bytes of the `committer` field.
fn committer_word_vec() -> (r: Vec<u8>)
    ensures
        r@ == committer_word(),
{
    let mut w: Vec<u8> = Vec::new();
    w.push(99);
    w.push(111);
    w.push(109);
    w.push(109);
    w.push(105);
    w.push(116);
    w.push(116);
    w.push(101);
    w.push(114);
    proof {
        assert(w@ =~= committer_word());
    }
    w
}

/// The word bytes of the blob kind.
fn blob_word_vec() -> (r: Vec<u8>)
    ensures
        r@ == blob_word(),
{
    let mut w: Vec<u8> = Vec::new();
    w.push(98);
    w.push(108);
    w.push(111);
    w.push(98);
    proof {
        assert(w@ =~= blob_word());
    }
    w
}

/// The word bytes of the commit kind.
fn commit_word_vec() -> (r: Vec<u8>)
    ensures
        r@ == commit_word(),
{
    let mut w: Vec<u8> = Vec::new();
    w.push(99);
    w.push(111);
    w.push(109);
    w.push(109);
    w.push(105);
    w.push(116);
    proof {
        assert(w@ =~= commit_word());
    }
    w
}

/// Reads a commit body back into its metadata.
pub fn parse_commit(body: &[u8]) -> (r: Result<CommitContent, StoreError>)
    ensures
        match r {
            Ok(c) => parse_commit_spec(body@) == Ok::<CommitView, StoreError>(c@),
            Err(e) => parse_commit_spec(body@) == Err::<CommitView, StoreError>(e),
        },
{
    if !utf8_valid(body) {
        return Err(StoreError::InvalidEncoding);
    }
    let lines = split_by(body, 10);
    let ghost lv = lines.deep_view();
    let mut sep: usize = 0;
    let mut found: bool = false;
    while sep < lines.len() && !found
        invariant
            0 <= sep <= lines@.len(),
            lines@.len() == lv.len(),
            lv == lines.deep_view(),
            found ==> sep < lv.len() && lv[sep as int].len() == 0,
            forall|j: int| 0 <= j < sep ==> lv[j].len() != 0,
            found == false || found == true,
        decreases lv.len() - sep + (if found {
            0int
        } else {
            1int
        }),
    {
        if lines[sep].len() == 0 {
            found = true;
        } else {
            sep = sep + 1;
        }
    }
    if !found {
        proof {
            assert(!has_empty_line(lv)) by {
                if has_empty_line(lv) {
                    let i = choose|i: int| 0 <= i < lv.len() && lv[i].len() == 0;
                    assert(lv[i].len() != 0);
                }
            }
        }
        return Err(StoreError::MissingSeparator);
    }
    proof {
        lemma_first_empty_pos_is(lv, sep as int);
    }
    let ghost header = lv.subrange(0, sep as int);
    let message = join_nonempty_from(&lines, sep + 1);
    let tw = tree_word_vec();
    let tree_sha = match find_field(&lines, sep, tw.as_slice()) {
        Some(v) => v,
        None => {
            return Err(StoreError::MalformedHeader);
        },
    };
    let aw = author_word_vec();
    let author_line = match find_field(&lines, sep, aw.as_slice()) {
        Some(v) => v,
        None => {
            return Err(StoreError::MalformedHeader);
        },
    };
    let cw = committer_word_vec();
    let committer_line = match find_field(&lines, sep, cw.as_slice()) {
        Some(v) => v,
        None => {
            return Err(StoreError::MalformedHeader);
        },
    };
    let person = match parse_person(author_line.as_slice()) {
        Some(p) => p,
        None => {
            return Err(StoreError::MalformedHeader);
        },
    };
    let com = match parse_committer(committer_line.as_slice()) {
        Some(p) => p,
        None => {
            return Err(StoreError::MalformedHeader);
        },
    };
    let pw = parent_word_vec();
    let parent_sha = find_field(&lines, sep, pw.as_slice());
    let c = CommitContent {
        tree_sha: tree_sha,
        parent_sha: parent_sha,
        author_name: person.0,
        author_email: person.1,
        committer: com.0,
        committer_email: com.1,
        message: message,
        timestamp_secs: person.2,
        timestamp_tz: person.3,
    };
    proof {
        assert(parse_commit_spec(body@) == Ok::<CommitView, StoreError>(c@));
    }
    Ok(c)
}

/// The decoding of a full object: header, length-checked body, then the
/// kind's own body format.
pub open spec fn parse_object_spec(bytes: Seq<u8>) -> Result<ObjectView, StoreError> {
    if !has_byte(bytes, 0) {
        Err(StoreError::MalformedHeader)
    } else {
        let z = first_byte_pos(bytes, 0);
        let meta = bytes.subrange(0, z);
        match split_two_spec(meta) {
            None => Err(StoreError::MalformedHeader),
            Some(toks) => {
                let word = toks.0;
                let lenstr = toks.1;
                if !(lenstr.len() > 0 && all_dec_digits(lenstr) && dec_val(lenstr) <= u64::MAX) {
                    Err(StoreError::MalformedHeader)
                } else if bytes.len() - (z + 1) < dec_val(lenstr) {
                    Err(StoreError::TruncatedBody)
                } else {
                    let body = bytes.subrange(z + 1, z + 1 + dec_val(lenstr) as int);
                    if word == blob_word() {
                        if valid_utf8(body) {
                            Ok(ObjectView::Blob(body))
                        } else {
                            Err(StoreError::InvalidEncoding)
                        }
                    } else if word == tree_word() {
                        match parse_tree_spec(body) {
                            Ok(ns) => Ok(ObjectView::Tree(ns)),
                            Err(e) => Err(e),
                        }
                    } else if word == commit_word() {
                        match parse_commit_spec(body) {
                            Ok(c) => Ok(ObjectView::Commit(c)),
                            Err(e) => Err(e),
                        }
                    } else {
                        Err(StoreError::UnsupportedObjectKind)
                    }
                }
            },
        }
    }
}

/// Reads decompressed object bytes back into an object.
pub fn decode_object(bytes: &[u8]) -> (r: Result<ObjectHashTypes, StoreError>)
    ensures
        match r {
            Ok(o) => parse_object_spec(bytes@) == Ok::<ObjectView, StoreError>(o@),
            Err(e) => parse_object_spec(bytes@) == Err::<ObjectView, StoreError>(e),
        },
{
    let n = bytes.len();
    let z = match find_byte_from(bytes, 0, 0) {
        Some(z) => z,
        None => {
            assert(!has_byte(bytes@, 0));
            return Err(StoreError::MalformedHeader);
        },
    };
    proof {
        lemma_first_byte_pos_is(bytes@, 0, z as int);
    }
    let meta = copy_range(bytes, 0, z);
    let toks = match parse_file_metadata(meta.as_slice()) {
        Ok(p) => p,
        Err(e) => {
            return Err(e);
        },
    };
    let word = toks.0;
    let lenstr = toks.1;
    let lenv = match parse_dec_u64(lenstr.as_slice()) {
        Some(v) => v,
        None => {
            return Err(StoreError::MalformedHeader);
        },
    };
    let avail = n - (z + 1);
    if (avail as u64) < lenv {
        return Err(StoreError::TruncatedBody);
    }
    let start = z + 1;
    let blen = lenv as usize;
    let body = copy_range(bytes, start, start + blen);
    proof {
        assert(body@ =~= bytes@.subrange(z as int + 1, z as int + 1 + dec_val(lenstr@) as int));
    }
    let bw = blob_word_vec();
    let tw = tree_word_vec();
    let cw = commit_word_vec();
    if bytes_eq(word.as_slice(), bw.as_slice()) {
        if utf8_valid(body.as_slice()) {
            Ok(ObjectHashTypes::Blob(body))
        } else {
            Err(StoreError::InvalidEncoding)
        }
    } else if bytes_eq(word.as_slice(), tw.as_slice()) {
        match parse_tree(body.as_slice()) {
            Ok(ns) => Ok(ObjectHashTypes::Tree(ns)),
            Err(e) => Err(e),
        }
    } else if bytes_eq(word.as_slice(), cw.as_slice()) {
        match parse_commit(body.as_slice()) {
            Ok(c) => Ok(ObjectHashTypes::Commit(c)),
            Err(e) => Err(e),
        }
    } else {
        Err(StoreError::UnsupportedObjectKind)
    }
}


/// Round trip for blob content: decoding the encoding of a blob yields
/// the blob back, for any text content a blob can hold.  Together with
/// the compression wrappers' contracts, a stored blob reads back intact.
pub proof fn lemma_blob_round_trip(c: Seq<u8>)
    requires
        valid_utf8(c),
        c.len() <= u64::MAX,
    ensures
        parse_object_spec(encode_object_spec(ObjectView::Blob(c))) == Ok::<
            ObjectView,
            StoreError,
        >(ObjectView::Blob(c)),
{
    lemma_object_round_trip(ObjectView::Blob(c));
}

/// A decimal field zero-padded to six characters, as the tree listing
/// prints a mode.
pub open spec fn pad6(s: Seq<u8>) -> Seq<u8> {
    if s.len() >= 6 {
        s
    } else {
        Seq::new((6 - s.len()) as nat, |i: int| 48u8) + s
    }
}

/// The kind word printed for a tree entry's mode.
pub open spec fn mode_word_bytes(mode: u32) -> Seq<u8> {
    if mode == 40000 {
        tree_word()
    } else if mode == 160000 {
        commit_word()
    } else {
        blob_word()
    }
}

/// One line of a tree listing: zero-padded mode, kind word, hash, a tab,
/// and the name.
pub open spec fn render_node_line(n: TreeNodeView) -> Seq<u8> {
    pad6(dec_of(n.mode as nat)) + seq![32u8] + mode_word_bytes(n.mode) + seq![32u8] + n.hash
        + seq![9u8] + n.name
}

/// A whole tree listing: one line per entry, each ending in a newline.
pub open spec fn render_tree_lines(ns: Seq<TreeNodeView>) -> Seq<u8>
    decreases ns.len(),
{
    if ns.len() == 0 {
        Seq::empty()
    } else {
        render_node_line(ns[0]) + seq![10u8] + render_tree_lines(ns.skip(1))
    }
}

pub proof fn lemma_render_tree_lines_push(ns: Seq<TreeNodeView>, n: TreeNodeView)
    ensures
        render_tree_lines(ns.push(n)) == render_tree_lines(ns) + render_node_line(n) + seq![10u8],
    decreases ns.len(),
{
    let t = ns.push(n);
    if ns.len() == 0 {
        assert(t[0] == n);
        assert(t.skip(1) =~= Seq::<TreeNodeView>::empty());
        assert(render_tree_lines(t.skip(1)) == Seq::<u8>::empty());
        assert(render_tree_lines(t) =~= render_tree_lines(ns) + render_node_line(n) + seq![10u8]);
    } else {
        assert(t[0] == ns[0]);
        assert(t.skip(1) =~= ns.skip(1).push(n));
        lemma_render_tree_lines_push(ns.skip(1), n);
        assert(render_tree_lines(t) =~= render_tree_lines(ns) + render_node_line(n) + seq![10u8]);
    }
}

/// The human-readable rendering of an object: a blob's text verbatim, a
/// tree as its listing lines, a commit as its header block and message.
pub open spec fn render_object_spec(o: ObjectView) -> Seq<u8> {
    match o {
        ObjectView::Blob(c) => c,
        ObjectView::Tree(ns) => render_tree_lines(ns),
        ObjectView::Commit(c) => encode_commit_body(c),
    }
}

impl TreeNode {
    /// Renders this entry as one tree-listing line.
    pub fn render_line(&self) -> (r: Vec<u8>)
        ensures
            r@ == render_node_line(self@),
    {
        let digits = u64_to_dec(self.mode as u64);
        let mut out: Vec<u8> = Vec::new();
        let mut fill: usize = 0;
        let pad: usize = if digits.len() >= 6 {
            0
        } else {
            6 - digits.len()
        };
        while fill < pad
            invariant
                0 <= fill <= pad,
                pad == (if digits@.len() >= 6 {
                    0int
                } else {
                    6 - digits@.len()
                }),
                out@ =~= Seq::new(fill as nat, |i: int| 48u8),
            decreases pad - fill,
        {
            out.push(48);
            proof {
                assert(out@ =~= Seq::new((fill + 1) as nat, |i: int| 48u8));
            }
            fill = fill + 1;
        }
        push_all(&mut out, digits.as_slice());
        proof {
            assert(out@ =~= pad6(dec_of(self.mode as nat)));
        }
        out.push(32);
        let word = if self.mode == 40000 {
            tree_word_vec()
        } else if self.mode == 160000 {
            commit_word_vec()
        } else {
            blob_word_vec()
        };
        push_all(&mut out, word.as_slice());
        out.push(32);
        push_all(&mut out, self.hash.as_slice());
        out.push(9);
        push_all(&mut out, self.name.as_slice());
        proof {
            assert(out@ =~= render_node_line(self@));
        }
        out
    }
}

impl ObjectHashTypes {
    /// Renders this object for display.
    pub fn render(&self) -> (r: Vec<u8>)
        ensures
            r@ == render_object_spec(self@),
    {
        match self {
            ObjectHashTypes::Blob(c) => {
                let mut out: Vec<u8> = Vec::new();
                push_all(&mut out, c.as_slice());
                proof {
                    assert(out@ =~= c@);
                }
                out
            },
            ObjectHashTypes::Tree(ns) => {
                let mut out: Vec<u8> = Vec::new();
                let mut i: usize = 0;
                proof {
                    assert(ns.deep_view().subrange(0, 0) =~= Seq::<TreeNodeView>::empty());
                }
                while i < ns.len()
                    invariant
                        0 <= i <= ns@.len(),
                        ns@.len() == ns.deep_view().len(),
                        out@ == render_tree_lines(ns.deep_view().subrange(0, i as int)),
                    decreases ns@.len() - i,
                {
                    let ghost dv = ns.deep_view();
                    proof {
                        assert(dv[i as int] == ns@[i as int]@);
                    }
                    let line = ns[i].render_line();
                    push_all(&mut out, line.as_slice());
                    out.push(10);
                    proof {
                        assert(dv.subrange(0, i + 1) =~= dv.subrange(0, i as int).push(
                            dv[i as int],
                        ));
                        lemma_render_tree_lines_push(dv.subrange(0, i as int), dv[i as int]);
                        assert(out@ =~= render_tree_lines(dv.subrange(0, i + 1)));
                    }
                    i = i + 1;
                }
                proof {
                    assert(ns.deep_view().subrange(0, ns.deep_view().len() as int)
                        =~= ns.deep_view());
                }
                out
            },
            ObjectHashTypes::Commit(c) => encode_commit(c),
        }
    }
}


/// Round trip for tree bodies: decoding the encoding of any well-formed
/// entry sequence yields the same entries, names, modes and hashes alike.
pub proof fn lemma_tree_round_trip(ns: Seq<TreeNodeView>)
    requires
        wf_tree(ns),
    ensures
        parse_tree_spec(encode_tree_body(ns)) == Ok::<Seq<TreeNodeView>, StoreError>(ns),
    decreases ns.len(),
{
    if ns.len() == 0 {
        assert(encode_tree_body(ns) == Seq::<u8>::empty());
        assert(ns =~= Seq::<TreeNodeView>::empty());
    } else {
        let n = ns[0];
        assert(wf_node(n));
        let d = dec_of(n.mode as nat);
        let raw = raw_of_hex(n.hash);
        crate::dec::lemma_dec_of_digits(n.mode as nat);
        crate::dec::lemma_dec_val_of(n.mode as nat);
        crate::hex::lemma_hex_of_raw_of(n.hash);
        let e0 = encode_node_spec(n);
        let rest = encode_tree_body(ns.skip(1));
        let b = encode_tree_body(ns);
        assert(b == e0 + rest);
        assert(raw.len() == 20);
        let dlen = d.len() as int;
        let nlen = n.name.len() as int;
        let z = dlen + 1 + nlen;
        assert(e0.len() == z + 1 + 20);
        assert(b[z] == e0[z]);
        assert(e0[z] == 0);
        assert forall|j: int| 0 <= j < z implies b[j] != 0 by {
            assert(b[j] == e0[j]);
            if j < dlen {
                assert(e0[j] == d[j]);
                assert(is_dec_digit(d[j]));
            } else if j == dlen {
                assert(e0[j] == 32);
            } else {
                assert(e0[j] == n.name[j - dlen - 1]);
                if n.name[j - dlen - 1] == 0 {
                    assert(has_byte(n.name, 0));
                }
            }
        }
        lemma_first_byte_pos_is(b, 0, z);
        let meta = b.subrange(0, z);
        assert(meta =~= d + seq![32u8] + n.name);
        assert(meta[dlen] == 32);
        assert forall|j: int| 0 <= j < dlen implies meta[j] != 32 by {
            assert(meta[j] == d[j]);
            assert(is_dec_digit(d[j]));
        }
        lemma_first_byte_pos_is(meta, 32, dlen);
        let mode_s = meta.subrange(0, dlen);
        assert(mode_s =~= d);
        assert(mode_s.len() > 0 && all_dec_digits(mode_s) && dec_val(mode_s) <= u32::MAX);
        let name = meta.subrange(dlen + 1, z);
        assert(name =~= n.name);
        assert(b.len() - (z + 1) >= 20);
        assert(b.subrange(z + 1, z + 21) =~= raw);
        assert(b.skip(z + 21) =~= rest);
        assert(wf_tree(ns.skip(1))) by {
            assert(forall|i: int| 0 <= i < ns.skip(1).len() ==> #[trigger] ns.skip(1)[i] == ns[
                i + 1
            ]);
        }
        lemma_tree_round_trip(ns.skip(1));
        assert(hex_of(raw) == n.hash);
        let node = TreeNodeView {
            name: name,
            hash: hex_of(b.subrange(z + 1, z + 21)),
            mode: dec_val(mode_s) as u32,
        };
        assert(node == n);
        assert(parse_tree_spec(b) == Ok::<Seq<TreeNodeView>, StoreError>(seq![n] + ns.skip(1)));
        assert(seq![n] + ns.skip(1) =~= ns);
    }
}


/// Every all-ASCII byte string is valid UTF-8.
proof fn lemma_ascii_valid_utf8(s: Seq<u8>)
    requires
        forall|i: int| 0 <= i < s.len() ==> (#[trigger] s[i]) <= 127,
    ensures
        valid_utf8(s),
{
    assert(s.subrange(0, 0) =~= Seq::<u8>::empty());
    assert(valid_utf8(Seq::<u8>::empty()));
    assert(vstd::utf8::partial_valid_utf8(s, 0));
    assert forall|i: int| 0 <= 0 <= i < s.len() <= s.len() implies
        #[trigger] vstd::utf8::is_leading_byte_width_1(s[i]) by {
        assert(s[i] <= 127);
    }
    vstd::utf8::partial_valid_utf8_extend_ascii_block(s, 0, s.len() as int);
    assert(s.subrange(0, s.len() as int) =~= s);
}

/// Reading back a written UTC offset gives the same offset, and its bytes
/// are a sign and digits.
pub proof fn lemma_tz_round_trip(tz: TzOffset)
    requires
        wf_tz(tz),
    ensures
        parse_tz_spec(tz_bytes(tz)) == Some(tz),
        tz_bytes(tz).len() == 5,
        forall|i: int| 0 <= i < 5 ==> 43 <= (#[trigger] tz_bytes(tz)[i]) <= 57,
{
    let s = tz_bytes(tz);
    lemma_pad2(tz.hours);
    lemma_pad2(tz.minutes);
    assert(s.len() == 5);
    assert(s[0] == (if tz.negative { 45u8 } else { 43u8 }));
    assert(s[1] == pad2(tz.hours)[0] && s[2] == pad2(tz.hours)[1]);
    assert(s[3] == pad2(tz.minutes)[0] && s[4] == pad2(tz.minutes)[1]);
    assert((s[1] - 48) * 10 + (s[2] - 48) == tz.hours);
    assert((s[3] - 48) * 10 + (s[4] - 48) == tz.minutes);
}

/// A two-digit field holds exactly its value's digits.
proof fn lemma_pad2(v: u8)
    requires
        v <= 59,
    ensures
        pad2(v).len() == 2,
        is_dec_digit(pad2(v)[0]),
        is_dec_digit(pad2(v)[1]),
        (pad2(v)[0] - 48) * 10 + (pad2(v)[1] - 48) == v,
{
    if v >= 10 {
        assert(dec_of(v as nat) == dec_of(v as nat / 10).push((48 + v as nat % 10) as u8));
        assert(v as nat / 10 < 10);
        assert(dec_of(v as nat / 10) == seq![(48 + v as nat / 10) as u8]);
        assert(pad2(v)[0] == (48 + v as nat / 10) as u8);
        assert(pad2(v)[1] == (48 + v as nat % 10) as u8);
        assert((v as nat / 10) * 10 + v as nat % 10 == v as nat);
    }
}

/// The digits of a signed decimal rendering: a sign and decimal digits,
/// nothing else.
proof fn lemma_dec_of_int_bytes(n: int)
    ensures
        dec_of_int(n).len() >= 1,
        forall|i: int| 0 <= i < dec_of_int(n).len() ==> 45 <= (#[trigger] dec_of_int(n)[i]) <= 57,
{
    let s = dec_of_int(n);
    if n < 0 {
        lemma_dec_of_digits((-n) as nat);
        assert forall|i: int| 0 <= i < s.len() implies 45 <= (#[trigger] s[i]) <= 57 by {
            if i > 0 {
                assert(s[i] == dec_of((-n) as nat)[i - 1]);
                assert(is_dec_digit(dec_of((-n) as nat)[i - 1]));
            }
        }
    } else {
        lemma_dec_of_digits(n as nat);
        assert forall|i: int| 0 <= i < s.len() implies 45 <= (#[trigger] s[i]) <= 57 by {
            assert(is_dec_digit(s[i]));
        }
    }
}

/// Round trip for the positional person-line heuristic: the value written
/// after an `author` or `committer` word — name, address, seconds, offset,
/// space-separated — reads back field for field, for any name at all and
/// any address without spaces.
pub proof fn lemma_person_round_trip(name: Seq<u8>, email: Seq<u8>, secs: i64, tz: TzOffset)
    requires
        !has_byte(email, 32),
        wf_tz(tz),
    ensures
        parse_person_spec(
            name + seq![32u8] + email + seq![32u8] + dec_of_int(secs as int) + seq![32u8]
                + tz_bytes(tz),
        ) == Some((name, email, secs, tz)),
        parse_committer_spec(
            name + seq![32u8] + email + seq![32u8] + dec_of_int(secs as int) + seq![32u8]
                + tz_bytes(tz),
        ) == Some((name, email)),
{
    let ts = dec_of_int(secs as int);
    let tzb = tz_bytes(tz);
    let value = name + seq![32u8] + email + seq![32u8] + ts + seq![32u8] + tzb;
    lemma_dec_of_int_bytes(secs as int);
    lemma_tz_round_trip(tz);
    crate::dec::lemma_signed_dec_round_trip(secs as int);
    assert(!has_byte(ts, 32)) by {
        if has_byte(ts, 32) {
            let i = choose|i: int| 0 <= i < ts.len() && ts[i] == 32;
            assert(45 <= ts[i] <= 57);
        }
    }
    assert(!has_byte(tzb, 32)) by {
        if has_byte(tzb, 32) {
            let i = choose|i: int| 0 <= i < tzb.len() && tzb[i] == 32;
            assert(43 <= tzb[i] <= 57);
        }
    }
    let tail2 = ts + seq![32u8] + tzb;
    let tail1 = email + seq![32u8] + tail2;
    assert(value =~= name + seq![32u8] + tail1);
    lemma_split_bytes_concat(name, tail1, 32);
    lemma_split_bytes_concat(email, tail2, 32);
    lemma_split_bytes_concat(ts, tzb, 32);
    assert(split_bytes(tail2, 32) == split_bytes(ts, 32) + split_bytes(tzb, 32));
    assert(split_bytes(ts, 32) == seq![ts]);
    assert(split_bytes(tzb, 32) == seq![tzb]);
    assert(split_bytes(email, 32) == seq![email]);
    let nsplit = split_bytes(name, 32);
    lemma_split_bytes_len(name, 32);
    let toks = split_bytes(value, 32);
    assert(toks =~~= nsplit + seq![email, ts, tzb]);
    let n = toks.len() as int;
    assert(n == nsplit.len() + 3);
    assert(toks[n - 3] == email);
    assert(toks[n - 2] == ts);
    assert(toks[n - 1] == tzb);
    assert(toks.subrange(0, n - 3) =~= nsplit);
    lemma_join_split(name, 32);
    assert(join_with(toks.subrange(0, n - 3), 32) == name);
    assert(i64::MIN <= signed_dec_val(ts) <= i64::MAX);
}


/// A message in the one shape the line-based codec preserves: no leading
/// or trailing newline and no two newlines in a row, or empty.
pub open spec fn msg_canonical(m: Seq<u8>) -> bool {
    m.len() == 0 || (m[0] != 10 && m[m.len() - 1] != 10 && forall|i: int|
        0 <= i < m.len() - 1 ==> !((#[trigger] m[i]) == 10 && m[i + 1] == 10))
}

/// A commit the codec can serialize and read back field for field: valid
/// identifiers, text fields without newlines, addresses without spaces, a
/// canonical message, and an offset within the day.
pub open spec fn wf_commit(c: CommitView) -> bool {
    &&& c.tree_sha.len() == 40 && all_hex_digits(c.tree_sha)
    &&& match c.parent_sha {
        Some(p) => p.len() == 40 && all_hex_digits(p),
        None => true,
    }
    &&& valid_utf8(c.author_name) && !has_byte(c.author_name, 10)
    &&& valid_utf8(c.author_email) && !has_byte(c.author_email, 10) && !has_byte(
        c.author_email,
        32,
    )
    &&& valid_utf8(c.committer) && !has_byte(c.committer, 10)
    &&& valid_utf8(c.committer_email) && !has_byte(c.committer_email, 10) && !has_byte(
        c.committer_email,
        32,
    )
    &&& valid_utf8(c.message) && msg_canonical(c.message)
    &&& wf_tz(c.timestamp_tz)
}

/// No newline hides among a sign and digits.
proof fn lemma_range_no_byte(s: Seq<u8>, lo: u8, hi: u8, x: u8)
    requires
        forall|i: int| 0 <= i < s.len() ==> lo <= (#[trigger] s[i]) <= hi,
        x < lo || x > hi,
    ensures
        !has_byte(s, x),
{
    if has_byte(s, x) {
        let i = choose|i: int| 0 <= i < s.len() && s[i] == x;
        assert(lo <= s[i] <= hi);
    }
}


/// The encoded body of a well-formed commit is UTF-8 text.
proof fn lemma_commit_body_utf8(c: CommitView)
    requires
        wf_commit(c),
    ensures
        valid_utf8(encode_commit_body(c)),
{
    broadcast use vstd::utf8::valid_utf8_concat;

    let ts = dec_of_int(c.timestamp_secs as int);
    let tzb = tz_bytes(c.timestamp_tz);
    let nl = seq![10u8];
    let sp = seq![32u8];
    lemma_dec_of_int_bytes(c.timestamp_secs as int);
    lemma_tz_round_trip(c.timestamp_tz);
    lemma_ascii_valid_utf8(nl);
    lemma_ascii_valid_utf8(sp);
    lemma_ascii_valid_utf8(tree_word());
    lemma_ascii_valid_utf8(parent_word());
    lemma_ascii_valid_utf8(author_word());
    lemma_ascii_valid_utf8(committer_word());
    assert(forall|i: int| 0 <= i < c.tree_sha.len() ==> (#[trigger] c.tree_sha[i]) <= 127);
    lemma_ascii_valid_utf8(c.tree_sha);
    lemma_ascii_valid_utf8(ts);
    lemma_ascii_valid_utf8(tzb);
    let p1 = person_line(
        author_word(),
        c.author_name,
        c.author_email,
        c.timestamp_secs,
        c.timestamp_tz,
    );
    assert(valid_utf8(author_word() + sp));
    assert(valid_utf8(author_word() + sp + c.author_name));
    assert(valid_utf8(author_word() + sp + c.author_name + sp));
    assert(valid_utf8(author_word() + sp + c.author_name + sp + c.author_email));
    assert(valid_utf8(author_word() + sp + c.author_name + sp + c.author_email + sp));
    assert(valid_utf8(author_word() + sp + c.author_name + sp + c.author_email + sp + ts));
    assert(valid_utf8(author_word() + sp + c.author_name + sp + c.author_email + sp + ts + sp));
    assert(valid_utf8(
        author_word() + sp + c.author_name + sp + c.author_email + sp + ts + sp + tzb,
    ));
    assert(valid_utf8(p1));
    let p2 = person_line(
        committer_word(),
        c.committer,
        c.committer_email,
        c.timestamp_secs,
        c.timestamp_tz,
    );
    assert(valid_utf8(committer_word() + sp));
    assert(valid_utf8(committer_word() + sp + c.committer));
    assert(valid_utf8(committer_word() + sp + c.committer + sp));
    assert(valid_utf8(committer_word() + sp + c.committer + sp + c.committer_email));
    assert(valid_utf8(committer_word() + sp + c.committer + sp + c.committer_email + sp));
    assert(valid_utf8(committer_word() + sp + c.committer + sp + c.committer_email + sp + ts));
    assert(valid_utf8(
        committer_word() + sp + c.committer + sp + c.committer_email + sp + ts + sp,
    ));
    assert(valid_utf8(
        committer_word() + sp + c.committer + sp + c.committer_email + sp + ts + sp + tzb,
    ));
    assert(valid_utf8(p2));
    let par = match c.parent_sha {
        Some(p) => parent_word() + sp + p + nl,
        None => Seq::<u8>::empty(),
    };
    if c.parent_sha is Some {
        let p = c.parent_sha->0;
        assert(forall|i: int| 0 <= i < p.len() ==> (#[trigger] p[i]) <= 127);
        lemma_ascii_valid_utf8(p);
        assert(valid_utf8(parent_word() + sp));
        assert(valid_utf8(parent_word() + sp + p));
        assert(valid_utf8(par));
    } else {
        lemma_ascii_valid_utf8(par);
    }
    assert(valid_utf8(tree_word() + sp));
    assert(valid_utf8(tree_word() + sp + c.tree_sha));
    assert(valid_utf8(tree_word() + sp + c.tree_sha + nl));
    assert(valid_utf8(tree_word() + sp + c.tree_sha + nl + par));
    assert(valid_utf8(tree_word() + sp + c.tree_sha + nl + par + p1));
    assert(valid_utf8(tree_word() + sp + c.tree_sha + nl + par + p1 + p2));
    assert(valid_utf8(tree_word() + sp + c.tree_sha + nl + par + p1 + p2 + nl));
    assert(valid_utf8(tree_word() + sp + c.tree_sha + nl + par + p1 + p2 + nl + c.message));
}

/// The `tree` header line of a commit, without its newline.
pub open spec fn tree_line(c: CommitView) -> Seq<u8> {
    tree_word() + seq![32u8] + c.tree_sha
}

/// The value written after the `author` word.
pub open spec fn author_value(c: CommitView) -> Seq<u8> {
    c.author_name + seq![32u8] + c.author_email + seq![32u8] + dec_of_int(c.timestamp_secs as int)
        + seq![32u8] + tz_bytes(c.timestamp_tz)
}

/// The value written after the `committer` word.
pub open spec fn committer_value(c: CommitView) -> Seq<u8> {
    c.committer + seq![32u8] + c.committer_email + seq![32u8] + dec_of_int(c.timestamp_secs as int)
        + seq![32u8] + tz_bytes(c.timestamp_tz)
}

/// The header lines of an encoded commit, in order, without newlines.
pub open spec fn commit_header_lines(c: CommitView) -> Seq<Seq<u8>> {
    match c.parent_sha {
        Some(p) => seq![
            tree_line(c),
            parent_word() + seq![32u8] + p,
            author_word() + seq![32u8] + author_value(c),
            committer_word() + seq![32u8] + committer_value(c),
        ],
        None => seq![
            tree_line(c),
            author_word() + seq![32u8] + author_value(c),
            committer_word() + seq![32u8] + committer_value(c),
        ],
    }
}

/// No header line of a well-formed commit holds a newline.
proof fn lemma_commit_lines_no_nl(c: CommitView)
    requires
        wf_commit(c),
    ensures
        forall|k: int| 0 <= k < commit_header_lines(c).len() ==> !has_byte(
            #[trigger] commit_header_lines(c)[k],
            10,
        ),
{
    let ts = dec_of_int(c.timestamp_secs as int);
    let tzb = tz_bytes(c.timestamp_tz);
    lemma_dec_of_int_bytes(c.timestamp_secs as int);
    lemma_tz_round_trip(c.timestamp_tz);
    lemma_range_no_byte(ts, 45, 57, 10);
    lemma_range_no_byte(tzb, 43, 57, 10);
    let la = tree_line(c);
    assert(!has_byte(la, 10)) by {
        if has_byte(la, 10) {
            let i = choose|i: int| 0 <= i < la.len() && la[i] == 10;
            if i >= 5 {
                assert(is_hex_digit(c.tree_sha[i - 5]));
            }
        }
    }
    let av = author_value(c);
    assert(!has_byte(av, 10)) by {
        if has_byte(av, 10) {
            let i = choose|i: int| 0 <= i < av.len() && av[i] == 10;
            let n0 = c.author_name.len() as int;
            let n1 = n0 + 1 + c.author_email.len() as int;
            let n2 = n1 + 1 + ts.len() as int;
            if i < n0 {
                assert(av[i] == c.author_name[i]);
                assert(has_byte(c.author_name, 10));
            } else if i == n0 {
            } else if i < n1 {
                assert(av[i] == c.author_email[i - n0 - 1]);
                assert(has_byte(c.author_email, 10));
            } else if i == n1 {
            } else if i < n2 {
                assert(av[i] == ts[i - n1 - 1]);
                assert(has_byte(ts, 10));
            } else if i == n2 {
            } else {
                assert(av[i] == tzb[i - n2 - 1]);
                assert(has_byte(tzb, 10));
            }
        }
    }
    let cv = committer_value(c);
    assert(!has_byte(cv, 10)) by {
        if has_byte(cv, 10) {
            let i = choose|i: int| 0 <= i < cv.len() && cv[i] == 10;
            let n0 = c.committer.len() as int;
            let n1 = n0 + 1 + c.committer_email.len() as int;
            let n2 = n1 + 1 + ts.len() as int;
            if i < n0 {
                assert(cv[i] == c.committer[i]);
                assert(has_byte(c.committer, 10));
            } else if i == n0 {
            } else if i < n1 {
                assert(cv[i] == c.committer_email[i - n0 - 1]);
                assert(has_byte(c.committer_email, 10));
            } else if i == n1 {
            } else if i < n2 {
                assert(cv[i] == ts[i - n1 - 1]);
                assert(has_byte(ts, 10));
            } else if i == n2 {
            } else {
                assert(cv[i] == tzb[i - n2 - 1]);
                assert(has_byte(tzb, 10));
            }
        }
    }
    let lc = author_word() + seq![32u8] + av;
    assert(!has_byte(lc, 10)) by {
        if has_byte(lc, 10) {
            let i = choose|i: int| 0 <= i < lc.len() && lc[i] == 10;
            if i >= 7 {
                assert(lc[i] == av[i - 7]);
            }
        }
    }
    let ld = committer_word() + seq![32u8] + cv;
    assert(!has_byte(ld, 10)) by {
        if has_byte(ld, 10) {
            let i = choose|i: int| 0 <= i < ld.len() && ld[i] == 10;
            if i >= 10 {
                assert(ld[i] == cv[i - 10]);
            }
        }
    }
    if c.parent_sha is Some {
        let p = c.parent_sha->0;
        let lb = parent_word() + seq![32u8] + p;
        assert(!has_byte(lb, 10)) by {
            if has_byte(lb, 10) {
                let i = choose|i: int| 0 <= i < lb.len() && lb[i] == 10;
                if i >= 7 {
                    assert(is_hex_digit(p[i - 7]));
                }
            }
        }
    }
}

/// The encoded commit body regrouped line by line.
#[verifier::rlimit(100)]
#[verifier::spinoff_prover]
proof fn lemma_commit_body_shape(c: CommitView)
    ensures
        encode_commit_body(c) == tree_line(c) + seq![10u8] + (match c.parent_sha {
            Some(p) => (parent_word() + seq![32u8] + p) + seq![10u8] + ((author_word() + seq![32u8]
                + author_value(c)) + seq![10u8] + ((committer_word() + seq![32u8]
                + committer_value(c)) + seq![10u8] + (Seq::<u8>::empty() + seq![10u8]
                + c.message))),
            None => (author_word() + seq![32u8] + author_value(c)) + seq![10u8] + ((
            committer_word() + seq![32u8] + committer_value(c)) + seq![10u8] + (Seq::<u8>::empty()
                + seq![10u8] + c.message)),
        }),
{
    let nl = seq![10u8];
    let sp = seq![32u8];
    let p1 = person_line(
        author_word(),
        c.author_name,
        c.author_email,
        c.timestamp_secs,
        c.timestamp_tz,
    );
    let p2 = person_line(
        committer_word(),
        c.committer,
        c.committer_email,
        c.timestamp_secs,
        c.timestamp_tz,
    );
    assert(p1 =~= (author_word() + sp + author_value(c)) + nl);
    assert(p2 =~= (committer_word() + sp + committer_value(c)) + nl);
    if c.parent_sha is Some {
        let p = c.parent_sha->0;
        assert(encode_commit_body(c) =~= tree_line(c) + nl + ((parent_word() + sp + p) + nl + ((
        author_word() + sp + author_value(c)) + nl + ((committer_word() + sp + committer_value(c))
            + nl + (Seq::<u8>::empty() + nl + c.message)))));
    } else {
        assert(encode_commit_body(c) =~= tree_line(c) + nl + ((author_word() + sp
            + author_value(c)) + nl + ((committer_word() + sp + committer_value(c)) + nl + (
        Seq::<u8>::empty() + nl + c.message))));
    }
}

/// An encoded commit splits into its header lines, the separator, and the
/// message's lines.
#[verifier::rlimit(100)]
#[verifier::spinoff_prover]
proof fn lemma_commit_split(c: CommitView)
    requires
        wf_commit(c),
    ensures
        split_bytes(encode_commit_body(c), 10) == commit_header_lines(c) + seq![Seq::<u8>::empty()]
            + split_bytes(c.message, 10),
{
    lemma_commit_lines_no_nl(c);
    lemma_commit_body_shape(c);
    let body = encode_commit_body(c);
    let nl = seq![10u8];
    let sp = seq![32u8];
    let msg = c.message;
    let hl = commit_header_lines(c);
    let la = tree_line(c);
    let lc = author_word() + sp + author_value(c);
    let ld = committer_word() + sp + committer_value(c);
    let empty = Seq::<u8>::empty();
    let msg_lines = split_bytes(msg, 10);
    assert(!has_byte(empty, 10));
    assert(split_bytes(empty, 10) == seq![empty]);
    assert(!has_byte(la, 10)) by {
        assert(hl[0] == la);
    }
    assert(!has_byte(lc, 10)) by {
        assert(hl[hl.len() - 2] == lc);
    }
    assert(!has_byte(ld, 10)) by {
        assert(hl[hl.len() - 1] == ld);
    }
    let tail = empty + nl + msg;
    lemma_split_bytes_concat(empty, msg, 10);
    assert(split_bytes(tail, 10) == seq![empty] + msg_lines);
    let after_d = ld + nl + tail;
    lemma_split_bytes_concat(ld, tail, 10);
    assert(split_bytes(after_d, 10) == seq![ld] + (seq![empty] + msg_lines));
    let after_c = lc + nl + after_d;
    lemma_split_bytes_concat(lc, after_d, 10);
    assert(split_bytes(after_c, 10) == seq![lc] + (seq![ld] + (seq![empty] + msg_lines)));
    if c.parent_sha is Some {
        let p = c.parent_sha->0;
        let lb = parent_word() + sp + p;
        assert(!has_byte(lb, 10)) by {
            assert(hl[1] == lb);
        }
        let after_b = lb + nl + after_c;
        lemma_split_bytes_concat(lb, after_c, 10);
        assert(split_bytes(after_b, 10) == seq![lb] + (seq![lc] + (seq![ld] + (seq![empty]
            + msg_lines))));
        assert(body == la + nl + after_b);
        lemma_split_bytes_concat(la, after_b, 10);
        assert(split_bytes(body, 10) == seq![la] + (seq![lb] + (seq![lc] + (seq![ld] + (seq![empty]
            + msg_lines)))));
        assert(split_bytes(body, 10) =~= hl + seq![empty] + msg_lines);
    } else {
        assert(body == la + nl + after_c);
        lemma_split_bytes_concat(la, after_c, 10);
        assert(split_bytes(body, 10) == seq![la] + (seq![lc] + (seq![ld] + (seq![empty]
            + msg_lines))));
        assert(split_bytes(body, 10) =~= hl + seq![empty] + msg_lines);
    }
}

/// Each field word finds its own line among a commit's header lines.
proof fn lemma_commit_fields(c: CommitView)
    requires
        wf_commit(c),
    ensures
        find_field_spec(commit_header_lines(c), tree_word()) == Some(c.tree_sha),
        find_field_spec(commit_header_lines(c), parent_word()) == c.parent_sha,
        find_field_spec(commit_header_lines(c), author_word()) == Some(author_value(c)),
        find_field_spec(commit_header_lines(c), committer_word()) == Some(committer_value(c)),
{
    let sp = seq![32u8];
    let header = commit_header_lines(c);
    let la = tree_line(c);
    let lc = author_word() + sp + author_value(c);
    let ld = committer_word() + sp + committer_value(c);
    assert(field_match(la, tree_word())) by {
        assert(la.subrange(0, 4) =~= tree_word());
        assert(la[4] == 32);
    }
    lemma_find_field_at(header, tree_word(), 0);
    assert(header[0].skip(5) =~= c.tree_sha);
    assert(field_match(lc, author_word())) by {
        assert(lc.subrange(0, 6) =~= author_word());
        assert(lc[6] == 32);
    }
    assert(field_match(ld, committer_word())) by {
        assert(ld.subrange(0, 9) =~= committer_word());
        assert(ld[9] == 32);
    }
    assert(!field_match(la, author_word())) by {
        if field_match(la, author_word()) {
            assert(la.subrange(0, 6)[0] == 97);
        }
    }
    assert(!field_match(la, committer_word())) by {
        if field_match(la, committer_word()) {
            assert(la.subrange(0, 9)[0] == 99);
        }
    }
    assert(!field_match(la, parent_word())) by {
        if field_match(la, parent_word()) {
            assert(la.subrange(0, 6)[0] == 112);
        }
    }
    assert(!field_match(lc, committer_word())) by {
        if field_match(lc, committer_word()) {
            assert(lc.subrange(0, 9)[0] == 99);
        }
    }
    assert(!field_match(lc, parent_word())) by {
        if field_match(lc, parent_word()) {
            assert(lc.subrange(0, 6)[0] == 112);
        }
    }
    assert(!field_match(ld, parent_word())) by {
        if field_match(ld, parent_word()) {
            assert(ld.subrange(0, 6)[0] == 112);
        }
    }
    if c.parent_sha is Some {
        let p = c.parent_sha->0;
        let lb = parent_word() + sp + p;
        assert(header =~~= seq![la, lb, lc, ld]);
        assert(!field_match(lb, author_word())) by {
            if field_match(lb, author_word()) {
                assert(lb.subrange(0, 6)[0] == 97);
            }
        }
        assert(!field_match(lb, committer_word())) by {
            if field_match(lb, committer_word()) {
                assert(lb.subrange(0, 9)[0] == 99);
            }
        }
        assert(field_match(lb, parent_word())) by {
            assert(lb.subrange(0, 6) =~= parent_word());
            assert(lb[6] == 32);
        }
        lemma_find_field_at(header, parent_word(), 1);
        assert(header[1].skip(7) =~= p);
        lemma_find_field_at(header, author_word(), 2);
        assert(header[2].skip(7) =~= author_value(c));
        lemma_find_field_at(header, committer_word(), 3);
        assert(header[3].skip(10) =~= committer_value(c));
    } else {
        assert(header =~~= seq![la, lc, ld]);
        lemma_find_field_none(header, parent_word());
        lemma_find_field_at(header, author_word(), 1);
        assert(header[1].skip(7) =~= author_value(c));
        lemma_find_field_at(header, committer_word(), 2);
        assert(header[2].skip(10) =~= committer_value(c));
    }
}

/// Round trip for commits: decoding the encoding of a well-formed commit
/// yields the same commit, the positional author heuristic included.
pub proof fn lemma_commit_round_trip(c: CommitView)
    requires
        wf_commit(c),
    ensures
        parse_commit_spec(encode_commit_body(c)) == Ok::<CommitView, StoreError>(c),
{
    lemma_commit_body_utf8(c);
    lemma_commit_split(c);
    lemma_commit_fields(c);
    let body = encode_commit_body(c);
    let msg = c.message;
    let hl = commit_header_lines(c);
    let hdr = hl.len() as int;
    let lines = split_bytes(body, 10);
    let msg_lines = split_bytes(msg, 10);
    lemma_split_bytes_len(msg, 10);
    assert(lines == hl + seq![Seq::<u8>::empty()] + msg_lines);
    assert(lines[hdr].len() == 0);
    assert forall|j: int| 0 <= j < hdr implies (#[trigger] lines[j]).len() != 0 by {
        assert(lines[j] == hl[j]);
        if c.parent_sha is Some {
            assert(hl[0].len() > 0 && hl[1].len() > 0 && hl[2].len() > 0 && hl[3].len() > 0);
        } else {
            assert(hl[0].len() > 0 && hl[1].len() > 0 && hl[2].len() > 0);
        }
    }
    lemma_first_empty_pos_is(lines, hdr);
    let header = lines.subrange(0, hdr);
    assert(header =~~= hl);
    assert(lines.skip(hdr + 1) =~= msg_lines);
    if msg.len() == 0 {
        assert(!has_byte(msg, 10));
        assert(msg_lines == seq![msg]);
        assert(join_nonempty(msg_lines) == msg) by {
            assert(msg_lines[0].len() == 0);
            assert(msg_lines.skip(1) =~= Seq::<Seq<u8>>::empty());
            assert(join_nonempty(Seq::<Seq<u8>>::empty()) == Seq::<u8>::empty());
        }
    } else {
        crate::scan::lemma_split_bytes_all_nonempty(msg, 10);
        crate::scan::lemma_join_nonempty_all_nonempty(msg_lines);
        lemma_join_split(msg, 10);
        assert(join_nonempty(msg_lines) == msg);
    }
    lemma_person_round_trip(c.author_name, c.author_email, c.timestamp_secs, c.timestamp_tz);
    lemma_person_round_trip(c.committer, c.committer_email, c.timestamp_secs, c.timestamp_tz);
    assert(parse_person_spec(author_value(c)) == Some(
        (c.author_name, c.author_email, c.timestamp_secs, c.timestamp_tz),
    ));
    assert(parse_committer_spec(committer_value(c)) == Some((c.committer, c.committer_email)));
    assert(parse_commit_spec(body) == Ok::<CommitView, StoreError>(c));
}


/// The storage header parses back to its kind word and its body length:
/// the first NUL ends the header, the first space ends the word, and the
/// digits give the length.
proof fn lemma_header_parse(w: Seq<u8>, b: Seq<u8>)
    requires
        w.len() > 0,
        forall|i: int| 0 <= i < w.len() ==> (#[trigger] w[i]) != 0 && w[i] != 32,
        b.len() <= u64::MAX,
    ensures
        has_byte(header_spec(w, b.len()) + b, 0),
        first_byte_pos(header_spec(w, b.len()) + b, 0) == w.len() + 1 + dec_of(b.len()).len(),
        split_two_spec(
            (header_spec(w, b.len()) + b).subrange(
                0,
                w.len() as int + 1 + dec_of(b.len()).len() as int,
            ),
        ) == Some((w, dec_of(b.len()))),
        (header_spec(w, b.len()) + b).subrange(
            w.len() as int + 2 + dec_of(b.len()).len() as int,
            (header_spec(w, b.len()) + b).len() as int,
        ) == b,
        (header_spec(w, b.len()) + b).len() == w.len() + 2 + dec_of(b.len()).len() + b.len(),
{
    let d = dec_of(b.len());
    let enc = header_spec(w, b.len()) + b;
    lemma_dec_of_digits(b.len());
    crate::dec::lemma_dec_val_of(b.len());
    let wl = w.len() as int;
    let hpos = wl + 1 + d.len() as int;
    assert(enc.len() == hpos + 1 + b.len());
    assert(enc[hpos] == 0);
    assert forall|j: int| 0 <= j < hpos implies enc[j] != 0 by {
        if j < wl {
            assert(enc[j] == w[j]);
        } else if j == wl {
            assert(enc[j] == 32);
        } else {
            assert(enc[j] == d[j - wl - 1]);
            assert(is_dec_digit(d[j - wl - 1]));
        }
    }
    lemma_first_byte_pos_is(enc, 0, hpos);
    let meta = enc.subrange(0, hpos);
    assert(meta =~= w + seq![32u8] + d);
    assert(meta[wl] == 32);
    assert forall|j: int| 0 <= j < wl implies meta[j] != 32 by {
        assert(meta[j] == w[j]);
    }
    lemma_first_byte_pos_is(meta, 32, wl);
    let rest = meta.skip(wl + 1);
    assert(rest =~= d);
    assert(!has_byte(rest, 32)) by {
        if has_byte(rest, 32) {
            let i = choose|i: int| 0 <= i < rest.len() && rest[i] == 32;
            assert(is_dec_digit(d[i]));
        }
    }
    assert(meta.subrange(0, wl) =~= w);
    assert(split_two_spec(meta) == Some((w, d)));
    assert(enc.subrange(hpos + 1, enc.len() as int) =~= b);
}

/// An object the codec can serialize and read back whole: a text blob, a
/// well-formed tree, or a well-formed commit.
pub open spec fn decodable_object(o: ObjectView) -> bool {
    match o {
        ObjectView::Blob(c) => valid_utf8(c),
        ObjectView::Tree(ns) => wf_tree(ns),
        ObjectView::Commit(c) => wf_commit(c),
    }
}

/// Round trip for whole objects of every kind: decoding the full encoding
/// of a decodable object — header included — yields the object back.
pub proof fn lemma_object_round_trip(o: ObjectView)
    requires
        decodable_object(o),
        body_spec(o).len() <= u64::MAX,
    ensures
        parse_object_spec(encode_object_spec(o)) == Ok::<ObjectView, StoreError>(o),
{
    let w = word_spec(o);
    let b = body_spec(o);
    let enc = encode_object_spec(o);
    assert(forall|i: int| 0 <= i < w.len() ==> (#[trigger] w[i]) != 0 && w[i] != 32) by {
        match o {
            ObjectView::Blob(_) => {},
            ObjectView::Tree(_) => {},
            ObjectView::Commit(_) => {},
        }
    }
    lemma_header_parse(w, b);
    let d = dec_of(b.len());
    lemma_dec_of_digits(b.len());
    crate::dec::lemma_dec_val_of(b.len());
    let z = first_byte_pos(enc, 0);
    assert(enc.len() - (z + 1) == b.len());
    let body = enc.subrange(z + 1, z + 1 + dec_val(d) as int);
    assert(body == b);
    match o {
        ObjectView::Blob(c) => {
            assert(w == blob_word());
            assert(valid_utf8(c));
        },
        ObjectView::Tree(ns) => {
            assert(w != blob_word()) by {
                assert(tree_word()[0] != blob_word()[0]);
            }
            lemma_tree_round_trip(ns);
        },
        ObjectView::Commit(c) => {
            assert(w != blob_word()) by {
                assert(commit_word().len() != blob_word().len());
            }
            assert(w != tree_word()) by {
                assert(commit_word().len() != tree_word().len());
            }
            lemma_commit_round_trip(c);
        },
    }
    assert(parse_object_spec(enc) == Ok::<ObjectView, StoreError>(o));
}

} // verus!
