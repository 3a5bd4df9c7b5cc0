//! The compute side of the tree-snapshot builder: choosing an entry's
//! mode from its permission bits, the fixed ignore set, and the
//! name-ordered assembly of a directory level's entries.
//!
//! The directory walk itself is I/O and lives with the caller, which
//! recurses depth-first and hands each level's entries here; sorting by
//! name before encoding is what makes the resulting identifiers
//! deterministic.

use vstd::prelude::*;
use vstd::multiset::Multiset;
use vstd::seq_lib::group_to_multiset_ensures;
use crate::codec::encode_tree_body;
use crate::objects::{ObjectView, TreeNode, TreeNodeView};
use crate::store::object_id_spec;

verus! {

/// Byte-wise lexicographic order on names.
pub open spec fn lex_le(a: Seq<u8>, b: Seq<u8>) -> bool
    decreases a.len(),
{
    if a.len() == 0 {
        true
    } else if b.len() == 0 {
        false
    } else if a[0] < b[0] {
        true
    } else if a[0] > b[0] {
        false
    } else {
        lex_le(a.skip(1), b.skip(1))
    }
}

pub proof fn lemma_lex_le_total(a: Seq<u8>, b: Seq<u8>)
    ensures
        lex_le(a, b) || lex_le(b, a),
    decreases a.len(),
{
    if a.len() > 0 && b.len() > 0 && a[0] == b[0] {
        lemma_lex_le_total(a.skip(1), b.skip(1));
    }
}

pub proof fn lemma_lex_le_antisym(a: Seq<u8>, b: Seq<u8>)
    requires
        lex_le(a, b),
        lex_le(b, a),
    ensures
        a == b,
    decreases a.len(),
{
    if a.len() == 0 {
        assert(b.len() == 0);
        assert(a =~= b);
    } else {
        assert(b.len() > 0);
        assert(a[0] == b[0]);
        lemma_lex_le_antisym(a.skip(1), b.skip(1));
        assert(a =~= b) by {
            assert(forall|i: int| 1 <= i < a.len() ==> #[trigger] a[i] == a.skip(1)[i - 1]);
            assert(forall|i: int| 1 <= i < b.len() ==> #[trigger] b[i] == b.skip(1)[i - 1]);
        }
    }
}

pub proof fn lemma_lex_le_trans(a: Seq<u8>, b: Seq<u8>, c: Seq<u8>)
    requires
        lex_le(a, b),
        lex_le(b, c),
    ensures
        lex_le(a, c),
    decreases a.len(),
{
    if a.len() > 0 {
        assert(b.len() > 0);
        if a[0] == b[0] && b[0] == c[0] {
            lemma_lex_le_trans(a.skip(1), b.skip(1), c.skip(1));
        }
    }
}

/// Entries stand in name order.
pub open spec fn sorted_by_name(ns: Seq<TreeNodeView>) -> bool {
    forall|i: int, j: int| 0 <= i < j < ns.len() ==> lex_le(
        (#[trigger] ns[i]).name,
        (#[trigger] ns[j]).name,
    )
}

/// Keeping the first `k` bytes equal keeps the order decision in the rest.
proof fn lemma_lex_le_common_prefix(a: Seq<u8>, b: Seq<u8>, k: int)
    requires
        0 <= k <= a.len(),
        k <= b.len(),
        forall|j: int| 0 <= j < k ==> a[j] == b[j],
    ensures
        lex_le(a, b) == lex_le(a.skip(k), b.skip(k)),
    decreases k,
{
    if k > 0 {
        assert(a.len() > 0 && b.len() > 0 && a[0] == b[0]);
        assert(forall|j: int| 0 <= j < k - 1 ==> #[trigger] a.skip(1)[j] == b.skip(1)[j]);
        lemma_lex_le_common_prefix(a.skip(1), b.skip(1), k - 1);
        assert(a.skip(1).skip(k - 1) =~= a.skip(k));
        assert(b.skip(1).skip(k - 1) =~= b.skip(k));
    } else {
        assert(a.skip(0) =~= a);
        assert(b.skip(0) =~= b);
    }
}

/// Inserting an entry anywhere adds exactly it to the sequence's multiset.
proof fn lemma_insert_multiset(s: Seq<TreeNodeView>, i: int, a: TreeNodeView)
    requires
        0 <= i <= s.len(),
    ensures
        s.insert(i, a).to_multiset() =~= s.to_multiset().insert(a),
{
    broadcast use group_to_multiset_ensures;
    broadcast use vstd::multiset::group_multiset_axioms;

    let pre = s.subrange(0, i);
    let post = s.subrange(i, s.len() as int);
    assert(s =~= pre + post);
    vstd::seq_lib::lemma_multiset_commutative(pre, post);
    vstd::seq_lib::lemma_multiset_commutative(pre.push(a), post);
    assert(pre.push(a).to_multiset() =~= pre.to_multiset().insert(a));
    assert(s.insert(i, a).to_multiset() =~= s.to_multiset().insert(a));
}

/// Decides the byte-wise order of two names.
pub fn lex_le_exec(a: &[u8], b: &[u8]) -> (r: bool)
    ensures
        r == lex_le(a@, b@),
{
    let mut i: usize = 0;
    while i < a.len() && i < b.len()
        invariant
            0 <= i <= a@.len(),
            i <= b@.len(),
            forall|j: int| 0 <= j < i ==> a@[j] == b@[j],
        decreases a@.len() - i,
    {
        let x = a[i];
        let y = b[i];
        if x != y {
            proof {
                lemma_lex_le_common_prefix(a@, b@, i as int);
                assert(a@.skip(i as int)[0] == x);
                assert(b@.skip(i as int)[0] == y);
            }
            return x < y;
        }
        i = i + 1;
    }
    proof {
        lemma_lex_le_common_prefix(a@, b@, i as int);
        if i == a@.len() {
            assert(a@.skip(i as int).len() == 0);
        } else {
            assert(b@.skip(i as int).len() == 0);
            assert(a@.skip(i as int).len() > 0);
        }
    }
    a.len() <= b.len()
}

/// Sorts a level's entries by name, byte-wise ascending, keeping exactly
/// the given entries.
pub fn sort_tree_nodes(nodes: Vec<TreeNode>) -> (r: Vec<TreeNode>)
    ensures
        sorted_by_name(r.deep_view()),
        r.deep_view().to_multiset() == nodes.deep_view().to_multiset(),
        r@.len() == nodes@.len(),
{
    broadcast use group_to_multiset_ensures;

    let ghost input = nodes.deep_view();
    let mut rest = nodes;
    let mut out: Vec<TreeNode> = Vec::new();
    proof {
        assert(out.deep_view() =~= Seq::<TreeNodeView>::empty());
        assert(out.deep_view().to_multiset().add(rest.deep_view().to_multiset())
            =~= input.to_multiset());
    }
    while rest.len() > 0
        invariant
            input.len() == out.deep_view().len() + rest.deep_view().len(),
            rest@.len() == rest.deep_view().len(),
            out@.len() == out.deep_view().len(),
            sorted_by_name(out.deep_view()),
            out.deep_view().to_multiset().add(rest.deep_view().to_multiset())
                == input.to_multiset(),
        decreases rest@.len(),
    {
        let ghost old_out = out.deep_view();
        let ghost old_rest = rest.deep_view();
        let ghost old_rest_vec = rest@;
        let node = rest.remove(0);
        let ghost nv = node@;
        proof {
            broadcast use vstd::multiset::group_multiset_axioms;

            assert(rest.deep_view() =~= old_rest.remove(0)) by {
                old_rest.remove_ensures(0);
                assert(forall|j: int| 0 <= j < rest@.len() ==> #[trigger] rest@[j]
                    == old_rest_vec[j + 1]);
            }
            assert(old_rest[0] == nv);
            vstd::seq_lib::to_multiset_remove(old_rest, 0);
            vstd::seq_lib::to_multiset_contains(old_rest, nv);
            assert(old_rest.to_multiset().count(nv) >= 1) by {
                assert(old_rest.contains(nv));
            }
        }
        // find the insertion point: the first entry the new name precedes
        let mut k: usize = 0;
        while k < out.len() && !lex_le_exec(node.name.as_slice(), out[k].name.as_slice())
            invariant
                0 <= k <= out@.len(),
                out@.len() == out.deep_view().len(),
                out.deep_view() == old_out,
                node@ == nv,
                forall|j: int| 0 <= j < k ==> lex_le((#[trigger] old_out[j]).name, nv.name),
            decreases out@.len() - k,
        {
            proof {
                lemma_lex_le_total(nv.name, old_out[k as int].name);
            }
            k = k + 1;
        }
        proof {
            if k < old_out.len() {
                assert(lex_le(nv.name, old_out[k as int].name));
            }
        }
        let ghost out_vec = out@;
        out.insert(k, node);
        proof {
            broadcast use vstd::multiset::group_multiset_axioms;

            let newv = out.deep_view();
            assert(newv =~= old_out.insert(k as int, nv)) by {
                old_out.insert_ensures(k as int, nv);
                out_vec.insert_ensures(k as int, node);
                assert(forall|j: int| 0 <= j < k ==> #[trigger] out@[j] == out_vec[j]);
                assert(forall|j: int|
                    k < j < out@.len() ==> #[trigger] out@[j] == out_vec[j - 1]);
                assert(out@[k as int] == node);
            }
            lemma_insert_multiset(old_out, k as int, nv);
            assert(newv.to_multiset() =~= old_out.to_multiset().insert(nv));
            assert(newv.len() == old_out.len() + 1) by {
                old_out.insert_ensures(k as int, nv);
            }
            assert(forall|j: int| 0 <= j < k ==> #[trigger] newv[j] == old_out[j]) by {
                old_out.insert_ensures(k as int, nv);
            }
            assert(newv[k as int] == nv) by {
                old_out.insert_ensures(k as int, nv);
            }
            assert(forall|j: int| k < j < newv.len() ==> #[trigger] newv[j] == old_out[j - 1]) by {
                old_out.insert_ensures(k as int, nv);
                assert(forall|j: int|
                    k as int <= j < old_out.len() ==> old_out.insert(k as int, nv)[j + 1]
                        == #[trigger] old_out[j]);
            }
            assert(sorted_by_name(newv)) by {
                assert forall|i: int, j: int| 0 <= i < j < newv.len() implies lex_le(
                    (#[trigger] newv[i]).name,
                    (#[trigger] newv[j]).name,
                ) by {
                    if j < k {
                    } else if i < k && j == k {
                        assert(lex_le(old_out[i].name, nv.name));
                    } else if i < k && j > k {
                        assert(lex_le(old_out[i].name, old_out[j - 1].name));
                    } else if i == k && j > k {
                        assert(lex_le(nv.name, old_out[k as int].name));
                        if j - 1 > k {
                            assert(lex_le(old_out[k as int].name, old_out[j - 1].name));
                            lemma_lex_le_trans(nv.name, old_out[k as int].name, old_out[j - 1].name);
                        }
                    } else {
                        assert(lex_le(old_out[i - 1].name, old_out[j - 1].name));
                    }
                }
            }
            assert(newv.to_multiset().add(rest.deep_view().to_multiset())
                =~= input.to_multiset());
        }
    }
    proof {
        assert(rest.deep_view().to_multiset() =~= Multiset::<TreeNodeView>::empty()) by {
            assert(rest.deep_view() =~= Seq::<TreeNodeView>::empty());
        }
        assert(out.deep_view().to_multiset() =~= input.to_multiset());
    }
    out
}

/// Entry names are pairwise distinct, as one directory's are.
pub open spec fn distinct_names(ns: Seq<TreeNodeView>) -> bool {
    forall|i: int, j: int| 0 <= i < j < ns.len() ==> (#[trigger] ns[i]).name != (
    #[trigger] ns[j]).name
}

/// Sorting pins the encoding: two name-sorted sequences holding the same
/// entries, with distinct names, are the same sequence, so the same tree
/// serializes to the same bytes whatever order its entries arrived in.
pub proof fn lemma_sorted_unique_by_name(a: Seq<TreeNodeView>, b: Seq<TreeNodeView>)
    requires
        sorted_by_name(a),
        sorted_by_name(b),
        distinct_names(a),
        a.to_multiset() == b.to_multiset(),
    ensures
        a == b,
        encode_tree_body(a) == encode_tree_body(b),
        object_id_spec(ObjectView::Tree(a)) == object_id_spec(ObjectView::Tree(b)),
    decreases a.len(),
{
    broadcast use group_to_multiset_ensures;

    if a.len() == 0 {
        assert(a.to_multiset().len() == a.len());
        assert(b.to_multiset().len() == b.len());
        assert(a =~= b);
    } else {
        assert(a.to_multiset().len() == a.len());
        assert(b.to_multiset().len() == b.len());
        assert(b.len() == a.len());
        assert(b.to_multiset().count(a[0]) > 0);
        assert(b.contains(a[0]));
        let kb = choose|k: int| 0 <= k < b.len() && b[k] == a[0];
        assert(a.to_multiset().count(b[0]) > 0);
        assert(a.contains(b[0]));
        let ka = choose|k: int| 0 <= k < a.len() && a[k] == b[0];
        if kb > 0 {
            assert(lex_le(b[0].name, b[kb].name));
        }
        if ka > 0 {
            assert(lex_le(a[0].name, a[ka].name));
        }
        assert(lex_le(a[0].name, b[0].name) && lex_le(b[0].name, a[0].name)) by {
            lemma_lex_le_total(a[0].name, b[0].name);
        }
        lemma_lex_le_antisym(a[0].name, b[0].name);
        assert(a[0].name == b[0].name);
        assert(a[ka] == b[0]);
        assert(a[ka].name == a[0].name);
        assert(ka == 0) by {
            if ka > 0 {
                assert(a[0].name != a[ka].name);
            }
        }
        assert(a[0] == b[0]);
        let at = a.drop_first();
        let bt = b.drop_first();
        assert(at.to_multiset() =~= bt.to_multiset()) by {
            broadcast use vstd::multiset::group_multiset_axioms;

            assert(a.remove(0) =~= at);
            assert(b.remove(0) =~= bt);
            vstd::seq_lib::to_multiset_remove(a, 0);
            vstd::seq_lib::to_multiset_remove(b, 0);
        }
        assert(sorted_by_name(at)) by {
            assert(forall|i: int| 0 <= i < at.len() ==> #[trigger] at[i] == a[i + 1]);
        }
        assert(sorted_by_name(bt)) by {
            assert(forall|i: int| 0 <= i < bt.len() ==> #[trigger] bt[i] == b[i + 1]);
        }
        assert(distinct_names(at)) by {
            assert(forall|i: int| 0 <= i < at.len() ==> #[trigger] at[i] == a[i + 1]);
        }
        lemma_sorted_unique_by_name(at, bt);
        assert(a =~= b) by {
            assert(forall|i: int| 1 <= i < a.len() ==> #[trigger] a[i] == at[i - 1]);
            assert(forall|i: int| 1 <= i < b.len() ==> #[trigger] b[i] == bt[i - 1]);
        }
    }
}

/// The mode recorded for a regular file: executable when any execute bit
/// is set in its permission bits.
pub fn file_mode(permission_bits: u32) -> (r: u32)
    ensures
        r == (if permission_bits & 0o111 != 0 {
            100755u32
        } else {
            100644u32
        }),
{
    if permission_bits & 0o111 != 0 {
        100755
    } else {
        100644
    }
}

/// The name of the store's own metadata directory.
pub open spec fn git_dir_name() -> Seq<u8> {
    seq![46u8, 103u8, 105u8, 116u8]
}

/// The name of the build-artifact directory the walk skips.
pub open spec fn target_dir_name() -> Seq<u8> {
    seq![116u8, 97u8, 114u8, 103u8, 101u8, 116u8]
}

/// Whether the directory walk skips a subdirectory: the store's own
/// metadata directory and the build-artifact directory are not captured
/// in a snapshot.
pub fn is_ignored_dir(name: &[u8]) -> (r: bool)
    ensures
        r == (name@ == git_dir_name() || name@ == target_dir_name()),
{
    let mut g: Vec<u8> = Vec::new();
    g.push(46);
    g.push(103);
    g.push(105);
    g.push(116);
    proof {
        assert(g@ =~= git_dir_name());
    }
    let mut t: Vec<u8> = Vec::new();
    t.push(116);
    t.push(97);
    t.push(114);
    t.push(103);
    t.push(101);
    t.push(116);
    proof {
        assert(t@ =~= target_dir_name());
    }
    crate::scan::bytes_eq(name, g.as_slice()) || crate::scan::bytes_eq(name, t.as_slice())
}

} // verus!
