//! Identifier-to-path resolution: splitting an identifier into its shard
//! directory and filename, and resolving an abbreviated prefix against the
//! names found in a shard directory.

use vstd::prelude::*;
use vstd::string::StrSliceExecFns;
use crate::objects::StoreError;
use crate::scan::{is_prefix_of, starts_with};

verus! {

/// Splits an object identifier into the two-character shard directory name
/// and the remaining filename.
pub fn get_path_from_hash(object_hash: &str) -> (r: (String, String))
    requires
        object_hash@.len() >= 2,
    ensures
        r.0@ == object_hash@.subrange(0, 2),
        r.1@ == object_hash@.subrange(2, object_hash@.len() as int),
{
    let n = object_hash.unicode_len();
    let dir = object_hash.substring_char(0, 2).to_owned();
    let rest = object_hash.substring_char(2, n).to_owned();
    (dir, rest)
}

/// How many of the names start with the prefix.
pub open spec fn count_matching(ns: Seq<Seq<u8>>, p: Seq<u8>) -> nat
    decreases ns.len(),
{
    if ns.len() == 0 {
        0
    } else {
        count_matching(ns.drop_last(), p) + (if is_prefix_of(p, ns.last()) {
            1nat
        } else {
            0nat
        })
    }
}

/// Resolves an identifier prefix against the names in a shard directory:
/// the unique name starting with the prefix; `NotFound` when none does,
/// `Ambiguous` when several do.
pub fn resolve_prefix(names: &Vec<Vec<u8>>, prefix: &[u8]) -> (r: Result<Vec<u8>, StoreError>)
    ensures
        match r {
            Ok(v) => count_matching(names.deep_view(), prefix@) == 1 && (exists|i: int|
                0 <= i < names.deep_view().len() && is_prefix_of(
                    prefix@,
                    #[trigger] names.deep_view()[i],
                ) && v@ == names.deep_view()[i]),
            Err(StoreError::NotFound) => count_matching(names.deep_view(), prefix@) == 0,
            Err(StoreError::Ambiguous) => count_matching(names.deep_view(), prefix@) >= 2,
            Err(_) => false,
        },
{
    let ghost ns = names.deep_view();
    let mut count: usize = 0;
    let mut found: Option<usize> = None;
    let mut i: usize = 0;
    proof {
        assert(ns.subrange(0, 0) =~= Seq::<Seq<u8>>::empty());
    }
    while i < names.len()
        invariant
            0 <= i <= names@.len(),
            names@.len() == ns.len(),
            ns == names.deep_view(),
            count as nat == count_matching(ns.subrange(0, i as int), prefix@),
            count <= i,
            match found {
                Some(k) => k < i && is_prefix_of(prefix@, ns[k as int]) && count >= 1,
                None => count == 0,
            },
        decreases names@.len() - i,
    {
        let ghost pre = ns.subrange(0, i as int);
        proof {
            assert(ns.subrange(0, i + 1).drop_last() =~= pre);
            assert(ns.subrange(0, i + 1).last() == ns[i as int]);
            assert(ns[i as int] == names@[i as int]@);
        }
        if starts_with(names[i].as_slice(), prefix) {
            count = count + 1;
            if found.is_none() {
                found = Some(i);
            }
        }
        i = i + 1;
    }
    proof {
        assert(ns.subrange(0, ns.len() as int) =~= ns);
    }
    if count == 0 {
        Err(StoreError::NotFound)
    } else if count > 1 {
        Err(StoreError::Ambiguous)
    } else {
        match found {
            Some(k) => {
                let name = &names[k];
                let out = crate::scan::copy_range(name.as_slice(), 0, name.len());
                proof {
                    assert(out@ =~= ns[k as int]);
                }
                Ok(out)
            },
            None => {
                proof {
                    assert(false);
                }
                Err(StoreError::NotFound)
            },
        }
    }
}

/// A prefix as long as every name matches at most one of a set of distinct
/// names, and matches exactly when it is itself among them: a full-length
/// identifier resolves uniquely.
pub proof fn lemma_full_length_unique(ns: Seq<Seq<u8>>, p: Seq<u8>)
    requires
        forall|i: int, j: int| 0 <= i < j < ns.len() ==> ns[i] != ns[j],
        forall|i: int| 0 <= i < ns.len() ==> (#[trigger] ns[i]).len() == p.len(),
    ensures
        count_matching(ns, p) <= 1,
        count_matching(ns, p) == 1 <==> ns.contains(p),
    decreases ns.len(),
{
    if ns.len() == 0 {
        assert(!ns.contains(p));
    } else {
        let dl = ns.drop_last();
        assert(forall|i: int| 0 <= i < dl.len() ==> #[trigger] dl[i] == ns[i]);
        lemma_full_length_unique(dl, p);
        let last = ns.last();
        assert(is_prefix_of(p, last) <==> last == p) by {
            if is_prefix_of(p, last) {
                assert(last.subrange(0, p.len() as int) =~= last);
            }
            if last == p {
                assert(last.subrange(0, p.len() as int) =~= p);
            }
        }
        if last == p {
            assert(!dl.contains(p)) by {
                if dl.contains(p) {
                    let i = choose|i: int| 0 <= i < dl.len() && dl[i] == p;
                    assert(ns[i] == ns[ns.len() - 1]);
                }
            }
            assert(count_matching(dl, p) == 0);
            assert(ns.contains(p)) by {
                assert(ns[ns.len() - 1] == p);
            }
        } else {
            assert(ns.contains(p) <==> dl.contains(p)) by {
                if ns.contains(p) {
                    let i = choose|i: int| 0 <= i < ns.len() && ns[i] == p;
                    assert(i < ns.len() - 1);
                    assert(dl[i] == p);
                }
                if dl.contains(p) {
                    let i = choose|i: int| 0 <= i < dl.len() && dl[i] == p;
                    assert(ns[i] == p);
                }
            }
        }
    }
}

} // verus!
