//! Byte-sequence scanning: first-occurrence search, prefix tests, splitting
//! on a delimiter byte and joining back.
//!
//! The object formats delimit fields with NUL, space and newline bytes; the
//! functions here are the shared substrate of the codec.

use vstd::prelude::*;

verus! {

pub open spec fn has_byte(s: Seq<u8>, x: u8) -> bool {
    exists|i: int| 0 <= i < s.len() && s[i] == x
}

/// Index of the first occurrence of `x` in `s` (meaningful when present).
pub open spec fn first_byte_pos(s: Seq<u8>, x: u8) -> int
    decreases s.len(),
{
    if s.len() == 0 {
        0
    } else if s[0] == x {
        0
    } else {
        1 + first_byte_pos(s.skip(1), x)
    }
}

pub proof fn lemma_first_byte_pos(s: Seq<u8>, x: u8)
    requires
        has_byte(s, x),
    ensures
        0 <= first_byte_pos(s, x) < s.len(),
        s[first_byte_pos(s, x)] == x,
        forall|j: int| 0 <= j < first_byte_pos(s, x) ==> s[j] != x,
    decreases s.len(),
{
    if s.len() > 0 && s[0] != x {
        assert(has_byte(s.skip(1), x)) by {
            let i = choose|i: int| 0 <= i < s.len() && s[i] == x;
            assert(s.skip(1)[i - 1] == x);
        }
        lemma_first_byte_pos(s.skip(1), x);
        assert(forall|j: int| 0 <= j < first_byte_pos(s.skip(1), x) ==> s.skip(1)[j] != x);
        assert forall|j: int| 0 <= j < first_byte_pos(s, x) implies s[j] != x by {
            if j > 0 {
                assert(s.skip(1)[j - 1] != x);
            }
        }
    }
}

/// The first occurrence is pinned by any witness position with nothing
/// matching before it.
pub proof fn lemma_first_byte_pos_is(s: Seq<u8>, x: u8, p: int)
    requires
        0 <= p < s.len(),
        s[p] == x,
        forall|j: int| 0 <= j < p ==> s[j] != x,
    ensures
        has_byte(s, x),
        first_byte_pos(s, x) == p,
{
    assert(has_byte(s, x));
    lemma_first_byte_pos(s, x);
    let q = first_byte_pos(s, x);
    if q < p {
        assert(s[q] != x);
    }
    if p < q {
        assert(s[p] != x);
    }
}

/// Finds the first occurrence of `x` in `s` at or after `start`; the result
/// is an absolute index.
pub fn find_byte_from(s: &[u8], start: usize, x: u8) -> (r: Option<usize>)
    requires
        start <= s@.len(),
    ensures
        match r {
            Some(k) => start <= k < s@.len() && s@[k as int] == x && forall|j: int|
                start <= j < k ==> s@[j] != x,
            None => forall|j: int| start <= j < s@.len() ==> s@[j] != x,
        },
{
    let mut i: usize = start;
    while i < s.len()
        invariant
            start <= i <= s@.len(),
            forall|j: int| start <= j < i ==> s@[j] != x,
        decreases s@.len() - i,
    {
        if s[i] == x {
            return Some(i);
        }
        i = i + 1;
    }
    None
}

/// Copies the range `from..to` of a slice into a fresh vector.
pub fn copy_range(s: &[u8], from: usize, to: usize) -> (r: Vec<u8>)
    requires
        from <= to <= s@.len(),
    ensures
        r@ == s@.subrange(from as int, to as int),
{
    let mut out: Vec<u8> = Vec::new();
    let mut i: usize = from;
    while i < to
        invariant
            from <= i <= to <= s@.len(),
            out@ == s@.subrange(from as int, i as int),
        decreases to - i,
    {
        out.push(s[i]);
        proof {
            assert(out@ =~= s@.subrange(from as int, i + 1));
        }
        i = i + 1;
    }
    out
}

pub open spec fn is_prefix_of(p: Seq<u8>, s: Seq<u8>) -> bool {
    p.len() <= s.len() && s.subrange(0, p.len() as int) == p
}

/// Whether `s` starts with `p`.
pub fn starts_with(s: &[u8], p: &[u8]) -> (r: bool)
    ensures
        r == is_prefix_of(p@, s@),
{
    if p.len() > s.len() {
        assert(!is_prefix_of(p@, s@));
        return false;
    }
    let mut i: usize = 0;
    while i < p.len()
        invariant
            0 <= i <= p@.len() <= s@.len(),
            forall|j: int| 0 <= j < i ==> s@[j] == p@[j],
        decreases p@.len() - i,
    {
        if s[i] != p[i] {
            assert(s@.subrange(0, p@.len() as int)[i as int] != p@[i as int]);
            return false;
        }
        i = i + 1;
    }
    proof {
        assert(s@.subrange(0, p@.len() as int) =~= p@);
    }
    true
}

/// Whether two byte strings are equal.
pub fn bytes_eq(a: &[u8], b: &[u8]) -> (r: bool)
    ensures
        r == (a@ == b@),
{
    if a.len() != b.len() {
        return false;
    }
    let mut i: usize = 0;
    while i < a.len()
        invariant
            0 <= i <= a@.len(),
            a@.len() == b@.len(),
            forall|j: int| 0 <= j < i ==> a@[j] == b@[j],
        decreases a@.len() - i,
    {
        if a[i] != b[i] {
            return false;
        }
        i = i + 1;
    }
    proof {
        assert(a@ =~= b@);
    }
    true
}

/// Splitting a byte string on a delimiter, keeping empty parts, as a text
/// line or token split does.  Always yields at least one part.
pub open spec fn split_bytes(s: Seq<u8>, sep: u8) -> Seq<Seq<u8>>
    decreases s.len(),
    via split_bytes_decreases
{
    if !has_byte(s, sep) {
        seq![s]
    } else {
        let p = first_byte_pos(s, sep);
        seq![s.subrange(0, p)] + split_bytes(s.skip(p + 1), sep)
    }
}

#[via_fn]
proof fn split_bytes_decreases(s: Seq<u8>, sep: u8) {
    if has_byte(s, sep) {
        lemma_first_byte_pos(s, sep);
    }
}

pub proof fn lemma_split_bytes_len(s: Seq<u8>, sep: u8)
    ensures
        split_bytes(s, sep).len() >= 1,
    decreases s.len(),
{
    if has_byte(s, sep) {
        lemma_first_byte_pos(s, sep);
        lemma_split_bytes_len(s.skip(first_byte_pos(s, sep) + 1), sep);
    }
}

/// How a split grows when one byte is appended.
pub proof fn lemma_split_bytes_push(s: Seq<u8>, c: u8, sep: u8)
    ensures
        split_bytes(s.push(c), sep) == (if c == sep {
            split_bytes(s, sep).push(Seq::<u8>::empty())
        } else {
            split_bytes(s, sep).update(
                split_bytes(s, sep).len() - 1,
                split_bytes(s, sep).last().push(c),
            )
        }),
    decreases s.len(),
{
    lemma_split_bytes_len(s, sep);
    let t = s.push(c);
    if !has_byte(s, sep) {
        if c == sep {
            lemma_first_byte_pos_is(t, sep, s.len() as int);
            assert(first_byte_pos(t, sep) == s.len() as int);
            assert(t.subrange(0, s.len() as int) =~= s);
            assert(t.skip(s.len() as int + 1) =~= Seq::<u8>::empty());
            assert(!has_byte(t.skip(s.len() as int + 1), sep));
            assert(split_bytes(t.skip(s.len() as int + 1), sep) == seq![
                t.skip(s.len() as int + 1),
            ]);
            assert(split_bytes(t, sep) == seq![t.subrange(0, s.len() as int)] + split_bytes(
                t.skip(s.len() as int + 1),
                sep,
            ));
            assert(split_bytes(s, sep) == seq![s]);
            assert(split_bytes(t, sep) =~~= split_bytes(s, sep).push(Seq::<u8>::empty()));
        } else {
            assert(!has_byte(t, sep)) by {
                assert forall|i: int| 0 <= i < t.len() implies t[i] != sep by {
                    if i < s.len() {
                        assert(t[i] == s[i]);
                    }
                }
            }
            assert(split_bytes(t, sep) =~~= split_bytes(s, sep).update(0, s.push(c)));
        }
    } else {
        lemma_first_byte_pos(s, sep);
        let p = first_byte_pos(s, sep);
        assert(t[p] == sep);
        lemma_first_byte_pos_is(t, sep, p);
        assert(t.subrange(0, p) =~= s.subrange(0, p));
        assert(t.skip(p + 1) =~= s.skip(p + 1).push(c));
        lemma_split_bytes_push(s.skip(p + 1), c, sep);
        lemma_split_bytes_len(s.skip(p + 1), sep);
        if c == sep {
            assert(split_bytes(t, sep) =~~= split_bytes(s, sep).push(Seq::<u8>::empty()));
        } else {
            let inner = split_bytes(s.skip(p + 1), sep);
            assert(split_bytes(t, sep) == seq![s.subrange(0, p)] + inner.update(
                inner.len() - 1,
                inner.last().push(c),
            ));
            assert(split_bytes(s, sep).last() == inner.last());
            assert(split_bytes(t, sep) =~~= split_bytes(s, sep).update(
                split_bytes(s, sep).len() - 1,
                split_bytes(s, sep).last().push(c),
            ));
        }
    }
}

/// Splits a byte string on a delimiter, keeping empty parts.
pub fn split_by(s: &[u8], sep: u8) -> (r: Vec<Vec<u8>>)
    ensures
        r.deep_view() == split_bytes(s@, sep),
        r@.len() >= 1,
{
    let mut parts: Vec<Vec<u8>> = Vec::new();
    let mut cur: Vec<u8> = Vec::new();
    let mut i: usize = 0;
    proof {
        assert(s@.subrange(0, 0) =~= Seq::<u8>::empty());
        assert(!has_byte(Seq::<u8>::empty(), sep));
        assert(parts.deep_view().push(cur@) =~~= split_bytes(s@.subrange(0, 0), sep));
    }
    while i < s.len()
        invariant
            0 <= i <= s@.len(),
            parts.deep_view().push(cur@) =~= split_bytes(s@.subrange(0, i as int), sep),
        decreases s@.len() - i,
    {
        let ghost pre = s@.subrange(0, i as int);
        let ghost old_parts = parts.deep_view();
        let ghost old_cur = cur@;
        let c = s[i];
        if c == sep {
            parts.push(cur);
            cur = Vec::new();
        } else {
            cur.push(c);
        }
        proof {
            assert(s@.subrange(0, i + 1) =~= pre.push(s@[i as int]));
            lemma_split_bytes_push(pre, s@[i as int], sep);
            let sp = split_bytes(pre, sep);
            assert(sp == old_parts.push(old_cur));
            if c == sep {
                assert(parts.deep_view() =~~= old_parts.push(old_cur));
                assert(parts.deep_view().push(cur@) =~~= split_bytes(s@.subrange(0, i + 1), sep));
            } else {
                assert(sp.last() == old_cur);
                assert(sp.update(sp.len() - 1, sp.last().push(c)) =~~= old_parts.push(
                    old_cur.push(c),
                ));
                assert(parts.deep_view().push(cur@) =~~= old_parts.push(old_cur.push(c)));
            }
        }
        i = i + 1;
    }
    parts.push(cur);
    proof {
        assert(s@.subrange(0, s@.len() as int) =~= s@);
        assert(parts.deep_view() =~~= split_bytes(s@, sep));
    }
    parts
}

/// Joining parts with a separator byte between them: the inverse of
/// [`split_bytes`].
pub open spec fn join_with(ls: Seq<Seq<u8>>, sep: u8) -> Seq<u8>
    decreases ls.len(),
{
    if ls.len() == 0 {
        Seq::empty()
    } else if ls.len() == 1 {
        ls[0]
    } else {
        ls[0] + seq![sep] + join_with(ls.skip(1), sep)
    }
}

pub proof fn lemma_join_with_push(ls: Seq<Seq<u8>>, x: Seq<u8>, sep: u8)
    requires
        ls.len() >= 1,
    ensures
        join_with(ls.push(x), sep) == join_with(ls, sep) + seq![sep] + x,
    decreases ls.len(),
{
    let t = ls.push(x);
    assert(t[0] == ls[0]);
    if ls.len() == 1 {
        assert(t.skip(1) =~= seq![x]);
        assert(join_with(t.skip(1), sep) == x);
        assert(join_with(t, sep) =~= join_with(ls, sep) + seq![sep] + x);
    } else {
        assert(t.skip(1) =~= ls.skip(1).push(x));
        lemma_join_with_push(ls.skip(1), x, sep);
        assert(join_with(t, sep) =~= join_with(ls, sep) + seq![sep] + x);
    }
}

/// Joins the parts `from..to` with a separator byte.
pub fn join_range(parts: &Vec<Vec<u8>>, from: usize, to: usize, sep: u8) -> (r: Vec<u8>)
    requires
        from <= to <= parts@.len(),
    ensures
        r@ == join_with(parts.deep_view().subrange(from as int, to as int), sep),
{
    let mut out: Vec<u8> = Vec::new();
    let mut i: usize = from;
    proof {
        assert(parts.deep_view().subrange(from as int, from as int) =~= Seq::<Seq<u8>>::empty());
    }
    while i < to
        invariant
            from <= i <= to <= parts@.len(),
            parts@.len() == parts.deep_view().len(),
            out@ == join_with(parts.deep_view().subrange(from as int, i as int), sep),
        decreases to - i,
    {
        let ghost dv = parts.deep_view();
        if i > from {
            out.push(sep);
        }
        let part = &parts[i];
        let mut j: usize = 0;
        let ghost mid = out@;
        while j < part.len()
            invariant
                0 <= j <= part@.len(),
                out@ == mid + part@.subrange(0, j as int),
            decreases part@.len() - j,
        {
            out.push(part[j]);
            proof {
                assert(out@ =~= mid + part@.subrange(0, j + 1));
            }
            j = j + 1;
        }
        proof {
            assert(part@.subrange(0, part@.len() as int) =~= part@);
            assert(part@ == dv[i as int]);
            assert(dv.subrange(from as int, i + 1) =~= dv.subrange(from as int, i as int).push(
                dv[i as int],
            ));
            if i == from {
                assert(dv.subrange(from as int, i + 1) =~= seq![dv[i as int]]);
                assert(out@ =~= join_with(dv.subrange(from as int, i + 1), sep));
            } else {
                lemma_join_with_push(dv.subrange(from as int, i as int), dv[i as int], sep);
                assert(out@ =~= join_with(dv.subrange(from as int, i + 1), sep));
            }
        }
        i = i + 1;
    }
    out
}

pub open spec fn has_nonempty(ls: Seq<Seq<u8>>) -> bool {
    exists|i: int| 0 <= i < ls.len() && ls[i].len() > 0
}

/// Joining only the nonempty parts with a newline between them: how a
/// decoded commit message is assembled from its lines.
pub open spec fn join_nonempty(ls: Seq<Seq<u8>>) -> Seq<u8>
    decreases ls.len(),
{
    if ls.len() == 0 {
        Seq::empty()
    } else if ls[0].len() == 0 {
        join_nonempty(ls.skip(1))
    } else if has_nonempty(ls.skip(1)) {
        ls[0] + seq![10u8] + join_nonempty(ls.skip(1))
    } else {
        ls[0]
    }
}

pub proof fn lemma_join_nonempty_push(ls: Seq<Seq<u8>>, x: Seq<u8>)
    ensures
        join_nonempty(ls.push(x)) == (if x.len() == 0 {
            join_nonempty(ls)
        } else if has_nonempty(ls) {
            join_nonempty(ls) + seq![10u8] + x
        } else {
            x
        }),
    decreases ls.len(),
{
    let t = ls.push(x);
    if ls.len() == 0 {
        if x.len() == 0 {
            assert(t[0].len() == 0);
            assert(t.skip(1) =~= Seq::<Seq<u8>>::empty());
            assert(join_nonempty(Seq::<Seq<u8>>::empty()) == Seq::<u8>::empty());
            assert(join_nonempty(t) =~= join_nonempty(ls));
        } else {
            assert(t[0] == x);
            assert(t.skip(1) =~= Seq::<Seq<u8>>::empty());
            assert(!has_nonempty(t.skip(1)));
            assert(join_nonempty(t) == x);
        }
    } else {
        assert(t[0] == ls[0]);
        assert(t.skip(1) =~= ls.skip(1).push(x));
        lemma_join_nonempty_push(ls.skip(1), x);
        assert(has_nonempty(ls) == (ls[0].len() > 0 || has_nonempty(ls.skip(1)))) by {
            if has_nonempty(ls) {
                let i = choose|i: int| 0 <= i < ls.len() && ls[i].len() > 0;
                if i > 0 {
                    assert(ls.skip(1)[i - 1].len() > 0);
                }
            }
            if has_nonempty(ls.skip(1)) {
                let i = choose|i: int| 0 <= i < ls.skip(1).len() && ls.skip(1)[i].len() > 0;
                assert(ls[i + 1].len() > 0);
            }
        }
        assert(has_nonempty(t.skip(1)) == (has_nonempty(ls.skip(1)) || x.len() > 0)) by {
            if has_nonempty(ls.skip(1)) {
                let i = choose|i: int| 0 <= i < ls.skip(1).len() && ls.skip(1)[i].len() > 0;
                assert(t.skip(1)[i].len() > 0);
            }
            if x.len() > 0 {
                assert(t.skip(1)[ls.len() - 1].len() > 0);
            }
            if has_nonempty(t.skip(1)) && !(has_nonempty(ls.skip(1)) || x.len() > 0) {
                let i = choose|i: int| 0 <= i < t.skip(1).len() && t.skip(1)[i].len() > 0;
                if i < ls.skip(1).len() {
                    assert(ls.skip(1)[i].len() > 0);
                }
            }
        }
        if ls[0].len() == 0 {
            assert(join_nonempty(t) == join_nonempty(ls.skip(1).push(x)));
        } else {
            if x.len() == 0 {
                assert(join_nonempty(t.skip(1)) == join_nonempty(ls.skip(1)));
                if has_nonempty(t.skip(1)) {
                    assert(has_nonempty(ls.skip(1)));
                    assert(join_nonempty(t) == t[0] + seq![10u8] + join_nonempty(t.skip(1)));
                    assert(join_nonempty(ls) == ls[0] + seq![10u8] + join_nonempty(ls.skip(1)));
                } else {
                    assert(!has_nonempty(ls.skip(1)));
                    assert(join_nonempty(t) == t[0]);
                    assert(join_nonempty(ls) == ls[0]);
                }
                assert(join_nonempty(t) =~= join_nonempty(ls));
            } else if has_nonempty(ls) {
                assert(join_nonempty(t) =~= join_nonempty(ls) + seq![10u8] + x);
            } else {
                assert(join_nonempty(t) =~= x);
            }
        }
    }
}

pub proof fn lemma_join_nonempty_empty(ls: Seq<Seq<u8>>)
    requires
        !has_nonempty(ls),
    ensures
        join_nonempty(ls) == Seq::<u8>::empty(),
    decreases ls.len(),
{
    if ls.len() > 0 {
        assert(ls[0].len() == 0);
        assert(!has_nonempty(ls.skip(1))) by {
            if has_nonempty(ls.skip(1)) {
                let i = choose|i: int| #![trigger ls.skip(1)[i]] 0 <= i < ls.skip(1).len()
                    && ls.skip(1)[i].len() > 0;
                assert(ls[i + 1].len() > 0);
            }
        }
        lemma_join_nonempty_empty(ls.skip(1));
    }
}

/// Joins the nonempty parts from `from` on, with newlines between them.
pub fn join_nonempty_from(parts: &Vec<Vec<u8>>, from: usize) -> (r: Vec<u8>)
    requires
        from <= parts@.len(),
    ensures
        r@ == join_nonempty(parts.deep_view().skip(from as int)),
{
    let mut out: Vec<u8> = Vec::new();
    let mut any: bool = false;
    let mut i: usize = from;
    proof {
        assert(parts.deep_view().subrange(from as int, from as int) =~= Seq::<Seq<u8>>::empty());
    }
    while i < parts.len()
        invariant
            from <= i <= parts@.len(),
            parts@.len() == parts.deep_view().len(),
            any == has_nonempty(parts.deep_view().subrange(from as int, i as int)),
            out@ == join_nonempty(parts.deep_view().subrange(from as int, i as int)),
        decreases parts@.len() - i,
    {
        let ghost dv = parts.deep_view();
        let ghost pre = dv.subrange(from as int, i as int);
        let part = &parts[i];
        if part.len() > 0 {
            if any {
                out.push(10);
            }
            let mut j: usize = 0;
            let ghost mid = out@;
            while j < part.len()
                invariant
                    0 <= j <= part@.len(),
                    out@ == mid + part@.subrange(0, j as int),
                decreases part@.len() - j,
            {
                out.push(part[j]);
                proof {
                    assert(out@ =~= mid + part@.subrange(0, j + 1));
                }
                j = j + 1;
            }
            any = true;
            proof {
                assert(part@.subrange(0, part@.len() as int) =~= part@);
            }
        }
        proof {
            assert(dv.subrange(from as int, i + 1) =~= pre.push(dv[i as int]));
            lemma_join_nonempty_push(pre, dv[i as int]);
            assert(dv[i as int] == part@);
            if part@.len() > 0 {
                if !has_nonempty(pre) {
                    lemma_join_nonempty_empty(pre);
                }
                assert(out@ =~= join_nonempty(dv.subrange(from as int, i + 1)));
                assert(has_nonempty(dv.subrange(from as int, i + 1))) by {
                    assert(dv.subrange(from as int, i + 1)[i - from].len() > 0);
                }
            } else {
                let ext = dv.subrange(from as int, i + 1);
                assert(has_nonempty(ext) == has_nonempty(pre)) by {
                    if has_nonempty(ext) {
                        let k = choose|k: int| #![trigger ext[k]] 0 <= k < ext.len()
                            && ext[k].len() > 0;
                        assert(k < pre.len() + 1);
                        if k < pre.len() {
                            assert(pre[k].len() > 0);
                        }
                    }
                    if has_nonempty(pre) {
                        let k = choose|k: int| #![trigger pre[k]] 0 <= k < pre.len()
                            && pre[k].len() > 0;
                        assert(ext[k].len() > 0);
                    }
                }
            }
        }
        i = i + 1;
    }
    proof {
        assert(parts.deep_view().subrange(from as int, parts.deep_view().len() as int)
            =~= parts.deep_view().skip(from as int));
    }
    out
}


/// Splitting distributes over a delimiter written between two strings.
pub proof fn lemma_split_bytes_concat(a: Seq<u8>, b: Seq<u8>, sep: u8)
    ensures
        split_bytes(a + seq![sep] + b, sep) == split_bytes(a, sep) + split_bytes(b, sep),
    decreases a.len(),
{
    let t = a + seq![sep] + b;
    if !has_byte(a, sep) {
        assert(t[a.len() as int] == sep);
        assert forall|j: int| 0 <= j < a.len() implies t[j] != sep by {
            assert(t[j] == a[j]);
        }
        lemma_first_byte_pos_is(t, sep, a.len() as int);
        assert(t.subrange(0, a.len() as int) =~= a);
        assert(t.skip(a.len() as int + 1) =~= b);
        assert(split_bytes(t, sep) =~~= split_bytes(a, sep) + split_bytes(b, sep));
    } else {
        lemma_first_byte_pos(a, sep);
        let p = first_byte_pos(a, sep);
        assert(t[p] == a[p]);
        assert forall|j: int| 0 <= j < p implies t[j] != sep by {
            assert(t[j] == a[j]);
        }
        lemma_first_byte_pos_is(t, sep, p);
        assert(t.subrange(0, p) =~= a.subrange(0, p));
        assert(t.skip(p + 1) =~= a.skip(p + 1) + seq![sep] + b);
        lemma_split_bytes_concat(a.skip(p + 1), b, sep);
        assert(split_bytes(t, sep) =~~= split_bytes(a, sep) + split_bytes(b, sep));
    }
}

/// Joining a split with the same delimiter restores the string.
pub proof fn lemma_join_split(s: Seq<u8>, sep: u8)
    ensures
        join_with(split_bytes(s, sep), sep) == s,
    decreases s.len(),
{
    if !has_byte(s, sep) {
        assert(join_with(split_bytes(s, sep), sep) =~= s);
    } else {
        lemma_first_byte_pos(s, sep);
        let p = first_byte_pos(s, sep);
        let pre = s.subrange(0, p);
        let rest = s.skip(p + 1);
        lemma_join_split(rest, sep);
        lemma_split_bytes_len(rest, sep);
        let parts = seq![pre] + split_bytes(rest, sep);
        assert(split_bytes(s, sep) == parts);
        assert(parts.len() >= 2);
        assert(parts[0] == pre);
        assert(parts.skip(1) =~= split_bytes(rest, sep));
        assert(join_with(parts, sep) == pre + seq![sep] + join_with(split_bytes(rest, sep), sep));
        assert(pre + seq![sep] + rest =~= s);
    }
}

/// A split has an empty part exactly where the string begins or ends with
/// the delimiter or holds two in a row; a string that avoids all three
/// splits into nonempty parts.
pub proof fn lemma_split_bytes_all_nonempty(s: Seq<u8>, sep: u8)
    requires
        s.len() > 0,
        s[0] != sep,
        s[s.len() - 1] != sep,
        forall|i: int| 0 <= i < s.len() - 1 ==> !((#[trigger] s[i]) == sep && s[i + 1] == sep),
    ensures
        forall|k: int| 0 <= k < split_bytes(s, sep).len() ==> (#[trigger] split_bytes(s, sep)[k]).len()
            > 0,
    decreases s.len(),
{
    if has_byte(s, sep) {
        lemma_first_byte_pos(s, sep);
        let p = first_byte_pos(s, sep);
        let rest = s.skip(p + 1);
        assert(p > 0);
        assert(p < s.len() - 1) by {
            assert(s[s.len() - 1] != sep);
        }
        assert(rest.len() > 0);
        assert(rest[0] == s[p + 1]);
        assert(s[p + 1] != sep) by {
            assert(!(s[p] == sep && s[p + 1] == sep));
        }
        assert(rest[rest.len() - 1] == s[s.len() - 1]);
        assert forall|i: int| 0 <= i < rest.len() - 1 implies !((#[trigger] rest[i]) == sep
            && rest[i + 1] == sep) by {
            assert(rest[i] == s[p + 1 + i]);
            assert(rest[i + 1] == s[p + 1 + i + 1]);
        }
        lemma_split_bytes_all_nonempty(rest, sep);
        let parts = split_bytes(s, sep);
        assert forall|k: int| 0 <= k < parts.len() implies (#[trigger] parts[k]).len() > 0 by {
            if k == 0 {
                assert(parts[0] == s.subrange(0, p));
            } else {
                assert(parts[k] == split_bytes(rest, sep)[k - 1]);
            }
        }
    }
}

/// Joining nonempty parts is the plain newline join.
pub proof fn lemma_join_nonempty_all_nonempty(ls: Seq<Seq<u8>>)
    requires
        forall|k: int| 0 <= k < ls.len() ==> (#[trigger] ls[k]).len() > 0,
    ensures
        join_nonempty(ls) == join_with(ls, 10),
    decreases ls.len(),
{
    if ls.len() > 0 {
        assert(forall|k: int| 0 <= k < ls.skip(1).len() ==> #[trigger] ls.skip(1)[k] == ls[k + 1]);
        lemma_join_nonempty_all_nonempty(ls.skip(1));
        if ls.len() == 1 {
            assert(!has_nonempty(ls.skip(1)));
            assert(join_nonempty(ls) == ls[0]);
        } else {
            assert(has_nonempty(ls.skip(1))) by {
                assert(ls.skip(1)[0].len() > 0);
            }
            assert(join_nonempty(ls) == ls[0] + seq![10u8] + join_nonempty(ls.skip(1)));
        }
    }
}

} // verus!
