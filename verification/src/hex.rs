//! Lowercase hexadecimal rendering of byte sequences, and its inverse.
//!
//! Object identifiers are 40-character lowercase hex strings over a 20-byte
//! digest; tree objects store the raw 20 bytes.  Both directions of the
//! conversion are defined here and proved inverse to each other.

use vstd::prelude::*;

verus! {

/// An ASCII code of a lowercase hexadecimal digit: '0'..'9' or 'a'..'f'.
pub open spec fn is_hex_digit(b: u8) -> bool {
    (48 <= b && b <= 57) || (97 <= b && b <= 102)
}

/// The value (0..15) of a lowercase hexadecimal digit.
pub open spec fn hex_val(b: u8) -> nat
    recommends
        is_hex_digit(b),
{
    if 48 <= b && b <= 57 {
        (b - 48) as nat
    } else {
        (b - 87) as nat
    }
}

/// The lowercase hexadecimal digit for a value below 16.
pub open spec fn hex_digit(v: nat) -> u8
    recommends
        v < 16,
{
    if v < 10 {
        (48 + v) as u8
    } else {
        (87 + v) as u8
    }
}

/// Lowercase hex rendering of a byte sequence: two digits per byte,
/// high nibble first.
pub open spec fn hex_of(s: Seq<u8>) -> Seq<u8>
    decreases s.len(),
{
    if s.len() == 0 {
        Seq::empty()
    } else {
        seq![hex_digit(s[0] as nat / 16), hex_digit(s[0] as nat % 16)] + hex_of(s.skip(1))
    }
}

/// The bytes denoted by an even-length hex string: one byte per digit pair.
pub open spec fn raw_of_hex(h: Seq<u8>) -> Seq<u8> {
    Seq::new(h.len() / 2, |i: int| (hex_val(h[2 * i]) * 16 + hex_val(h[2 * i + 1])) as u8)
}

pub open spec fn all_hex_digits(s: Seq<u8>) -> bool {
    forall|i: int| 0 <= i < s.len() ==> is_hex_digit(#[trigger] s[i])
}

pub proof fn lemma_hex_of_len(s: Seq<u8>)
    ensures
        hex_of(s).len() == 2 * s.len(),
    decreases s.len(),
{
    if s.len() != 0 {
        lemma_hex_of_len(s.skip(1));
    }
}

pub proof fn lemma_hex_of_push(s: Seq<u8>, b: u8)
    ensures
        hex_of(s.push(b)) == hex_of(s) + seq![
            hex_digit(b as nat / 16),
            hex_digit(b as nat % 16),
        ],
    decreases s.len(),
{
    let p = s.push(b);
    if s.len() == 0 {
        assert(p[0] == b);
        assert(p.skip(1) =~= Seq::<u8>::empty());
        assert(hex_of(p.skip(1)) =~= Seq::<u8>::empty());
        assert(hex_of(p) =~= seq![hex_digit(b as nat / 16), hex_digit(b as nat % 16)]);
        assert(hex_of(s) =~= Seq::<u8>::empty());
        assert(hex_of(p) =~= hex_of(s) + seq![
            hex_digit(b as nat / 16),
            hex_digit(b as nat % 16),
        ]);
    } else {
        assert(p[0] == s[0]);
        assert(p.skip(1) =~= s.skip(1).push(b));
        lemma_hex_of_push(s.skip(1), b);
        assert(hex_of(p) == seq![hex_digit(p[0] as nat / 16), hex_digit(p[0] as nat % 16)]
            + hex_of(p.skip(1)));
        assert(hex_of(p.skip(1)) == hex_of(s.skip(1)) + seq![
            hex_digit(b as nat / 16),
            hex_digit(b as nat % 16),
        ]);
        assert(hex_of(s) == seq![hex_digit(s[0] as nat / 16), hex_digit(s[0] as nat % 16)]
            + hex_of(s.skip(1)));
        assert(hex_of(p) =~= hex_of(s) + seq![
            hex_digit(b as nat / 16),
            hex_digit(b as nat % 16),
        ]);
    }
}

/// Every character of a hex rendering is a lowercase hex digit.
pub proof fn lemma_hex_of_all_hex(s: Seq<u8>)
    ensures
        all_hex_digits(hex_of(s)),
    decreases s.len(),
{
    if s.len() != 0 {
        lemma_hex_of_all_hex(s.skip(1));
        assert forall|i: int| 0 <= i < hex_of(s).len() implies is_hex_digit(#[trigger] hex_of(s)[i]) by {
            if i >= 2 {
                assert(hex_of(s)[i] == hex_of(s.skip(1))[i - 2]);
            }
        }
    }
}

/// Reading a valid lowercase hex string into bytes and rendering those bytes
/// yields the same hex string.
pub proof fn lemma_hex_of_raw_of(h: Seq<u8>)
    requires
        h.len() % 2 == 0,
        all_hex_digits(h),
    ensures
        hex_of(raw_of_hex(h)) =~= h,
    decreases h.len(),
{
    if h.len() != 0 {
        let r = raw_of_hex(h);
        let b = r[0];
        assert(b as nat == hex_val(h[0]) * 16 + hex_val(h[1]));
        assert(hex_val(h[0]) < 16 && hex_val(h[1]) < 16);
        assert(b as nat / 16 == hex_val(h[0]) && b as nat % 16 == hex_val(h[1]))
            by (nonlinear_arith)
            requires
                b as nat == hex_val(h[0]) * 16 + hex_val(h[1]),
                hex_val(h[0]) < 16,
                hex_val(h[1]) < 16,
        ;
        assert(hex_digit(hex_val(h[0])) == h[0]);
        assert(hex_digit(hex_val(h[1])) == h[1]);
        let t = h.skip(2);
        assert(t.len() % 2 == 0);
        assert(all_hex_digits(t)) by {
            assert(forall|i: int| 0 <= i < t.len() ==> #[trigger] t[i] == h[i + 2]);
        }
        lemma_hex_of_raw_of(t);
        assert(r.skip(1) =~= raw_of_hex(t)) by {
            assert(forall|i: int| 0 <= i < t.len() ==> #[trigger] t[i] == h[i + 2]);
        }
        assert(hex_of(r) =~= h);
    }
}

/// The lowercase hex digit for a nibble.
pub fn hex_digit_exec(v: u8) -> (r: u8)
    requires
        v < 16,
    ensures
        r == hex_digit(v as nat),
{
    if v < 10 {
        48 + v
    } else {
        87 + v
    }
}

/// The value of a lowercase hex digit.
pub fn hex_val_exec(b: u8) -> (r: u8)
    requires
        is_hex_digit(b),
    ensures
        r as nat == hex_val(b),
        r < 16,
{
    if b <= 57 {
        b - 48
    } else {
        b - 87
    }
}

/// Renders bytes as a lowercase hexadecimal string.
pub fn hex_encode(raw: &[u8]) -> (r: Vec<u8>)
    ensures
        r@ == hex_of(raw@),
        r@.len() == 2 * raw@.len(),
{
    let mut out: Vec<u8> = Vec::new();
    let mut i: usize = 0;
    while i < raw.len()
        invariant
            0 <= i <= raw@.len(),
            out@ == hex_of(raw@.subrange(0, i as int)),
        decreases raw@.len() - i,
    {
        let b = raw[i];
        out.push(hex_digit_exec(b / 16));
        out.push(hex_digit_exec(b % 16));
        proof {
            assert(raw@.subrange(0, i + 1) =~= raw@.subrange(0, i as int).push(raw@[i as int]));
            lemma_hex_of_push(raw@.subrange(0, i as int), raw@[i as int]);
            assert(out@ =~= hex_of(raw@.subrange(0, i + 1)));
        }
        i = i + 1;
    }
    proof {
        assert(raw@.subrange(0, raw@.len() as int) =~= raw@);
        lemma_hex_of_len(raw@);
    }
    out
}

/// Reads an even-length lowercase hexadecimal string back into bytes.
pub fn hex_decode(h: &[u8]) -> (r: Vec<u8>)
    requires
        h@.len() % 2 == 0,
        all_hex_digits(h@),
    ensures
        r@ == raw_of_hex(h@),
{
    let mut out: Vec<u8> = Vec::new();
    let mut i: usize = 0;
    while i + 1 < h.len()
        invariant
            i % 2 == 0,
            0 <= i <= h@.len(),
            h@.len() % 2 == 0,
            all_hex_digits(h@),
            out@.len() == i / 2,
            forall|j: int| 0 <= j < out@.len() ==> out@[j] == raw_of_hex(h@)[j],
        decreases h@.len() - i,
    {
        let hi = hex_val_exec(h[i]);
        let lo = hex_val_exec(h[i + 1]);
        out.push(hi * 16 + lo);
        i = i + 2;
    }
    proof {
        assert(out@ =~= raw_of_hex(h@));
    }
    out
}

} // verus!
