//! Decimal rendering and parsing of unsigned and signed integers.
//!
//! Object headers carry a decimal byte length, tree entries a decimal file
//! mode, and commit headers a decimal Unix timestamp.  Rendering is defined
//! by [`dec_of`]; parsing is proved to be its exact inverse.

use vstd::prelude::*;

verus! {

/// An ASCII code of a decimal digit: '0'..'9'.
pub open spec fn is_dec_digit(b: u8) -> bool {
    48 <= b && b <= 57
}

pub open spec fn all_dec_digits(s: Seq<u8>) -> bool {
    forall|i: int| 0 <= i < s.len() ==> is_dec_digit(#[trigger] s[i])
}

/// The canonical decimal rendering of a natural number (no sign, no
/// leading zeros except for the single digit of zero itself).
pub open spec fn dec_of(n: nat) -> Seq<u8>
    decreases n,
{
    if n < 10 {
        seq![(48 + n) as u8]
    } else {
        dec_of(n / 10).push((48 + n % 10) as u8)
    }
}

/// The value of a string of decimal digits.
pub open spec fn dec_val(s: Seq<u8>) -> nat
    recommends
        all_dec_digits(s),
    decreases s.len(),
{
    if s.len() == 0 {
        0
    } else {
        dec_val(s.drop_last()) * 10 + (if s.last() >= 48 {
            (s.last() - 48) as nat
        } else {
            0
        })
    }
}

/// The rendering of a signed integer: a '-' before the digits when negative.
pub open spec fn dec_of_int(n: int) -> Seq<u8> {
    if n < 0 {
        seq![45u8] + dec_of((-n) as nat)
    } else {
        dec_of(n as nat)
    }
}

/// A byte string is a valid signed decimal: optional leading '-', then at
/// least one digit.
pub open spec fn is_signed_dec(s: Seq<u8>) -> bool {
    if s.len() > 0 && s[0] == 45 {
        s.len() > 1 && all_dec_digits(s.skip(1))
    } else {
        s.len() > 0 && all_dec_digits(s)
    }
}

/// The value of a valid signed decimal string.
pub open spec fn signed_dec_val(s: Seq<u8>) -> int
    recommends
        is_signed_dec(s),
{
    if s.len() > 0 && s[0] == 45 {
        -(dec_val(s.skip(1)) as int)
    } else {
        dec_val(s) as int
    }
}

pub proof fn lemma_dec_of_digits(n: nat)
    ensures
        all_dec_digits(dec_of(n)),
        dec_of(n).len() >= 1,
        dec_of(n)[0] != 48 || n < 10,
    decreases n,
{
    if n >= 10 {
        lemma_dec_of_digits(n / 10);
        assert forall|i: int| 0 <= i < dec_of(n).len() implies is_dec_digit(#[trigger] dec_of(n)[i]) by {
            if i < dec_of(n / 10).len() {
                assert(dec_of(n)[i] == dec_of(n / 10)[i]);
            }
        }
        assert(dec_of(n)[0] == dec_of(n / 10)[0]);
    }
}

/// Parsing the canonical rendering gives back the number.
pub proof fn lemma_dec_val_of(n: nat)
    ensures
        dec_val(dec_of(n)) == n,
    decreases n,
{
    if n < 10 {
        assert(dec_of(n).drop_last() =~= Seq::<u8>::empty());
        assert(dec_val(Seq::<u8>::empty()) == 0);
        assert(dec_of(n).last() == (48 + n) as u8);
        assert(dec_val(dec_of(n)) == 0 * 10 + n);
    } else {
        lemma_dec_val_of(n / 10);
        assert(dec_of(n).drop_last() =~= dec_of(n / 10));
        assert(dec_of(n).last() == (48 + n % 10) as u8);
        assert(dec_val(dec_of(n)) == (n / 10) * 10 + n % 10);
    }
}

/// The value of a digit prefix never exceeds the value of the whole string.
pub proof fn lemma_dec_val_prefix(s: Seq<u8>, i: int)
    requires
        0 <= i <= s.len(),
    ensures
        dec_val(s.subrange(0, i)) <= dec_val(s),
    decreases s.len() - i,
{
    if i < s.len() {
        lemma_dec_val_prefix(s, i + 1);
        assert(s.subrange(0, i + 1).drop_last() =~= s.subrange(0, i));
        assert(dec_val(s.subrange(0, i + 1)) == dec_val(s.subrange(0, i)) * 10 + (if s[i] >= 48 {
            (s[i] - 48) as nat
        } else {
            0
        }));
    } else {
        assert(s.subrange(0, i) =~= s);
    }
}

/// Renders a natural number in decimal.
pub fn u64_to_dec(n: u64) -> (r: Vec<u8>)
    ensures
        r@ == dec_of(n as nat),
    decreases n,
{
    if n < 10 {
        let mut v: Vec<u8> = Vec::new();
        v.push(48 + n as u8);
        proof {
            assert(v@ =~= dec_of(n as nat));
        }
        v
    } else {
        let mut v = u64_to_dec(n / 10);
        v.push(48 + (n % 10) as u8);
        v
    }
}

/// Renders a signed integer in decimal, with a leading '-' when negative.
pub fn i64_to_dec(n: i64) -> (r: Vec<u8>)
    ensures
        r@ == dec_of_int(n as int),
{
    if n >= 0 {
        u64_to_dec(n as u64)
    } else {
        let abs: u64 = (-(n + 1)) as u64 + 1;
        assert(abs as int == -(n as int));
        let digits = u64_to_dec(abs);
        let mut v: Vec<u8> = Vec::new();
        v.push(45);
        let mut i: usize = 0;
        while i < digits.len()
            invariant
                0 <= i <= digits@.len(),
                v@ == seq![45u8] + digits@.subrange(0, i as int),
            decreases digits@.len() - i,
        {
            v.push(digits[i]);
            proof {
                assert(v@ =~= seq![45u8] + digits@.subrange(0, i + 1));
            }
            i = i + 1;
        }
        proof {
            assert(digits@.subrange(0, digits@.len() as int) =~= digits@);
        }
        v
    }
}

/// Parses a string of decimal digits as an unsigned 64-bit number.
/// Succeeds exactly on nonempty all-digit strings whose value fits.
pub fn parse_dec_u64(s: &[u8]) -> (r: Option<u64>)
    ensures
        r is Some <==> (s@.len() > 0 && all_dec_digits(s@) && dec_val(s@) <= u64::MAX),
        r is Some ==> r->0 as nat == dec_val(s@),
{
    if s.len() == 0 {
        return None;
    }
    let mut acc: u64 = 0;
    let mut i: usize = 0;
    while i < s.len()
        invariant
            0 <= i <= s@.len(),
            all_dec_digits(s@.subrange(0, i as int)),
            acc as nat == dec_val(s@.subrange(0, i as int)),
        decreases s@.len() - i,
    {
        let b = s[i];
        if b < 48 || b > 57 {
            return None;
        }
        let d = (b - 48) as u64;
        if acc > (u64::MAX - d) / 10 {
            proof {
                assert(s@.subrange(0, i + 1).drop_last() =~= s@.subrange(0, i as int));
                assert(dec_val(s@.subrange(0, i + 1)) == acc as nat * 10 + d as nat);
                assert(acc as nat * 10 + d as nat > u64::MAX) by (nonlinear_arith)
                    requires
                        acc as nat > ((u64::MAX - d) / 10) as nat,
                        d as nat <= 9,
                ;
                lemma_dec_val_prefix(s@, i + 1);
            }
            return None;
        }
        proof {
            assert(acc as nat * 10 + d as nat <= u64::MAX) by (nonlinear_arith)
                requires
                    acc as nat <= ((u64::MAX - d) / 10) as nat,
                    d as nat <= 9,
            ;
        }
        acc = acc * 10 + d;
        proof {
            assert(s@.subrange(0, i + 1).drop_last() =~= s@.subrange(0, i as int));
            assert(all_dec_digits(s@.subrange(0, i + 1)));
        }
        i = i + 1;
    }
    proof {
        assert(s@.subrange(0, s@.len() as int) =~= s@);
    }
    Some(acc)
}

/// Parses a signed decimal: an optional leading '-', then digits.
/// Succeeds exactly on valid strings whose value fits a 64-bit signed integer.
pub fn parse_dec_i64(s: &[u8]) -> (r: Option<i64>)
    ensures
        r is Some <==> (is_signed_dec(s@) && i64::MIN <= signed_dec_val(s@) <= i64::MAX),
        r is Some ==> r->0 as int == signed_dec_val(s@),
{
    if s.len() > 0 && s[0] == 45 {
        let rest = slice_drop_first(s);
        match parse_dec_u64(rest.as_slice()) {
            Some(v) => {
                if v <= i64::MAX as u64 {
                    Some(-(v as i64))
                } else if v == 9223372036854775808u64 {
                    Some(i64::MIN)
                } else {
                    None
                }
            },
            None => {
                proof {
                    if is_signed_dec(s@) {
                        assert(dec_val(s@.skip(1)) > u64::MAX);
                    }
                }
                None
            },
        }
    } else {
        match parse_dec_u64(s) {
            Some(v) => {
                if v <= i64::MAX as u64 {
                    Some(v as i64)
                } else {
                    None
                }
            },
            None => None,
        }
    }
}

/// The elements of a slice after its first.
fn slice_drop_first(s: &[u8]) -> (r: Vec<u8>)
    requires
        s@.len() >= 1,
    ensures
        r@ == s@.skip(1),
{
    let mut out: Vec<u8> = Vec::new();
    let mut i: usize = 1;
    while i < s.len()
        invariant
            1 <= i <= s@.len(),
            out@ == s@.subrange(1, i as int),
        decreases s@.len() - i,
    {
        out.push(s[i]);
        proof {
            assert(out@ =~= s@.subrange(1, i + 1));
        }
        i = i + 1;
    }
    proof {
        assert(s@.subrange(1, s@.len() as int) =~= s@.skip(1));
    }
    out
}


/// Parsing the signed rendering gives back the signed value.
pub proof fn lemma_signed_dec_round_trip(n: int)
    ensures
        is_signed_dec(dec_of_int(n)),
        signed_dec_val(dec_of_int(n)) == n,
{
    if n < 0 {
        let s = dec_of_int(n);
        lemma_dec_of_digits((-n) as nat);
        lemma_dec_val_of((-n) as nat);
        assert(s[0] == 45);
        assert(s.skip(1) =~= dec_of((-n) as nat));
        assert(all_dec_digits(s.skip(1)));
    } else {
        lemma_dec_of_digits(n as nat);
        lemma_dec_val_of(n as nat);
        assert(is_dec_digit(dec_of_int(n)[0]));
    }
}

} // verus!
