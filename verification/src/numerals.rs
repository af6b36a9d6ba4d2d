//! Decimal numerals: the value of a digit string, the canonical digit string
//! of a number, formatting, and overflow-aware parsing.

use vstd::prelude::*;

use crate::bytes::all_digits;
use crate::bytes::is_digit;

verus! {

/// Value of a digit string read in base ten (0 for the empty string).
pub open spec fn digits_val(s: Seq<u8>) -> int
    decreases s.len(),
{
    if s.len() == 0 {
        0
    } else {
        digits_val(s.drop_last()) * 10 + (s.last() - 48)
    }
}

/// Canonical decimal digit string of `n`, most significant digit first.
pub open spec fn dec_digits(n: nat) -> Seq<u8>
    decreases n,
{
    if n < 10 {
        seq![(n + 48) as u8]
    } else {
        dec_digits(n / 10).push((n % 10 + 48) as u8)
    }
}

/// A token parses as an index when it is non-empty, all digits, and its
/// value fits the machine's word.
pub open spec fn token_parses(tok: Seq<u8>) -> bool {
    tok.len() > 0 && all_digits(tok) && digits_val(tok) <= usize::MAX as int
}

/// The value of an all-digit string is non-negative.
pub proof fn lemma_digits_val_nonneg(s: Seq<u8>)
    requires
        all_digits(s),
    ensures
        digits_val(s) >= 0,
    decreases s.len(),
{
    if s.len() > 0 {
        assert(all_digits(s.drop_last()));
        lemma_digits_val_nonneg(s.drop_last());
        assert(is_digit(s.last()));
    }
}

/// Extending an all-digit string to the right never shrinks its value.
pub proof fn lemma_digits_val_prefix_le(s: Seq<u8>, j: int)
    requires
        all_digits(s),
        0 <= j <= s.len(),
    ensures
        digits_val(s.take(j)) <= digits_val(s),
    decreases s.len() - j,
{
    if j < s.len() {
        let p = s.take(j);
        let q = s.take(j + 1);
        assert(q.drop_last() =~= p);
        assert(q.last() == s[j]);
        assert(all_digits(p));
        lemma_digits_val_nonneg(p);
        assert(is_digit(s[j]));
        assert(digits_val(q) == digits_val(p) * 10 + (s[j] - 48));
        assert(digits_val(p) * 10 >= digits_val(p)) by (nonlinear_arith)
            requires
                digits_val(p) >= 0,
        ;
        lemma_digits_val_prefix_le(s, j + 1);
    } else {
        assert(s.take(j) =~= s);
    }
}

/// The canonical digit string of `n` is non-empty and all digits.
pub proof fn lemma_dec_digits_are_digits(n: nat)
    ensures
        dec_digits(n).len() >= 1,
        all_digits(dec_digits(n)),
    decreases n,
{
    if n >= 10 {
        lemma_dec_digits_are_digits(n / 10);
        let d = dec_digits(n / 10);
        let e = dec_digits(n);
        assert(e == d.push((n % 10 + 48) as u8));
        assert forall|i: int| 0 <= i < e.len() implies is_digit(e[i]) by {
            if i < d.len() {
                assert(e[i] == d[i]);
            }
        }
    }
}

/// Reading back the canonical digit string of `n` gives `n`.
pub proof fn lemma_dec_digits_val(n: nat)
    ensures
        digits_val(dec_digits(n)) == n,
    decreases n,
{
    if n < 10 {
        assert(dec_digits(n) == seq![(n + 48) as u8]);
        assert(dec_digits(n).drop_last() =~= Seq::<u8>::empty());
        assert(digits_val(Seq::<u8>::empty()) == 0);
        assert(dec_digits(n).last() == (n + 48) as u8);
        assert((n + 48) as u8 == n + 48);
    } else {
        lemma_dec_digits_val(n / 10);
        let d = dec_digits(n / 10);
        let e = dec_digits(n);
        assert(e.drop_last() =~= d);
        assert(e.last() == (n % 10 + 48) as u8);
        assert(n % 10 < 10);
        assert((n % 10 + 48) as u8 == n % 10 + 48);
        assert(digits_val(e) == digits_val(d) * 10 + (n % 10 + 48 - 48));
        assert(digits_val(e) == (n / 10) * 10 + n % 10);
        assert((n / 10) * 10 + n % 10 == n) by (nonlinear_arith);
    }
}

/// Formats `n` in decimal.
pub fn fmt_usize(n: usize) -> (r: Vec<u8>)
    ensures
        r@ == dec_digits(n as nat),
    decreases n,
{
    if n < 10 {
        let mut r: Vec<u8> = Vec::new();
        r.push((n as u8) + 48);
        proof {
            assert(r@ =~= seq![(n + 48) as u8]);
        }
        r
    } else {
        let mut r = fmt_usize(n / 10);
        r.push(((n % 10) as u8) + 48);
        proof {
            assert(r@ =~= dec_digits((n / 10) as nat).push((n as nat % 10 + 48) as u8));
        }
        r
    }
}

/// Parses an all-digit token as an index value; `None` when the token is
/// empty, holds a non-digit, or its value overflows the machine's word.
pub fn parse_index_token(tok: &Vec<u8>) -> (r: Option<usize>)
    ensures
        r is Some <==> token_parses(tok@),
        r matches Some(n) ==> digits_val(tok@) == n as int,
{
    let len = tok.len();
    if len == 0 {
        return None;
    }
    let mut val: usize = 0;
    let mut i: usize = 0;
    proof {
        assert(tok@.take(0) =~= Seq::<u8>::empty());
    }
    while i < len
        invariant
            i <= len == tok@.len(),
            all_digits(tok@.take(i as int)),
            val as int == digits_val(tok@.take(i as int)),
        decreases len - i,
    {
        let b = tok[i];
        proof {
            assert(tok@.take(i + 1).drop_last() =~= tok@.take(i as int));
            assert(tok@.take(i + 1).last() == tok@[i as int]);
        }
        if !(48 <= b && b <= 57) {
            assert(!is_digit(tok@[i as int]));
            return None;
        }
        let d = (b - 48) as usize;
        let stepped = match val.checked_mul(10) {
            Some(m) => m.checked_add(d),
            None => None,
        };
        match stepped {
            Some(next) => {
                val = next;
                i = i + 1;
            },
            None => {
                proof {
                    assert(digits_val(tok@.take(i + 1)) > usize::MAX as int);
                    if all_digits(tok@) {
                        lemma_digits_val_prefix_le(tok@, i + 1);
                        assert(tok@.take(len as int) =~= tok@);
                    }
                }
                return None;
            },
        }
    }
    proof {
        assert(tok@.take(len as int) =~= tok@);
    }
    Some(val)
}

} // verus!
