//! Decimal rendering and parsing of counters.
//!
//! Logical clock values are written into log entries and stored tribs in
//! their canonical decimal form (no leading zeros).  The rendering is
//! injective, which is what lets a replay recognise its own log entry.

use vstd::prelude::*;
use crate::strutil::push_char;

verus! {

/// The character for one decimal digit.
pub open spec fn digit_char(d: nat) -> char {
    if d == 0 {
        '0'
    } else if d == 1 {
        '1'
    } else if d == 2 {
        '2'
    } else if d == 3 {
        '3'
    } else if d == 4 {
        '4'
    } else if d == 5 {
        '5'
    } else if d == 6 {
        '6'
    } else if d == 7 {
        '7'
    } else if d == 8 {
        '8'
    } else {
        '9'
    }
}

/// Whether `c` is a decimal digit.
pub open spec fn is_digit(c: char) -> bool {
    48 <= (c as u32) <= 57
}

/// The numeric value of a digit character.
pub open spec fn digit_val(c: char) -> nat {
    ((c as u32) - 48) as nat
}

/// The canonical decimal rendering of `n`.
pub open spec fn spec_dec(n: nat) -> Seq<char>
    decreases n,
{
    if n < 10 {
        seq![digit_char(n)]
    } else {
        spec_dec(n / 10) + seq![digit_char(n % 10)]
    }
}

/// The value of a digit string, most significant digit first.
pub open spec fn digits_val(s: Seq<char>) -> nat
    decreases s.len(),
{
    if s.len() == 0 {
        0
    } else {
        digits_val(s.drop_last()) * 10 + digit_val(s.last())
    }
}

/// A decimal rendering is never empty and holds digits only.
pub proof fn lemma_dec_shape(n: nat)
    ensures
        spec_dec(n).len() >= 1,
        forall|k: int| 0 <= k < spec_dec(n).len() ==> is_digit(#[trigger] spec_dec(n)[k]),
        is_digit(spec_dec(n)[0]),
    decreases n,
{
    if n < 10 {
        assert(is_digit(digit_char(n)));
    } else {
        lemma_dec_shape(n / 10);
        assert(is_digit(digit_char(n % 10)));
    }
}

/// Reading a canonical rendering back gives the value it was made from.
pub proof fn lemma_dec_val(n: nat)
    ensures
        digits_val(spec_dec(n)) == n,
    decreases n,
{
    if n < 10 {
        let s = spec_dec(n);
        assert(s.len() == 1);
        assert(s.last() == digit_char(n));
        assert(s.drop_last() =~= Seq::empty());
        assert(digits_val(s.drop_last()) == 0);
        assert(digits_val(s) == digits_val(s.drop_last()) * 10 + digit_val(s.last()));
        assert(digit_val(digit_char(n)) == n);
    } else {
        lemma_dec_val(n / 10);
        let s = spec_dec(n);
        assert(s.drop_last() =~= spec_dec(n / 10));
        assert(s.last() == digit_char(n % 10));
        assert(digit_val(digit_char(n % 10)) == n % 10);
        assert(digits_val(s) == digits_val(s.drop_last()) * 10 + digit_val(s.last()));
        assert(digits_val(s.drop_last()) == n / 10);
        assert((n / 10) * 10 + (n % 10) == n) by {
            vstd::arithmetic::div_mod::lemma_fundamental_div_mod(n as int, 10);
        }
    }
}

/// Two values with the same rendering are the same value.
pub proof fn lemma_dec_injective(m: nat, n: nat)
    requires
        spec_dec(m) == spec_dec(n),
    ensures
        m == n,
{
    lemma_dec_val(m);
    lemma_dec_val(n);
}

/// The value of a digit string grows (weakly) with each appended digit.
pub proof fn lemma_digits_val_prefix(s: Seq<char>, k: int)
    requires
        0 <= k <= s.len(),
    ensures
        digits_val(s.take(k)) <= digits_val(s),
    decreases s.len() - k,
{
    if k == s.len() {
        assert(s.take(k) =~= s);
    } else {
        lemma_digits_val_prefix(s, k + 1);
        assert(s.take(k + 1).drop_last() =~= s.take(k));
        assert(s.take(k + 1).last() == s[k]);
        assert(digits_val(s.take(k + 1)) == digits_val(s.take(k)) * 10 + digit_val(s[k]));
    }
}

/// Powers of ten.
pub open spec fn pow10(k: nat) -> nat
    decreases k,
{
    if k == 0 {
        1
    } else {
        10 * pow10((k - 1) as nat)
    }
}

/// A value below the `k`-th power of ten renders in at most `k` digits.
pub proof fn lemma_dec_len(n: nat, k: nat)
    requires
        1 <= k,
        n < pow10(k),
    ensures
        spec_dec(n).len() <= k,
    decreases k,
{
    if n < 10 {
    } else {
        assert(k >= 2) by {
            if k == 1 {
                assert(pow10(1) == 10);
            }
        }
        assert(n / 10 < pow10((k - 1) as nat)) by {
            assert(pow10(k) == 10 * pow10((k - 1) as nat));
        }
        lemma_dec_len(n / 10, (k - 1) as nat);
    }
}

/// No 64-bit counter needs more than twenty digits.
pub proof fn lemma_dec_len_u64(n: u64)
    ensures
        spec_dec(n as nat).len() <= 20,
{
    reveal_with_fuel(pow10, 21);
    assert(pow10(20) == 100000000000000000000);
    lemma_dec_len(n as nat, 20);
}

fn digit_char_of(d: u64) -> (c: char)
    requires
        d < 10,
    ensures
        c == digit_char(d as nat),
{
    if d == 0 {
        '0'
    } else if d == 1 {
        '1'
    } else if d == 2 {
        '2'
    } else if d == 3 {
        '3'
    } else if d == 4 {
        '4'
    } else if d == 5 {
        '5'
    } else if d == 6 {
        '6'
    } else if d == 7 {
        '7'
    } else if d == 8 {
        '8'
    } else {
        '9'
    }
}

/// Renders `n` in its canonical decimal form.
pub fn dec_u64(n: u64) -> (r: String)
    ensures
        r@ == spec_dec(n as nat),
    decreases n,
{
    if n < 10 {
        let mut r = String::new();
        push_char(&mut r, digit_char_of(n));
        proof {
            assert(r@ =~= spec_dec(n as nat));
        }
        r
    } else {
        let mut r = dec_u64(n / 10);
        push_char(&mut r, digit_char_of(n % 10));
        proof {
            assert(r@ =~= spec_dec((n / 10) as nat) + seq![digit_char((n % 10) as nat)]);
            assert((n as nat) / 10 == (n / 10) as nat);
            assert((n as nat) % 10 == (n % 10) as nat);
        }
        r
    }
}

/// Reads a digit string back into a value.
///
/// On the canonical rendering of any `u64` this succeeds with that value;
/// anything empty, non-digit, or too large gives `None`.
pub fn parse_u64(s: &str) -> (r: Option<u64>)
    ensures
        (s@.len() > 0 && (forall|k: int| 0 <= k < s@.len() ==> is_digit(#[trigger] s@[k]))
            && digits_val(s@) <= u64::MAX) ==> r == Some((digits_val(s@) as u64)),
        forall|v: u64| s@ == spec_dec(v as nat) ==> r == Some(v),
{
    let ghost good = s@.len() > 0 && (forall|k: int| 0 <= k < s@.len() ==> is_digit(#[trigger] s@[k]))
        && digits_val(s@) <= u64::MAX;
    let len = s.unicode_len();
    if len == 0 {
        proof {
            assert forall|v: u64| s@ == spec_dec(v as nat) implies false by {
                lemma_dec_shape(v as nat);
            }
        }
        return None;
    }
    let mut acc: u64 = 0;
    let mut i: usize = 0;
    while i < len
        invariant
            i <= len,
            len == s@.len(),
            len > 0,
            good ==> acc == digits_val(s@.take(i as int)),
            good == (s@.len() > 0 && (forall|k: int|
                0 <= k < s@.len() ==> is_digit(#[trigger] s@[k])) && digits_val(s@) <= u64::MAX),
        decreases len - i,
    {
        let c = s.get_char(i);
        let u = c as u32;
        if u < 48 || u > 57 {
            proof {
                assert(!is_digit(s@[i as int]));
                assert forall|v: u64| s@ == spec_dec(v as nat) implies false by {
                    lemma_dec_shape(v as nat);
                }
            }
            return None;
        }
        let d = (u - 48) as u64;
        proof {
            if good {
                assert(s@.take(i + 1).drop_last() =~= s@.take(i as int));
                assert(s@.take(i + 1).last() == s@[i as int]);
                assert(digits_val(s@.take(i + 1)) == digits_val(s@.take(i as int)) * 10
                    + digit_val(s@[i as int]));
                lemma_digits_val_prefix(s@, i + 1);
            }
        }
        let step = match acc.checked_mul(10) {
            Some(m) => m.checked_add(d),
            None => None,
        };
        match step {
            Some(next) => {
                acc = next;
            },
            None => {
                proof {
                    assert(!good);
                    assert forall|v: u64| s@ == spec_dec(v as nat) implies false by {
                        lemma_dec_shape(v as nat);
                        lemma_dec_val(v as nat);
                    }
                }
                return None;
            },
        }
        i += 1;
    }
    proof {
        if good {
            assert(s@.take(len as int) =~= s@);
        }
        assert forall|v: u64| s@ == spec_dec(v as nat) implies Some(acc) == Some(v) by {
            lemma_dec_shape(v as nat);
            lemma_dec_val(v as nat);
        }
    }
    Some(acc)
}

} // verus!
