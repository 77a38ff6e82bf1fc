//! Canonical text form of a trib, as stored in a back-end list.
//!
//! A trib is stored as `<clock> <time> <user> <message>`: the two counters
//! in canonical decimal, then the author, then the message, separated by
//! single spaces.  The first three fields never hold a space, so the first
//! three spaces of an entry locate every field, and the message (which may
//! hold anything, spaces included) is simply the rest.  On well-formed
//! tribs the encoding is injective, and decoding inverts it exactly.

use vstd::prelude::*;
use crate::digits::{dec_u64, is_digit, lemma_dec_shape, parse_u64, spec_dec};
use crate::trib::{valid_username, Trib, TribV};

verus! {

/// The stored form of a trib.
pub open spec fn spec_encode_trib(t: TribV) -> Seq<char> {
    spec_dec(t.clock as nat) + seq![' '] + spec_dec(t.time as nat) + seq![' '] + t.user + seq![' ']
        + t.message
}

/// Where each field of an encoded trib lies, and that the three fields
/// before the message never hold a space.
pub proof fn lemma_encode_layout(t: TribV)
    requires
        valid_username(t.user),
    ensures
        ({
            let s = spec_encode_trib(t);
            let la = spec_dec(t.clock as nat).len() as int;
            let lb = spec_dec(t.time as nat).len() as int;
            let lu = t.user.len() as int;
            &&& s.len() == la + lb + lu + 3 + t.message.len()
            &&& la >= 1 && lb >= 1 && lu >= 1
            &&& s.subrange(0, la) == spec_dec(t.clock as nat)
            &&& s[la] == ' '
            &&& s.subrange(la + 1, la + 1 + lb) == spec_dec(t.time as nat)
            &&& s[la + 1 + lb] == ' '
            &&& s.subrange(la + lb + 2, la + lb + 2 + lu) == t.user
            &&& s[la + lb + 2 + lu] == ' '
            &&& s.subrange(la + lb + lu + 3, s.len() as int) == t.message
            &&& forall|k: int| 0 <= k < la ==> #[trigger] s[k] != ' '
            &&& forall|k: int| la + 1 <= k < la + 1 + lb ==> #[trigger] s[k] != ' '
            &&& forall|k: int| la + lb + 2 <= k < la + lb + 2 + lu ==> #[trigger] s[k] != ' '
        }),
{
    let s = spec_encode_trib(t);
    let a = spec_dec(t.clock as nat);
    let b = spec_dec(t.time as nat);
    let la = a.len() as int;
    let lb = b.len() as int;
    let lu = t.user.len() as int;
    lemma_dec_shape(t.clock as nat);
    lemma_dec_shape(t.time as nat);
    assert(s.subrange(0, la) =~= a);
    assert(s.subrange(la + 1, la + 1 + lb) =~= b);
    assert(s.subrange(la + lb + 2, la + lb + 2 + lu) =~= t.user);
    assert(s.subrange(la + lb + lu + 3, s.len() as int) =~= t.message);
    assert forall|k: int| 0 <= k < la implies #[trigger] s[k] != ' ' by {
        assert(s[k] == a[k]);
        assert(is_digit(a[k]));
    }
    assert forall|k: int| la + 1 <= k < la + 1 + lb implies #[trigger] s[k] != ' ' by {
        assert(s[k] == b[k - la - 1]);
        assert(is_digit(b[k - la - 1]));
    }
    assert forall|k: int| la + lb + 2 <= k < la + lb + 2 + lu implies #[trigger] s[k] != ' ' by {
        assert(s[k] == t.user[k - la - lb - 2]);
        crate::trib::lemma_username_chars(t.user);
    }
}

/// Two well-formed tribs with the same stored form are the same trib.
pub proof fn lemma_encode_injective(t1: TribV, t2: TribV)
    requires
        valid_username(t1.user),
        valid_username(t2.user),
        spec_encode_trib(t1) == spec_encode_trib(t2),
    ensures
        t1 == t2,
{
    let s = spec_encode_trib(t1);
    lemma_encode_layout(t1);
    lemma_encode_layout(t2);
    let la1 = spec_dec(t1.clock as nat).len() as int;
    let la2 = spec_dec(t2.clock as nat).len() as int;
    assert(la1 == la2) by {
        if la1 < la2 {
            assert(s[la1] == ' ');
            assert(s[la1] != ' ');
        }
        if la2 < la1 {
            assert(s[la2] == ' ');
            assert(s[la2] != ' ');
        }
    }
    assert(spec_dec(t1.clock as nat) == spec_dec(t2.clock as nat));
    crate::digits::lemma_dec_injective(t1.clock as nat, t2.clock as nat);
    let lb1 = spec_dec(t1.time as nat).len() as int;
    let lb2 = spec_dec(t2.time as nat).len() as int;
    assert(lb1 == lb2) by {
        if lb1 < lb2 {
            assert(s[la1 + 1 + lb1] == ' ');
            assert(s[la1 + 1 + lb1] != ' ');
        }
        if lb2 < lb1 {
            assert(s[la1 + 1 + lb2] == ' ');
            assert(s[la1 + 1 + lb2] != ' ');
        }
    }
    assert(spec_dec(t1.time as nat) == spec_dec(t2.time as nat));
    crate::digits::lemma_dec_injective(t1.time as nat, t2.time as nat);
    let lu1 = t1.user.len() as int;
    let lu2 = t2.user.len() as int;
    assert(lu1 == lu2) by {
        if lu1 < lu2 {
            assert(s[la1 + lb1 + 2 + lu1] == ' ');
            assert(s[la1 + lb1 + 2 + lu1] != ' ');
        }
        if lu2 < lu1 {
            assert(s[la1 + lb1 + 2 + lu2] == ' ');
            assert(s[la1 + lb1 + 2 + lu2] != ' ');
        }
    }
    assert(t1.user == t2.user);
    assert(t1.message == t2.message);
}

/// Writes the stored form of a trib.
pub fn encode_trib(t: &Trib) -> (r: String)
    ensures
        r@ == spec_encode_trib(t.deep_view()),
{
    let mut r = dec_u64(t.clock);
    crate::strutil::push_char(&mut r, ' ');
    let ts = dec_u64(t.time);
    r.append(ts.as_str());
    crate::strutil::push_char(&mut r, ' ');
    r.append(t.user.as_str());
    crate::strutil::push_char(&mut r, ' ');
    r.append(t.message.as_str());
    proof {
        assert(r@ =~= spec_encode_trib(t.deep_view()));
    }
    r
}

/// Position of the first `c` in `s` at or after `from` (or the length).
fn find_char(s: &str, from: usize, c: char) -> (r: usize)
    requires
        from <= s@.len(),
    ensures
        from <= r <= s@.len(),
        forall|k: int| from <= k < r ==> #[trigger] s@[k] != c,
        r < s@.len() ==> s@[r as int] == c,
{
    let len = s.unicode_len();
    let mut i: usize = from;
    while i < len
        invariant
            from <= i <= len,
            len == s@.len(),
            forall|k: int| from <= k < i ==> #[trigger] s@[k] != c,
        decreases len - i,
    {
        if s.get_char(i) == c {
            return i;
        }
        i += 1;
    }
    i
}

/// Pins a first-occurrence scan to the separator the layout promises.
proof fn lemma_pin(s: Seq<char>, from: int, r: int, sep: int, c: char)
    requires
        from <= r <= s.len(),
        forall|k: int| from <= k < r ==> #[trigger] s[k] != c,
        r < s.len() ==> s[r] == c,
        from <= sep < s.len(),
        forall|k: int| from <= k < sep ==> #[trigger] s[k] != c,
        s[sep] == c,
    ensures
        r == sep,
{
    if r < sep {
        assert(s[r] != c);
    }
    if r > sep {
        assert(s[sep] != c);
    }
}

/// What it means for a decode result to name the trib `t`.
pub open spec fn decoded_as(r: Option<Trib>, t: TribV) -> bool {
    match r {
        Some(x) => x.deep_view() == t,
        None => false,
    }
}

/// Reads a stored trib back.
///
/// On the stored form of any well-formed trib this returns that trib.
pub fn decode_trib(s: &str) -> (r: Option<Trib>)
    ensures
        forall|t: TribV|
            valid_username(t.user) && s@ == spec_encode_trib(t) ==> #[trigger] decoded_as(r, t),
{
    let len = s.unicode_len();
    let i = find_char(s, 0, ' ');
    if i == 0 || i >= len {
        proof {
            assert forall|t: TribV|
                valid_username(t.user) && s@ == spec_encode_trib(t) implies #[trigger] decoded_as(
                None,
                t,
            ) by {
                lemma_encode_layout(t);
                let la = spec_dec(t.clock as nat).len() as int;
                lemma_pin(s@, 0, i as int, la, ' ');
            }
        }
        return None;
    }
    let clock_str = s.substring_char(0, i);
    let clock_opt = parse_u64(clock_str);
    let clock = match clock_opt {
        Some(v) => v,
        None => {
            proof {
                assert forall|t: TribV|
                    valid_username(t.user) && s@ == spec_encode_trib(t) implies #[trigger] decoded_as(
                    None,
                    t,
                ) by {
                    lemma_encode_layout(t);
                    let la = spec_dec(t.clock as nat).len() as int;
                    lemma_pin(s@, 0, i as int, la, ' ');
                    assert(clock_str@ == spec_dec(t.clock as nat));
                }
            }
            return None;
        },
    };
    let j = find_char(s, i + 1, ' ');
    if j == i + 1 || j >= len {
        proof {
            assert forall|t: TribV|
                valid_username(t.user) && s@ == spec_encode_trib(t) implies #[trigger] decoded_as(
                None,
                t,
            ) by {
                lemma_encode_layout(t);
                let la = spec_dec(t.clock as nat).len() as int;
                let lb = spec_dec(t.time as nat).len() as int;
                lemma_pin(s@, 0, i as int, la, ' ');
                lemma_pin(s@, la + 1, j as int, la + 1 + lb, ' ');
            }
        }
        return None;
    }
    let time_str = s.substring_char(i + 1, j);
    let time_opt = parse_u64(time_str);
    let time = match time_opt {
        Some(v) => v,
        None => {
            proof {
                assert forall|t: TribV|
                    valid_username(t.user) && s@ == spec_encode_trib(t) implies #[trigger] decoded_as(
                    None,
                    t,
                ) by {
                    lemma_encode_layout(t);
                    let la = spec_dec(t.clock as nat).len() as int;
                    let lb = spec_dec(t.time as nat).len() as int;
                    lemma_pin(s@, 0, i as int, la, ' ');
                    lemma_pin(s@, la + 1, j as int, la + 1 + lb, ' ');
                    assert(time_str@ == spec_dec(t.time as nat));
                }
            }
            return None;
        },
    };
    let k = find_char(s, j + 1, ' ');
    if k == j + 1 || k >= len {
        proof {
            assert forall|t: TribV|
                valid_username(t.user) && s@ == spec_encode_trib(t) implies #[trigger] decoded_as(
                None,
                t,
            ) by {
                lemma_encode_layout(t);
                let la = spec_dec(t.clock as nat).len() as int;
                let lb = spec_dec(t.time as nat).len() as int;
                let lu = t.user.len() as int;
                lemma_pin(s@, 0, i as int, la, ' ');
                lemma_pin(s@, la + 1, j as int, la + 1 + lb, ' ');
                lemma_pin(s@, la + lb + 2, k as int, la + lb + 2 + lu, ' ');
            }
        }
        return None;
    }
    let user = s.substring_char(j + 1, k).to_owned();
    let message = s.substring_char(k + 1, len).to_owned();
    let out = Trib { user, message, time, clock };
    proof {
        assert forall|t: TribV|
            valid_username(t.user) && s@ == spec_encode_trib(t) implies #[trigger] decoded_as(
            Some(out),
            t,
        ) by {
            lemma_encode_layout(t);
            let la = spec_dec(t.clock as nat).len() as int;
            let lb = spec_dec(t.time as nat).len() as int;
            let lu = t.user.len() as int;
            lemma_pin(s@, 0, i as int, la, ' ');
            lemma_pin(s@, la + 1, j as int, la + 1 + lb, ' ');
            lemma_pin(s@, la + lb + 2, k as int, la + lb + 2 + lu, ' ');
            assert(clock_str@ == spec_dec(t.clock as nat));
            assert(time_str@ == spec_dec(t.time as nat));
            assert(clock == t.clock && time == t.time);
            assert(out.user@ == t.user);
            assert(out.message@ == t.message);
        }
    }
    Some(out)
}

} // verus!
