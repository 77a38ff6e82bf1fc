//! The trib record, user names, and the canonical order of posts.

use vstd::prelude::*;
use vstd::relations::{sorted_by, total_ordering};
use crate::digits::is_digit;
use crate::strutil::{dvs, eq_str, insertion_sort, lex_le, lex_lt, str_le};
use crate::strutil::{lemma_lex_asym, lemma_lex_total, lemma_lex_trans};

verus! {

/// Longest message a post may carry, in bytes.
pub const MAX_TRIB_LEN: usize = 140;

/// Most tribs a read returns; older ones are garbage collected.
pub const MAX_TRIB_FETCH: usize = 100;

/// Most users one user may follow at a time.
pub const MAX_FOLLOWING: usize = 2000;

/// How many user names a user listing shows.
pub const MIN_LIST_USER: usize = 20;

/// One post: who wrote it, what it says, when (wall clock seconds since
/// the epoch), and the logical clock value that orders it.
#[derive(Debug, Clone)]
pub struct Trib {
    pub user: String,
    pub message: String,
    pub time: u64,
    pub clock: u64,
}

/// The mathematical shadow of a [`Trib`].
pub ghost struct TribV {
    pub user: Seq<char>,
    pub message: Seq<char>,
    pub time: u64,
    pub clock: u64,
}

impl DeepView for Trib {
    type V = TribV;

    open spec fn deep_view(&self) -> TribV {
        TribV { user: self.user@, message: self.message@, time: self.time, clock: self.clock }
    }
}

/// Lowercase ASCII letter.
pub open spec fn is_lower(c: char) -> bool {
    97 <= (c as u32) <= 122
}

/// A valid user name: one to fifteen characters, starting with a lowercase
/// letter, holding only lowercase letters and digits.
pub open spec fn valid_username(s: Seq<char>) -> bool {
    &&& 1 <= s.len() <= 15
    &&& is_lower(s[0])
    &&& forall|k: int| 0 <= k < s.len() ==> is_lower(#[trigger] s[k]) || is_digit(s[k])
}

/// The characters of a valid user name are never separators.
pub proof fn lemma_username_chars(s: Seq<char>)
    requires
        valid_username(s),
    ensures
        forall|k: int| 0 <= k < s.len() ==> #[trigger] s[k] != ':' && s[k] != ' ',
{
}

/// Checks a user name at the service boundary.
pub fn is_valid_username(s: &str) -> (r: bool)
    ensures
        r == valid_username(s@),
{
    let len = s.unicode_len();
    if len < 1 || len > 15 {
        return false;
    }
    let first = s.get_char(0);
    let fu = first as u32;
    if fu < 97 || fu > 122 {
        return false;
    }
    let mut i: usize = 0;
    while i < len
        invariant
            i <= len,
            len == s@.len(),
            forall|k: int| 0 <= k < i ==> is_lower(#[trigger] s@[k]) || is_digit(s@[k]),
        decreases len - i,
    {
        let c = s.get_char(i);
        let u = c as u32;
        if !(97 <= u && u <= 122) && !(48 <= u && u <= 57) {
            proof {
                assert(!is_lower(s@[i as int]) && !is_digit(s@[i as int]));
            }
            return false;
        }
        i += 1;
    }
    true
}

/// The canonical (weak) total order on posts: by logical clock, then wall
/// time, then author, then message.
pub open spec fn trib_le(a: TribV, b: TribV) -> bool {
    if a.clock != b.clock {
        a.clock < b.clock
    } else if a.time != b.time {
        a.time < b.time
    } else if a.user != b.user {
        lex_lt(a.user, b.user)
    } else {
        lex_le(a.message, b.message)
    }
}

/// Strict part of [`trib_le`].
pub open spec fn trib_lt(a: TribV, b: TribV) -> bool {
    trib_le(a, b) && a != b
}

/// [`trib_le`] as a relation value, for use with `sort_by`.
pub open spec fn trib_le_f() -> spec_fn(TribV, TribV) -> bool {
    |a: TribV, b: TribV| trib_le(a, b)
}

/// The canonical order on posts is a total ordering.
pub proof fn lemma_trib_le_total_ordering()
    ensures
        total_ordering(trib_le_f()),
{
    let r = trib_le_f();
    assert forall|x: TribV, y: TribV| #[trigger] r(x, y) && #[trigger] r(y, x) implies x == y by {
        lemma_lex_asym(x.user, y.user);
        lemma_lex_asym(x.message, y.message);
    }
    assert forall|x: TribV, y: TribV, z: TribV|
        #[trigger] r(x, y) && #[trigger] r(y, z) implies r(x, z) by {
        if x.clock == y.clock && y.clock == z.clock && x.time == y.time && y.time == z.time {
            if x.user != y.user && y.user != z.user {
                lemma_lex_trans(x.user, y.user, z.user);
                lemma_lex_asym(x.user, y.user);
                if x.user == z.user {
                    lemma_lex_asym(x.user, y.user);
                    assert(lex_lt(x.user, y.user) && lex_lt(y.user, x.user));
                }
            }
            if x.user == y.user && y.user == z.user && x.message != y.message && y.message
                != z.message {
                lemma_lex_trans(x.message, y.message, z.message);
            }
        }
    }
    assert forall|x: TribV, y: TribV| #[trigger] r(x, y) || #[trigger] r(y, x) by {
        if x.clock == y.clock && x.time == y.time {
            if x.user != y.user {
                lemma_lex_total(x.user, y.user);
            } else {
                lemma_lex_total(x.message, y.message);
            }
        }
    }
}

/// Compares two posts in the canonical order.
pub fn sort_trib(a: &Trib, b: &Trib) -> (r: core::cmp::Ordering)
    ensures
        (r == core::cmp::Ordering::Less) == trib_lt(a.deep_view(), b.deep_view()),
        (r == core::cmp::Ordering::Equal) == (a.deep_view() == b.deep_view()),
        (r == core::cmp::Ordering::Greater) == trib_lt(b.deep_view(), a.deep_view()),
{
    let av = Ghost(a.deep_view());
    let bv = Ghost(b.deep_view());
    proof {
        lemma_lex_asym(a.user@, b.user@);
        lemma_lex_asym(a.message@, b.message@);
        lemma_lex_total(a.user@, b.user@);
        lemma_lex_total(a.message@, b.message@);
    }
    if a.clock < b.clock {
        core::cmp::Ordering::Less
    } else if a.clock > b.clock {
        core::cmp::Ordering::Greater
    } else if a.time < b.time {
        core::cmp::Ordering::Less
    } else if a.time > b.time {
        core::cmp::Ordering::Greater
    } else if !eq_str(a.user.as_str(), b.user.as_str()) {
        if str_le(a.user.as_str(), b.user.as_str()) {
            core::cmp::Ordering::Less
        } else {
            core::cmp::Ordering::Greater
        }
    } else if !eq_str(a.message.as_str(), b.message.as_str()) {
        if str_le(a.message.as_str(), b.message.as_str()) {
            core::cmp::Ordering::Less
        } else {
            core::cmp::Ordering::Greater
        }
    } else {
        core::cmp::Ordering::Equal
    }
}

/// Compares two posts: not-after in the canonical order.
pub fn trib_le_exec(a: &Trib, b: &Trib) -> (r: bool)
    ensures
        r == trib_le(a.deep_view(), b.deep_view()),
{
    let ord = sort_trib(a, b);
    proof {
        lemma_trib_le_total_ordering();
        if trib_lt(b.deep_view(), a.deep_view()) && trib_le(a.deep_view(), b.deep_view()) {
            assert(a.deep_view() == b.deep_view());
        }
        if !trib_lt(b.deep_view(), a.deep_view()) && a.deep_view() != b.deep_view()
            && !trib_lt(a.deep_view(), b.deep_view()) {
            assert(trib_le(a.deep_view(), b.deep_view()) || trib_le(
                b.deep_view(),
                a.deep_view(),
            ));
        }
    }
    match ord {
        core::cmp::Ordering::Greater => false,
        _ => true,
    }
}

/// Sorts posts into the canonical order.
pub fn sort_tribs(v: &mut Vec<Trib>)
    ensures
        final(v)@.len() == old(v)@.len(),
        sorted_by(dvs(final(v)@), trib_le_f()),
        dvs(final(v)@).to_multiset() == dvs(old(v)@).to_multiset(),
        dvs(final(v)@) == dvs(old(v)@).sort_by(trib_le_f()),
{
    proof {
        lemma_trib_le_total_ordering();
    }
    let le = |x: &Trib, y: &Trib| -> (r: bool)
        ensures
            r == trib_le(x.deep_view(), y.deep_view()),
        { trib_le_exec(x, y) };
    insertion_sort::<Trib, _>(v, Ghost(trib_le_f()), le);
}

} // verus!
