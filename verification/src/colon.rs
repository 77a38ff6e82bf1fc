//! Colon escaping for physical key names.
//!
//! A bin maps a logical key `k` to the physical key
//! `escape(user) + "::" + escape(k)`.  Escaping doubles every colon, so the
//! separator `"::"` written between the two escaped parts can always be
//! found again, and the transform is reversible.

use vstd::prelude::*;
use crate::strutil::push_char;

verus! {

/// Every `:` in the input is doubled.
pub open spec fn spec_escape(s: Seq<char>) -> Seq<char>
    decreases s.len(),
{
    if s.len() == 0 {
        Seq::empty()
    } else if s[0] == ':' {
        seq![':', ':'] + spec_escape(s.skip(1))
    } else {
        seq![s[0]] + spec_escape(s.skip(1))
    }
}

/// Every `::` pair in the input collapses to a single `:`.
pub open spec fn spec_unescape(s: Seq<char>) -> Seq<char>
    decreases s.len(),
{
    if s.len() == 0 {
        Seq::empty()
    } else if s.len() >= 2 && s[0] == ':' && s[1] == ':' {
        seq![':'] + spec_unescape(s.skip(2))
    } else {
        seq![s[0]] + spec_unescape(s.skip(1))
    }
}

/// Escaping never loses information: unescaping an escaped string gives
/// the original back, whatever characters it held.
pub proof fn lemma_unescape_escape(s: Seq<char>)
    ensures
        spec_unescape(spec_escape(s)) == s,
    decreases s.len(),
{
    if s.len() == 0 {
        assert(spec_unescape(spec_escape(s)) =~= s);
    } else {
        lemma_unescape_escape(s.skip(1));
        if s[0] == ':' {
            let e = seq![':', ':'] + spec_escape(s.skip(1));
            assert(spec_escape(s) == e);
            assert(e.len() >= 2 && e[0] == ':' && e[1] == ':');
            assert(e.skip(2) =~= spec_escape(s.skip(1)));
            assert(spec_unescape(e) == seq![':'] + spec_unescape(spec_escape(s.skip(1))));
            assert(seq![':'] + s.skip(1) =~= s);
        } else {
            let e = seq![s[0]] + spec_escape(s.skip(1));
            assert(spec_escape(s) == e);
            assert(e[0] != ':');
            assert(e.skip(1) =~= spec_escape(s.skip(1)));
            assert(spec_unescape(e) == seq![s[0]] + spec_unescape(spec_escape(s.skip(1))));
            assert(seq![s[0]] + s.skip(1) =~= s);
        }
    }
}

/// A string without colons escapes to itself.
pub proof fn lemma_escape_colon_free(s: Seq<char>)
    requires
        forall|k: int| 0 <= k < s.len() ==> s[k] != ':',
    ensures
        spec_escape(s) == s,
    decreases s.len(),
{
    if s.len() == 0 {
        assert(spec_escape(s) =~= s);
    } else {
        lemma_escape_colon_free(s.skip(1));
        assert(seq![s[0]] + s.skip(1) =~= s);
    }
}

/// Doubles every colon of `s`.
pub fn escape(s: &str) -> (r: String)
    ensures
        r@ == spec_escape(s@),
{
    let len = s.unicode_len();
    let mut out = String::new();
    let mut i: usize = 0;
    proof {
        assert(s@.skip(0) =~= s@);
        assert(out@ + spec_escape(s@) =~= spec_escape(s@));
    }
    while i < len
        invariant
            i <= len,
            len == s@.len(),
            out@ + spec_escape(s@.skip(i as int)) == spec_escape(s@),
        decreases len - i,
    {
        let c = s.get_char(i);
        let ghost rest = s@.skip(i as int);
        proof {
            assert(rest[0] == s@[i as int]);
            assert(rest.skip(1) =~= s@.skip(i + 1));
        }
        if c == ':' {
            push_char(&mut out, ':');
            push_char(&mut out, ':');
            proof {
                assert(spec_escape(rest) == seq![':', ':'] + spec_escape(s@.skip(i + 1)));
                assert(out@ + spec_escape(s@.skip(i + 1)) =~= (out@.drop_last().drop_last()
                    + spec_escape(rest)));
            }
        } else {
            push_char(&mut out, c);
            proof {
                assert(spec_escape(rest) == seq![c] + spec_escape(s@.skip(i + 1)));
                assert(out@ + spec_escape(s@.skip(i + 1)) =~= (out@.drop_last() + spec_escape(
                    rest,
                )));
            }
        }
        i += 1;
    }
    proof {
        assert(s@.skip(len as int) =~= Seq::empty());
        assert(out@ + Seq::<char>::empty() =~= out@);
    }
    out
}

/// Collapses every `::` pair of `s` to one `:`.
pub fn unescape(s: &str) -> (r: String)
    ensures
        r@ == spec_unescape(s@),
{
    let len = s.unicode_len();
    let mut out = String::new();
    let mut i: usize = 0;
    proof {
        assert(s@.skip(0) =~= s@);
        assert(out@ + spec_unescape(s@) =~= spec_unescape(s@));
    }
    while i < len
        invariant
            i <= len,
            len == s@.len(),
            out@ + spec_unescape(s@.skip(i as int)) == spec_unescape(s@),
        decreases len - i,
    {
        let c = s.get_char(i);
        let ghost rest = s@.skip(i as int);
        proof {
            assert(rest[0] == s@[i as int]);
            assert(rest.skip(1) =~= s@.skip(i + 1));
            if rest.len() >= 2 {
                assert(rest[1] == s@[i + 1]);
                assert(rest.skip(2) =~= s@.skip(i + 2));
            }
        }
        if c == ':' && i + 1 < len && s.get_char(i + 1) == ':' {
            push_char(&mut out, ':');
            proof {
                assert(spec_unescape(rest) == seq![':'] + spec_unescape(s@.skip(i + 2)));
                assert(out@ + spec_unescape(s@.skip(i + 2)) =~= (out@.drop_last() + spec_unescape(
                    rest,
                )));
            }
            i += 2;
        } else {
            push_char(&mut out, c);
            proof {
                assert(spec_unescape(rest) == seq![c] + spec_unescape(s@.skip(i + 1)));
                assert(out@ + spec_unescape(s@.skip(i + 1)) =~= (out@.drop_last() + spec_unescape(
                    rest,
                )));
            }
            i += 1;
        }
    }
    proof {
        assert(s@.skip(len as int) =~= Seq::empty());
        assert(out@ + Seq::<char>::empty() =~= out@);
    }
    out
}

} // verus!
