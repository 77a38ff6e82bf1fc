//! String comparison and sequence helpers.
//!
//! Gives the crate a lexicographic order on character sequences (by code
//! point, the order Rust's own string comparison induces), executable
//! comparison and equality on `&str`, and a verified insertion sort that is
//! shared by everything that has to present data in a canonical order.

use vstd::prelude::*;
use vstd::relations::{sorted_by, total_ordering};
use vstd::seq_lib::lemma_sorted_unique;

verus! {

/// Code-point order on single characters.
pub open spec fn char_lt(a: char, b: char) -> bool {
    (a as u32) < (b as u32)
}

/// Strict lexicographic order on character sequences, by code point.
pub open spec fn lex_lt(a: Seq<char>, b: Seq<char>) -> bool
    decreases a.len(),
{
    if b.len() == 0 {
        false
    } else if a.len() == 0 {
        true
    } else if char_lt(a[0], b[0]) {
        true
    } else if a[0] == b[0] {
        lex_lt(a.skip(1), b.skip(1))
    } else {
        false
    }
}

/// Reflexive closure of [`lex_lt`].
pub open spec fn lex_le(a: Seq<char>, b: Seq<char>) -> bool {
    a == b || lex_lt(a, b)
}

/// [`lex_le`] as a binary relation value, for use with `sort_by`.
pub open spec fn lex_le_f() -> spec_fn(Seq<char>, Seq<char>) -> bool {
    |a: Seq<char>, b: Seq<char>| lex_le(a, b)
}

/// How `lex_lt` is decided at the first index where two sequences differ
/// (or at the end of one of them), given that they agree before it.
pub proof fn lemma_lex_decide(a: Seq<char>, b: Seq<char>, i: int)
    requires
        0 <= i <= a.len(),
        i <= b.len(),
        forall|k: int| 0 <= k < i ==> a[k] == b[k],
    ensures
        i == a.len() && i == b.len() ==> a == b && !lex_lt(a, b),
        i == a.len() && i < b.len() ==> lex_lt(a, b) && a != b,
        i == b.len() && i < a.len() ==> !lex_lt(a, b) && a != b,
        i < a.len() && i < b.len() && char_lt(a[i], b[i]) ==> lex_lt(a, b) && a != b,
        i < a.len() && i < b.len() && char_lt(b[i], a[i]) ==> !lex_lt(a, b) && a != b,
    decreases i,
{
    if i == 0 {
        if a.len() == 0 && b.len() == 0 {
            assert(a =~= b);
        }
        if 0 < a.len() && 0 < b.len() && a[0] != b[0] {
            assert(a != b) by {
                if a == b {
                    assert(a[0] == b[0]);
                }
            }
        }
    } else {
        lemma_lex_decide(a.skip(1), b.skip(1), i - 1);
        assert(forall|k: int|
            0 <= k < i - 1 ==> a.skip(1)[k] == a[k + 1] && b.skip(1)[k] == b[k + 1]);
        assert(a[0] == b[0]);
        if i == a.len() && i == b.len() {
            assert forall|k: int| 0 <= k < a.len() implies a[k] == b[k] by {
                if k >= 1 {
                    assert(a[k] == a.skip(1)[k - 1]);
                    assert(b[k] == b.skip(1)[k - 1]);
                }
            }
            assert(a =~= b);
        }
        if a.skip(1) != b.skip(1) {
            assert(a != b);
        }
        if i < a.len() && i < b.len() {
            assert(a.skip(1)[i - 1] == a[i]);
            assert(b.skip(1)[i - 1] == b[i]);
            if a[i] != b[i] {
                assert(a != b) by {
                    if a == b {
                        assert(a[i] == b[i]);
                    }
                }
            }
        }
    }
}

/// `lex_lt` is irreflexive.
pub proof fn lemma_lex_irrefl(a: Seq<char>)
    ensures
        !lex_lt(a, a),
{
    lemma_lex_decide(a, a, a.len() as int);
}

/// Any two character sequences are ordered or equal.
pub proof fn lemma_lex_total(a: Seq<char>, b: Seq<char>)
    ensures
        lex_lt(a, b) || lex_lt(b, a) || a == b,
    decreases a.len(),
{
    if b.len() == 0 {
        if a.len() == 0 {
            assert(a =~= b);
        }
    } else if a.len() == 0 {
    } else if a[0] == b[0] {
        lemma_lex_total(a.skip(1), b.skip(1));
        if a.skip(1) == b.skip(1) {
            assert(a.len() == b.len()) by {
                assert(a.skip(1).len() == b.skip(1).len());
            }
            assert forall|k: int| 0 <= k < a.len() implies a[k] == b[k] by {
                if k >= 1 {
                    assert(a[k] == a.skip(1)[k - 1]);
                    assert(b[k] == b.skip(1)[k - 1]);
                }
            }
            assert(a =~= b);
        }
    } else {
        assert(char_lt(a[0], b[0]) || char_lt(b[0], a[0])) by {
            vstd::utf8::char_is_scalar(a[0]);
            vstd::utf8::char_is_scalar(b[0]);
            vstd::utf8::char_u32_cast(a[0], a[0] as u32);
            vstd::utf8::char_u32_cast(b[0], b[0] as u32);
        }
    }
}

/// At most one of `lex_lt(a, b)` and `lex_lt(b, a)` holds.
pub proof fn lemma_lex_asym(a: Seq<char>, b: Seq<char>)
    ensures
        !(lex_lt(a, b) && lex_lt(b, a)),
    decreases a.len(),
{
    if a.len() > 0 && b.len() > 0 && a[0] == b[0] {
        lemma_lex_asym(a.skip(1), b.skip(1));
    }
}

/// `lex_lt` is transitive.
pub proof fn lemma_lex_trans(a: Seq<char>, b: Seq<char>, c: Seq<char>)
    requires
        lex_lt(a, b),
        lex_lt(b, c),
    ensures
        lex_lt(a, c),
    decreases a.len(),
{
    if a.len() == 0 {
    } else {
        assert(b.len() > 0 && c.len() > 0);
        if a[0] == b[0] && b[0] == c[0] {
            lemma_lex_trans(a.skip(1), b.skip(1), c.skip(1));
        }
    }
}

/// `lex_le` meets every requirement of a total ordering.
pub proof fn lemma_lex_le_total_ordering()
    ensures
        total_ordering(lex_le_f()),
{
    let r = lex_le_f();
    assert forall|x: Seq<char>, y: Seq<char>| #[trigger] r(x, y) && #[trigger] r(y, x) implies x
        == y by {
        lemma_lex_asym(x, y);
    }
    assert forall|x: Seq<char>, y: Seq<char>, z: Seq<char>|
        #[trigger] r(x, y) && #[trigger] r(y, z) implies r(x, z) by {
        if x != y && y != z {
            lemma_lex_trans(x, y, z);
        }
    }
    assert forall|x: Seq<char>, y: Seq<char>| #[trigger] r(x, y) || #[trigger] r(y, x) by {
        lemma_lex_total(x, y);
    }
}

/// Whether two string slices hold the same characters.
pub fn eq_str(a: &str, b: &str) -> (r: bool)
    ensures
        r == (a@ == b@),
{
    let la = a.unicode_len();
    let lb = b.unicode_len();
    if la != lb {
        proof {
            if a@ == b@ {
                assert(a@.len() == b@.len());
            }
        }
        return false;
    }
    let mut i: usize = 0;
    while i < la
        invariant
            i <= la,
            la == a@.len(),
            la == b@.len(),
            forall|k: int| 0 <= k < i ==> a@[k] == b@[k],
        decreases la - i,
    {
        let ca = a.get_char(i);
        let cb = b.get_char(i);
        if ca != cb {
            proof {
                if a@ == b@ {
                    assert(a@[i as int] == b@[i as int]);
                }
            }
            return false;
        }
        i += 1;
    }
    proof {
        assert(a@ =~= b@);
    }
    true
}

/// Whether `a` comes before `b` (or equals it) in lexicographic order.
pub fn str_le(a: &str, b: &str) -> (r: bool)
    ensures
        r == lex_le(a@, b@),
{
    let la = a.unicode_len();
    let lb = b.unicode_len();
    let mut i: usize = 0;
    loop
        invariant
            i <= la,
            i <= lb,
            la == a@.len(),
            lb == b@.len(),
            forall|k: int| 0 <= k < i ==> a@[k] == b@[k],
        decreases la - i,
    {
        if i == la {
            proof {
                lemma_lex_decide(a@, b@, i as int);
            }
            return true;
        }
        if i == lb {
            proof {
                lemma_lex_decide(a@, b@, i as int);
            }
            return false;
        }
        let ca = a.get_char(i);
        let cb = b.get_char(i);
        if (ca as u32) < (cb as u32) {
            proof {
                lemma_lex_decide(a@, b@, i as int);
            }
            return true;
        }
        if (ca as u32) > (cb as u32) {
            proof {
                lemma_lex_decide(a@, b@, i as int);
            }
            return false;
        }
        i += 1;
    }
}

/// Whether `p` is a prefix of `s`.
pub fn str_starts_with(s: &str, p: &str) -> (r: bool)
    ensures
        r == p@.is_prefix_of(s@),
{
    let ls = s.unicode_len();
    let lp = p.unicode_len();
    if lp > ls {
        return false;
    }
    let mut i: usize = 0;
    while i < lp
        invariant
            i <= lp,
            lp <= ls,
            ls == s@.len(),
            lp == p@.len(),
            forall|k: int| 0 <= k < i ==> p@[k] == s@[k],
        decreases lp - i,
    {
        if p.get_char(i) != s.get_char(i) {
            proof {
                assert(s@.subrange(0, lp as int)[i as int] == s@[i as int]);
            }
            return false;
        }
        i += 1;
    }
    proof {
        assert(p@ =~= s@.subrange(0, lp as int));
    }
    true
}

/// Whether `p` is a suffix of `s`.
pub fn str_ends_with(s: &str, p: &str) -> (r: bool)
    ensures
        r == p@.is_suffix_of(s@),
{
    let ls = s.unicode_len();
    let lp = p.unicode_len();
    if lp > ls {
        return false;
    }
    let off = ls - lp;
    let mut i: usize = 0;
    while i < lp
        invariant
            i <= lp,
            lp <= ls,
            off == ls - lp,
            ls == s@.len(),
            lp == p@.len(),
            forall|k: int| 0 <= k < i ==> p@[k] == s@[off + k],
        decreases lp - i,
    {
        if p.get_char(i) != s.get_char(off + i) {
            proof {
                assert(s@.subrange(off as int, ls as int)[i as int] == s@[off + i]);
            }
            return false;
        }
        i += 1;
    }
    proof {
        assert(p@ =~= s@.subrange(off as int, ls as int));
    }
    true
}

/// Copies a vector of strings, keeping every character.
pub fn clone_vec_str(v: &Vec<String>) -> (r: Vec<String>)
    ensures
        r@.len() == v@.len(),
        forall|i: int| 0 <= i < v@.len() ==> r@[i]@ == v@[i]@,
        dvs(r@) == dvs(v@),
{
    let mut r: Vec<String> = Vec::new();
    let mut i: usize = 0;
    while i < v.len()
        invariant
            i <= v@.len(),
            r@.len() == i,
            forall|k: int| 0 <= k < i ==> r@[k]@ == v@[k]@,
        decreases v@.len() - i,
    {
        r.push(v[i].clone());
        i += 1;
    }
    proof {
        assert(dvs(r@) =~= dvs(v@));
    }
    r
}

/// The length of an ASCII string, read in constant time.
pub fn ascii_len(s: &str) -> (l: usize)
    requires
        s.is_ascii(),
        s@.len() <= usize::MAX,
    ensures
        l == s@.len(),
{
    proof {
        vstd::string::is_ascii_spec_bytes(s);
    }
    s.len()
}

/// Reads one character of an ASCII string in constant time.
pub fn ascii_get(s: &str, i: usize) -> (c: char)
    requires
        s.is_ascii(),
        i < s@.len(),
    ensures
        c == s@[i as int],
{
    let b = s.get_ascii(i);
    proof {
        let ch = s@[i as int];
        assert('\0' <= ch <= '\u{7f}');
        vstd::utf8::char_is_scalar(ch);
        vstd::utf8::char_u32_cast(ch, ch as u32);
        assert(b == ch as u8);
        assert((b as char) == ch);
    }
    b as char
}

/// Relies on `String::push`: appends one character at the end of the string.
#[verifier::external_body]
pub fn push_char(s: &mut String, c: char)
    ensures
        final(s)@ == old(s)@.push(c),
{
    s.push(c);
}

/// The sequence of views of a sequence of values.
pub open spec fn dvs<T: DeepView>(s: Seq<T>) -> Seq<T::V> {
    Seq::new(s.len(), |i: int| s[i].deep_view())
}

pub proof fn lemma_dvs_remove<T: DeepView>(s: Seq<T>, i: int)
    requires
        0 <= i < s.len(),
    ensures
        dvs(s.remove(i)) == dvs(s).remove(i),
{
    assert(dvs(s.remove(i)) =~= dvs(s).remove(i));
}

pub proof fn lemma_dvs_insert<T: DeepView>(s: Seq<T>, i: int, x: T)
    requires
        0 <= i <= s.len(),
    ensures
        dvs(s.insert(i, x)) == dvs(s).insert(i, x.deep_view()),
{
    assert(dvs(s.insert(i, x)) =~= dvs(s).insert(i, x.deep_view()));
}

pub proof fn lemma_dvs_push<T: DeepView>(s: Seq<T>, x: T)
    ensures
        dvs(s.push(x)) == dvs(s).push(x.deep_view()),
{
    assert(dvs(s.push(x)) =~= dvs(s).push(x.deep_view()));
}

/// A name occurs among the strings exactly when it occurs among their
/// views.
pub proof fn lemma_seq_has_dvs(v: Seq<String>, w: Seq<char>)
    ensures
        crate::storage::seq_has_str(v, w) == dvs(v).contains(w),
{
    if crate::storage::seq_has_str(v, w) {
        let i = choose|i: int| 0 <= i < v.len() && v[i]@ == w;
        assert(dvs(v)[i] == w);
    }
    if dvs(v).contains(w) {
        let i = choose|i: int| 0 <= i < dvs(v).len() && dvs(v)[i] == w;
        assert(v[i]@ == w);
    }
}

/// A sequence insert commutes with `to_multiset`.
pub proof fn lemma_to_multiset_insert<A>(s: Seq<A>, i: int, x: A)
    requires
        0 <= i <= s.len(),
    ensures
        s.insert(i, x).to_multiset() == s.to_multiset().insert(x),
{
    broadcast use vstd::seq_lib::group_to_multiset_ensures;

    let t = s.insert(i, x);
    assert(t.remove(i) =~= s);
    assert(t.remove(i).to_multiset() == t.to_multiset().remove(t[i]));
    assert(s.to_multiset() == t.to_multiset().remove(t[i]));
    assert(t[i] == x);
    assert(t.contains(x)) by {
        assert(t[i] == x);
    }
    assert(t.to_multiset().count(x) > 0);
    assert(t.to_multiset() =~= s.to_multiset().insert(x));
}

/// Sorts the vector so that the views of its elements ascend by `leq`.
///
/// The result is pinned down as `sort_by` of the input views: the one
/// `leq`-sorted rearrangement of the input.
pub fn insertion_sort<T: DeepView, F: Fn(&T, &T) -> bool>(
    v: &mut Vec<T>,
    Ghost(leq): Ghost<spec_fn(T::V, T::V) -> bool>,
    le: F,
)
    requires
        total_ordering(leq),
        forall|x: &T, y: &T| #[trigger] call_requires(le, (x, y)),
        forall|x: &T, y: &T, r: bool| #[trigger]
            call_ensures(le, (x, y), r) ==> r == leq(x.deep_view(), y.deep_view()),
    ensures
        final(v)@.len() == old(v)@.len(),
        sorted_by(dvs(final(v)@), leq),
        dvs(final(v)@).to_multiset() == dvs(old(v)@).to_multiset(),
        dvs(final(v)@) == dvs(old(v)@).sort_by(leq),
{
    broadcast use vstd::seq_lib::group_to_multiset_ensures;

    let ghost orig = dvs(old(v)@);
    if v.len() > 1 {
        let mut i: usize = 1;
        while i < v.len()
            invariant
                1 <= i <= v@.len(),
                v@.len() == old(v)@.len(),
                total_ordering(leq),
                forall|x: &T, y: &T| #[trigger] call_requires(le, (x, y)),
                forall|x: &T, y: &T, r: bool| #[trigger]
                    call_ensures(le, (x, y), r) ==> r == leq(x.deep_view(), y.deep_view()),
                sorted_by(dvs(v@).take(i as int), leq),
                dvs(v@).to_multiset() == orig.to_multiset(),
            decreases v@.len() - i,
        {
            let ghost prev = v@;
            let ghost xdv = dvs(prev)[i as int];
            let x = v.remove(i);
            proof {
                lemma_dvs_remove(prev, i as int);
                assert(x.deep_view() == xdv);
                assert(dvs(v@).take(i as int) =~= dvs(prev).take(i as int));
                assert(dvs(v@) == dvs(prev).remove(i as int));
                dvs(prev).to_multiset_ensures();
                assert(dvs(v@).to_multiset() == dvs(prev).to_multiset().remove(xdv));
            }
            let mut j: usize = i;
            while j > 0 && !le(&v[j - 1], &x)
                invariant
                    j <= i,
                    i <= v@.len(),
                    v@ == prev.remove(i as int),
                    x.deep_view() == xdv,
                    total_ordering(leq),
                    forall|xx: &T, yy: &T| #[trigger] call_requires(le, (xx, yy)),
                    forall|xx: &T, yy: &T, r: bool| #[trigger]
                        call_ensures(le, (xx, yy), r) ==> r == leq(xx.deep_view(), yy.deep_view()),
                    forall|k: int| j <= k < i ==> !leq(#[trigger] dvs(v@)[k], xdv),
                decreases j,
            {
                proof {
                    assert(dvs(v@)[j - 1] == v@[j - 1].deep_view());
                }
                j -= 1;
            }
            let ghost mid = v@;
            proof {
                assert(j == 0 || leq(dvs(mid)[j - 1], xdv)) by {
                    if j > 0 {
                        assert(dvs(mid)[j - 1] == mid[j - 1].deep_view());
                    }
                }
            }
            v.insert(j, x);
            proof {
                lemma_dvs_insert(mid, j as int, x);
                lemma_to_multiset_insert(dvs(mid), j as int, xdv);
                dvs(prev).to_multiset_ensures();
                assert(dvs(prev).contains(xdv)) by {
                    assert(dvs(prev)[i as int] == xdv);
                }
                assert(dvs(prev).to_multiset().count(xdv) > 0);
                assert(dvs(v@).to_multiset() =~= dvs(prev).to_multiset());
                let d = dvs(v@);
                assert(d == dvs(mid).insert(j as int, xdv));
                assert forall|p: int, q: int| 0 <= p < q < i + 1 implies leq(
                    #[trigger] d.take(i + 1)[p],
                    #[trigger] d.take(i + 1)[q],
                ) by {
                    let m = dvs(mid);
                    assert(d.take(i + 1)[p] == d[p] && d.take(i + 1)[q] == d[q]);
                    assert(forall|k: int| 0 <= k < j ==> d[k] == m.take(i as int)[k]);
                    assert(forall|k: int| j < k < i + 1 ==> d[k] == m.take(i as int)[k - 1]);
                    assert(d[j as int] == xdv);
                    if p < j && q == j {
                        // every element before the insertion point is at most x
                        if p == j - 1 {
                            assert(leq(d[p], xdv));
                        } else {
                            assert(leq(m[p], m[j - 1]));
                            assert(leq(m[j - 1], xdv));
                            assert(leq(m[p], xdv));
                        }
                    } else if p == j && q > j {
                        // every shifted element was rejected by the scan, so x goes first
                        assert(!leq(m[q - 1], xdv));
                        assert(leq(xdv, m[q - 1]));
                    } else if p < j && q > j {
                        assert(leq(m[p], m[q - 1]));
                    } else if p > j && q > j {
                        assert(leq(m[p - 1], m[q - 1]));
                    } else {
                        assert(p < j && q < j);
                        assert(leq(m[p], m[q]));
                    }
                }
            }
            i += 1;
        }
    }
    proof {
        assert(dvs(v@).take(v@.len() as int) =~= dvs(v@));
        assert(sorted_by(dvs(v@), leq));
        orig.lemma_sort_by_ensures(leq);
        lemma_sorted_unique(dvs(v@), orig.sort_by(leq), leq);
    }
}

} // verus!
