//! The order in which plates are listed: that of their characters, one by
//! one, a shorter text before each of its extensions.

use vstd::prelude::*;

verus! {

/// The texts of a sequence of strings.
pub open spec fn texts(strings: Seq<String>) -> Seq<Seq<char>> {
    strings.map_values(|s: String| s@)
}

/// Whether `a` comes before `b`, or is `b`, in lexicographic order of their
/// characters' code points.
pub open spec fn lex_le(a: Seq<char>, b: Seq<char>) -> bool
    decreases a.len(),
{
    if a.len() == 0 {
        true
    } else if b.len() == 0 {
        false
    } else if a[0] == b[0] {
        lex_le(a.skip(1), b.skip(1))
    } else {
        (a[0] as int) < (b[0] as int)
    }
}

/// Whether `a` comes strictly before `b`.
pub open spec fn lex_lt(a: Seq<char>, b: Seq<char>) -> bool {
    lex_le(a, b) && a != b
}

/// Whether no text of `s` comes after a later one.
pub open spec fn ascending(s: Seq<Seq<char>>) -> bool {
    forall|i: int, j: int| 0 <= i <= j < s.len() ==> lex_le(s[i], s[j])
}

/// Whether each text of `s` comes strictly before every later one.
pub open spec fn strictly_ascending(s: Seq<Seq<char>>) -> bool {
    forall|i: int, j: int| 0 <= i < j < s.len() ==> lex_lt(s[i], s[j])
}

/// Sorts `strings` in place with `sort` of slices, which orders strings by
/// their bytes and so by their characters' code points. Afterwards the same
/// texts are there, each as often as before, and none comes after a later
/// one.
#[verifier::external_body]
pub(crate) fn sort_strings(strings: &mut Vec<String>)
    ensures
        texts(final(strings)@).to_multiset() == texts(old(strings)@).to_multiset(),
        ascending(texts(final(strings)@)),
{
    strings.sort();
}

/// Texts that are all different stay all different, and the same, when they
/// are put in another order; in ascending order they are then strictly
/// ascending.
pub proof fn lemma_sorted_distinct(before: Seq<Seq<char>>, after: Seq<Seq<char>>)
    requires
        before.no_duplicates(),
        after.to_multiset() == before.to_multiset(),
        ascending(after),
    ensures
        after.no_duplicates(),
        after.len() == before.len(),
        forall|k: Seq<char>| after.contains(k) <==> before.contains(k),
        strictly_ascending(after),
{
    before.to_multiset_ensures();
    after.to_multiset_ensures();
    before.lemma_multiset_has_no_duplicates();
    after.lemma_multiset_has_no_duplicates_conv();
    assert forall|k: Seq<char>| after.contains(k) <==> before.contains(k) by {
        assert(after.contains(k) <==> after.to_multiset().count(k) > 0);
        assert(before.contains(k) <==> before.to_multiset().count(k) > 0);
    }
}

/// Every text comes before itself or is itself.
pub proof fn law_lex_le_reflexive(a: Seq<char>)
    ensures
        lex_le(a, a),
    decreases a.len(),
{
    if a.len() > 0 {
        law_lex_le_reflexive(a.skip(1));
    }
}

/// Two texts of which each comes before the other or is it are one text.
pub proof fn law_lex_le_antisymmetric(a: Seq<char>, b: Seq<char>)
    requires
        lex_le(a, b),
        lex_le(b, a),
    ensures
        a == b,
    decreases a.len(),
{
    if a.len() == 0 || b.len() == 0 {
        assert(a =~= b);
    } else {
        law_lex_le_antisymmetric(a.skip(1), b.skip(1));
        assert(a =~= seq![a[0]] + a.skip(1));
        assert(b =~= seq![b[0]] + b.skip(1));
    }
}

/// What comes before a text comes before all that this text comes before.
pub proof fn law_lex_le_transitive(a: Seq<char>, b: Seq<char>, c: Seq<char>)
    requires
        lex_le(a, b),
        lex_le(b, c),
    ensures
        lex_le(a, c),
    decreases a.len(),
{
    if a.len() > 0 && b.len() > 0 && c.len() > 0 && a[0] == b[0] && b[0] == c[0] {
        law_lex_le_transitive(a.skip(1), b.skip(1), c.skip(1));
    }
}

/// Of two texts one comes before the other or is it.
pub proof fn law_lex_le_total(a: Seq<char>, b: Seq<char>)
    ensures
        lex_le(a, b) || lex_le(b, a),
    decreases a.len(),
{
    if a.len() > 0 && b.len() > 0 {
        if a[0] == b[0] {
            law_lex_le_total(a.skip(1), b.skip(1));
        } else {
            assert(a[0] as int != b[0] as int);
        }
    }
}

/// A set of texts has one listing in strictly ascending order: two such
/// listings of the same texts are the same.
pub proof fn law_ascending_listing_is_unique(s: Seq<Seq<char>>, t: Seq<Seq<char>>)
    requires
        strictly_ascending(s),
        strictly_ascending(t),
        forall|k: Seq<char>| s.contains(k) <==> t.contains(k),
    ensures
        s == t,
    decreases s.len(),
{
    if s.len() == 0 {
        if t.len() > 0 {
            assert(t.contains(t[0]));
        }
        assert(s =~= t);
    } else if t.len() == 0 {
        assert(s.contains(s[0]));
    } else {
        assert(s.contains(s[0]));
        assert(t.contains(t[0]));
        let i = choose|i: int| 0 <= i < t.len() && t[i] == s[0];
        let j = choose|j: int| 0 <= j < s.len() && s[j] == t[0];
        law_lex_le_reflexive(s[0]);
        assert(lex_le(t[0], s[0])) by {
            if i > 0 {
                assert(lex_lt(t[0], t[i]));
            }
        }
        assert(lex_le(s[0], t[0])) by {
            if j > 0 {
                assert(lex_lt(s[0], s[j]));
            }
        }
        law_lex_le_antisymmetric(s[0], t[0]);
        let s1 = s.skip(1);
        let t1 = t.skip(1);
        assert forall|k: Seq<char>| s1.contains(k) <==> t1.contains(k) by {
            if s1.contains(k) {
                let a = choose|a: int| 0 <= a < s1.len() && s1[a] == k;
                assert(s[a + 1] == k);
                assert(lex_lt(s[0], s[a + 1]));
                assert(s.contains(k));
                let b = choose|b: int| 0 <= b < t.len() && t[b] == k;
                assert(b > 0);
                assert(t1[b - 1] == k);
            }
            if t1.contains(k) {
                let a = choose|a: int| 0 <= a < t1.len() && t1[a] == k;
                assert(t[a + 1] == k);
                assert(lex_lt(t[0], t[a + 1]));
                assert(t.contains(k));
                let b = choose|b: int| 0 <= b < s.len() && s[b] == k;
                assert(b > 0);
                assert(s1[b - 1] == k);
            }
        }
        assert(strictly_ascending(s1)) by {
            assert forall|a: int, b: int| 0 <= a < b < s1.len() implies lex_lt(s1[a], s1[b]) by {
                assert(lex_lt(s[a + 1], s[b + 1]));
            }
        }
        assert(strictly_ascending(t1)) by {
            assert forall|a: int, b: int| 0 <= a < b < t1.len() implies lex_lt(t1[a], t1[b]) by {
                assert(lex_lt(t[a + 1], t[b + 1]));
            }
        }
        law_ascending_listing_is_unique(s1, t1);
        assert(s =~= seq![s[0]] + s1);
        assert(t =~= seq![t[0]] + t1);
    }
}

} // verus!
