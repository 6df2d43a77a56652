//! Lexicographic order on strings of characters.
//!
//! Generation timestamps are fixed-width, zero-padded strings, so their
//! lexicographic order is their chronological order; retention and display
//! both sort by it.  This module defines the order, proves that it is total,
//! and provides a verified comparator and a verified sort whose result is
//! pinned to the canonical `sort_by` of the input.

use vstd::multiset::Multiset;
use vstd::prelude::*;
use vstd::relations::{sorted_by, total_ordering};
use vstd::seq_lib::lemma_multiset_commutative;
use vstd::string::StrSliceExecFns;

verus! {

/// Lexicographic "less than or equal" on character sequences, by code point.
pub open spec fn lex_le(a: Seq<char>, b: Seq<char>) -> bool
    decreases a.len(),
{
    if a.len() == 0 {
        true
    } else if b.len() == 0 {
        false
    } else if a[0] == b[0] {
        lex_le(a.drop_first(), b.drop_first())
    } else {
        (a[0] as u32) < (b[0] as u32)
    }
}

/// The order as a first-class function, the form `Seq::sort_by` expects.
pub open spec fn lex_leq() -> spec_fn(Seq<char>, Seq<char>) -> bool {
    |a: Seq<char>, b: Seq<char>| lex_le(a, b)
}

/// The views of a sequence of strings.
pub open spec fn view_seq(s: Seq<String>) -> Seq<Seq<char>> {
    s.map_values(|x: String| x@)
}

/// Distinct characters have distinct code points.
pub proof fn lemma_char_cast_injective(x: char, y: char)
    requires
        x != y,
    ensures
        (x as u32) != (y as u32),
{
    vstd::utf8::char_is_scalar(x);
    vstd::utf8::char_is_scalar(y);
    vstd::utf8::char_u32_cast(x, x as u32);
    vstd::utf8::char_u32_cast(y, y as u32);
}

pub proof fn lemma_lex_le_refl(a: Seq<char>)
    ensures
        lex_le(a, a),
    decreases a.len(),
{
    if a.len() > 0 {
        lemma_lex_le_refl(a.drop_first());
    }
}

pub proof fn lemma_lex_le_connected(a: Seq<char>, b: Seq<char>)
    ensures
        lex_le(a, b) || lex_le(b, a),
    decreases a.len(),
{
    if a.len() > 0 && b.len() > 0 {
        if a[0] == b[0] {
            lemma_lex_le_connected(a.drop_first(), b.drop_first());
        } else {
            let x = a[0];
            let y = b[0];
            lemma_char_cast_injective(x, y);
            assert((x as u32) < (y as u32) || (y as u32) < (x as u32));
        }
    }
}

pub proof fn lemma_lex_le_antisymmetric(a: Seq<char>, b: Seq<char>)
    requires
        lex_le(a, b),
        lex_le(b, a),
    ensures
        a == b,
    decreases a.len(),
{
    if a.len() == 0 {
        assert(b.len() == 0);
        assert(a =~= b);
    } else {
        assert(b.len() > 0);
        let x = a[0];
        let y = b[0];
        assert(x == y) by {
            if x != y {
                lemma_char_cast_injective(x, y);
                assert((x as u32) < (y as u32));
                assert((y as u32) < (x as u32));
            }
        }
        lemma_lex_le_antisymmetric(a.drop_first(), b.drop_first());
        assert(a.drop_first().len() == b.drop_first().len());
        assert(a =~= b) by {
            assert(a.len() == b.len());
            assert(forall|i: int|
                0 < i < a.len() ==> a[i] == a.drop_first()[i - 1] && b[i] == b.drop_first()[i - 1]);
        }
    }
}

pub proof fn lemma_lex_le_transitive(a: Seq<char>, b: Seq<char>, c: Seq<char>)
    requires
        lex_le(a, b),
        lex_le(b, c),
    ensures
        lex_le(a, c),
    decreases a.len(),
{
    if a.len() > 0 {
        assert(b.len() > 0);
        assert(c.len() > 0);
        if a[0] == b[0] && b[0] == c[0] {
            lemma_lex_le_transitive(a.drop_first(), b.drop_first(), c.drop_first());
        }
    }
}

/// The lexicographic order is a total order, so sorting by it is meaningful.
pub proof fn lemma_lex_total_ordering()
    ensures
        total_ordering(lex_leq()),
{
    let leq = lex_leq();
    assert forall|a: Seq<char>| #[trigger] leq(a, a) by {
        lemma_lex_le_refl(a);
    }
    assert forall|a: Seq<char>, b: Seq<char>| #[trigger] leq(a, b) && #[trigger] leq(b, a)
        implies a == b by {
        lemma_lex_le_antisymmetric(a, b);
    }
    assert forall|a: Seq<char>, b: Seq<char>, c: Seq<char>|
        #[trigger] leq(a, b) && #[trigger] leq(b, c) implies leq(a, c) by {
        lemma_lex_le_transitive(a, b, c);
    }
    assert forall|a: Seq<char>, b: Seq<char>| #[trigger] leq(a, b) || #[trigger] leq(b, a) by {
        lemma_lex_le_connected(a, b);
    }
}

proof fn lemma_skip_step(a: Seq<char>, i: int)
    requires
        0 <= i < a.len(),
    ensures
        a.skip(i).drop_first() =~= a.skip(i + 1),
{
}

/// Compares two strings in the lexicographic order.
pub fn str_le(a: &str, b: &str) -> (r: bool)
    ensures
        r == lex_le(a@, b@),
{
    let alen = a.unicode_len();
    let blen = b.unicode_len();
    let mut i: usize = 0;
    proof {
        assert(a@.skip(0) =~= a@);
        assert(b@.skip(0) =~= b@);
    }
    loop
        invariant
            i <= alen,
            i <= blen,
            alen == a@.len(),
            blen == b@.len(),
            lex_le(a@, b@) == lex_le(a@.skip(i as int), b@.skip(i as int)),
        decreases alen - i,
    {
        if i == alen {
            assert(a@.skip(i as int).len() == 0);
            return true;
        }
        if i == blen {
            assert(b@.skip(i as int).len() == 0);
            assert(a@.skip(i as int).len() > 0);
            return false;
        }
        let ca = a.get_char(i);
        let cb = b.get_char(i);
        assert(a@.skip(i as int)[0] == a@[i as int]);
        assert(b@.skip(i as int)[0] == b@[i as int]);
        if ca == cb {
            proof {
                lemma_skip_step(a@, i as int);
                lemma_skip_step(b@, i as int);
            }
            i += 1;
        } else {
            return (ca as u32) < (cb as u32);
        }
    }
}

/// Compares two owned strings in the lexicographic order.
pub fn string_le(a: &String, b: &String) -> (r: bool)
    ensures
        r == lex_le(a@, b@),
{
    str_le(a.as_str(), b.as_str())
}

/// One step of filtering a prefix: taking one more element extends the
/// filtered prefix exactly when the element passes the predicate.
pub proof fn lemma_filter_take_step<A>(s: Seq<A>, pred: spec_fn(A) -> bool, i: int)
    requires
        0 <= i < s.len(),
    ensures
        s.take(i + 1).filter(pred) == (if pred(s[i]) {
            s.take(i).filter(pred).push(s[i])
        } else {
            s.take(i).filter(pred)
        }),
{
    reveal(Seq::filter);
    assert(s.take(i + 1).drop_last() =~= s.take(i));
    assert(s.take(i + 1).last() == s[i]);
}

/// Inserting an element anywhere in a sequence adds it to the multiset of
/// the sequence's elements.
pub proof fn lemma_insert_to_multiset<A>(s: Seq<A>, p: int, x: A)
    requires
        0 <= p <= s.len(),
    ensures
        s.insert(p, x).to_multiset() =~= s.to_multiset().insert(x),
{
    broadcast use vstd::seq_lib::group_to_multiset_ensures;

    let pre = s.take(p);
    let post = s.skip(p);
    assert(s.insert(p, x) =~= pre + (seq![x] + post));
    lemma_multiset_commutative(pre, seq![x] + post);
    lemma_multiset_commutative(seq![x], post);
    assert(seq![x].to_multiset() =~= Multiset::<A>::empty().insert(x)) by {
        assert(seq![x].drop_first() =~= Seq::<A>::empty());
    }
    assert(s =~= pre + post);
    lemma_multiset_commutative(pre, post);
}

/// Two sequences sorted by the same total order and carrying the same
/// multiset of elements are equal: a sorted sequence is a canonical form.
pub proof fn lemma_sorted_multiset_unique<A>(s1: Seq<A>, s2: Seq<A>, leq: spec_fn(A, A) -> bool)
    requires
        total_ordering(leq),
        sorted_by(s1, leq),
        sorted_by(s2, leq),
        s1.to_multiset() == s2.to_multiset(),
    ensures
        s1 == s2,
    decreases s1.len(),
{
    broadcast use vstd::seq_lib::group_to_multiset_ensures;

    s1.to_multiset_ensures();
    s2.to_multiset_ensures();
    if s1.len() == 0 {
        assert(s2.to_multiset().len() == 0);
        assert(s1 =~= s2);
    } else {
        assert(s2.to_multiset().len() == s1.to_multiset().len());
        assert(s2.len() > 0);
        // The two head elements occur in each other's sequences, so by
        // sortedness each is bounded by the other, hence they are equal.
        assert(s1.to_multiset().count(s1[0]) > 0);
        assert(s2.to_multiset().count(s2[0]) > 0);
        assert(s1.contains(s2[0]));
        assert(s2.contains(s1[0]));
        let i1 = choose|i: int| 0 <= i < s1.len() && s1[i] == s2[0];
        let i2 = choose|i: int| 0 <= i < s2.len() && s2[i] == s1[0];
        assert(leq(s1[0], s1[i1]) || i1 == 0) by {
            if i1 != 0 {
                assert(sorted_by(s1, leq));
            }
        }
        assert(leq(s1[0], s2[0]) || s1[0] == s2[0]);
        assert(leq(s2[0], s1[0]) || s2[0] == s1[0]);
        assert(s1[0] == s2[0]);
        let t1 = s1.drop_first();
        let t2 = s2.drop_first();
        assert(s1.remove(0) =~= t1);
        assert(s2.remove(0) =~= t2);
        assert(t1.to_multiset() =~= s1.to_multiset().remove(s1[0]));
        assert(t2.to_multiset() =~= s2.to_multiset().remove(s2[0]));
        assert(sorted_by(t1, leq)) by {
            assert(forall|i: int, j: int|
                0 <= i < j < t1.len() ==> t1[i] == s1[i + 1] && t1[j] == s1[j + 1]);
        }
        assert(sorted_by(t2, leq)) by {
            assert(forall|i: int, j: int|
                0 <= i < j < t2.len() ==> t2[i] == s2[i + 1] && t2[j] == s2[j + 1]);
        }
        lemma_sorted_multiset_unique(t1, t2, leq);
        assert(s1 =~= s2) by {
            assert(forall|i: int| 0 < i < s1.len() ==> s1[i] == t1[i - 1] && s2[i] == t2[i - 1]);
        }
    }
}

/// Sorts a vector of strings into the lexicographic order of their views.
/// The result is exactly the canonical `sort_by` of the input's views.
pub fn sort_strings(v: &mut Vec<String>)
    ensures
        view_seq(final(v)@) == view_seq(old(v)@).sort_by(lex_leq()),
{
    proof {
        lemma_lex_total_ordering();
    }
    let ghost input = view_seq(v@);
    if v.len() == 0 {
        proof {
            input.lemma_sort_by_ensures(lex_leq());
            lemma_sorted_multiset_unique(input, input.sort_by(lex_leq()), lex_leq());
        }
        return ;
    }
    let mut i: usize = 1;
    while i < v.len()
        invariant
            1 <= i <= v.len(),
            sorted_by(view_seq(v@).take(i as int), lex_leq()),
            view_seq(v@).to_multiset() == input.to_multiset(),
        decreases v.len() - i,
    {
        // Walk the insertion point for v[i] back through the sorted prefix.
        let mut p: usize = i;
        while p > 0 && !string_le(&v[p - 1], &v[i])
            invariant
                0 <= p <= i < v.len(),
                forall|k: int| p <= k < i ==> !lex_le(view_seq(v@)[k], view_seq(v@)[i as int]),
            decreases p,
        {
            p -= 1;
        }
        if p < i {
            let ghost before = view_seq(v@);
            let x = v.remove(i);
            v.insert(p, x);
            proof {
                let after = view_seq(v@);
                assert(after =~= before.remove(i as int).insert(p as int, before[i as int]));
                lemma_sort_insert_step(before, i as int, p as int);
                assert(after.to_multiset() =~= before.to_multiset()) by {
                    broadcast use vstd::seq_lib::group_to_multiset_ensures;

                    lemma_insert_to_multiset(before.remove(i as int), p as int, before[i as int]);
                }
            }
        } else {
            // The element already follows the whole sorted prefix.
            proof {
                let sv = view_seq(v@);
                assert(lex_le(sv[i - 1], sv[i as int]));
                assert forall|k: int| 0 <= k < i implies lex_le(sv[k], sv[i as int]) by {
                    if k < i - 1 {
                        assert(sv.take(i as int)[k] == sv[k]);
                        assert(sv.take(i as int)[i - 1] == sv[i - 1]);
                        assert(lex_leq()(sv.take(i as int)[k], sv.take(i as int)[i - 1]));
                        lemma_lex_le_transitive(sv[k], sv[i - 1], sv[i as int]);
                    }
                }
                assert(sorted_by(sv.take(i + 1), lex_leq())) by {
                    assert forall|a: int, b: int| 0 <= a < b < i + 1 implies #[trigger] lex_leq()(
                        sv.take(i + 1)[a],
                        sv.take(i + 1)[b],
                    ) by {
                        assert(sv.take(i + 1)[a] == sv[a]);
                        assert(sv.take(i + 1)[b] == sv[b]);
                        if b < i {
                            assert(sv.take(i as int)[a] == sv[a]);
                            assert(sv.take(i as int)[b] == sv[b]);
                            assert(lex_leq()(sv.take(i as int)[a], sv.take(i as int)[b]));
                        }
                    }
                }
            }
        }
        i += 1;
    }
    proof {
        assert(view_seq(v@).take(v.len() as int) =~= view_seq(v@));
        input.lemma_sort_by_ensures(lex_leq());
        lemma_sorted_multiset_unique(view_seq(v@), input.sort_by(lex_leq()), lex_leq());
    }
}

/// One insertion-sort step keeps the grown prefix sorted: moving the element
/// at `i` back to position `p` orders it after `p`'s predecessors and before
/// the elements it moved past.
proof fn lemma_sort_insert_step(s: Seq<Seq<char>>, i: int, p: int)
    requires
        0 <= p < i < s.len(),
        sorted_by(s.take(i), lex_leq()),
        forall|k: int| p <= k < i ==> !lex_le(s[k], s[i]),
        p == 0 || lex_le(s[p - 1], s[i]),
    ensures
        sorted_by(s.remove(i).insert(p, s[i]).take(i + 1), lex_leq()),
{
    let r = s.remove(i);
    let q = r.insert(p, s[i]);
    let out = q.take(i + 1);
    s.remove_ensures(i);
    r.insert_ensures(p, s[i]);
    let el = |k: int|
        if k < p {
            s[k]
        } else if k == p {
            s[i]
        } else {
            s[k - 1]
        };
    assert forall|k: int| 0 <= k <= i implies out[k] == el(k) by {
        assert(out[k] == q[k]);
        if k < p {
            assert(q[k] == r[k]);
        } else if k > p {
            assert(q[(k - 1) + 1] == r[k - 1]);
            assert(r[k - 1] == s[k - 1]);
        }
    }
    assert forall|k: int, l: int| 0 <= k < l < i implies lex_le(s[k], s[l]) by {
        assert(s.take(i)[k] == s[k]);
        assert(s.take(i)[l] == s[l]);
        assert(lex_leq()(s.take(i)[k], s.take(i)[l]));
    }
    assert forall|k: int| p <= k < i implies lex_le(s[i], s[k]) by {
        lemma_lex_le_connected(s[i], s[k]);
    }
    assert forall|a: int, b: int| 0 <= a < b < out.len() implies #[trigger] lex_leq()(
        out[a],
        out[b],
    ) by {
        assert(out[a] == el(a));
        assert(out[b] == el(b));
        if a < p && b < p {
            assert(lex_le(s[a], s[b]));
        } else if a < p && b == p {
            if a < p - 1 {
                lemma_lex_le_transitive(s[a], s[p - 1], s[i]);
            }
            assert(lex_le(s[a], s[i]));
        } else if a < p && b > p {
            assert(lex_le(s[a], s[b - 1]));
        } else if a == p {
            assert(lex_le(s[i], s[b - 1]));
        } else {
            assert(lex_le(s[a - 1], s[b - 1]));
        }
    }
}

} // verus!
