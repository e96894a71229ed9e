//! Sorting identifiers into their lexicographic order.

use vstd::prelude::*;
use vstd::seq_lib::{to_multiset_build, to_multiset_contains, to_multiset_len, to_multiset_remove};
use crate::order::{
    id_le, lemma_lex_le_antisymmetric, lemma_lex_le_total, lemma_lex_le_transitive, lex_le,
};

verus! {

/// The identifiers that a list of byte vectors stands for.
pub open spec fn id_seq(s: Seq<Vec<u8>>) -> Seq<Seq<u8>> {
    Seq::new(s.len(), |i: int| s[i]@)
}

/// No identifier stands before one that orders ahead of it.
pub open spec fn sorted(s: Seq<Seq<u8>>) -> bool {
    forall|i: int, j: int| 0 <= i < j < s.len() ==> lex_le(#[trigger] s[i], #[trigger] s[j])
}

/// `x` placed into `s` behind the last element that is at or before it.
pub open spec fn insert_sorted(s: Seq<Seq<u8>>, x: Seq<u8>) -> Seq<Seq<u8>>
    decreases s.len(),
{
    if s.len() == 0 {
        seq![x]
    } else if lex_le(s.last(), x) {
        s.push(x)
    } else {
        insert_sorted(s.drop_last(), x).push(s.last())
    }
}

/// The identifiers of `s` in lexicographic order, each as often as in `s`.
pub open spec fn sort_ids(s: Seq<Seq<u8>>) -> Seq<Seq<u8>>
    decreases s.len(),
{
    if s.len() == 0 {
        Seq::empty()
    } else {
        insert_sorted(sort_ids(s.drop_last()), s.last())
    }
}

/// Placing an identifier adds it once and keeps all the others.
pub proof fn lemma_insert_sorted_multiset(s: Seq<Seq<u8>>, x: Seq<u8>)
    ensures
        insert_sorted(s, x).to_multiset() == s.to_multiset().insert(x),
    decreases s.len(),
{
    if s.len() == 0 {
        assert(seq![x] =~= s.push(x));
        to_multiset_build(s, x);
    } else if lex_le(s.last(), x) {
        to_multiset_build(s, x);
    } else {
        let front = s.drop_last();
        lemma_insert_sorted_multiset(front, x);
        to_multiset_build(insert_sorted(front, x), s.last());
        to_multiset_build(front, s.last());
        assert(front.push(s.last()) =~= s);
        assert(front.to_multiset().insert(x).insert(s.last()) =~= front.to_multiset().insert(
            s.last(),
        ).insert(x));
    }
}

/// Sorting rearranges: every identifier occurs as often after as before.
pub proof fn lemma_sort_ids_permutes(s: Seq<Seq<u8>>)
    ensures
        sort_ids(s).to_multiset() == s.to_multiset(),
        sort_ids(s).len() == s.len(),
        forall|x: Seq<u8>| sort_ids(s).contains(x) <==> s.contains(x),
    decreases s.len(),
{
    if s.len() == 0 {
        assert(sort_ids(s) =~= s);
    } else {
        let front = s.drop_last();
        lemma_sort_ids_permutes(front);
        lemma_insert_sorted_multiset(sort_ids(front), s.last());
        to_multiset_build(front, s.last());
        assert(front.push(s.last()) =~= s);
    }
    to_multiset_len(s);
    to_multiset_len(sort_ids(s));
    assert forall|x: Seq<u8>| sort_ids(s).contains(x) <==> s.contains(x) by {
        to_multiset_contains(s, x);
        to_multiset_contains(sort_ids(s), x);
    }
}

/// Placing an identifier into a sorted list leaves it sorted.
pub proof fn lemma_insert_keeps_sorted(s: Seq<Seq<u8>>, x: Seq<u8>)
    requires
        sorted(s),
    ensures
        sorted(insert_sorted(s, x)),
    decreases s.len(),
{
    let r = insert_sorted(s, x);
    if s.len() == 0 {
    } else if lex_le(s.last(), x) {
        assert forall|i: int, j: int| 0 <= i < j < r.len() implies lex_le(
            #[trigger] r[i],
            #[trigger] r[j],
        ) by {
            if j == s.len() {
                if i < s.len() - 1 {
                    assert(lex_le(s[i], s[s.len() - 1]));
                    lemma_lex_le_transitive(s[i], s.last(), x);
                }
            } else {
                assert(lex_le(s[i], s[j]));
            }
        }
    } else {
        let front = s.drop_last();
        assert forall|i: int, j: int| 0 <= i < j < front.len() implies lex_le(
            #[trigger] front[i],
            #[trigger] front[j],
        ) by {
            assert(lex_le(s[i], s[j]));
        }
        lemma_insert_keeps_sorted(front, x);
        let mid = insert_sorted(front, x);
        lemma_insert_sorted_multiset(front, x);
        lemma_lex_le_total(s.last(), x);
        assert forall|i: int, j: int| 0 <= i < j < r.len() implies lex_le(
            #[trigger] r[i],
            #[trigger] r[j],
        ) by {
            if j == mid.len() {
                let y = mid[i];
                assert(mid.contains(y));
                to_multiset_contains(mid, y);
                to_multiset_contains(front, y);
                if y != x {
                    assert(front.contains(y));
                    let k = choose|k: int| 0 <= k < front.len() && front[k] == y;
                    assert(lex_le(s[k], s[s.len() - 1]));
                }
            } else {
                assert(lex_le(mid[i], mid[j]));
            }
        }
    }
}

/// What sorting returns is in lexicographic order.
pub proof fn lemma_sort_ids_sorted(s: Seq<Seq<u8>>)
    ensures
        sorted(sort_ids(s)),
    decreases s.len(),
{
    if s.len() > 0 {
        lemma_sort_ids_sorted(s.drop_last());
        lemma_insert_keeps_sorted(sort_ids(s.drop_last()), s.last());
    }
}

/// Two sorted lists that hold the same identifiers equally often are the
/// same list.
pub proof fn lemma_sorted_unique(a: Seq<Seq<u8>>, b: Seq<Seq<u8>>)
    requires
        sorted(a),
        sorted(b),
        a.to_multiset() == b.to_multiset(),
    ensures
        a == b,
    decreases a.len(),
{
    to_multiset_len(a);
    to_multiset_len(b);
    if a.len() == 0 {
        assert(a =~= b);
    } else {
        let x = a.last();
        let y = b.last();
        assert(a.contains(x)) by {
            assert(a[a.len() - 1] == x);
        }
        assert(b.contains(y)) by {
            assert(b[b.len() - 1] == y);
        }
        to_multiset_contains(a, x);
        to_multiset_contains(b, x);
        to_multiset_contains(a, y);
        to_multiset_contains(b, y);
        let i = choose|i: int| 0 <= i < b.len() && b[i] == x;
        let j = choose|j: int| 0 <= j < a.len() && a[j] == y;
        if i < b.len() - 1 {
            assert(lex_le(b[i], b[b.len() - 1]));
        } else {
            crate::order::lemma_lex_le_reflexive(x);
        }
        if j < a.len() - 1 {
            assert(lex_le(a[j], a[a.len() - 1]));
        } else {
            crate::order::lemma_lex_le_reflexive(y);
        }
        lemma_lex_le_antisymmetric(x, y);
        let fa = a.drop_last();
        let fb = b.drop_last();
        assert(a.remove(a.len() - 1) =~= fa);
        assert(b.remove(b.len() - 1) =~= fb);
        to_multiset_remove(a, a.len() - 1);
        to_multiset_remove(b, b.len() - 1);
        assert forall|p: int, q: int| 0 <= p < q < fa.len() implies lex_le(
            #[trigger] fa[p],
            #[trigger] fa[q],
        ) by {
            assert(lex_le(a[p], a[q]));
        }
        assert forall|p: int, q: int| 0 <= p < q < fb.len() implies lex_le(
            #[trigger] fb[p],
            #[trigger] fb[q],
        ) by {
            assert(lex_le(b[p], b[q]));
        }
        lemma_sorted_unique(fa, fb);
        assert(a =~= fa.push(x));
        assert(b =~= fb.push(y));
    }
}

/// The order in which identifiers are handed to the sort does not show in
/// what it returns.
pub proof fn lemma_sort_ids_ignores_order(s: Seq<Seq<u8>>, t: Seq<Seq<u8>>)
    requires
        s.to_multiset() == t.to_multiset(),
    ensures
        sort_ids(s) == sort_ids(t),
{
    lemma_sort_ids_permutes(s);
    lemma_sort_ids_permutes(t);
    lemma_sort_ids_sorted(s);
    lemma_sort_ids_sorted(t);
    lemma_sorted_unique(sort_ids(s), sort_ids(t));
}

/// Inserting at the place found by scanning back from the end is
/// [`insert_sorted`].
proof fn lemma_insert_at(s: Seq<Seq<u8>>, x: Seq<u8>, pos: int)
    requires
        0 <= pos <= s.len(),
        pos > 0 ==> lex_le(s[pos - 1], x),
        forall|j: int| pos <= j < s.len() ==> !lex_le(#[trigger] s[j], x),
    ensures
        insert_sorted(s, x) == s.insert(pos, x),
    decreases s.len(),
{
    if s.len() == 0 {
        assert(s.insert(pos, x) =~= seq![x]);
    } else if pos == s.len() {
        assert(s.insert(pos, x) =~= s.push(x));
    } else {
        assert(!lex_le(s[s.len() - 1], x));
        lemma_insert_at(s.drop_last(), x, pos);
        assert(s.drop_last().insert(pos, x).push(s.last()) =~= s.insert(pos, x));
    }
}

/// Places `x` into the sorted vector `v`.
pub fn insert_id(v: &mut Vec<Vec<u8>>, x: Vec<u8>)
    ensures
        id_seq(final(v)@) == insert_sorted(id_seq(old(v)@), x@),
{
    let mut pos: usize = v.len();
    while pos > 0 && !id_le(v[pos - 1].as_slice(), x.as_slice())
        invariant
            pos <= v.len(),
            v@ == old(v)@,
            forall|j: int| pos <= j < v.len() ==> !lex_le(#[trigger] id_seq(v@)[j], x@),
        decreases pos,
    {
        pos -= 1;
    }
    proof {
        lemma_insert_at(id_seq(v@), x@, pos as int);
    }
    v.insert(pos, x);
    assert(id_seq(v@) =~= id_seq(old(v)@).insert(pos as int, x@));
}

} // verus!
