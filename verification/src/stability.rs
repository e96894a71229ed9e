//! The diagram does not depend on the order in which a snapshot lists its
//! records.

use vstd::prelude::*;
use vstd::seq_lib::{
    lemma_multiset_commutative, to_multiset_contains, to_multiset_len, to_multiset_remove,
};
use crate::children::{child_ids, ordered_children};
use crate::directory::{declares_parent, NodeView};
use crate::sort::lemma_sort_ids_ignores_order;
use crate::tree::{
    lemma_children_have_ids, lemma_unvisited_shrinks, render, render_from, unvisited,
};

verus! {

/// The children found in two lists laid end to end are those of the first
/// followed by those of the second.
pub proof fn lemma_child_ids_concat(a: Seq<NodeView>, b: Seq<NodeView>, cur: Seq<u8>)
    ensures
        child_ids(a + b, cur) == child_ids(a, cur) + child_ids(b, cur),
    decreases b.len(),
{
    if b.len() == 0 {
        assert(a + b =~= a);
        assert(child_ids(a, cur) + child_ids(b, cur) =~= child_ids(a, cur));
    } else {
        lemma_child_ids_concat(a, b.drop_last(), cur);
        assert((a + b).drop_last() =~= a + b.drop_last());
        assert((a + b).last() == b.last());
        if declares_parent(b.last(), cur) {
            assert((child_ids(a, cur) + child_ids(b.drop_last(), cur)).push(b.last().id)
                =~= child_ids(a, cur) + child_ids(b.drop_last(), cur).push(b.last().id));
        }
    }
}

/// Taking one record out of a list takes its identifier out of the
/// children once, if it was one, and changes nothing else.
proof fn lemma_child_ids_remove(dir: Seq<NodeView>, i: int, cur: Seq<u8>)
    requires
        0 <= i < dir.len(),
    ensures
        child_ids(dir, cur).to_multiset() == child_ids(dir.remove(i), cur).to_multiset().add(
            child_ids(seq![dir[i]], cur).to_multiset(),
        ),
{
    let a = dir.take(i);
    let x = seq![dir[i]];
    let b = dir.skip(i + 1);
    assert(dir =~= a + x + b);
    assert(dir.remove(i) =~= a + b);
    lemma_child_ids_concat(a + x, b, cur);
    lemma_child_ids_concat(a, x, cur);
    lemma_child_ids_concat(a, b, cur);
    let ka = child_ids(a, cur);
    let kx = child_ids(x, cur);
    let kb = child_ids(b, cur);
    lemma_multiset_commutative(ka + kx, kb);
    lemma_multiset_commutative(ka, kx);
    lemma_multiset_commutative(ka, kb);
    assert(ka.to_multiset().add(kx.to_multiset()).add(kb.to_multiset()) =~= ka.to_multiset().add(
        kb.to_multiset(),
    ).add(kx.to_multiset()));
}

/// Two lists of the same records have the same children for every node,
/// each as often.
pub proof fn lemma_child_ids_ignore_order(d1: Seq<NodeView>, d2: Seq<NodeView>, cur: Seq<u8>)
    requires
        d1.to_multiset() == d2.to_multiset(),
    ensures
        child_ids(d1, cur).to_multiset() == child_ids(d2, cur).to_multiset(),
    decreases d1.len(),
{
    to_multiset_len(d1);
    to_multiset_len(d2);
    if d1.len() == 0 {
        assert(d1 =~= d2);
    } else {
        let x = d1.last();
        assert(d1.contains(x)) by {
            assert(d1[d1.len() - 1] == x);
        }
        to_multiset_contains(d1, x);
        to_multiset_contains(d2, x);
        let i = choose|i: int| 0 <= i < d2.len() && d2[i] == x;
        let last = d1.len() - 1;
        to_multiset_remove(d1, last);
        to_multiset_remove(d2, i);
        lemma_child_ids_ignore_order(d1.remove(last), d2.remove(i), cur);
        lemma_child_ids_remove(d1, last, cur);
        lemma_child_ids_remove(d2, i, cur);
    }
}

/// Two lists of the same records give the same lines below every node.
pub proof fn lemma_render_from_ignores_order(
    d1: Seq<NodeView>,
    d2: Seq<NodeView>,
    path: Seq<Seq<u8>>,
    cur: Seq<u8>,
    from: nat,
    indent: Seq<char>,
)
    requires
        d1.to_multiset() == d2.to_multiset(),
    ensures
        render_from(d1, path, cur, from, indent) == render_from(d2, path, cur, from, indent),
    decreases unvisited(d1, path), ordered_children(d1, cur).len() - from,
{
    lemma_child_ids_ignore_order(d1, d2, cur);
    lemma_sort_ids_ignores_order(child_ids(d1, cur), child_ids(d2, cur));
    let kids = ordered_children(d1, cur);
    assert(kids == ordered_children(d2, cur));
    if from < kids.len() {
        let c = kids[from as int];
        let last = from + 1 == kids.len();
        lemma_render_from_ignores_order(d1, d2, path, cur, from + 1, indent);
        if !path.contains(c) {
            lemma_children_have_ids(d1, cur, from as int);
            lemma_unvisited_shrinks(d1, path, c);
            lemma_render_from_ignores_order(
                d1,
                d2,
                path.push(c),
                c,
                0,
                indent + crate::tree::extension(last),
            );
        }
    }
}

/// The diagram of a snapshot is the same however its records are ordered.
pub proof fn lemma_render_ignores_order(
    d1: Seq<NodeView>,
    d2: Seq<NodeView>,
    parents: Seq<Seq<u8>>,
    cur: Seq<u8>,
    indent: Seq<char>,
)
    requires
        d1.to_multiset() == d2.to_multiset(),
    ensures
        render(d1, parents, cur, indent) == render(d2, parents, cur, indent),
{
    lemma_render_from_ignores_order(d1, d2, parents.push(cur), cur, 0, indent);
}

} // verus!
