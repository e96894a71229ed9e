//! Child discovery: the records that name a node as their parent.

use vstd::prelude::*;
use crate::directory::{declares_parent, is_parent, snapshot, NodeRecord, NodeView};
use crate::order::{bytes_equal, copy_bytes};
use crate::sort::{id_seq, insert_id, sort_ids};

verus! {

/// The identifiers of the records that name `cur` as parent, in the order
/// in which the directory lists them.
pub open spec fn child_ids(dir: Seq<NodeView>, cur: Seq<u8>) -> Seq<Seq<u8>>
    decreases dir.len(),
{
    if dir.len() == 0 {
        Seq::empty()
    } else if declares_parent(dir.last(), cur) {
        child_ids(dir.drop_last(), cur).push(dir.last().id)
    } else {
        child_ids(dir.drop_last(), cur)
    }
}

/// The children of `cur` in the order in which they are drawn.
pub open spec fn ordered_children(dir: Seq<NodeView>, cur: Seq<u8>) -> Seq<Seq<u8>> {
    sort_ids(child_ids(dir, cur))
}

/// Some record of the directory carries the identifier `x`.
pub open spec fn has_id(dir: Seq<NodeView>, x: Seq<u8>) -> bool {
    exists|i: int| 0 <= i < dir.len() && (#[trigger] dir[i]).id == x
}

/// An identifier is found among the children of `cur` exactly when some
/// record carries it and names `cur` as parent.
pub proof fn lemma_child_ids_members(dir: Seq<NodeView>, cur: Seq<u8>, x: Seq<u8>)
    ensures
        child_ids(dir, cur).contains(x) <==> exists|i: int|
            0 <= i < dir.len() && (#[trigger] dir[i]).id == x && declares_parent(dir[i], cur),
    decreases dir.len(),
{
    if dir.len() > 0 {
        let front = dir.drop_last();
        lemma_child_ids_members(front, cur, x);
        let kids = child_ids(front, cur);
        if child_ids(dir, cur).contains(x) {
            if kids.contains(x) {
                let i = choose|i: int|
                    0 <= i < front.len() && (#[trigger] front[i]).id == x && declares_parent(
                        front[i],
                        cur,
                    );
                assert(dir[i].id == x && declares_parent(dir[i], cur));
            } else {
                let k = choose|k: int|
                    0 <= k < child_ids(dir, cur).len() && child_ids(dir, cur)[k] == x;
                assert(declares_parent(dir.last(), cur));
                assert(k == kids.len());
                assert(dir[dir.len() - 1].id == x);
            }
        }
        if exists|i: int|
            0 <= i < dir.len() && (#[trigger] dir[i]).id == x && declares_parent(dir[i], cur) {
            let i = choose|i: int|
                0 <= i < dir.len() && (#[trigger] dir[i]).id == x && declares_parent(dir[i], cur);
            if i < front.len() {
                assert(front[i].id == x && declares_parent(front[i], cur));
                assert(kids.contains(x));
                let k = choose|k: int| 0 <= k < kids.len() && kids[k] == x;
                if declares_parent(dir.last(), cur) {
                    assert(child_ids(dir, cur)[k] == x);
                }
            } else {
                assert(child_ids(dir, cur)[kids.len() as int] == x);
            }
        }
    }
}

/// Whether the identifier `c` occurs on `path`.
pub fn path_contains(path: &[Vec<u8>], c: &[u8]) -> (found: bool)
    ensures
        found == id_seq(path@).contains(c@),
{
    let mut i: usize = 0;
    while i < path.len()
        invariant
            i <= path.len(),
            forall|j: int| 0 <= j < i ==> id_seq(path@)[j] != c@,
        decreases path.len() - i,
    {
        if bytes_equal(path[i].as_slice(), c) {
            assert(id_seq(path@)[i as int] == c@);
            return true;
        }
        i += 1;
    }
    false
}

/// Collects the identifiers of the records that name `cur` as parent and
/// puts them in lexicographic order.
pub fn sorted_children(links: &[NodeRecord], cur: &[u8]) -> (kids: Vec<Vec<u8>>)
    ensures
        id_seq(kids@) == ordered_children(snapshot(links@), cur@),
{
    let ghost dir = snapshot(links@);
    let mut kids: Vec<Vec<u8>> = Vec::new();
    let mut i: usize = 0;
    assert(dir.take(0) =~= Seq::<NodeView>::empty());
    assert(id_seq(kids@) =~= Seq::<Seq<u8>>::empty());
    while i < links.len()
        invariant
            i <= links.len(),
            dir == snapshot(links@),
            id_seq(kids@) == sort_ids(child_ids(dir.take(i as int), cur@)),
        decreases links.len() - i,
    {
        proof {
            let next = dir.take(i + 1);
            assert(next.drop_last() =~= dir.take(i as int));
            assert(next.last() == links@[i as int]@);
        }
        if is_parent(&links[i], cur) {
            let id = copy_bytes(links[i].id.as_slice());
            proof {
                let before = child_ids(dir.take(i as int), cur@);
                assert(child_ids(dir.take(i + 1), cur@) == before.push(id@));
                assert(before.push(id@).drop_last() =~= before);
            }
            insert_id(&mut kids, id);
        }
        i += 1;
    }
    assert(dir.take(i as int) =~= dir);
    kids
}

} // verus!
