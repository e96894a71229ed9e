//! The node directory: one snapshot of the mesh as a flat list of records,
//! and the two questions asked of a record.

use vstd::prelude::*;
use crate::order::bytes_equal;

verus! {

/// One node of a snapshot. An absent attribute makes no claim.
pub struct NodeRecord {
    /// The node's link-layer address.
    pub id: Vec<u8>,
    /// The node that this one names as its routing parent, if any.
    pub parent: Option<Vec<u8>>,
    /// Whether the node says it is the border router, if it says anything.
    pub is_border_router: Option<bool>,
}

/// The mathematical value of a [`NodeRecord`].
pub struct NodeView {
    pub id: Seq<u8>,
    pub parent: Option<Seq<u8>>,
    pub is_border_router: Option<bool>,
}

impl View for NodeRecord {
    type V = NodeView;

    open spec fn view(&self) -> NodeView {
        NodeView {
            id: self.id@,
            parent: match self.parent {
                Some(p) => Some(p@),
                None => None,
            },
            is_border_router: self.is_border_router,
        }
    }
}

/// The snapshot that a list of records stands for, record by record.
pub open spec fn snapshot(links: Seq<NodeRecord>) -> Seq<NodeView> {
    Seq::new(links.len(), |i: int| links[i]@)
}

/// The record names `target` as its parent.
pub open spec fn declares_parent(node: NodeView, target: Seq<u8>) -> bool {
    node.parent == Some(target)
}

/// The record carries the border-router flag, set.
pub open spec fn flagged_border_router(node: NodeView) -> bool {
    node.is_border_router == Some(true)
}

/// Whether `node` names `target` as its routing parent. A record without a
/// parent names nobody.
pub fn is_parent(node: &NodeRecord, target: &[u8]) -> (yes: bool)
    ensures
        yes == declares_parent(node@, target@),
{
    match &node.parent {
        Some(p) => bytes_equal(p.as_slice(), target),
        None => false,
    }
}

/// Whether `node` is flagged as the border router. An absent flag counts
/// as unset.
pub fn is_border_router(node: &NodeRecord) -> (yes: bool)
    ensures
        yes == flagged_border_router(node@),
{
    match node.is_border_router {
        Some(x) => x,
        None => false,
    }
}

/// Why a snapshot has no root to draw a tree from.
#[derive(Clone, Copy, Debug, PartialEq, Eq, Structural)]
pub enum RootError {
    /// No record is flagged as border router.
    Missing,
    /// More than one record is flagged as border router.
    Ambiguous,
}

/// The record at `k` is flagged as border router and no other record is.
pub open spec fn is_sole_root(dir: Seq<NodeView>, k: int) -> bool {
    &&& 0 <= k < dir.len()
    &&& flagged_border_router(dir[k])
    &&& forall|j: int| 0 <= j < dir.len() && j != k ==> !flagged_border_router(#[trigger] dir[j])
}

/// No record is flagged as border router.
pub open spec fn no_root(dir: Seq<NodeView>) -> bool {
    forall|j: int| 0 <= j < dir.len() ==> !flagged_border_router(#[trigger] dir[j])
}

/// Two records at least are flagged as border router.
pub open spec fn many_roots(dir: Seq<NodeView>) -> bool {
    exists|i: int, j: int|
        0 <= i < j < dir.len() && flagged_border_router(#[trigger] dir[i])
            && flagged_border_router(#[trigger] dir[j])
}

/// The three outcomes of looking for the root exclude one another: a
/// snapshot with a sole root has it at one position only, and is neither
/// without a root nor with several.
pub proof fn lemma_sole_root_unique(dir: Seq<NodeView>, k: int)
    requires
        is_sole_root(dir, k),
    ensures
        forall|j: int| is_sole_root(dir, j) ==> j == k,
        !no_root(dir),
        !many_roots(dir),
{
    assert(flagged_border_router(dir[k]));
}

/// Every snapshot has a sole root, no root, or several.
pub proof fn lemma_root_outcomes_cover(dir: Seq<NodeView>)
    ensures
        no_root(dir) || many_roots(dir) || exists|k: int| is_sole_root(dir, k),
{
    if !no_root(dir) {
        let k = choose|k: int| 0 <= k < dir.len() && flagged_border_router(#[trigger] dir[k]);
        if !is_sole_root(dir, k) {
            let j = choose|j: int|
                0 <= j < dir.len() && j != k && flagged_border_router(#[trigger] dir[j]);
            if j < k {
                assert(flagged_border_router(dir[j]) && flagged_border_router(dir[k]));
            } else {
                assert(flagged_border_router(dir[k]) && flagged_border_router(dir[j]));
            }
        }
    }
}

/// Locates the root of the tree: the position of the one record flagged as
/// border router. A snapshot without such a record, or with several, has
/// no root.
pub fn find_border_router(links: &[NodeRecord]) -> (found: Result<usize, RootError>)
    ensures
        match found {
            Ok(k) => is_sole_root(snapshot(links@), k as int),
            Err(RootError::Missing) => no_root(snapshot(links@)),
            Err(RootError::Ambiguous) => many_roots(snapshot(links@)),
        },
{
    let ghost dir = snapshot(links@);
    let mut first: Option<usize> = None;
    let mut i: usize = 0;
    while i < links.len()
        invariant
            i <= links.len(),
            dir == snapshot(links@),
            match first {
                Some(k) => k < i && flagged_border_router(dir[k as int]) && forall|j: int|
                    0 <= j < i && j != k ==> !flagged_border_router(#[trigger] dir[j]),
                None => forall|j: int| 0 <= j < i ==> !flagged_border_router(#[trigger] dir[j]),
            },
        decreases links.len() - i,
    {
        if is_border_router(&links[i]) {
            match first {
                Some(k) => {
                    assert(flagged_border_router(dir[k as int]) && flagged_border_router(
                        dir[i as int],
                    ));
                    return Err(RootError::Ambiguous);
                },
                None => {
                    first = Some(i);
                },
            }
        }
        i += 1;
    }
    match first {
        Some(k) => Ok(k),
        None => Err(RootError::Missing),
    }
}

} // verus!
