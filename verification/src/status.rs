//! The topology part of a status report: the border router's line and the
//! tree drawn below it.

use vstd::prelude::*;
use vstd::string::*;
use crate::directory::{
    find_border_router, is_sole_root, many_roots, no_root, snapshot, NodeRecord, NodeView,
    RootError,
};
use crate::hex::{format_byte_array, hex_colon};
use crate::tree::{line_seq, print_rpl_tree, render};
use crate::sort::id_seq;

verus! {

/// The indentation of the lines directly below the root.
pub open spec fn root_indent() -> Seq<char> {
    "  "@
}

/// The report for a snapshot whose root is the record at `k`: the root's
/// identifier on a line of its own, then the tree below it.
pub open spec fn status_lines(dir: Seq<NodeView>, k: int) -> Seq<Seq<char>> {
    seq![hex_colon(dir[k].id)] + render(dir, Seq::empty(), dir[k].id, root_indent())
}

/// Draws the whole topology of a snapshot from its border router down.
/// Fails where the snapshot has no border router or more than one.
pub fn topology_lines(links: &[NodeRecord]) -> (report: Result<Vec<String>, RootError>)
    ensures
        match report {
            Ok(lines) => exists|k: int| is_sole_root(snapshot(links@), k) && line_seq(lines@)
                == status_lines(snapshot(links@), k),
            Err(RootError::Missing) => no_root(snapshot(links@)),
            Err(RootError::Ambiguous) => many_roots(snapshot(links@)),
        },
{
    match find_border_router(links) {
        Ok(k) => {
            let ghost dir = snapshot(links@);
            let root = links[k].id.as_slice();
            let mut lines: Vec<String> = Vec::new();
            lines.push(format_byte_array(root));
            let none: Vec<Vec<u8>> = Vec::new();
            assert(id_seq(none@) =~= Seq::<Seq<u8>>::empty());
            let mut below = print_rpl_tree(links, none.as_slice(), root, "  ");
            lines.append(&mut below);
            assert(line_seq(lines@) =~= status_lines(dir, k as int));
            Ok(lines)
        },
        Err(e) => Err(e),
    }
}

} // verus!
