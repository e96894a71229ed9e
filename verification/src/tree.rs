//! The tree diagram: the lines drawn below a node, with the guard that
//! stops at a node already met on the way down.

use vstd::prelude::*;
use vstd::string::*;
use crate::children::{
    has_id, lemma_child_ids_members, ordered_children, child_ids, path_contains, sorted_children,
};
use crate::directory::{declares_parent, snapshot, NodeRecord, NodeView};
use crate::hex::{format_byte_array, hex_colon};
use crate::order::copy_bytes;
use crate::sort::{id_seq, lemma_sort_ids_permutes};

verus! {

/// The number of records whose identifier is not on `path`: how far down a
/// walk can still go.
pub open spec fn unvisited(dir: Seq<NodeView>, path: Seq<Seq<u8>>) -> nat
    decreases dir.len(),
{
    if dir.len() == 0 {
        0
    } else if path.contains(dir.last().id) {
        unvisited(dir.drop_last(), path)
    } else {
        unvisited(dir.drop_last(), path) + 1
    }
}

/// There are no more records off the path than records.
pub proof fn lemma_unvisited_bounded(dir: Seq<NodeView>, path: Seq<Seq<u8>>)
    ensures
        unvisited(dir, path) <= dir.len(),
    decreases dir.len(),
{
    if dir.len() > 0 {
        lemma_unvisited_bounded(dir.drop_last(), path);
    }
}

/// A longer path leaves no more records off it.
pub proof fn lemma_unvisited_monotone(dir: Seq<NodeView>, path: Seq<Seq<u8>>, c: Seq<u8>)
    ensures
        unvisited(dir, path.push(c)) <= unvisited(dir, path),
    decreases dir.len(),
{
    if dir.len() > 0 {
        lemma_unvisited_monotone(dir.drop_last(), path, c);
        let x = dir.last().id;
        if path.contains(x) {
            let k = choose|k: int| 0 <= k < path.len() && path[k] == x;
            assert(path.push(c)[k] == x);
        }
    }
}

/// Stepping onto a record that was off the path leaves fewer off it.
pub proof fn lemma_unvisited_shrinks(dir: Seq<NodeView>, path: Seq<Seq<u8>>, c: Seq<u8>)
    requires
        has_id(dir, c),
        !path.contains(c),
    ensures
        unvisited(dir, path.push(c)) < unvisited(dir, path),
    decreases dir.len(),
{
    let i = choose|i: int| 0 <= i < dir.len() && (#[trigger] dir[i]).id == c;
    let front = dir.drop_last();
    if dir.last().id == c {
        lemma_unvisited_monotone(front, path, c);
        assert(path.push(c)[path.len() as int] == c);
    } else {
        assert(front[i].id == c);
        lemma_unvisited_shrinks(front, path, c);
        let x = dir.last().id;
        if path.contains(x) {
            let k = choose|k: int| 0 <= k < path.len() && path[k] == x;
            assert(path.push(c)[k] == x);
        }
        if path.push(c).contains(x) {
            let k = choose|k: int| 0 <= k < path.push(c).len() && path.push(c)[k] == x;
            assert(path[k] == x);
        }
    }
}

/// Every child that is drawn below a node is a record of the directory.
pub proof fn lemma_children_have_ids(dir: Seq<NodeView>, cur: Seq<u8>, k: int)
    requires
        0 <= k < ordered_children(dir, cur).len(),
    ensures
        has_id(dir, ordered_children(dir, cur)[k]),
        child_ids(dir, cur).contains(ordered_children(dir, cur)[k]),
{
    let c = ordered_children(dir, cur)[k];
    assert(ordered_children(dir, cur).contains(c));
    lemma_sort_ids_permutes(child_ids(dir, cur));
    lemma_child_ids_members(dir, cur, c);
}

/// The connector before a child: a corner for the last one, a branch for
/// the others.
pub open spec fn connector(last: bool) -> Seq<char> {
    if last {
        "`- "@
    } else {
        "|- "@
    }
}

/// What the indentation grows by below a child: blank below the last one,
/// a guide bar below the others.
pub open spec fn extension(last: bool) -> Seq<char> {
    if last {
        "     "@
    } else {
        "|    "@
    }
}

/// The mark on a child that is already on the path.
pub open spec fn loop_mark(looped: bool) -> Seq<char> {
    if looped {
        " (loop!)"@
    } else {
        Seq::empty()
    }
}

/// The line that draws one child.
pub open spec fn child_line(indent: Seq<char>, c: Seq<u8>, last: bool, looped: bool) -> Seq<char> {
    indent + connector(last) + hex_colon(c) + loop_mark(looped)
}

/// The lines for the children of `cur` from position `from` on, each child
/// followed by the lines of its own subtree. `path` is the way down from
/// the root and ends in `cur`. A child found on the path is marked and not
/// entered.
pub open spec fn render_from(
    dir: Seq<NodeView>,
    path: Seq<Seq<u8>>,
    cur: Seq<u8>,
    from: nat,
    indent: Seq<char>,
) -> Seq<Seq<char>>
    decreases unvisited(dir, path), ordered_children(dir, cur).len() - from,
{
    let kids = ordered_children(dir, cur);
    if from >= kids.len() {
        Seq::empty()
    } else {
        let c = kids[from as int];
        let last = from + 1 == kids.len();
        let rest = render_from(dir, path, cur, from + 1, indent);
        if path.contains(c) {
            seq![child_line(indent, c, last, true)] + rest
        } else {
            proof {
                lemma_children_have_ids(dir, cur, from as int);
                lemma_unvisited_shrinks(dir, path, c);
            }
            seq![child_line(indent, c, last, false)] + render_from(
                dir,
                path.push(c),
                c,
                0,
                indent + extension(last),
            ) + rest
        }
    }
}

/// The lines drawn below `cur`, reached from the root through `parents`.
/// The line of `cur` itself is not among them.
pub open spec fn render(
    dir: Seq<NodeView>,
    parents: Seq<Seq<u8>>,
    cur: Seq<u8>,
    indent: Seq<char>,
) -> Seq<Seq<char>> {
    render_from(dir, parents.push(cur), cur, 0, indent)
}

/// A node that no record names as parent has no lines below it, and only
/// such a node.
pub proof fn lemma_leaf_renders_nothing(
    dir: Seq<NodeView>,
    parents: Seq<Seq<u8>>,
    cur: Seq<u8>,
    indent: Seq<char>,
)
    ensures
        render(dir, parents, cur, indent).len() == 0 <==> forall|i: int|
            0 <= i < dir.len() ==> !declares_parent(#[trigger] dir[i], cur),
{
    let kids = child_ids(dir, cur);
    lemma_sort_ids_permutes(kids);
    if kids.len() > 0 {
        assert(kids.contains(kids[0]));
        lemma_child_ids_members(dir, cur, kids[0]);
    }
    if exists|i: int| 0 <= i < dir.len() && declares_parent(#[trigger] dir[i], cur) {
        let i = choose|i: int| 0 <= i < dir.len() && declares_parent(#[trigger] dir[i], cur);
        lemma_child_ids_members(dir, cur, dir[i].id);
    }
}

/// Every child of `cur` from position `from` on has its line among those
/// drawn, with the corner on the last child and the loop mark exactly on
/// a child that is on the path.
pub proof fn lemma_child_line_present(
    dir: Seq<NodeView>,
    path: Seq<Seq<u8>>,
    cur: Seq<u8>,
    from: nat,
    indent: Seq<char>,
    k: int,
)
    requires
        from <= k < ordered_children(dir, cur).len(),
    ensures
        render_from(dir, path, cur, from, indent).contains(
            child_line(
                indent,
                ordered_children(dir, cur)[k],
                k + 1 == ordered_children(dir, cur).len(),
                path.contains(ordered_children(dir, cur)[k]),
            ),
        ),
    decreases k - from,
{
    let kids = ordered_children(dir, cur);
    let all = render_from(dir, path, cur, from, indent);
    let want = child_line(indent, kids[k], k + 1 == kids.len(), path.contains(kids[k]));
    if k == from {
        assert(all[0] == want);
    } else {
        lemma_child_line_present(dir, path, cur, from + 1, indent, k);
        let rest = render_from(dir, path, cur, from + 1, indent);
        let j = choose|j: int| 0 <= j < rest.len() && rest[j] == want;
        assert(all[all.len() - rest.len() + j] == want);
    }
}

/// A record that names `cur` as parent and is itself `cur` or one of its
/// ancestors is drawn below `cur` with the loop mark.
pub proof fn lemma_ancestor_child_marked(
    dir: Seq<NodeView>,
    parents: Seq<Seq<u8>>,
    cur: Seq<u8>,
    indent: Seq<char>,
    k: int,
)
    requires
        0 <= k < dir.len(),
        declares_parent(dir[k], cur),
        parents.push(cur).contains(dir[k].id),
    ensures
        exists|last: bool|
            render(dir, parents, cur, indent).contains(
                #[trigger] child_line(indent, dir[k].id, last, true),
            ),
{
    let c = dir[k].id;
    let kids = ordered_children(dir, cur);
    lemma_child_ids_members(dir, cur, c);
    lemma_sort_ids_permutes(child_ids(dir, cur));
    assert(kids.contains(c));
    let j = choose|j: int| 0 <= j < kids.len() && kids[j] == c;
    lemma_child_line_present(dir, parents.push(cur), cur, 0, indent, j);
    assert(render(dir, parents, cur, indent).contains(
        child_line(indent, c, j + 1 == kids.len(), true),
    ));
}

/// Where every child of `cur` is on the path, each is drawn on one marked
/// line and nothing is drawn below any of them.
pub proof fn lemma_marked_children_not_entered(
    dir: Seq<NodeView>,
    path: Seq<Seq<u8>>,
    cur: Seq<u8>,
    from: nat,
    indent: Seq<char>,
)
    requires
        from <= ordered_children(dir, cur).len(),
        forall|k: int|
            0 <= k < ordered_children(dir, cur).len() ==> path.contains(
                #[trigger] ordered_children(dir, cur)[k],
            ),
    ensures
        render_from(dir, path, cur, from, indent) == Seq::new(
            (ordered_children(dir, cur).len() - from) as nat,
            |j: int|
                child_line(
                    indent,
                    ordered_children(dir, cur)[from + j],
                    from + j + 1 == ordered_children(dir, cur).len(),
                    true,
                ),
        ),
    decreases ordered_children(dir, cur).len() - from,
{
    let kids = ordered_children(dir, cur);
    if from < kids.len() {
        lemma_marked_children_not_entered(dir, path, cur, from + 1, indent);
        assert(path.contains(kids[from as int]));
    }
    assert(render_from(dir, path, cur, from, indent) =~= Seq::new(
        (kids.len() - from) as nat,
        |j: int| child_line(indent, kids[from + j], from + j + 1 == kids.len(), true),
    ));
}

/// `steps` is a way further down from the last node of `path`: each step
/// is a child of the node before it and not yet on the way, which is when
/// a child is entered.
pub open spec fn descends(dir: Seq<NodeView>, path: Seq<Seq<u8>>, steps: Seq<Seq<u8>>) -> bool
    decreases steps.len(),
{
    steps.len() == 0 || {
        &&& path.len() > 0
        &&& ordered_children(dir, path.last()).contains(steps[0])
        &&& !path.contains(steps[0])
        &&& descends(dir, path.push(steps[0]), steps.drop_first())
    }
}

/// On any way down no node is met twice, and the way is no longer than
/// the number of records still off the path, so no longer than the
/// directory.
pub proof fn lemma_descent_visits_once(
    dir: Seq<NodeView>,
    path: Seq<Seq<u8>>,
    steps: Seq<Seq<u8>>,
)
    requires
        path.no_duplicates(),
        descends(dir, path, steps),
    ensures
        (path + steps).no_duplicates(),
        steps.len() <= unvisited(dir, path),
        steps.len() <= dir.len(),
    decreases steps.len(),
{
    lemma_unvisited_bounded(dir, path);
    if steps.len() == 0 {
        assert(path + steps =~= path);
    } else {
        let c = steps[0];
        let kids = ordered_children(dir, path.last());
        let k = choose|k: int| 0 <= k < kids.len() && kids[k] == c;
        lemma_children_have_ids(dir, path.last(), k);
        lemma_unvisited_shrinks(dir, path, c);
        let longer = path.push(c);
        assert forall|i: int, j: int| 0 <= i < longer.len() && 0 <= j < longer.len() && i
            != j implies longer[i] != longer[j] by {
            if i < path.len() && j < path.len() {
                assert(path[i] != path[j]);
            } else if i < path.len() {
                assert(path.contains(path[i]));
            } else {
                assert(path.contains(path[j]));
            }
        }
        lemma_descent_visits_once(dir, longer, steps.drop_first());
        assert(longer + steps.drop_first() =~= path + steps);
    }
}

/// The text of each line.
pub open spec fn line_seq(lines: Seq<String>) -> Seq<Seq<char>> {
    Seq::new(lines.len(), |i: int| lines[i]@)
}

/// A copy of a path in a vector of its own.
fn copy_path(path: &[Vec<u8>]) -> (v: Vec<Vec<u8>>)
    ensures
        id_seq(v@) == id_seq(path@),
{
    let mut v: Vec<Vec<u8>> = Vec::new();
    let mut i: usize = 0;
    while i < path.len()
        invariant
            i <= path.len(),
            v.len() == i,
            forall|j: int| 0 <= j < i ==> (#[trigger] v@[j])@ == path@[j]@,
        decreases path.len() - i,
    {
        v.push(copy_bytes(path[i].as_slice()));
        i += 1;
    }
    assert(id_seq(v@) =~= id_seq(path@));
    v
}

/// Builds the line that draws one child.
fn child_line_string(indent: &str, c: &[u8], last: bool, looped: bool) -> (line: String)
    ensures
        line@ == child_line(indent@, c@, last, looped),
{
    let mut line = String::from_str(indent);
    if last {
        line.append("`- ");
    } else {
        line.append("|- ");
    }
    let id = format_byte_array(c);
    line.append(id.as_str());
    if looped {
        line.append(" (loop!)");
    }
    assert(line@ =~= child_line(indent@, c@, last, looped));
    line
}

/// The indentation for the lines below a child.
fn deeper_indent(indent: &str, last: bool) -> (deeper: String)
    ensures
        deeper@ == indent@ + extension(last),
{
    let mut deeper = String::from_str(indent);
    if last {
        deeper.append("     ");
    } else {
        deeper.append("|    ");
    }
    deeper
}

/// Draws the tree below `cur`: one line for each child, in lexicographic
/// order of the identifiers, each followed by the lines of its own
/// subtree. `parents` is the way from the root down to `cur`, without
/// `cur`. A child that is `cur` or one of `parents` is marked as a loop
/// and not entered, so the walk ends on any snapshot.
pub fn print_rpl_tree(links: &[NodeRecord], parents: &[Vec<u8>], cur: &[u8], indent: &str) -> (lines:
    Vec<String>)
    ensures
        line_seq(lines@) == render(snapshot(links@), id_seq(parents@), cur@, indent@),
    decreases unvisited(snapshot(links@), id_seq(parents@).push(cur@)),
{
    let ghost dir = snapshot(links@);
    let ghost path = id_seq(parents@).push(cur@);
    let children = sorted_children(links, cur);
    let mut new_parents = copy_path(parents);
    new_parents.push(copy_bytes(cur));
    assert(id_seq(new_parents@) =~= path);
    let mut out: Vec<String> = Vec::new();
    let mut i: usize = 0;
    assert(line_seq(out@) + render_from(dir, path, cur@, 0, indent@) =~= render_from(
        dir,
        path,
        cur@,
        0,
        indent@,
    ));
    while i < children.len()
        invariant
            i <= children.len(),
            dir == snapshot(links@),
            path == id_seq(parents@).push(cur@),
            id_seq(new_parents@) == path,
            id_seq(children@) == ordered_children(dir, cur@),
            line_seq(out@) + render_from(dir, path, cur@, i as nat, indent@) == render_from(
                dir,
                path,
                cur@,
                0,
                indent@,
            ),
        decreases children.len() - i,
    {
        let last = i + 1 == children.len();
        let c = children[i].as_slice();
        let ghost before = line_seq(out@);
        let ghost rest = render_from(dir, path, cur@, (i + 1) as nat, indent@);
        assert(c@ == ordered_children(dir, cur@)[i as int]) by {
            assert(id_seq(children@)[i as int] == c@);
        }
        if path_contains(new_parents.as_slice(), c) {
            out.push(child_line_string(indent, c, last, true));
            assert(line_seq(out@) =~= before + seq![child_line(indent@, c@, last, true)]);
            assert(line_seq(out@) + rest =~= before + (seq![child_line(indent@, c@, last, true)]
                + rest));
        } else {
            out.push(child_line_string(indent, c, last, false));
            let deeper = deeper_indent(indent, last);
            proof {
                lemma_children_have_ids(dir, cur@, i as int);
                lemma_unvisited_shrinks(dir, path, c@);
            }
            let mut sub = print_rpl_tree(links, new_parents.as_slice(), c, deeper.as_str());
            let ghost below = line_seq(sub@);
            out.append(&mut sub);
            assert(line_seq(out@) =~= before + seq![child_line(indent@, c@, last, false)] + below);
            assert(line_seq(out@) + rest =~= before + (seq![child_line(indent@, c@, last, false)]
                + below + rest));
        }
        i += 1;
    }
    assert(line_seq(out@) + Seq::<Seq<char>>::empty() =~= line_seq(out@));
    out
}

} // verus!
