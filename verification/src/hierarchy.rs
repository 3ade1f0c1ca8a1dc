//! The depth pass: every node of the tree gets its distance from its root.

use vstd::prelude::*;
use crate::components::{LayoutDepth, LayoutTreeDepth};
use crate::tree::{is_child, is_edge, is_forest, is_path, LayoutNode};

verus! {

/// Every node that a path from a root reaches has the length of that path
/// for its depth: a root 0, its children 1, and so on.
pub open spec fn depths_settled(
    nodes: Seq<LayoutNode>,
    roots: Seq<usize>,
    depths: Seq<LayoutDepth>,
) -> bool {
    forall|path: Seq<usize>| #[trigger]
        is_path(nodes, roots, path) ==> depths[path.last() as int].0 == path.len() - 1
}

/// A path from a root leads to node `x`.
pub open spec fn reached(nodes: Seq<LayoutNode>, roots: Seq<usize>, x: int) -> bool {
    exists|path: Seq<usize>| #[trigger] is_path(nodes, roots, path) && path.last() == x
}

/// A path of `steps` edges leads from a root to node `x`.
pub open spec fn reached_in(nodes: Seq<LayoutNode>, roots: Seq<usize>, x: int, steps: int) -> bool {
    exists|path: Seq<usize>| #[trigger]
        is_path(nodes, roots, path) && path.last() == x && path.len() - 1 == steps
}

/// The depth of a node that no path from a root reaches.
pub const OUTSIDE_TREE: usize = usize::MAX;

/// Along every edge from a node of depth `max` or less the depth grows by
/// one.
pub open spec fn depths_consistent(nodes: Seq<LayoutNode>, depths: Seq<LayoutDepth>, max: int) -> bool {
    forall|p: int, i: int|
        is_edge(nodes, p, i) && depths[p].0 <= max ==> depths[(
        #[trigger] nodes[p].children@[i]) as int].0 == depths[p].0 + 1
}

/// The depth invariant: with settled depths, a root has depth 0, and where
/// a path from a root reaches a parent, each child of that parent is one
/// deeper than the parent.
pub proof fn lemma_depth_invariant(
    nodes: Seq<LayoutNode>,
    roots: Seq<usize>,
    depths: Seq<LayoutDepth>,
    path: Seq<usize>,
    i: int,
)
    requires
        depths_settled(nodes, roots, depths),
        is_path(nodes, roots, path),
    ensures
        path.len() == 1 ==> depths[path[0] as int].0 == 0,
        is_edge(nodes, path.last() as int, i) ==> depths[nodes[path.last() as int].children@[i] as int].0
            == depths[path.last() as int].0 + 1,
{
    if is_edge(nodes, path.last() as int, i) {
        let child = nodes[path.last() as int].children@[i];
        let longer = path.push(child);
        assert forall|j: int| 0 <= j < longer.len() - 1 implies is_child(
            nodes,
            #[trigger] longer[j],
            longer[j + 1],
        ) by {
            if j < path.len() - 1 {
                assert(is_child(nodes, path[j], path[j + 1]));
            }
        }
        assert(longer[0] == path[0]);
        assert(is_path(nodes, roots, longer));
        assert(longer.last() == child);
    }
}

/// Number of marks among the first `n`.
spec fn count_marked(marks: Seq<bool>, n: int) -> int
    decreases n,
{
    if n <= 0 {
        0
    } else {
        count_marked(marks, n - 1) + (if marks[n - 1] {
            1int
        } else {
            0int
        })
    }
}

proof fn lemma_count_marked(marks: Seq<bool>, x: int, n: int)
    requires
        0 <= x < marks.len(),
        0 <= n <= marks.len(),
        !marks[x],
    ensures
        0 <= count_marked(marks, n) <= n,
        count_marked(marks.update(x, true), n) == count_marked(marks, n) + (if x < n {
            1int
        } else {
            0int
        }),
        x < n ==> count_marked(marks, n) < n,
    decreases n,
{
    if n > 0 {
        lemma_count_marked(marks, x, n - 1);
    }
}

/// How queue entry `j` was found: as root `b` (with `a` negative), or as
/// child `b` of the queue entry `a`, which was expanded up to `cur` at most.
spec fn found_ok(
    nodes: Seq<LayoutNode>,
    roots: Seq<usize>,
    queue: Seq<usize>,
    depths: Seq<LayoutDepth>,
    how: (int, int),
    j: int,
    head: int,
    cur: int,
) -> bool {
    if how.0 < 0 {
        &&& 0 <= how.1 < roots.len()
        &&& roots[how.1] == queue[j]
        &&& depths[queue[j] as int].0 == 0
    } else {
        &&& how.0 <= head
        &&& how.0 < queue.len()
        &&& is_edge(nodes, queue[how.0] as int, how.1)
        &&& nodes[queue[how.0] as int].children@[how.1] == queue[j]
        &&& depths[queue[j] as int].0 == depths[queue[how.0] as int].0 + 1
        &&& (how.0 < head || how.1 < cur)
    }
}

/// The first `upto` children of node `p` are marked and one deeper.
spec fn expanded(
    nodes: Seq<LayoutNode>,
    marks: Seq<bool>,
    depths: Seq<LayoutDepth>,
    p: int,
    upto: int,
) -> bool {
    forall|i: int|
        0 <= i < upto && is_edge(nodes, p, i) ==> marks[(#[trigger] nodes[p].children@[i]) as int]
            && depths[nodes[p].children@[i] as int].0 == depths[p].0 + 1
}

/// What the traversal keeps true of its queue, marks and depths.
spec fn walk_inv(
    nodes: Seq<LayoutNode>,
    roots: Seq<usize>,
    marks: Seq<bool>,
    queue: Seq<usize>,
    depths: Seq<LayoutDepth>,
    how: Seq<(int, int)>,
    paths: Seq<Seq<usize>>,
    head: int,
    cur: int,
    max_depth: int,
) -> bool {
    let n = nodes.len();
    &&& marks.len() == n
    &&& depths.len() == n
    &&& how.len() == queue.len()
    &&& paths.len() == queue.len()
    &&& queue.len() == count_marked(marks, n as int)
    &&& 0 <= head <= queue.len()
    &&& forall|j: int| 0 <= j < queue.len() ==> (#[trigger] queue[j]) < n && marks[queue[j] as int]
    &&& forall|a: int, b: int|
        0 <= a < queue.len() && 0 <= b < queue.len() && a != b ==> (#[trigger] queue[a]) != (
        #[trigger] queue[b])
    &&& forall|x: int|
        0 <= x < n && #[trigger] marks[x] ==> exists|j: int|
            0 <= j < queue.len() && #[trigger] queue[j] == x
    &&& forall|j: int| 0 <= j < queue.len() ==> depths[(#[trigger] queue[j]) as int].0 <= j
    &&& forall|j: int|
        0 <= j < queue.len() ==> depths[(#[trigger] queue[j]) as int].0 <= max_depth
    &&& (max_depth == 0 || exists|j: int|
        0 <= j < queue.len() && depths[(#[trigger] queue[j]) as int].0 == max_depth)
    &&& forall|j: int|
        0 <= j < queue.len() ==> is_path(nodes, roots, #[trigger] paths[j]) && paths[j].last()
            == queue[j] && paths[j].len() - 1 == depths[queue[j] as int].0
    &&& is_forest(nodes, roots) ==> {
        &&& forall|j: int|
            0 <= j < queue.len() ==> found_ok(nodes, roots, queue, depths, #[trigger] how[j], j, head, cur)
        &&& forall|j: int|
            0 <= j < head ==> expanded(
                nodes,
                marks,
                depths,
                (#[trigger] queue[j]) as int,
                nodes[queue[j] as int].children@.len() as int,
            )
    }
}

/// With the roots marked at depth 0 and every marked node expanded, every
/// path from a root ends at a marked node whose depth is the path's length.
proof fn lemma_closed_marks(
    nodes: Seq<LayoutNode>,
    roots: Seq<usize>,
    marks: Seq<bool>,
    depths: Seq<LayoutDepth>,
    path: Seq<usize>,
)
    requires
        marks.len() == nodes.len(),
        depths.len() == nodes.len(),
        forall|r: int|
            0 <= r < roots.len() && (#[trigger] roots[r]) < nodes.len() ==> marks[roots[r] as int]
                && depths[roots[r] as int].0 == 0,
        forall|x: int|
            0 <= x < nodes.len() && #[trigger] marks[x] ==> expanded(
                nodes,
                marks,
                depths,
                x,
                nodes[x].children@.len() as int,
            ),
        is_path(nodes, roots, path),
    ensures
        marks[path.last() as int],
        depths[path.last() as int].0 == path.len() - 1,
    decreases path.len(),
{
    if path.len() == 1 {
        let r = choose|r: int| 0 <= r < roots.len() && #[trigger] roots[r] == path[0];
        assert(roots[r] < nodes.len());
    } else {
        let shorter = path.drop_last();
        assert(shorter[0] == path[0]);
        assert forall|j: int| 0 <= j < shorter.len() - 1 implies is_child(
            nodes,
            #[trigger] shorter[j],
            shorter[j + 1],
        ) by {
            assert(is_child(nodes, path[j], path[j + 1]));
        }
        assert(is_path(nodes, roots, shorter));
        lemma_closed_marks(nodes, roots, marks, depths, shorter);
        let p = shorter.last() as int;
        assert(p == path[path.len() - 2]);
        assert(is_child(nodes, path[path.len() - 2], path[path.len() - 2 + 1]));
        let i = choose|i: int|
            0 <= i < nodes[p].children@.len() && #[trigger] nodes[p].children@[i] == path.last();
        assert(marks[p]);
        assert(expanded(nodes, marks, depths, p, nodes[p].children@.len() as int));
        assert(is_edge(nodes, p, i));
    }
}

/// Walks the tree from the roots and writes each reached node's depth;
/// every other node of the table gets the depth `OUTSIDE_TREE`. Returns the
/// greatest depth of a reached node, zero for an empty tree.
///
/// A node is reached once: in a table that is not a forest, the depth of a
/// node with several parents is that of the first that finds it, which is
/// the length of one of the paths to it.
pub fn update_layout_hierarchy(
    nodes: &Vec<LayoutNode>,
    roots: &Vec<usize>,
    depths: &mut Vec<LayoutDepth>,
) -> (tree_depth: LayoutTreeDepth)
    requires
        old(depths)@.len() == nodes@.len(),
    ensures
        final(depths)@.len() == nodes@.len(),
        is_forest(nodes@, roots@) ==> depths_settled(nodes@, roots@, final(depths)@),
        forall|path: Seq<usize>| #[trigger]
            is_path(nodes@, roots@, path) && is_forest(nodes@, roots@) ==> path.len() - 1
                <= tree_depth.max_depth,
        tree_depth.max_depth == 0 || exists|path: Seq<usize>| #[trigger]
            is_path(nodes@, roots@, path) && path.len() - 1 == tree_depth.max_depth,
        forall|x: int|
            0 <= x < nodes@.len() && !reached(nodes@, roots@, x) ==> (#[trigger] final(depths)@[x]).0
                == OUTSIDE_TREE,
        forall|x: int|
            0 <= x < nodes@.len() && (#[trigger] final(depths)@[x]).0 != OUTSIDE_TREE ==> reached_in(
                nodes@,
                roots@,
                x,
                final(depths)@[x].0 as int,
            ),
        tree_depth.max_depth < OUTSIDE_TREE,
        is_forest(nodes@, roots@) ==> depths_consistent(
            nodes@,
            final(depths)@,
            tree_depth.max_depth as int,
        ),
{
    let n: usize = nodes.len();
    let mut marks: Vec<bool> = Vec::new();
    let mut m: usize = 0;
    while m < n
        invariant
            m <= n,
            n == nodes@.len(),
            depths@.len() == n,
            marks.len() == m,
            forall|x: int| 0 <= x < m ==> !(#[trigger] marks@[x]),
            forall|x: int| 0 <= x < m ==> (#[trigger] depths@[x]).0 == OUTSIDE_TREE,
        decreases n - m,
    {
        marks.push(false);
        depths.set(m, LayoutDepth(OUTSIDE_TREE));
        m = m + 1;
    }
    let mut queue: Vec<usize> = Vec::new();
    let ghost mut how: Seq<(int, int)> = Seq::empty();
    let ghost mut paths: Seq<Seq<usize>> = Seq::empty();
    proof {
        lemma_none_marked(marks@, n as int);
    }
    let mut r: usize = 0;
    while r < roots.len()
        invariant
            r <= roots.len(),
            n == nodes.len(),
            walk_inv(nodes@, roots@, marks@, queue@, depths@, how, paths, 0, 0, 0),
            forall|k: int|
                0 <= k < r && (#[trigger] roots@[k]) < n ==> marks@[roots@[k] as int]
                    && depths@[roots@[k] as int].0 == 0,
            forall|x: int| 0 <= x < n && !marks@[x] ==> (#[trigger] depths@[x]).0 == OUTSIDE_TREE,
        decreases roots.len() - r,
    {
        let x: usize = roots[r];
        if x < n && !marks[x] {
            proof {
                lemma_count_marked(marks@, x as int, n as int);
                how = how.push((-1int, r as int));
                paths = paths.push(seq![x]);
            }
            let ghost old_queue = queue@;
            marks.set(x, true);
            depths.set(x, LayoutDepth(0));
            queue.push(x);
            proof {
                assert forall|y: int| 0 <= y < n && #[trigger] marks@[y] implies exists|j: int|
                    0 <= j < queue@.len() && #[trigger] queue@[j] == y by {
                    if y == x {
                        assert(queue@[queue@.len() - 1] == x);
                    } else {
                        let j = choose|j: int| 0 <= j < old_queue.len() && #[trigger] old_queue[j] == y;
                        assert(queue@[j] == y);
                    }
                }
                assert(is_path(nodes@, roots@, seq![x])) by {
                    assert(roots@[r as int] == seq![x][0]);
                }
            }
        } else if x < n {
            proof {
                if is_forest(nodes@, roots@) {
                    let j = choose|j: int| 0 <= j < queue@.len() && #[trigger] queue@[j] == x;
                    assert(found_ok(nodes@, roots@, queue@, depths@, how[j], j, 0, 0));
                }
            }
        }
        r = r + 1;
    }
    let mut max_depth: usize = 0;
    let mut head: usize = 0;
    while head < queue.len()
        invariant
            n == nodes.len(),
            walk_inv(nodes@, roots@, marks@, queue@, depths@, how, paths, head as int, 0, max_depth as int),
            forall|k: int|
                0 <= k < roots@.len() && (#[trigger] roots@[k]) < n ==> marks@[roots@[k] as int]
                    && (is_forest(nodes@, roots@) ==> depths@[roots@[k] as int].0 == 0),
            forall|x: int| 0 <= x < n && !marks@[x] ==> (#[trigger] depths@[x]).0 == OUTSIDE_TREE,
        decreases n - head,
    {
        proof {
            lemma_count_bound(marks@, n as int);
        }
        let p: usize = queue[head];
        let d: usize = depths[p].0;
        let kids = &nodes[p].children;
        let mut i: usize = 0;
        while i < kids.len()
            invariant
                n == nodes.len(),
                head < queue.len(),
                p == queue@[head as int],
                p < n,
                d == depths@[p as int].0,
                kids@ == nodes@[p as int].children@,
                i <= kids.len(),
                walk_inv(
                    nodes@,
                    roots@,
                    marks@,
                    queue@,
                    depths@,
                    how,
                    paths,
                    head as int,
                    i as int,
                    max_depth as int,
                ),
                is_forest(nodes@, roots@) ==> expanded(nodes@, marks@, depths@, p as int, i as int),
                forall|k: int|
                    0 <= k < roots@.len() && (#[trigger] roots@[k]) < n ==> marks@[roots@[k] as int]
                        && (is_forest(nodes@, roots@) ==> depths@[roots@[k] as int].0 == 0),
                forall|x: int| 0 <= x < n && !marks@[x] ==> (#[trigger] depths@[x]).0 == OUTSIDE_TREE,
            decreases kids.len() - i,
        {
            let c: usize = kids[i];
            if c < n && !marks[c] {
                proof {
                    lemma_count_marked(marks@, c as int, n as int);
                    lemma_count_bound(marks@, n as int);
                    how = how.push((head as int, i as int));
                    paths = paths.push(paths[head as int].push(c));
                }
                let ghost old_queue = queue@;
                let ghost old_marks = marks@;
                let ghost old_depths = depths@;
                let ghost grown = paths[head as int].push(c);
                marks.set(c, true);
                depths.set(c, LayoutDepth(d + 1));
                queue.push(c);
                if d + 1 > max_depth {
                    max_depth = d + 1;
                }
                proof {
                    assert forall|y: int| 0 <= y < n && #[trigger] marks@[y] implies exists|j: int|
                        0 <= j < queue@.len() && #[trigger] queue@[j] == y by {
                        if y == c {
                            assert(queue@[queue@.len() - 1] == c);
                        } else {
                            let j = choose|j: int|
                                0 <= j < old_queue.len() && #[trigger] old_queue[j] == y;
                            assert(queue@[j] == y);
                        }
                    }
                    let base = paths[head as int];
                    assert(is_path(nodes@, roots@, grown)) by {
                        assert(grown[0] == base[0]);
                        assert forall|j: int| 0 <= j < grown.len() - 1 implies is_child(
                            nodes@,
                            #[trigger] grown[j],
                            grown[j + 1],
                        ) by {
                            if j < base.len() - 1 {
                                assert(is_child(nodes@, base[j], base[j + 1]));
                            } else {
                                assert(nodes@[p as int].children@[i as int] == c);
                            }
                        }
                    }
                    assert(depths@[queue@[queue@.len() - 1] as int].0 == max_depth || max_depth
                        != d + 1);
                    assert(max_depth == 0 || exists|j: int|
                        0 <= j < queue@.len() && depths@[(#[trigger] queue@[j]) as int].0
                            == max_depth) by {
                        if max_depth == d + 1 {
                            assert(depths@[queue@[queue@.len() - 1] as int].0 == max_depth);
                        } else if max_depth != 0 {
                            let j = choose|j: int|
                                0 <= j < old_queue.len() && old_depths[(
                                #[trigger] old_queue[j]) as int].0 == max_depth;
                            assert(queue@[j] == old_queue[j]);
                        }
                    }
                    if is_forest(nodes@, roots@) {
                        assert forall|j: int| 0 <= j < queue@.len() implies found_ok(
                            nodes@,
                            roots@,
                            queue@,
                            depths@,
                            #[trigger] how[j],
                            j,
                            head as int,
                            i as int + 1,
                        ) by {
                            if j < old_queue.len() {
                                assert(found_ok(
                                    nodes@,
                                    roots@,
                                    old_queue,
                                    old_depths,
                                    how[j],
                                    j,
                                    head as int,
                                    i as int,
                                ));
                                assert(queue@[j] == old_queue[j]);
                                if how[j].0 >= 0 {
                                    assert(queue@[how[j].0] == old_queue[how[j].0]);
                                }
                            }
                        }
                        assert forall|j: int| 0 <= j < head implies expanded(
                            nodes@,
                            marks@,
                            depths@,
                            (#[trigger] queue@[j]) as int,
                            nodes@[queue@[j] as int].children@.len() as int,
                        ) by {
                            assert(queue@[j] == old_queue[j]);
                            assert(expanded(
                                nodes@,
                                old_marks,
                                old_depths,
                                old_queue[j] as int,
                                nodes@[old_queue[j] as int].children@.len() as int,
                            ));
                        }
                    }
                }
            } else if c < n {
                proof {
                    if is_forest(nodes@, roots@) {
                        let j = choose|j: int| 0 <= j < queue@.len() && #[trigger] queue@[j] == c;
                        assert(found_ok(
                            nodes@,
                            roots@,
                            queue@,
                            depths@,
                            how[j],
                            j,
                            head as int,
                            i as int,
                        ));
                        assert(is_edge(nodes@, p as int, i as int));
                        assert(false);
                    }
                }
            }
            i = i + 1;
        }
        head = head + 1;
    }
    proof {
        if is_forest(nodes@, roots@) {
            assert forall|x: int| 0 <= x < nodes@.len() && #[trigger] marks@[x] implies expanded(
                nodes@,
                marks@,
                depths@,
                x,
                nodes@[x].children@.len() as int,
            ) by {
                let j = choose|j: int| 0 <= j < queue@.len() && #[trigger] queue@[j] == x;
                assert(expanded(
                    nodes@,
                    marks@,
                    depths@,
                    queue@[j] as int,
                    nodes@[queue@[j] as int].children@.len() as int,
                ));
            }
            assert forall|path: Seq<usize>| #[trigger]
                is_path(nodes@, roots@, path) implies depths@[path.last() as int].0 == path.len()
                - 1 && path.len() - 1 <= max_depth by {
                lemma_closed_marks(nodes@, roots@, marks@, depths@, path);
                let j = choose|j: int| 0 <= j < queue@.len() && #[trigger] queue@[j] == path.last();
            }
        }
        if max_depth != 0 {
            let j = choose|j: int|
                0 <= j < queue@.len() && depths@[(#[trigger] queue@[j]) as int].0 == max_depth;
            assert(is_path(nodes@, roots@, paths[j]));
        }
        assert forall|x: int| 0 <= x < nodes@.len() && !reached(nodes@, roots@, x) implies (
        #[trigger] depths@[x]).0 == OUTSIDE_TREE by {
            if marks@[x] {
                let j = choose|j: int| 0 <= j < queue@.len() && #[trigger] queue@[j] == x;
                assert(is_path(nodes@, roots@, paths[j]) && paths[j].last() == x);
            }
        }
        assert forall|x: int|
            0 <= x < nodes@.len() && (#[trigger] depths@[x]).0 != OUTSIDE_TREE implies reached_in(
            nodes@,
            roots@,
            x,
            depths@[x].0 as int,
        ) by {
            assert(marks@[x]);
            let j = choose|j: int| 0 <= j < queue@.len() && #[trigger] queue@[j] == x;
            assert(is_path(nodes@, roots@, paths[j]) && paths[j].last() == x);
        }
        lemma_count_bound(marks@, n as int);
        if max_depth != 0 {
            let j = choose|j: int|
                0 <= j < queue@.len() && depths@[(#[trigger] queue@[j]) as int].0 == max_depth;
            assert(depths@[queue@[j] as int].0 <= j);
        }
        if is_forest(nodes@, roots@) {
            assert forall|p: int, i: int|
                is_edge(nodes@, p, i) && depths@[p].0 <= max_depth implies depths@[(
            #[trigger] nodes@[p].children@[i]) as int].0 == depths@[p].0 + 1 by {
                assert(marks@[p]);
                assert(expanded(nodes@, marks@, depths@, p, nodes@[p].children@.len() as int));
            }
        }
    }
    LayoutTreeDepth { max_depth }
}

proof fn lemma_none_marked(marks: Seq<bool>, n: int)
    requires
        0 <= n <= marks.len(),
        forall|x: int| 0 <= x < marks.len() ==> !(#[trigger] marks[x]),
    ensures
        count_marked(marks, n) == 0,
    decreases n,
{
    if n > 0 {
        lemma_none_marked(marks, n - 1);
    }
}

proof fn lemma_count_bound(marks: Seq<bool>, n: int)
    requires
        0 <= n <= marks.len(),
    ensures
        0 <= count_marked(marks, n) <= n,
    decreases n,
{
    if n > 0 {
        lemma_count_bound(marks, n - 1);
    }
}

} // verus!
