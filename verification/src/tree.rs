//! The host's node table as the passes read it. A node's handle is its
//! index in the table; a child handle beyond the table names a node that is
//! gone, and is skipped.

use vstd::prelude::*;
use crate::radial::{spokes_ok, valid_spoke};
use crate::units::{is_length, length_ok, Vec2i, MAX_ITEMS};
use crate::univis_node::{UDisplay, ULayout, UNode, USelf};

verus! {

/// What the host declares of one node.
pub struct LayoutNode {
    /// Declared size and spacing.
    pub node: UNode,
    /// How the node arranges its children, if it says so.
    pub layout: Option<ULayout>,
    /// What the node overrides as a child, if anything.
    pub uself: Option<USelf>,
    /// Handles of the children, in insertion order.
    pub children: Vec<usize>,
    /// The canvas size, for a root that declares one.
    pub canvas: Option<Vec2i>,
    /// Directions for the radial strategy. A radial container has at least
    /// as many as it has children; its in-flow children take the first of
    /// them, in placement order.
    pub spokes: Vec<Vec2i>,
}

impl LayoutNode {
    /// All declared values lie in the accepted ranges.
    pub open spec fn valid(&self) -> bool {
        &&& self.node.valid()
        &&& self.layout is Some ==> self.layout->0.valid()
        &&& self.uself is Some ==> self.uself->0.valid()
        &&& self.children@.len() <= MAX_ITEMS
        &&& self.canvas is Some ==> is_length(self.canvas->0.x as int) && is_length(
            self.canvas->0.y as int,
        )
        &&& forall|i: int| 0 <= i < self.spokes@.len() ==> valid_spoke(#[trigger] self.spokes@[i])
        &&& self.layout is Some && self.layout->0.display is Radial ==> self.spokes@.len()
            >= self.children@.len()
    }
}

impl LayoutNode {
    /// Whether all declared values lie in the accepted ranges.
    pub fn is_valid(&self) -> (ok: bool)
        ensures
            ok == self.valid(),
    {
        let layout_ok: bool = match self.layout {
            Some(l) => l.is_valid(),
            None => true,
        };
        let self_ok: bool = match self.uself {
            Some(u) => u.is_valid(),
            None => true,
        };
        let canvas_ok: bool = match self.canvas {
            Some(c) => length_ok(c.x) && length_ok(c.y),
            None => true,
        };
        let ring_ok: bool = match self.layout {
            Some(l) => match l.display {
                UDisplay::Radial => self.spokes.len() >= self.children.len(),
                _ => true,
            },
            None => true,
        };
        self.node.is_valid() && layout_ok && self_ok && self.children.len() <= MAX_ITEMS
            && canvas_ok && spokes_ok(&self.spokes) && ring_ok
    }
}

/// Every node of the table is valid.
pub open spec fn nodes_valid(nodes: Seq<LayoutNode>) -> bool {
    forall|i: int| 0 <= i < nodes.len() ==> (#[trigger] nodes[i]).valid()
}

/// Whether every node of the table is valid.
pub fn nodes_are_valid(nodes: &Vec<LayoutNode>) -> (ok: bool)
    ensures
        ok == nodes_valid(nodes@),
{
    let mut i: usize = 0;
    while i < nodes.len()
        invariant
            i <= nodes@.len(),
            forall|j: int| 0 <= j < i ==> (#[trigger] nodes@[j]).valid(),
        decreases nodes@.len() - i,
    {
        if !nodes[i].is_valid() {
            return false;
        }
        i = i + 1;
    }
    true
}

/// Child `i` of node `p` is a node of the table.
pub open spec fn is_edge(nodes: Seq<LayoutNode>, p: int, i: int) -> bool {
    &&& 0 <= p < nodes.len()
    &&& 0 <= i < nodes[p].children@.len()
    &&& nodes[p].children@[i] < nodes.len()
}

/// No node is a child twice, of one parent or of two.
pub open spec fn edges_unique(nodes: Seq<LayoutNode>) -> bool {
    forall|p: int, i: int, q: int, j: int|
        #![trigger nodes[p].children@[i], nodes[q].children@[j]]
        is_edge(nodes, p, i) && is_edge(nodes, q, j) && nodes[p].children@[i]
            == nodes[q].children@[j] ==> p == q && i == j
}

/// The table is a forest under the given roots: no node is a child twice,
/// and no root is a child.
pub open spec fn is_forest(nodes: Seq<LayoutNode>, roots: Seq<usize>) -> bool {
    &&& edges_unique(nodes)
    &&& forall|p: int, i: int, r: int|
        #![trigger nodes[p].children@[i], roots[r]]
        is_edge(nodes, p, i) && 0 <= r < roots.len() ==> nodes[p].children@[i] != roots[r]
}

/// Node `c` is a child of node `p`.
pub open spec fn is_child(nodes: Seq<LayoutNode>, p: usize, c: usize) -> bool {
    &&& p < nodes.len()
    &&& exists|i: int|
        0 <= i < nodes[p as int].children@.len() && #[trigger] nodes[p as int].children@[i] == c
}

/// `path` leads from a root down the tree, each node a child of the one
/// before.
pub open spec fn is_path(nodes: Seq<LayoutNode>, roots: Seq<usize>, path: Seq<usize>) -> bool {
    &&& path.len() >= 1
    &&& exists|r: int| 0 <= r < roots.len() && #[trigger] roots[r] == path[0]
    &&& forall|j: int| 0 <= j < path.len() ==> (#[trigger] path[j]) < nodes.len()
    &&& forall|j: int|
        0 <= j < path.len() - 1 ==> is_child(nodes, #[trigger] path[j], path[j + 1])
}

/// Edge `(q, j)` comes before edge `(p, i)` in the order of the table.
spec fn earlier(q: int, j: int, p: int, i: int) -> bool {
    q < p || (q == p && j < i)
}

/// An edge before `(p, i)` leads to node `c`.
spec fn claimed_before(nodes: Seq<LayoutNode>, p: int, i: int, c: int) -> bool {
    exists|q: int, j: int|
        earlier(q, j, p, i) && is_edge(nodes, q, j) && (#[trigger] nodes[q].children@[j]) == c
}

/// No two edges before `(p, i)` lead to the same node.
spec fn unique_before(nodes: Seq<LayoutNode>, p: int, i: int) -> bool {
    forall|q1: int, j1: int, q2: int, j2: int|
        #![trigger nodes[q1].children@[j1], nodes[q2].children@[j2]]
        earlier(q1, j1, p, i) && earlier(q2, j2, p, i) && is_edge(nodes, q1, j1) && is_edge(
            nodes,
            q2,
            j2,
        ) && nodes[q1].children@[j1] == nodes[q2].children@[j2] ==> q1 == q2 && j1 == j2
}

/// Whether the table is a forest under the given roots.
pub fn is_forest_table(nodes: &Vec<LayoutNode>, roots: &Vec<usize>) -> (ok: bool)
    ensures
        ok == is_forest(nodes@, roots@),
{
    let n: usize = nodes.len();
    let mut claimed: Vec<bool> = Vec::new();
    let mut m: usize = 0;
    while m < n
        invariant
            m <= n,
            claimed@.len() == m,
            forall|c: int| 0 <= c < m ==> !(#[trigger] claimed@[c]),
        decreases n - m,
    {
        claimed.push(false);
        m = m + 1;
    }
    let mut p: usize = 0;
    while p < n
        invariant
            p <= n,
            n == nodes@.len(),
            claimed@.len() == n,
            unique_before(nodes@, p as int, 0),
            forall|c: int|
                0 <= c < n ==> (#[trigger] claimed@[c]) == claimed_before(nodes@, p as int, 0, c),
        decreases n - p,
    {
        let kids = &nodes[p].children;
        let mut i: usize = 0;
        while i < kids.len()
            invariant
                p < n,
                n == nodes@.len(),
                claimed@.len() == n,
                kids@ == nodes@[p as int].children@,
                i <= kids@.len(),
                unique_before(nodes@, p as int, i as int),
                forall|c: int|
                    0 <= c < n ==> (#[trigger] claimed@[c]) == claimed_before(
                        nodes@,
                        p as int,
                        i as int,
                        c,
                    ),
            decreases kids@.len() - i,
        {
            let c: usize = kids[i];
            if c < n {
                if claimed[c] {
                    proof {
                        assert(claimed_before(nodes@, p as int, i as int, c as int));
                        let (q, j) = choose|q: int, j: int|
                            earlier(q, j, p as int, i as int) && is_edge(nodes@, q, j) && (
                            #[trigger] nodes@[q].children@[j]) == c as int;
                        assert(is_edge(nodes@, p as int, i as int));
                        assert(nodes@[q].children@[j] == nodes@[p as int].children@[i as int]);
                        assert(!edges_unique(nodes@));
                    }
                    return false;
                }
                let ghost claimed_then = claimed@;
                claimed.set(c, true);
                proof {
                    assert forall|x: int| 0 <= x < n implies (#[trigger] claimed@[x])
                        == claimed_before(nodes@, p as int, i as int + 1, x) by {
                        if x == c {
                            assert(earlier(p as int, i as int, p as int, i as int + 1) && is_edge(
                                nodes@,
                                p as int,
                                i as int,
                            ) && nodes@[p as int].children@[i as int] == x);
                        } else {
                            lemma_claim_step(nodes@, p as int, i as int, x);
                        }
                    }
                    assert(unique_before(nodes@, p as int, i as int + 1)) by {
                        assert forall|q1: int, j1: int, q2: int, j2: int|
                            #![trigger nodes@[q1].children@[j1], nodes@[q2].children@[j2]]
                            earlier(q1, j1, p as int, i as int + 1) && earlier(
                                q2,
                                j2,
                                p as int,
                                i as int + 1,
                            ) && is_edge(nodes@, q1, j1) && is_edge(nodes@, q2, j2)
                                && nodes@[q1].children@[j1] == nodes@[q2].children@[j2] implies q1
                            == q2 && j1 == j2 by {
                            let first_new = q1 == p && j1 == i;
                            let second_new = q2 == p && j2 == i;
                            if first_new && !second_new {
                                assert(claimed_before(nodes@, p as int, i as int, c as int));
                            } else if second_new && !first_new {
                                assert(claimed_before(nodes@, p as int, i as int, c as int));
                            }
                        }
                    }
                }
            } else {
                proof {
                    assert forall|x: int| 0 <= x < n implies (#[trigger] claimed@[x])
                        == claimed_before(nodes@, p as int, i as int + 1, x) by {
                        lemma_claim_step(nodes@, p as int, i as int, x);
                    }
                }
            }
            i = i + 1;
        }
        proof {
            assert forall|x: int| 0 <= x < n implies (#[trigger] claimed@[x]) == claimed_before(
                nodes@,
                p as int + 1,
                0,
                x,
            ) by {
                lemma_claim_row(nodes@, p as int, x);
            }
            assert(unique_before(nodes@, p as int + 1, 0)) by {
                assert forall|q1: int, j1: int, q2: int, j2: int|
                    #![trigger nodes@[q1].children@[j1], nodes@[q2].children@[j2]]
                    earlier(q1, j1, p as int + 1, 0) && earlier(q2, j2, p as int + 1, 0) && is_edge(
                        nodes@,
                        q1,
                        j1,
                    ) && is_edge(nodes@, q2, j2) && nodes@[q1].children@[j1]
                        == nodes@[q2].children@[j2] implies q1 == q2 && j1 == j2 by {
                    assert(earlier(q1, j1, p as int, kids@.len() as int));
                    assert(earlier(q2, j2, p as int, kids@.len() as int));
                }
            }
        }
        p = p + 1;
    }
    proof {
        assert(edges_unique(nodes@)) by {
            assert forall|q1: int, j1: int, q2: int, j2: int|
                #![trigger nodes@[q1].children@[j1], nodes@[q2].children@[j2]]
                is_edge(nodes@, q1, j1) && is_edge(nodes@, q2, j2) && nodes@[q1].children@[j1]
                    == nodes@[q2].children@[j2] implies q1 == q2 && j1 == j2 by {
                assert(earlier(q1, j1, n as int, 0));
                assert(earlier(q2, j2, n as int, 0));
            }
        }
    }
    let mut r: usize = 0;
    while r < roots.len()
        invariant
            r <= roots@.len(),
            n == nodes@.len(),
            claimed@.len() == n,
            edges_unique(nodes@),
            forall|c: int|
                0 <= c < n ==> (#[trigger] claimed@[c]) == claimed_before(nodes@, n as int, 0, c),
            forall|q: int, j: int, k: int|
                #![trigger nodes@[q].children@[j], roots@[k]]
                is_edge(nodes@, q, j) && 0 <= k < r ==> nodes@[q].children@[j] != roots@[k],
        decreases roots@.len() - r,
    {
        let x: usize = roots[r];
        if x < n && claimed[x] {
            proof {
                assert(claimed_before(nodes@, n as int, 0, x as int));
                let (q, j) = choose|q: int, j: int|
                    earlier(q, j, n as int, 0) && is_edge(nodes@, q, j) && (
                    #[trigger] nodes@[q].children@[j]) == x as int;
                assert(nodes@[q].children@[j] == roots@[r as int]);
            }
            return false;
        }
        proof {
            assert forall|q: int, j: int, k: int|
                #![trigger nodes@[q].children@[j], roots@[k]]
                is_edge(nodes@, q, j) && 0 <= k < r + 1 implies nodes@[q].children@[j]
                != roots@[k] by {
                if k == r && nodes@[q].children@[j] == x {
                    assert(earlier(q, j, n as int, 0));
                    assert(claimed_before(nodes@, n as int, 0, x as int));
                }
            }
        }
        r = r + 1;
    }
    true
}

proof fn lemma_claim_step(nodes: Seq<LayoutNode>, p: int, i: int, x: int)
    requires
        0 <= p < nodes.len(),
        0 <= i < nodes[p].children@.len(),
        !(is_edge(nodes, p, i) && nodes[p].children@[i] == x),
    ensures
        claimed_before(nodes, p, i + 1, x) == claimed_before(nodes, p, i, x),
{
    if claimed_before(nodes, p, i + 1, x) {
        let (q, j) = choose|q: int, j: int|
            earlier(q, j, p, i + 1) && is_edge(nodes, q, j) && (#[trigger] nodes[q].children@[j])
                == x;
        assert(earlier(q, j, p, i) && is_edge(nodes, q, j) && nodes[q].children@[j] == x);
    }
    if claimed_before(nodes, p, i, x) {
        let (q, j) = choose|q: int, j: int|
            earlier(q, j, p, i) && is_edge(nodes, q, j) && (#[trigger] nodes[q].children@[j]) == x;
        assert(earlier(q, j, p, i + 1) && is_edge(nodes, q, j) && nodes[q].children@[j] == x);
    }
}

proof fn lemma_claim_row(nodes: Seq<LayoutNode>, p: int, x: int)
    requires
        0 <= p < nodes.len(),
    ensures
        claimed_before(nodes, p + 1, 0, x) == claimed_before(
            nodes,
            p,
            nodes[p].children@.len() as int,
            x,
        ),
{
    let all = nodes[p].children@.len() as int;
    if claimed_before(nodes, p + 1, 0, x) {
        let (q, j) = choose|q: int, j: int|
            earlier(q, j, p + 1, 0) && is_edge(nodes, q, j) && (#[trigger] nodes[q].children@[j])
                == x;
        assert(earlier(q, j, p, all) && is_edge(nodes, q, j) && nodes[q].children@[j] == x);
    }
    if claimed_before(nodes, p, all, x) {
        let (q, j) = choose|q: int, j: int|
            earlier(q, j, p, all) && is_edge(nodes, q, j) && (#[trigger] nodes[q].children@[j]) == x;
        assert(earlier(q, j, p + 1, 0) && is_edge(nodes, q, j) && nodes[q].children@[j] == x);
    }
}

} // verus!
