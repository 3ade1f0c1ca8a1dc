//! The dirty-tracking cache: which nodes must be measured again, what the
//! others measured last time, and the index from depth to nodes.

use vstd::prelude::*;
use bevy::platform::collections::{HashMap, HashSet};
use crate::collections::{
    depth_index_clear, depth_index_get, depth_index_insert, depth_index_is_empty, depth_index_new,
    depth_index_remove, handle_set_clear, handle_set_contains, handle_set_insert, handle_set_len,
    handle_set_new, handle_set_remove, index_buckets, no_buckets, no_sizes, set_handles,
    size_table_get, size_table_insert, size_table_new, table_sizes,
};
use crate::components::{IntrinsicSize, LayoutDepth, LayoutTreeDepth};
use crate::tree::{is_child, LayoutNode};

verus! {

/// The lists of an index built from the depths of the first `n` nodes: under
/// each depth the nodes of that depth, in the order of the table.
pub open spec fn depth_buckets(depths: Seq<LayoutDepth>, n: int) -> Map<usize, Seq<usize>>
    decreases n,
{
    if n <= 0 {
        Map::empty()
    } else {
        let prev = depth_buckets(depths, n - 1);
        let d = depths[n - 1].0;
        prev.insert(
            d,
            (if prev.contains_key(d) {
                prev[d]
            } else {
                Seq::empty()
            }).push((n - 1) as usize),
        )
    }
}

/// Node `x` is listed under depth `d`.
pub open spec fn listed(buckets: Map<usize, Seq<usize>>, d: usize, x: int) -> bool {
    buckets.contains_key(d) && exists|k: int| 0 <= k < buckets[d].len() && #[trigger] buckets[d][k] == x
}

/// What an index built from the depths of the first `n` nodes holds: under
/// each depth exactly the nodes of that depth, each once.
pub proof fn lemma_depth_buckets(depths: Seq<LayoutDepth>, n: int)
    requires
        0 <= n <= depths.len() <= usize::MAX,
    ensures
        forall|d: usize, k: int|
            depth_buckets(depths, n).contains_key(d) && 0 <= k < depth_buckets(depths, n)[d].len()
                ==> (#[trigger] depth_buckets(depths, n)[d][k]) < n && depths[depth_buckets(
                depths,
                n,
            )[d][k] as int].0 == d,
        forall|d: usize, a: int, b: int|
            depth_buckets(depths, n).contains_key(d) && 0 <= a < b < depth_buckets(depths, n)[d].len()
                ==> (#[trigger] depth_buckets(depths, n)[d][a]) < (#[trigger] depth_buckets(
                depths,
                n,
            )[d][b]),
        forall|i: int|
            0 <= i < n ==> listed(depth_buckets(depths, n), (#[trigger] depths[i]).0, i),
    decreases n,
{
    if n > 0 {
        lemma_depth_buckets(depths, n - 1);
        let prev = depth_buckets(depths, n - 1);
        let now = depth_buckets(depths, n);
        let d0 = depths[n - 1].0;
        let old_bucket = if prev.contains_key(d0) {
            prev[d0]
        } else {
            Seq::empty()
        };
        assert(now[d0] == old_bucket.push((n - 1) as usize));
        assert forall|d: usize, k: int| now.contains_key(d) && 0 <= k < now[d].len() implies (
        #[trigger] now[d][k]) < n && depths[now[d][k] as int].0 == d by {
            if d == d0 {
                if k < old_bucket.len() {
                    assert(now[d][k] == prev[d][k]);
                }
            } else {
                assert(now[d][k] == prev[d][k]);
            }
        }
        assert forall|d: usize, a: int, b: int|
            now.contains_key(d) && 0 <= a < b < now[d].len() implies (#[trigger] now[d][a]) < (
        #[trigger] now[d][b]) by {
            if d == d0 {
                if b < old_bucket.len() {
                    assert(now[d][a] == prev[d][a]);
                    assert(now[d][b] == prev[d][b]);
                } else {
                    assert(now[d][a] == prev[d][a]);
                }
            } else {
                assert(now[d][a] == prev[d][a]);
                assert(now[d][b] == prev[d][b]);
            }
        }
        assert forall|i: int| 0 <= i < n implies listed(now, (#[trigger] depths[i]).0, i) by {
            let d = depths[i].0;
            if i == n - 1 {
                assert(now.contains_key(d0));
                assert(now[d0][old_bucket.len() as int] == i);
            } else {
                assert(listed(prev, d, i));
                let k = choose|k: int| 0 <= k < prev[d].len() && #[trigger] prev[d][k] == i;
                assert(now.contains_key(d));
                if d == d0 {
                    assert(now[d] == prev[d].push((n - 1) as usize));
                    assert(now[d][k] == prev[d][k]);
                } else {
                    assert(now[d] == prev[d]);
                }
                assert(now[d][k] == i);
            }
        }
    }
}

/// A chain of nodes, each a child of the one before, none of them in
/// `dirty`.
pub open spec fn clean_chain(nodes: Seq<LayoutNode>, dirty: Set<usize>, chain: Seq<usize>) -> bool {
    &&& chain.len() >= 1
    &&& forall|j: int| 0 <= j < chain.len() ==> !dirty.contains(#[trigger] chain[j])
    &&& forall|j: int| 0 <= j < chain.len() - 1 ==> is_child(nodes, #[trigger] chain[j], chain[j + 1])
}

/// A mark on `from` spreads to `x`: `x` is `from` or a descendant of it,
/// and neither `x` nor a node between them was marked before.
pub open spec fn spreads_to(nodes: Seq<LayoutNode>, dirty: Set<usize>, from: usize, x: usize) -> bool {
    exists|chain: Seq<usize>| #[trigger]
        clean_chain(nodes, dirty, chain) && chain[0] == from && chain.last() == x
}

/// A chain as `clean_chain`, but for its last node, which may be in
/// `dirty`.
spec fn open_chain(nodes: Seq<LayoutNode>, dirty: Set<usize>, chain: Seq<usize>) -> bool {
    &&& chain.len() >= 1
    &&& forall|j: int| 0 <= j < chain.len() - 1 ==> !dirty.contains(#[trigger] chain[j])
    &&& forall|j: int| 0 <= j < chain.len() - 1 ==> is_child(nodes, #[trigger] chain[j], chain[j + 1])
}

/// Number of nodes among the first `n` of the table that are not in
/// `dirty`.
spec fn clean_count(dirty: Set<usize>, n: int) -> int
    decreases n,
{
    if n <= 0 {
        0
    } else {
        clean_count(dirty, n - 1) + (if dirty.contains((n - 1) as usize) {
            0int
        } else {
            1int
        })
    }
}

proof fn lemma_clean_count(dirty: Set<usize>, x: usize, n: int)
    requires
        0 <= n <= usize::MAX,
    ensures
        0 <= clean_count(dirty, n),
        clean_count(dirty.insert(x), n) == clean_count(dirty, n) - (if x < n && !dirty.contains(x) {
            1int
        } else {
            0int
        }),
    decreases n,
{
    if n > 0 {
        lemma_clean_count(dirty, x, n - 1);
    }
}

/// With the start marked and every newly marked node's children marked,
/// every node that the mark spreads to is marked.
proof fn lemma_spread_complete(
    nodes: Seq<LayoutNode>,
    before: Set<usize>,
    now: Set<usize>,
    from: usize,
    chain: Seq<usize>,
)
    requires
        now.contains(from),
        forall|p: usize, c: usize|
            now.contains(p) && !before.contains(p) && #[trigger] is_child(nodes, p, c)
                ==> now.contains(c),
        clean_chain(nodes, before, chain),
        chain[0] == from,
    ensures
        now.contains(chain.last()),
    decreases chain.len(),
{
    if chain.len() > 1 {
        let shorter = chain.drop_last();
        assert(clean_chain(nodes, before, shorter)) by {
            assert forall|j: int| 0 <= j < shorter.len() - 1 implies is_child(
                nodes,
                #[trigger] shorter[j],
                shorter[j + 1],
            ) by {
                assert(is_child(nodes, chain[j], chain[j + 1]));
            }
            assert forall|j: int| 0 <= j < shorter.len() implies !before.contains(
                #[trigger] shorter[j],
            ) by {
                assert(!before.contains(chain[j]));
            }
        }
        lemma_spread_complete(nodes, before, now, from, shorter);
        let p = chain[chain.len() - 2];
        assert(shorter.last() == p);
        assert(!before.contains(chain[chain.len() - 2]));
        assert(is_child(nodes, chain[chain.len() - 2], chain[chain.len() - 2 + 1]));
    }
}

/// The cache of the layout passes.
pub struct LayoutCache {
    intrinsic_sizes: HashMap<usize, (i64, i64)>,
    dirty_nodes: HashSet<usize>,
    entities_by_depth: HashMap<usize, Vec<usize>>,
    frame_count: u64,
    last_max_depth: usize,
}

impl LayoutCache {
    /// The nodes marked dirty.
    pub closed spec fn dirty(&self) -> Set<usize> {
        set_handles(self.dirty_nodes)
    }

    /// The sizes measured last, by node, as `(width, height)`.
    pub closed spec fn cached(&self) -> Map<usize, (i64, i64)> {
        table_sizes(self.intrinsic_sizes)
    }

    /// The nodes of each depth, as last indexed.
    pub closed spec fn by_depth(&self) -> Map<usize, Seq<usize>> {
        index_buckets(self.entities_by_depth)
    }

    /// The number of frames counted.
    pub closed spec fn frame(&self) -> u64 {
        self.frame_count
    }

    /// The greatest depth at the time of the last indexing.
    pub closed spec fn indexed_max_depth(&self) -> usize {
        self.last_max_depth
    }

    /// A cache that holds nothing.
    pub fn new() -> (c: Self)
        ensures
            c.dirty() == Set::<usize>::empty(),
            c.cached() == no_sizes(),
            c.by_depth() == no_buckets(),
            c.frame() == 0,
            c.indexed_max_depth() == 0,
    {
        LayoutCache {
            intrinsic_sizes: size_table_new(),
            dirty_nodes: handle_set_new(),
            entities_by_depth: depth_index_new(),
            frame_count: 0,
            last_max_depth: 0,
        }
    }

    /// Builds the depth index anew from the current depths.
    pub fn rebuild_depth_map(&mut self, depths: &Vec<LayoutDepth>, max_depth: usize)
        ensures
            final(self).by_depth() == depth_buckets(depths@, depths@.len() as int),
            final(self).indexed_max_depth() == max_depth,
            final(self).dirty() == old(self).dirty(),
            final(self).cached() == old(self).cached(),
            final(self).frame() == old(self).frame(),
    {
        depth_index_clear(&mut self.entities_by_depth);
        let mut i: usize = 0;
        while i < depths.len()
            invariant
                i <= depths.len(),
                index_buckets(self.entities_by_depth) == depth_buckets(depths@, i as int),
                self.dirty() == old(self).dirty(),
                self.cached() == old(self).cached(),
                self.frame() == old(self).frame(),
            decreases depths.len() - i,
        {
            let d: usize = depths[i].0;
            let mut bucket: Vec<usize> = match depth_index_remove(&mut self.entities_by_depth, d) {
                Some(found) => found,
                None => Vec::new(),
            };
            bucket.push(i);
            depth_index_insert(&mut self.entities_by_depth, d, bucket);
            assert(index_buckets(self.entities_by_depth) =~= depth_buckets(depths@, i as int + 1));
            i = i + 1;
        }
        self.last_max_depth = max_depth;
    }

    /// The nodes indexed under a depth.
    pub fn get_entities_at_depth(&self, depth: usize) -> (found: Option<&Vec<usize>>)
        ensures
            found is Some == self.by_depth().contains_key(depth),
            found is Some ==> found->0@ == self.by_depth()[depth],
    {
        depth_index_get(&self.entities_by_depth, depth)
    }

    /// The nodes indexed under a depth, none where the index has no list
    /// for it.
    pub open spec fn listed_at(&self, depth: usize) -> Seq<usize> {
        if self.by_depth().contains_key(depth) {
            self.by_depth()[depth]
        } else {
            Seq::empty()
        }
    }

    /// A copy of the list of nodes indexed under a depth.
    pub fn entities_at_depth(&self, depth: usize) -> (list: Vec<usize>)
        ensures
            list@ == self.listed_at(depth),
    {
        let mut copy: Vec<usize> = Vec::new();
        match self.get_entities_at_depth(depth) {
            Some(found) => {
                let mut i: usize = 0;
                while i < found.len()
                    invariant
                        i <= found@.len(),
                        copy@ == found@.take(i as int),
                    decreases found@.len() - i,
                {
                    copy.push(found[i]);
                    assert(found@.take(i as int + 1) =~= found@.take(i as int).push(
                        found@[i as int],
                    ));
                    i = i + 1;
                }
                assert(found@.take(found@.len() as int) =~= found@);
            },
            None => {},
        }
        copy
    }

    /// Marks a node dirty. Marking twice is marking once.
    pub fn mark_dirty(&mut self, entity: usize)
        ensures
            final(self).dirty() == old(self).dirty().insert(entity),
            final(self).cached() == old(self).cached(),
            final(self).by_depth() == old(self).by_depth(),
            final(self).frame() == old(self).frame(),
            final(self).indexed_max_depth() == old(self).indexed_max_depth(),
    {
        let _ = handle_set_insert(&mut self.dirty_nodes, entity);
    }

    /// Marks a node and its descendants dirty, but stops at every node that
    /// is marked already: such a node is not looked into again.
    pub fn mark_dirty_recursive(&mut self, entity: usize, nodes: &Vec<LayoutNode>)
        ensures
            forall|x: usize|
                final(self).dirty().contains(x) <==> old(self).dirty().contains(x) || spreads_to(
                    nodes@,
                    old(self).dirty(),
                    entity,
                    x,
                ),
            final(self).cached() == old(self).cached(),
            final(self).by_depth() == old(self).by_depth(),
            final(self).frame() == old(self).frame(),
            final(self).indexed_max_depth() == old(self).indexed_max_depth(),
    {
        let n: usize = nodes.len();
        let ghost before = self.dirty();
        let mut stack: Vec<usize> = Vec::new();
        stack.push(entity);
        let ghost mut why: Seq<Seq<usize>> = seq![seq![entity]];
        assert(stack@[0] == entity);
        while stack.len() > 0
            invariant
                n == nodes@.len(),
                why.len() == stack@.len(),
                self.cached() == old(self).cached(),
                self.by_depth() == old(self).by_depth(),
                self.frame() == old(self).frame(),
                self.indexed_max_depth() == old(self).indexed_max_depth(),
                forall|x: usize| before.contains(x) ==> #[trigger] self.dirty().contains(x),
                forall|x: usize|
                    #[trigger] self.dirty().contains(x) && !before.contains(x) ==> spreads_to(
                        nodes@,
                        before,
                        entity,
                        x,
                    ),
                forall|j: int|
                    0 <= j < stack@.len() ==> open_chain(nodes@, before, #[trigger] why[j])
                        && why[j][0] == entity && why[j].last() == stack@[j],
                self.dirty().contains(entity) || stack@.contains(entity),
                forall|p: usize, c: usize|
                    self.dirty().contains(p) && !before.contains(p) && #[trigger] is_child(
                        nodes@,
                        p,
                        c,
                    ) ==> self.dirty().contains(c) || stack@.contains(c),
            decreases clean_count(self.dirty(), n as int), stack@.len(),
        {
            let ghost stack_then = stack@;
            let ghost dirty_then = self.dirty();
            let x: usize = stack.pop().unwrap();
            let ghost chain = why[why.len() - 1];
            proof {
                why = why.drop_last();
                lemma_clean_count(dirty_then, x, n as int);
                assert(stack_then =~= stack@.push(x));
            }
            let fresh: bool = handle_set_insert(&mut self.dirty_nodes, x);
            proof {
                assert forall|y: usize| stack_then.contains(y) implies stack@.contains(y)
                    || self.dirty().contains(y) by {
                    let j = choose|j: int| 0 <= j < stack_then.len() && stack_then[j] == y;
                    if j < stack@.len() {
                        assert(stack@[j] == y);
                    }
                }
                if fresh {
                    assert(clean_chain(nodes@, before, chain));
                }
            }
            if fresh && x < n {
                let kids = &nodes[x].children;
                let mut i: usize = 0;
                while i < kids.len()
                    invariant
                        n == nodes@.len(),
                        x < n,
                        kids@ == nodes@[x as int].children@,
                        i <= kids@.len(),
                        why.len() == stack@.len(),
                        self.dirty() == dirty_then.insert(x),
                        !before.contains(x),
                        clean_chain(nodes@, before, chain),
                        chain[0] == entity,
                        chain.last() == x,
                        self.cached() == old(self).cached(),
                        self.by_depth() == old(self).by_depth(),
                        self.frame() == old(self).frame(),
                        self.indexed_max_depth() == old(self).indexed_max_depth(),
                        forall|j: int|
                            0 <= j < stack@.len() ==> open_chain(nodes@, before, #[trigger] why[j])
                                && why[j][0] == entity && why[j].last() == stack@[j],
                        self.dirty().contains(entity) || stack@.contains(entity),
                        forall|p: usize, c: usize|
                            p != x && self.dirty().contains(p) && !before.contains(p)
                                && #[trigger] is_child(nodes@, p, c) ==> self.dirty().contains(c)
                                || stack@.contains(c),
                        forall|k: int|
                            0 <= k < i ==> self.dirty().contains(#[trigger] kids@[k])
                                || stack@.contains(kids@[k]),
                    decreases kids@.len() - i,
                {
                    let c: usize = kids[i];
                    let ghost stack_was = stack@;
                    stack.push(c);
                    proof {
                        let longer = chain.push(c);
                        why = why.push(longer);
                        assert(open_chain(nodes@, before, longer)) by {
                            assert forall|j: int| 0 <= j < longer.len() - 1 implies is_child(
                                nodes@,
                                #[trigger] longer[j],
                                longer[j + 1],
                            ) by {
                                if j < chain.len() - 1 {
                                    assert(is_child(nodes@, chain[j], chain[j + 1]));
                                } else {
                                    assert(nodes@[x as int].children@[i as int] == c);
                                }
                            }
                            assert forall|j: int| 0 <= j < longer.len() - 1 implies !before.contains(
                                #[trigger] longer[j],
                            ) by {
                                assert(longer[j] == chain[j]);
                            }
                        }
                        assert forall|y: usize| stack_was.contains(y) implies stack@.contains(
                            y,
                        ) by {
                            let j = choose|j: int| 0 <= j < stack_was.len() && stack_was[j] == y;
                            assert(stack@[j] == y);
                        }
                        assert(stack@[stack@.len() - 1] == c);
                    }
                    i = i + 1;
                }
                proof {
                    assert forall|p: usize, c: usize|
                        self.dirty().contains(p) && !before.contains(p) && #[trigger] is_child(
                            nodes@,
                            p,
                            c,
                        ) implies self.dirty().contains(c) || stack@.contains(c) by {
                        if p == x {
                            let k = choose|k: int|
                                0 <= k < nodes@[p as int].children@.len() && (
                                #[trigger] nodes@[p as int].children@[k]) == c;
                            assert(self.dirty().contains(kids@[k]) || stack@.contains(kids@[k]));
                        }
                    }
                }
            } else {
                proof {
                    if fresh {
                        assert forall|c: usize| !(#[trigger] is_child(nodes@, x, c)) by {}
                    }
                }
            }
            proof {
                lemma_clean_count(self.dirty(), x, n as int);
            }
        }
        proof {
            assert forall|p: usize, c: usize|
                self.dirty().contains(p) && !before.contains(p) && #[trigger] is_child(
                    nodes@,
                    p,
                    c,
                ) implies self.dirty().contains(c) by {
                assert(!stack@.contains(c));
            }
            assert(!stack@.contains(entity));
            assert forall|x: usize|
                spreads_to(nodes@, before, entity, x) implies self.dirty().contains(x) by {
                let chain = choose|chain: Seq<usize>| #[trigger]
                    clean_chain(nodes@, before, chain) && chain[0] == entity && chain.last() == x;
                lemma_spread_complete(nodes@, before, self.dirty(), entity, chain);
            }
        }
    }

    /// Whether a node is marked dirty.
    pub fn is_dirty(&self, entity: usize) -> (d: bool)
        ensures
            d == self.dirty().contains(entity),
    {
        handle_set_contains(&self.dirty_nodes, entity)
    }

    /// Takes the dirty mark off a node.
    pub fn clear_dirty(&mut self, entity: usize)
        ensures
            final(self).dirty() == old(self).dirty().remove(entity),
            final(self).cached() == old(self).cached(),
            final(self).by_depth() == old(self).by_depth(),
            final(self).frame() == old(self).frame(),
            final(self).indexed_max_depth() == old(self).indexed_max_depth(),
    {
        let _ = handle_set_remove(&mut self.dirty_nodes, entity);
    }

    /// Takes the dirty mark off every node.
    pub fn clear_all_dirty(&mut self)
        ensures
            final(self).dirty() == Set::<usize>::empty(),
            final(self).cached() == old(self).cached(),
            final(self).by_depth() == old(self).by_depth(),
            final(self).frame() == old(self).frame(),
            final(self).indexed_max_depth() == old(self).indexed_max_depth(),
    {
        handle_set_clear(&mut self.dirty_nodes);
    }

    /// Keeps the measured size of a node.
    pub fn cache_intrinsic(&mut self, entity: usize, size: IntrinsicSize)
        ensures
            final(self).cached() == old(self).cached().insert(entity, (size.width, size.height)),
            final(self).dirty() == old(self).dirty(),
            final(self).by_depth() == old(self).by_depth(),
            final(self).frame() == old(self).frame(),
            final(self).indexed_max_depth() == old(self).indexed_max_depth(),
    {
        size_table_insert(&mut self.intrinsic_sizes, entity, (size.width, size.height));
    }

    /// The size kept for a node, if any.
    pub fn get_cached_intrinsic(&self, entity: usize) -> (found: Option<IntrinsicSize>)
        ensures
            found is Some == self.cached().contains_key(entity),
            found is Some ==> found->0.width == self.cached()[entity].0 && found->0.height
                == self.cached()[entity].1,
    {
        match size_table_get(&self.intrinsic_sizes, entity) {
            Some(pair) => Some(IntrinsicSize { width: pair.0, height: pair.1 }),
            None => None,
        }
    }

    /// Counts one more frame. The count stops at the largest number.
    pub fn increment_frame(&mut self)
        ensures
            final(self).frame() == (if old(self).frame() < u64::MAX {
                (old(self).frame() + 1) as u64
            } else {
                u64::MAX
            }),
            final(self).dirty() == old(self).dirty(),
            final(self).cached() == old(self).cached(),
            final(self).by_depth() == old(self).by_depth(),
            final(self).indexed_max_depth() == old(self).indexed_max_depth(),
    {
        if self.frame_count < u64::MAX {
            self.frame_count = self.frame_count + 1;
        }
    }

    /// The number of frames counted.
    pub fn current_frame(&self) -> (f: u64)
        ensures
            f == self.frame(),
    {
        self.frame_count
    }

    /// The number of nodes marked dirty.
    pub fn dirty_count(&self) -> (n: usize)
        ensures
            n == self.dirty().len(),
    {
        handle_set_len(&self.dirty_nodes)
    }

    /// The dirty nodes as whole percent of `total_nodes`, rounded down;
    /// zero of no nodes.
    pub fn dirty_ratio(&self, total_nodes: usize) -> (percent: u64)
        ensures
            percent == (if total_nodes == 0 {
                0
            } else {
                crate::units::min_of(
                    self.dirty().len() as int * 100 / total_nodes as int,
                    u64::MAX as int,
                )
            }),
    {
        if total_nodes == 0 {
            return 0;
        }
        let dirty: u128 = handle_set_len(&self.dirty_nodes) as u128;
        let percent: u128 = dirty * 100 / (total_nodes as u128);
        proof {
            vstd::arithmetic::div_mod::lemma_div_is_ordered_by_denominator(
                dirty as int * 100,
                1,
                total_nodes as int,
            );
            vstd::arithmetic::div_mod::lemma_div_basics(dirty as int * 100);
        }
        if percent > 0xffff_ffff_ffff_ffff {
            0xffff_ffff_ffff_ffff
        } else {
            percent as u64
        }
    }
}

/// What the host saw change of one node since the last frame.
#[derive(Clone, Copy, Debug, PartialEq, Eq, Structural)]
pub struct NodeChange {
    /// The node.
    pub entity: usize,
    /// Its declared size or spacing changed.
    pub node_changed: bool,
    /// Its layout changed.
    pub layout_changed: bool,
    /// Its overrides changed.
    pub self_changed: bool,
    /// Its list of children changed.
    pub children_changed: bool,
}

impl NodeChange {
    /// The change makes the node's measure stale.
    pub open spec fn stales(&self) -> bool {
        self.node_changed || self.layout_changed || self.self_changed || self.children_changed
    }
}

/// The marks after a mark on `from` has spread.
pub open spec fn spread(nodes: Seq<LayoutNode>, dirty: Set<usize>, from: usize) -> Set<usize> {
    Set::new(|x: usize| dirty.contains(x) || spreads_to(nodes, dirty, from, x))
}

/// The marks after the first `k` changes: each change that makes its node
/// stale marks the node, and the mark spreads.
pub open spec fn after_changes(
    nodes: Seq<LayoutNode>,
    dirty: Set<usize>,
    changes: Seq<NodeChange>,
    k: int,
) -> Set<usize>
    decreases k,
{
    if k <= 0 {
        dirty
    } else {
        let prev = after_changes(nodes, dirty, changes, k - 1);
        if changes[k - 1].stales() {
            spread(nodes, prev, changes[k - 1].entity)
        } else {
            prev
        }
    }
}

/// The marks with the first `k` added nodes marked as well.
pub open spec fn with_added(dirty: Set<usize>, added: Seq<usize>, k: int) -> Set<usize>
    decreases k,
{
    if k <= 0 {
        dirty
    } else {
        with_added(dirty, added, k - 1).insert(added[k - 1])
    }
}

/// Marks what the host saw change. A node whose declared size, layout,
/// overrides or children changed is marked, and so are its descendants, as
/// far as they are not marked already; a node that was added is marked.
pub fn track_layout_changes(
    cache: &mut LayoutCache,
    nodes: &Vec<LayoutNode>,
    changes: &Vec<NodeChange>,
    added: &Vec<usize>,
)
    ensures
        final(cache).dirty() == with_added(
            after_changes(nodes@, old(cache).dirty(), changes@, changes@.len() as int),
            added@,
            added@.len() as int,
        ),
        final(cache).cached() == old(cache).cached(),
        final(cache).by_depth() == old(cache).by_depth(),
        final(cache).frame() == old(cache).frame(),
        final(cache).indexed_max_depth() == old(cache).indexed_max_depth(),
{
    let ghost before = cache.dirty();
    let mut k: usize = 0;
    while k < changes.len()
        invariant
            k <= changes@.len(),
            cache.dirty() == after_changes(nodes@, before, changes@, k as int),
            cache.cached() == old(cache).cached(),
            cache.by_depth() == old(cache).by_depth(),
            cache.frame() == old(cache).frame(),
            cache.indexed_max_depth() == old(cache).indexed_max_depth(),
        decreases changes@.len() - k,
    {
        let change = changes[k];
        if change.node_changed || change.layout_changed || change.self_changed
            || change.children_changed {
            let ghost prev = cache.dirty();
            cache.mark_dirty_recursive(change.entity, nodes);
            assert(cache.dirty() =~= spread(nodes@, prev, change.entity));
        }
        k = k + 1;
    }
    let ghost marked = cache.dirty();
    let mut a: usize = 0;
    while a < added.len()
        invariant
            a <= added@.len(),
            cache.dirty() == with_added(marked, added@, a as int),
            cache.cached() == old(cache).cached(),
            cache.by_depth() == old(cache).by_depth(),
            cache.frame() == old(cache).frame(),
            cache.indexed_max_depth() == old(cache).indexed_max_depth(),
        decreases added@.len() - a,
    {
        cache.mark_dirty(added[a]);
        a = a + 1;
    }
}

/// Brings the depth index up to date where it is out of date: after nodes
/// were added or removed, after the greatest depth changed, or while the
/// index is empty. Otherwise the cache stays as it is.
pub fn update_depth_cache(
    cache: &mut LayoutCache,
    tree_depth: &LayoutTreeDepth,
    depths: &Vec<LayoutDepth>,
    structure_changed: bool,
)
    ensures
        structure_changed || tree_depth.max_depth != old(cache).indexed_max_depth() || old(
            cache,
        ).by_depth() == no_buckets() ==> final(cache).by_depth() == depth_buckets(
            depths@,
            depths@.len() as int,
        ) && final(cache).indexed_max_depth() == tree_depth.max_depth,
        !(structure_changed || tree_depth.max_depth != old(cache).indexed_max_depth() || old(
            cache,
        ).by_depth() == no_buckets()) ==> final(cache).by_depth() == old(cache).by_depth()
            && final(cache).indexed_max_depth() == old(cache).indexed_max_depth(),
        final(cache).dirty() == old(cache).dirty(),
        final(cache).cached() == old(cache).cached(),
        final(cache).frame() == old(cache).frame(),
{
    if structure_changed || tree_depth.max_depth != cache.last_max_depth || depth_index_is_empty(
        &cache.entities_by_depth,
    ) {
        cache.rebuild_depth_map(depths, tree_depth.max_depth);
    }
}

} // verus!
