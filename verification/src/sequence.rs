//! Which children a container lays out in its flow, and in what order:
//! ascending `order`, ties in insertion order.

use vstd::prelude::*;
use crate::solver::SolverItem;
use crate::univis_node::UPositionType;

verus! {

/// The item takes part in the flow.
pub open spec fn in_flow(item: SolverItem) -> bool {
    !(item.spec.position_type is Absolute)
}

/// Item `i` comes before item `j`: by a smaller `order`, or by the same
/// `order` and an earlier place among the children.
pub open spec fn comes_before(items: Seq<SolverItem>, i: int, j: int) -> bool {
    items[i].spec.order < items[j].spec.order || (items[i].spec.order == items[j].spec.order && i
        < j)
}

/// Where an item of order `key` goes among the first `m` of `s`: behind the
/// last that has an order of at most `key`.
pub open spec fn insert_point(items: Seq<SolverItem>, s: Seq<usize>, key: i32, m: int) -> int
    decreases m,
{
    if m <= 0 {
        0
    } else if items[s[m - 1] as int].spec.order <= key {
        m
    } else {
        insert_point(items, s, key, m - 1)
    }
}

/// The in-flow items among the first `n`, in placement order.
pub open spec fn flow_order_upto(items: Seq<SolverItem>, n: int) -> Seq<usize>
    decreases n,
{
    if n <= 0 {
        Seq::empty()
    } else {
        let prev = flow_order_upto(items, n - 1);
        if in_flow(items[n - 1]) {
            prev.insert(
                insert_point(items, prev, items[n - 1].spec.order, prev.len() as int),
                (n - 1) as usize,
            )
        } else {
            prev
        }
    }
}

/// The in-flow items in placement order, by their index among the children.
pub open spec fn flow_order(items: Seq<SolverItem>) -> Seq<usize> {
    flow_order_upto(items, items.len() as int)
}

/// The insert point lies within the first `m`; what stands behind it has a
/// greater order, what stands just before it has not.
pub proof fn lemma_insert_point(items: Seq<SolverItem>, s: Seq<usize>, key: i32, m: int)
    requires
        0 <= m <= s.len(),
    ensures
        0 <= insert_point(items, s, key, m) <= m,
        forall|j: int|
            insert_point(items, s, key, m) <= j < m ==> items[(#[trigger] s[j]) as int].spec.order
                > key,
        insert_point(items, s, key, m) > 0 ==> items[s[insert_point(items, s, key, m)
            - 1] as int].spec.order <= key,
    decreases m,
{
    if m > 0 && items[s[m - 1] as int].spec.order > key {
        lemma_insert_point(items, s, key, m - 1);
    }
}

/// The placement order holds exactly the in-flow items, each once, every
/// one before those that come after it.
pub proof fn lemma_flow_order(items: Seq<SolverItem>, n: int)
    requires
        0 <= n <= items.len() <= usize::MAX,
    ensures
        flow_order_upto(items, n).len() <= n,
        forall|k: int|
            0 <= k < flow_order_upto(items, n).len() ==> (#[trigger] flow_order_upto(items, n)[k])
                < n && in_flow(items[flow_order_upto(items, n)[k] as int]),
        forall|a: int, b: int|
            0 <= a < b < flow_order_upto(items, n).len() ==> comes_before(
                items,
                (#[trigger] flow_order_upto(items, n)[a]) as int,
                (#[trigger] flow_order_upto(items, n)[b]) as int,
            ),
        forall|i: int|
            0 <= i < n && in_flow(#[trigger] items[i]) ==> exists|k: int|
                0 <= k < flow_order_upto(items, n).len() && #[trigger] flow_order_upto(items, n)[k]
                    == i,
    decreases n,
{
    if n > 0 {
        lemma_flow_order(items, n - 1);
        let prev = flow_order_upto(items, n - 1);
        let now = flow_order_upto(items, n);
        if in_flow(items[n - 1]) {
            let key = items[n - 1].spec.order;
            let p = insert_point(items, prev, key, prev.len() as int);
            lemma_insert_point(items, prev, key, prev.len() as int);
            assert forall|a: int, b: int| 0 <= a < b < now.len() implies comes_before(
                items,
                (#[trigger] now[a]) as int,
                (#[trigger] now[b]) as int,
            ) by {
                if b == p {
                    assert(now[a] == prev[a]);
                    if a < p - 1 {
                        assert(comes_before(items, prev[a] as int, prev[p - 1] as int));
                    }
                } else if a == p {
                    assert(now[b] == prev[b - 1]);
                } else {
                    let pa = if a < p {
                        a
                    } else {
                        a - 1
                    };
                    let pb = if b < p {
                        b
                    } else {
                        b - 1
                    };
                    assert(now[a] == prev[pa]);
                    assert(now[b] == prev[pb]);
                    assert(comes_before(items, prev[pa] as int, prev[pb] as int));
                }
            }
            assert forall|i: int| 0 <= i < n && in_flow(#[trigger] items[i]) implies exists|k: int|
                0 <= k < now.len() && #[trigger] now[k] == i by {
                if i == n - 1 {
                    assert(now[p] == i);
                } else {
                    let k0 = choose|k: int| 0 <= k < prev.len() && #[trigger] prev[k] == i;
                    if k0 < p {
                        assert(now[k0] == i);
                    } else {
                        assert(now[k0 + 1] == i);
                    }
                }
            }
            assert forall|k: int| 0 <= k < now.len() implies (#[trigger] now[k]) < n && in_flow(
                items[now[k] as int],
            ) by {
                if k < p {
                    assert(now[k] == prev[k]);
                } else if k > p {
                    assert(now[k] == prev[k - 1]);
                }
            }
        } else {
            assert forall|i: int| 0 <= i < n && in_flow(#[trigger] items[i]) implies exists|k: int|
                0 <= k < now.len() && #[trigger] now[k] == i by {
                let k0 = choose|k: int| 0 <= k < prev.len() && #[trigger] prev[k] == i;
                assert(now[k0] == i);
            }
        }
    }
}

/// The placement order is a matter of the declarations alone.
pub proof fn lemma_order_alike(a: Seq<SolverItem>, b: Seq<SolverItem>, n: int)
    requires
        a.len() == b.len(),
        0 <= n <= a.len() <= usize::MAX,
        forall|i: int| 0 <= i < a.len() ==> (#[trigger] a[i]).spec == b[i].spec,
    ensures
        flow_order_upto(a, n) == flow_order_upto(b, n),
    decreases n,
{
    if n > 0 {
        lemma_order_alike(a, b, n - 1);
        lemma_flow_order(a, n - 1);
        let prev = flow_order_upto(a, n - 1);
        assert(a[n - 1].spec == b[n - 1].spec);
        lemma_insert_alike(a, b, prev, a[n - 1].spec.order, prev.len() as int);
    }
}

proof fn lemma_insert_alike(a: Seq<SolverItem>, b: Seq<SolverItem>, s: Seq<usize>, key: i32, m: int)
    requires
        a.len() == b.len(),
        0 <= m <= s.len(),
        forall|i: int| 0 <= i < a.len() ==> (#[trigger] a[i]).spec == b[i].spec,
        forall|k: int| 0 <= k < s.len() ==> (#[trigger] s[k]) < a.len(),
    ensures
        insert_point(a, s, key, m) == insert_point(b, s, key, m),
    decreases m,
{
    if m > 0 {
        assert(a[s[m - 1] as int].spec == b[s[m - 1] as int].spec);
        lemma_insert_alike(a, b, s, key, m - 1);
    }
}

/// No item stands twice in the placement order.
pub proof fn lemma_flow_order_distinct(items: Seq<SolverItem>)
    requires
        items.len() <= usize::MAX,
    ensures
        forall|a: int, b: int|
            0 <= a < flow_order(items).len() && 0 <= b < flow_order(items).len() && a != b ==> (
            #[trigger] flow_order(items)[a]) != (#[trigger] flow_order(items)[b]),
{
    lemma_flow_order(items, items.len() as int);
    let s = flow_order(items);
    assert forall|a: int, b: int| 0 <= a < s.len() && 0 <= b < s.len() && a != b implies (
    #[trigger] s[a]) != (#[trigger] s[b]) by {
        if a < b {
            assert(comes_before(items, s[a] as int, s[b] as int));
        } else {
            assert(comes_before(items, s[b] as int, s[a] as int));
        }
    }
}

/// The in-flow children in placement order: ascending `order`, ties in
/// insertion order; out-of-flow children left out.
pub fn in_flow_order(items: &Vec<SolverItem>) -> (order: Vec<usize>)
    ensures
        order@ == flow_order(items@),
{
    let n: usize = items.len();
    let mut order: Vec<usize> = Vec::new();
    let mut i: usize = 0;
    while i < n
        invariant
            i <= n,
            n == items.len(),
            order@ == flow_order_upto(items@, i as int),
        decreases n - i,
    {
        proof {
            lemma_flow_order(items@, i as int);
        }
        match items[i].spec.position_type {
            UPositionType::Absolute => {},
            UPositionType::Relative => {
                let key: i32 = items[i].spec.order;
                let mut p: usize = order.len();
                while p > 0 && items[order[p - 1]].spec.order > key
                    invariant
                        p <= order.len(),
                        n == items.len(),
                        forall|k: int| 0 <= k < order@.len() ==> (#[trigger] order@[k]) < n,
                        insert_point(items@, order@, key, order@.len() as int) == insert_point(
                            items@,
                            order@,
                            key,
                            p as int,
                        ),
                    decreases p,
                {
                    p = p - 1;
                }
                order.insert(p, i);
            },
        }
        i = i + 1;
    }
    order
}

/// The items that `indices` name, in that order.
pub open spec fn gathered(items: Seq<SolverItem>, indices: Seq<usize>) -> Seq<SolverItem> {
    Seq::new(indices.len(), |k: int| items[indices[k] as int])
}

/// Every index names an item, and none names the same as another.
pub open spec fn distinct_indices(indices: Seq<usize>, n: int) -> bool {
    &&& forall|k: int| 0 <= k < indices.len() ==> (#[trigger] indices[k]) < n
    &&& forall|a: int, b: int|
        0 <= a < indices.len() && 0 <= b < indices.len() && a != b ==> (#[trigger] indices[a])
            != (#[trigger] indices[b])
}

/// No index names item `i`.
pub open spec fn unnamed(indices: Seq<usize>, i: int) -> bool {
    forall|k: int| 0 <= k < indices.len() ==> (#[trigger] indices[k]) != i
}

/// Copies of the items that `indices` name, in that order.
pub fn gather(items: &Vec<SolverItem>, indices: &Vec<usize>) -> (flow: Vec<SolverItem>)
    requires
        forall|k: int| 0 <= k < indices@.len() ==> (#[trigger] indices@[k]) < items@.len(),
    ensures
        flow@ == gathered(items@, indices@),
{
    let mut flow: Vec<SolverItem> = Vec::new();
    let mut k: usize = 0;
    while k < indices.len()
        invariant
            k <= indices.len(),
            flow.len() == k,
            forall|j: int| 0 <= j < indices@.len() ==> (#[trigger] indices@[j]) < items@.len(),
            forall|j: int| 0 <= j < k ==> flow@[j] == items@[indices@[j] as int],
        decreases indices.len() - k,
    {
        flow.push(items[indices[k]]);
        k = k + 1;
    }
    assert(flow@ =~= gathered(items@, indices@));
    flow
}

/// Puts `flow[k]` where `indices[k]` names an item, for every `k`, and
/// leaves the other items as they are.
pub fn scatter(items: &mut Vec<SolverItem>, indices: &Vec<usize>, flow: &Vec<SolverItem>)
    requires
        distinct_indices(indices@, old(items)@.len() as int),
        flow@.len() == indices@.len(),
    ensures
        final(items)@.len() == old(items)@.len(),
        forall|k: int|
            0 <= k < indices@.len() ==> final(items)@[(#[trigger] indices@[k]) as int] == flow@[k],
        forall|i: int|
            0 <= i < old(items)@.len() && unnamed(indices@, i) ==> (#[trigger] final(items)@[i])
                == old(items)@[i],
{
    let ghost orig = items@;
    let mut k: usize = 0;
    while k < indices.len()
        invariant
            k <= indices.len(),
            items@.len() == orig.len(),
            distinct_indices(indices@, orig.len() as int),
            flow@.len() == indices@.len(),
            forall|j: int| 0 <= j < k ==> items@[(#[trigger] indices@[j]) as int] == flow@[j],
            forall|i: int|
                0 <= i < orig.len() && (forall|j: int| 0 <= j < k ==> (#[trigger] indices@[j]) != i)
                    ==> (#[trigger] items@[i]) == orig[i],
        decreases indices.len() - k,
    {
        let at: usize = indices[k];
        items.set(at, flow[k]);
        k = k + 1;
    }
}

} // verus!
