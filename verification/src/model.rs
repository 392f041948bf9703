//! The mathematical model of a graph: a sequence of neighbor sets, one per
//! vertex, together with the well-formedness predicates, the abstract effect
//! of each mutation, and the laws those effects obey.

use vstd::prelude::*;

verus! {

broadcast use vstd::set::group_set_axioms;

/// Adjacency is symmetric: `v` neighbors `u` exactly when `u` neighbors `v`.
pub open spec fn adj_symmetric(a: Seq<Set<u32>>) -> bool {
    forall|u: u32, v: u32|
        u < a.len() && v < a.len() ==> (#[trigger] a[u as int].contains(v) <==> a[v as int].contains(
            u,
        ))
}

/// No vertex neighbors itself.
pub open spec fn adj_irreflexive(a: Seq<Set<u32>>) -> bool {
    forall|v: u32| v < a.len() ==> !(#[trigger] a[v as int]).contains(v)
}

/// Every neighbor index is itself a vertex of the graph.
pub open spec fn adj_bounded(a: Seq<Set<u32>>) -> bool {
    forall|v: int, x: u32| 0 <= v < a.len() && #[trigger] a[v].contains(x) ==> x < a.len()
}

/// Every neighbor set is finite (so its cardinality is meaningful).
pub open spec fn adj_finite(a: Seq<Set<u32>>) -> bool {
    forall|v: int| 0 <= v < a.len() ==> (#[trigger] a[v]).finite()
}

/// All structural invariants of an adjacency sequence at once.
pub open spec fn adj_wf(a: Seq<Set<u32>>) -> bool {
    adj_symmetric(a) && adj_irreflexive(a) && adj_bounded(a) && adj_finite(a)
}

/// The number of vertices with at least one neighbor.
pub open spec fn order_of(a: Seq<Set<u32>>) -> nat
    decreases a.len(),
{
    if a.len() == 0 {
        0
    } else {
        order_of(a.drop_last()) + if a.last().len() > 0 {
            1nat
        } else {
            0nat
        }
    }
}

/// The adjacency sequence after inserting the undirected edge `{u, v}`.
pub open spec fn spec_add_edge(a: Seq<Set<u32>>, u: u32, v: u32) -> Seq<Set<u32>> {
    a.update(u as int, a[u as int].insert(v)).update(v as int, a[v as int].insert(u))
}

/// The adjacency sequence after deleting the undirected edge `{u, v}`.
pub open spec fn spec_remove_edge(a: Seq<Set<u32>>, u: u32, v: u32) -> Seq<Set<u32>> {
    a.update(u as int, a[u as int].remove(v)).update(v as int, a[v as int].remove(u))
}

/// The adjacency sequence after contracting the edge `{target, source}`:
/// `target` absorbs `source`'s neighborhood, every neighbor of `source`
/// now neighbors `target` instead, and `source` is isolated.
pub open spec fn spec_contract(a: Seq<Set<u32>>, target: u32, source: u32) -> Seq<Set<u32>> {
    Seq::new(
        a.len(),
        |i: int|
            if i == source as int {
                Set::<u32>::empty()
            } else if i == target as int {
                a[target as int].union(a[source as int]).remove(target).remove(source)
            } else if a[source as int].contains(i as u32) {
                a[i].remove(source).insert(target)
            } else {
                a[i]
            },
    )
}

/// `dst` lies at most `n` adjacency steps away from `src`.
pub open spec fn reaches_within(a: Seq<Set<u32>>, src: u32, dst: u32, n: nat) -> bool
    decreases n,
{
    dst == src || (n > 0 && exists|u: u32|
        reaches_within(a, src, u, (n - 1) as nat) && u < a.len() && #[trigger] a[u as int].contains(
            dst,
        ))
}

/// `dst` lies in `src`'s connected component.
pub open spec fn reachable(a: Seq<Set<u32>>, src: u32, dst: u32) -> bool {
    exists|n: nat| reaches_within(a, src, dst, n)
}

/// The neighbor set of each vertex of the complete graph on `n` vertices:
/// every other vertex.
pub open spec fn complete_adj(n: u32, v: u32) -> Set<u32> {
    Set::new(|w: u32| w < n && w != v)
}

/// A finite set of indices below `bound` has at most `bound` elements.
pub proof fn lemma_bounded_set_len(s: Set<u32>, bound: u32)
    requires
        forall|x: u32| s.contains(x) ==> x < bound,
    ensures
        s.finite(),
        s.len() <= bound,
    decreases bound,
{
    if bound == 0 {
        assert(s =~= Set::empty());
    } else {
        let b = (bound - 1) as u32;
        lemma_bounded_set_len(s.remove(b), b);
        if s.contains(b) {
            assert(s =~= s.remove(b).insert(b));
        } else {
            assert(s =~= s.remove(b));
        }
    }
}

/// Each vertex of the complete graph on `n` vertices has `n - 1` neighbors.
pub proof fn lemma_complete_adj_len(n: u32, v: u32)
    requires
        v < n,
    ensures
        complete_adj(n, v).finite(),
        complete_adj(n, v).len() == n - 1,
    decreases n,
{
    lemma_bounded_set_len(complete_adj(n, v), n);
    if n == 1 {
        assert(complete_adj(n, v) =~= Set::empty());
    } else {
        let m = (n - 1) as u32;
        if v == m {
            lemma_complete_adj_len(m, 0);
            assert(complete_adj(n, v) =~= complete_adj(m, 0).insert(0).remove(v));
            assert(complete_adj(m, 0).insert(0) =~= Set::new(|w: u32| w < m));
            lemma_bounded_set_len(Set::new(|w: u32| w < m), m);
            assert(Set::new(|w: u32| w < m).remove(v) =~= Set::new(|w: u32| w < m));
            lemma_set_below_len(m);
        } else {
            lemma_complete_adj_len(m, v);
            assert(complete_adj(n, v) =~= complete_adj(m, v).insert(m));
        }
    }
}

/// The set of all indices below `n` has exactly `n` elements.
pub proof fn lemma_set_below_len(n: u32)
    ensures
        Set::new(|w: u32| w < n).finite(),
        Set::new(|w: u32| w < n).len() == n,
    decreases n,
{
    lemma_bounded_set_len(Set::new(|w: u32| w < n), n);
    if n == 0 {
        assert(Set::new(|w: u32| w < n) =~= Set::empty());
    } else {
        let m = (n - 1) as u32;
        lemma_set_below_len(m);
        assert(Set::new(|w: u32| w < n) =~= Set::new(|w: u32| w < m).insert(m));
    }
}

/// `order_of` never exceeds the number of vertices.
pub proof fn lemma_order_of_le_len(a: Seq<Set<u32>>)
    ensures
        order_of(a) <= a.len(),
    decreases a.len(),
{
    if a.len() > 0 {
        lemma_order_of_le_len(a.drop_last());
    }
}

/// A graph whose every vertex has no neighbors has order zero.
pub proof fn lemma_order_of_all_empty(a: Seq<Set<u32>>)
    requires
        forall|v: int| 0 <= v < a.len() ==> (#[trigger] a[v]).len() == 0,
    ensures
        order_of(a) == 0,
    decreases a.len(),
{
    if a.len() > 0 {
        lemma_order_of_all_empty(a.drop_last());
    }
}

/// A graph whose every vertex has a neighbor has order equal to its size.
pub proof fn lemma_order_of_all_nonempty(a: Seq<Set<u32>>)
    requires
        forall|v: int| 0 <= v < a.len() ==> (#[trigger] a[v]).len() > 0,
    ensures
        order_of(a) == a.len(),
    decreases a.len(),
{
    if a.len() > 0 {
        lemma_order_of_all_nonempty(a.drop_last());
    }
}

/// A vertex with a neighbor witnesses a positive order.
pub proof fn lemma_order_of_pos(a: Seq<Set<u32>>, v: int)
    requires
        0 <= v < a.len(),
        a[v].len() > 0,
    ensures
        order_of(a) >= 1,
    decreases a.len(),
{
    if v < a.len() - 1 {
        lemma_order_of_pos(a.drop_last(), v);
    }
}

/// How `order_of` changes when one vertex's neighbor set is replaced.
pub proof fn lemma_order_of_update(a: Seq<Set<u32>>, i: int, s: Set<u32>)
    requires
        0 <= i < a.len(),
    ensures
        order_of(a.update(i, s)) + (if a[i].len() > 0 {
            1nat
        } else {
            0nat
        }) == order_of(a) + (if s.len() > 0 {
            1nat
        } else {
            0nat
        }),
    decreases a.len(),
{
    let b = a.update(i, s);
    if i == a.len() - 1 {
        assert(b.drop_last() =~= a.drop_last());
    } else {
        assert(b.drop_last() =~= a.drop_last().update(i, s));
        lemma_order_of_update(a.drop_last(), i, s);
    }
}

/// Two adjacency sequences in which the same vertices are isolated have the
/// same order.
pub proof fn lemma_order_of_same_pattern(a: Seq<Set<u32>>, b: Seq<Set<u32>>)
    requires
        a.len() == b.len(),
        forall|v: int| 0 <= v < a.len() ==> ((#[trigger] a[v]).len() > 0 <==> (#[trigger] b[v]).len()
            > 0),
    ensures
        order_of(a) == order_of(b),
    decreases a.len(),
{
    if a.len() > 0 {
        lemma_order_of_same_pattern(a.drop_last(), b.drop_last());
    }
}

/// `order_of` is exactly the number of vertices with a nonzero degree.
pub proof fn lemma_order_counts_active(a: Seq<Set<u32>>)
    ensures
        Set::new(|v: int| 0 <= v < a.len() && a[v].len() > 0).finite(),
        order_of(a) == Set::new(|v: int| 0 <= v < a.len() && a[v].len() > 0).len(),
    decreases a.len(),
{
    let active = Set::new(|v: int| 0 <= v < a.len() && a[v].len() > 0);
    if a.len() == 0 {
        assert(active =~= Set::empty());
    } else {
        let b = a.drop_last();
        lemma_order_counts_active(b);
        let sub = Set::new(|v: int| 0 <= v < b.len() && b[v].len() > 0);
        if a.last().len() > 0 {
            assert(active =~= sub.insert(a.len() - 1));
        } else {
            assert(active =~= sub);
        }
    }
}

/// Adding an edge twice has the same effect as adding it once.
pub proof fn lemma_add_edge_idempotent(a: Seq<Set<u32>>, u: u32, v: u32)
    requires
        u < a.len(),
        v < a.len(),
    ensures
        spec_add_edge(spec_add_edge(a, u, v), u, v) == spec_add_edge(a, u, v),
{
    assert(spec_add_edge(spec_add_edge(a, u, v), u, v) =~~= spec_add_edge(a, u, v));
}

/// Removing an absent edge leaves the graph unchanged.
pub proof fn lemma_remove_edge_noop(a: Seq<Set<u32>>, u: u32, v: u32)
    requires
        u < a.len(),
        v < a.len(),
        !a[u as int].contains(v),
        !a[v as int].contains(u),
    ensures
        spec_remove_edge(a, u, v) == a,
{
    assert(spec_remove_edge(a, u, v) =~~= a);
}

/// Adding an edge preserves every structural invariant, provided the
/// endpoints are distinct vertices.
pub proof fn lemma_add_edge_wf(a: Seq<Set<u32>>, u: u32, v: u32)
    requires
        adj_wf(a),
        u < a.len(),
        v < a.len(),
        u != v,
    ensures
        adj_wf(spec_add_edge(a, u, v)),
{
    let b = spec_add_edge(a, u, v);
    assert forall|x: u32, y: u32| x < b.len() && y < b.len() implies (#[trigger] b[x as int].contains(
        y,
    ) <==> b[y as int].contains(x)) by {
        assert(a[x as int].contains(y) <==> a[y as int].contains(x));
    }
}

/// Removing an edge preserves every structural invariant.
pub proof fn lemma_remove_edge_wf(a: Seq<Set<u32>>, u: u32, v: u32)
    requires
        adj_wf(a),
        u < a.len(),
        v < a.len(),
        u != v,
    ensures
        adj_wf(spec_remove_edge(a, u, v)),
{
    let b = spec_remove_edge(a, u, v);
    assert forall|x: u32, y: u32| x < b.len() && y < b.len() implies (#[trigger] b[x as int].contains(
        y,
    ) <==> b[y as int].contains(x)) by {
        assert(a[x as int].contains(y) <==> a[y as int].contains(x));
    }
}

/// Contracting an existing edge preserves every structural invariant.
pub proof fn lemma_contract_wf(a: Seq<Set<u32>>, t: u32, s: u32)
    requires
        adj_wf(a),
        t < a.len(),
        s < a.len(),
        t != s,
        a[s as int].contains(t),
    ensures
        adj_wf(spec_contract(a, t, s)),
{
    let b = spec_contract(a, t, s);
    assert forall|x: u32, y: u32| x < b.len() && y < b.len() implies (#[trigger] b[x as int].contains(
        y,
    ) <==> b[y as int].contains(x)) by {
        assert(a[x as int].contains(y) <==> a[y as int].contains(x));
        assert(a[x as int].contains(t) <==> a[t as int].contains(x));
        assert(a[x as int].contains(s) <==> a[s as int].contains(x));
        assert(a[y as int].contains(t) <==> a[t as int].contains(y));
        assert(a[y as int].contains(s) <==> a[s as int].contains(y));
    }
    assert forall|v: int| 0 <= v < b.len() implies (#[trigger] b[v]).finite() by {
        assert(a[v].finite());
        assert(a[t as int].finite());
        assert(a[s as int].finite());
    }
}

} // verus!
