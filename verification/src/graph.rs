//! The graph data structure: per-vertex adjacency bit-sets kept in lockstep
//! with a degree counter per vertex and a count of non-isolated vertices.

use vstd::prelude::*;
use vstd::pervasive::VecAdditionalExecFns;

use crate::GraphError;
use crate::MAX_CAPACITY;
use crate::bits::bits_add_at;
use crate::bits::bits_contains;
use crate::bits::bits_drain_at;
use crate::bits::bits_list;
use crate::bits::bits_new;
use crate::bits::bits_remove_at;
use crate::bits::bits_view;
use crate::model::adj_bounded;
use crate::model::adj_finite;
use crate::model::adj_irreflexive;
use crate::model::adj_symmetric;
use crate::model::adj_wf;
use crate::model::complete_adj;
use crate::model::lemma_add_edge_wf;
use crate::model::lemma_bounded_set_len;
use crate::model::lemma_complete_adj_len;
use crate::model::lemma_contract_wf;
use crate::model::lemma_order_counts_active;
use crate::model::lemma_order_of_all_empty;
use crate::model::lemma_order_of_all_nonempty;
use crate::model::lemma_order_of_le_len;
use crate::model::lemma_order_of_pos;
use crate::model::lemma_order_of_same_pattern;
use crate::model::lemma_order_of_update;
use crate::model::lemma_remove_edge_wf;
use crate::model::order_of;
use crate::model::spec_add_edge;
use crate::model::spec_contract;
use crate::model::spec_remove_edge;

verus! {

broadcast use vstd::set::group_set_axioms;

/// The first `k` entries of `ws`, as a set, without `target`: the neighbors
/// of a contraction's absorbed vertex that have been processed so far.
spec fn taken_nontarget(ws: Seq<u32>, k: int, target: u32) -> Set<u32> {
    ws.take(k).to_set().remove(target)
}

/// An undirected graph on the fixed vertex range `[0, capacity)`, with no
/// edge values and no self-loops, abstracted as one neighbor set per vertex.
#[derive(Debug, Clone)]
pub struct BitGraph {
    m_data: Vec<hibitset::BitSet>,
    m_degrees: Vec<u32>,
    m_order: u32,
}

impl View for BitGraph {
    type V = Seq<Set<u32>>;

    closed spec fn view(&self) -> Seq<Set<u32>> {
        self.m_data@.map(|i: int, b: hibitset::BitSet| bits_view(b))
    }
}

impl BitGraph {
    /// The number of vertex slots, fixed at construction.
    pub open spec fn capacity(self) -> nat {
        self@.len()
    }

    /// The degree and order counters agree with the adjacency sets.
    spec fn counters_ok(self) -> bool {
        &&& self.m_degrees@.len() == self@.len()
        &&& self@.len() <= MAX_CAPACITY
        &&& adj_bounded(self@)
        &&& adj_finite(self@)
        &&& forall|v: int| 0 <= v < self@.len() ==> #[trigger] self.m_degrees@[v] as nat
            == self@[v].len()
        &&& self.m_order as nat == order_of(self@)
    }

    /// The full invariant: consistent counters over a symmetric, loop-free
    /// adjacency structure. Every public operation preserves it.
    pub closed spec fn wf(self) -> bool {
        self.counters_ok() && adj_symmetric(self@) && adj_irreflexive(self@)
    }

    /// A well-formed graph's view satisfies every structural invariant.
    pub proof fn lemma_wf_adj(self)
        requires
            self.wf(),
        ensures
            adj_wf(self@),
            self.capacity() <= MAX_CAPACITY,
    {
    }

    /// Creates an empty graph able to hold vertices `0` up to
    /// `capacity - 1`; no vertex at or beyond `capacity` can ever be added.
    pub fn with_capacity(capacity: u32) -> (r: Result<BitGraph, GraphError>)
        ensures
            match r {
                Ok(g) => {
                    &&& capacity <= MAX_CAPACITY
                    &&& g.wf()
                    &&& g.capacity() == capacity
                    &&& forall|v: int| 0 <= v < capacity ==> #[trigger] g@[v] == Set::<u32>::empty()
                },
                Err(e) => e == GraphError::CapacityExceeded && capacity > MAX_CAPACITY,
            },
    {
        Self::check_capacity(capacity)?;
        let mut m_data: Vec<hibitset::BitSet> = Vec::new();
        let mut m_degrees: Vec<u32> = Vec::new();
        let mut v: u32 = 0;
        while v < capacity
            invariant
                v <= capacity,
                capacity <= MAX_CAPACITY,
                m_data@.len() == v,
                m_degrees@.len() == v,
                forall|j: int|
                    0 <= j < v ==> #[trigger] bits_view(m_data@[j]) == Set::<u32>::empty(),
                forall|j: int| 0 <= j < v ==> #[trigger] m_degrees@[j] == 0,
            decreases capacity - v,
        {
            m_data.push(bits_new(capacity));
            m_degrees.push(0);
            v = v + 1;
        }
        let g = BitGraph { m_data, m_degrees, m_order: 0 };
        proof {
            assert(forall|j: int| 0 <= j < g@.len() ==> #[trigger] g@[j] == Set::<u32>::empty());
            lemma_order_of_all_empty(g@);
        }
        Ok(g)
    }

    fn check_capacity(capacity: u32) -> (r: Result<(), GraphError>)
        ensures
            match r {
                Ok(()) => capacity <= MAX_CAPACITY,
                Err(e) => e == GraphError::CapacityExceeded && capacity > MAX_CAPACITY,
            },
    {
        if capacity > MAX_CAPACITY {
            Err(GraphError::CapacityExceeded)
        } else {
            Ok(())
        }
    }

    fn check_bounds(&self, idx: u32) -> (r: Result<(), GraphError>)
        requires
            self.wf(),
        ensures
            match r {
                Ok(()) => (idx as nat) < self.capacity(),
                Err(e) => e == GraphError::OutOfBounds && (idx as nat) >= self.capacity(),
            },
    {
        if (idx as usize) >= self.m_degrees.len() {
            Err(GraphError::OutOfBounds)
        } else {
            Ok(())
        }
    }

    fn check_is_same(&self, u: u32, v: u32) -> (r: Result<(), GraphError>)
        ensures
            match r {
                Ok(()) => u != v,
                Err(e) => e == GraphError::SelfLoop && u == v,
            },
    {
        if u == v {
            Err(GraphError::SelfLoop)
        } else {
            Ok(())
        }
    }

    /// Creates the complete graph on `capacity` vertices: every two distinct
    /// vertices are adjacent, so every degree is `capacity - 1`.
    pub fn complete(capacity: u32) -> (r: Result<BitGraph, GraphError>)
        ensures
            match r {
                Ok(g) => {
                    &&& capacity <= MAX_CAPACITY
                    &&& g.wf()
                    &&& g.capacity() == capacity
                    &&& forall|v: u32| v < capacity ==> #[trigger] g@[v as int] == complete_adj(
                        capacity,
                        v,
                    )
                },
                Err(e) => e == GraphError::CapacityExceeded && capacity > MAX_CAPACITY,
            },
    {
        Self::check_capacity(capacity)?;
        let mut m_data: Vec<hibitset::BitSet> = Vec::new();
        let mut m_degrees: Vec<u32> = Vec::new();
        let mut v: u32 = 0;
        while v < capacity
            invariant
                v <= capacity,
                capacity <= MAX_CAPACITY,
                m_data@.len() == v,
                m_degrees@.len() == v,
                forall|j: u32| j < v ==> #[trigger] bits_view(m_data@[j as int]) == complete_adj(
                    capacity,
                    j,
                ),
                forall|j: u32| j < v ==> #[trigger] m_degrees@[j as int] == capacity - 1,
            decreases capacity - v,
        {
            m_data.push(bits_new(capacity));
            let ghost before = m_data@;
            let mut w: u32 = 0;
            while w < capacity
                invariant
                    w <= capacity,
                    v < capacity,
                    capacity <= MAX_CAPACITY,
                    m_data@.len() == v + 1,
                    forall|j: int| 0 <= j < v ==> m_data@[j] == before[j],
                    bits_view(m_data@[v as int]) == Set::new(|x: u32| x < w && x != v),
                decreases capacity - w,
            {
                let ghost prior = bits_view(m_data@[v as int]);
                if w != v {
                    bits_add_at(&mut m_data, v as usize, w);
                    proof {
                        assert(bits_view(m_data@[v as int]) =~= Set::new(
                            |x: u32| x < w + 1 && x != v,
                        ));
                    }
                } else {
                    proof {
                        assert(prior =~= Set::new(|x: u32| x < w + 1 && x != v));
                    }
                }
                w = w + 1;
            }
            proof {
                assert(bits_view(m_data@[v as int]) =~= complete_adj(capacity, v));
                assert forall|j: u32| j < v implies #[trigger] bits_view(m_data@[j as int])
                    == complete_adj(capacity, j) by {
                    assert(m_data@[j as int] == before[j as int]);
                }
            }
            m_degrees.push(capacity - 1);
            v = v + 1;
        }
        let m_order: u32 = if capacity >= 2 {
            capacity
        } else {
            0
        };
        let g = BitGraph { m_data, m_degrees, m_order };
        proof {
            assert forall|j: u32| j < capacity implies #[trigger] g@[j as int] == complete_adj(
                capacity,
                j,
            ) by {
                assert(g@[j as int] == bits_view(g.m_data@[j as int]));
            }
            assert forall|j: u32| j < capacity implies (#[trigger] g@[j as int]).finite() && g@[j
                as int].len() == capacity - 1 by {
                lemma_complete_adj_len(capacity, j);
            }
            if capacity >= 2 {
                lemma_order_of_all_nonempty(g@);
            } else {
                lemma_order_of_all_empty(g@);
            }
            assert(adj_symmetric(g@));
            assert(adj_irreflexive(g@));
            assert(adj_bounded(g@));
        }
        Ok(g)
    }

    /// Number of vertices that currently have at least one neighbor.
    pub fn order(&self) -> (r: u32)
        requires
            self.wf(),
        ensures
            r as nat == order_of(self@),
    {
        self.m_order
    }

    /// Number of neighbors of `v`.
    pub fn degree(&self, v: u32) -> (r: u32)
        requires
            self.wf(),
            (v as nat) < self.capacity(),
        ensures
            r as nat == self@[v as int].len(),
    {
        self.m_degrees[v as usize]
    }

    /// Records `v` as a neighbor of `u`, adjusting `u`'s degree and the
    /// order if `v` is new; a no-op when `v` already neighbors `u`.
    fn add_endpoint(&mut self, u: u32, v: u32)
        requires
            old(self).counters_ok(),
            (u as nat) < old(self)@.len(),
            (v as nat) < old(self)@.len(),
        ensures
            final(self).counters_ok(),
            final(self)@ == old(self)@.update(u as int, old(self)@[u as int].insert(v)),
    {
        let ghost a = old(self)@;
        let already = bits_add_at(&mut self.m_data, u as usize, v);
        proof {
            assert(self@ =~= a.update(u as int, a[u as int].insert(v)));
        }
        if !already {
            proof {
                lemma_bounded_set_len(a[u as int], a.len() as u32);
                lemma_order_of_le_len(a);
                lemma_order_of_update(a, u as int, a[u as int].insert(v));
            }
            if self.m_degrees[u as usize] == 0 {
                self.m_order = self.m_order + 1;
            }
            let d = self.m_degrees[u as usize];
            self.m_degrees.set(u as usize, d + 1);
        } else {
            proof {
                assert(a[u as int].insert(v) =~= a[u as int]);
                assert(self@ =~= a);
                assert(order_of(self@) == order_of(a));
            }
        }
    }

    /// Same update as `add_endpoint`, with the bookkeeping done
    /// unconditionally: the caller guarantees that `v` is a new neighbor.
    fn add_endpoint_unchecked(&mut self, u: u32, v: u32)
        requires
            old(self).counters_ok(),
            (u as nat) < old(self)@.len(),
            (v as nat) < old(self)@.len(),
            !old(self)@[u as int].contains(v),
        ensures
            final(self).counters_ok(),
            final(self)@ == old(self)@.update(u as int, old(self)@[u as int].insert(v)),
    {
        let ghost a = old(self)@;
        bits_add_at(&mut self.m_data, u as usize, v);
        proof {
            assert(self@ =~= a.update(u as int, a[u as int].insert(v)));
            lemma_bounded_set_len(a[u as int], a.len() as u32);
            lemma_order_of_le_len(a);
            lemma_order_of_update(a, u as int, a[u as int].insert(v));
        }
        if self.m_degrees[u as usize] == 0 {
            self.m_order = self.m_order + 1;
        }
        let d = self.m_degrees[u as usize];
        self.m_degrees.set(u as usize, d + 1);
    }

    /// Forgets `v` as a neighbor of `u`, adjusting `u`'s degree and the
    /// order if `u` loses its last neighbor; a no-op when `v` was absent.
    fn remove_endpoint(&mut self, u: u32, v: u32)
        requires
            old(self).counters_ok(),
            (u as nat) < old(self)@.len(),
        ensures
            final(self).counters_ok(),
            final(self)@ == old(self)@.update(u as int, old(self)@[u as int].remove(v)),
    {
        let ghost a = old(self)@;
        let was = bits_remove_at(&mut self.m_data, u as usize, v);
        proof {
            assert(self@ =~= a.update(u as int, a[u as int].remove(v)));
        }
        if was {
            proof {
                lemma_order_of_update(a, u as int, a[u as int].remove(v));
                lemma_order_of_pos(a, u as int);
            }
            let d = self.m_degrees[u as usize];
            self.m_degrees.set(u as usize, d - 1);
            if d - 1 == 0 {
                self.m_order = self.m_order - 1;
            }
        } else {
            proof {
                assert(a[u as int].remove(v) =~= a[u as int]);
                assert(self@ =~= a);
                assert(order_of(self@) == order_of(a));
            }
        }
    }

    /// Same update as `remove_endpoint`, with the bookkeeping done
    /// unconditionally: the caller guarantees that `v` neighbors `u`.
    fn remove_endpoint_unchecked(&mut self, u: u32, v: u32)
        requires
            old(self).counters_ok(),
            (u as nat) < old(self)@.len(),
            old(self)@[u as int].contains(v),
        ensures
            final(self).counters_ok(),
            final(self)@ == old(self)@.update(u as int, old(self)@[u as int].remove(v)),
    {
        let ghost a = old(self)@;
        bits_remove_at(&mut self.m_data, u as usize, v);
        proof {
            assert(self@ =~= a.update(u as int, a[u as int].remove(v)));
            lemma_order_of_update(a, u as int, a[u as int].remove(v));
            lemma_order_of_pos(a, u as int);
        }
        let d = self.m_degrees[u as usize];
        self.m_degrees.set(u as usize, d - 1);
        if d - 1 == 0 {
            self.m_order = self.m_order - 1;
        }
    }

    /// Adds the undirected edge `{u, v}` after validating both endpoints;
    /// re-adding an existing edge changes nothing. On an error nothing is
    /// mutated.
    pub fn add_edge(&mut self, u: u32, v: u32) -> (r: Result<(), GraphError>)
        requires
            old(self).wf(),
        ensures
            final(self).wf(),
            final(self).capacity() == old(self).capacity(),
            match r {
                Ok(()) => {
                    &&& (u as nat) < old(self).capacity()
                    &&& (v as nat) < old(self).capacity()
                    &&& u != v
                    &&& final(self)@ == spec_add_edge(old(self)@, u, v)
                },
                Err(e) => final(self)@ == old(self)@ && ((e == GraphError::OutOfBounds && ((
                u as nat) >= old(self).capacity() || (v as nat) >= old(self).capacity())) || (e
                    == GraphError::SelfLoop && (u as nat) < old(self).capacity() && (v as nat)
                    < old(self).capacity() && u == v)),
            },
    {
        self.check_bounds(v)?;
        self.check_bounds(u)?;
        self.check_is_same(u, v)?;
        self.add_endpoint(u, v);
        self.add_endpoint(v, u);
        proof {
            assert(self@ =~= spec_add_edge(old(self)@, u, v));
            lemma_add_edge_wf(old(self)@, u, v);
        }
        Ok(())
    }

    /// Same update as `add_edge`, with no validation: the caller guarantees
    /// distinct in-range endpoints and that the edge is not yet present.
    pub fn add_edge_unchecked(&mut self, u: u32, v: u32)
        requires
            old(self).wf(),
            (u as nat) < old(self).capacity(),
            (v as nat) < old(self).capacity(),
            u != v,
            !old(self)@[u as int].contains(v),
        ensures
            final(self).wf(),
            final(self).capacity() == old(self).capacity(),
            final(self)@ == spec_add_edge(old(self)@, u, v),
    {
        proof {
            assert(old(self)@[v as int].contains(u) <==> old(self)@[u as int].contains(v));
        }
        self.add_endpoint_unchecked(u, v);
        self.add_endpoint_unchecked(v, u);
        proof {
            assert(self@ =~= spec_add_edge(old(self)@, u, v));
            lemma_add_edge_wf(old(self)@, u, v);
        }
    }

    /// Removes the undirected edge `{u, v}` after validating both endpoints;
    /// removing an absent edge changes nothing. On an error nothing is
    /// mutated.
    pub fn remove_edge(&mut self, u: u32, v: u32) -> (r: Result<(), GraphError>)
        requires
            old(self).wf(),
        ensures
            final(self).wf(),
            final(self).capacity() == old(self).capacity(),
            match r {
                Ok(()) => {
                    &&& (u as nat) < old(self).capacity()
                    &&& (v as nat) < old(self).capacity()
                    &&& u != v
                    &&& final(self)@ == spec_remove_edge(old(self)@, u, v)
                },
                Err(e) => final(self)@ == old(self)@ && ((e == GraphError::OutOfBounds && ((
                u as nat) >= old(self).capacity() || (v as nat) >= old(self).capacity())) || (e
                    == GraphError::SelfLoop && (u as nat) < old(self).capacity() && (v as nat)
                    < old(self).capacity() && u == v)),
            },
    {
        self.check_bounds(v)?;
        self.check_bounds(u)?;
        self.check_is_same(u, v)?;
        self.remove_endpoint(u, v);
        self.remove_endpoint(v, u);
        proof {
            assert(self@ =~= spec_remove_edge(old(self)@, u, v));
            lemma_remove_edge_wf(old(self)@, u, v);
        }
        Ok(())
    }

    /// Same update as `remove_edge`, with no validation: the caller
    /// guarantees distinct in-range endpoints and that the edge is present.
    pub fn remove_edge_unchecked(&mut self, u: u32, v: u32)
        requires
            old(self).wf(),
            (u as nat) < old(self).capacity(),
            (v as nat) < old(self).capacity(),
            u != v,
            old(self)@[u as int].contains(v),
        ensures
            final(self).wf(),
            final(self).capacity() == old(self).capacity(),
            final(self)@ == spec_remove_edge(old(self)@, u, v),
    {
        proof {
            assert(old(self)@[v as int].contains(u) <==> old(self)@[u as int].contains(v));
        }
        self.remove_endpoint_unchecked(u, v);
        self.remove_endpoint_unchecked(v, u);
        proof {
            assert(self@ =~= spec_remove_edge(old(self)@, u, v));
            lemma_remove_edge_wf(old(self)@, u, v);
        }
    }

    /// Same update as `contract_edge`, with no validation: the caller
    /// guarantees distinct in-range endpoints joined by an edge.
    ///
    /// The absorbed vertex's neighbor list is first drained into a buffer,
    /// so that the three regions mutated per step — the target's set, the
    /// neighbor's own set, and the degree table — are updated one at a time.
    pub fn contract_edge_unchecked(&mut self, target: u32, source: u32)
        requires
            old(self).wf(),
            (target as nat) < old(self).capacity(),
            (source as nat) < old(self).capacity(),
            target != source,
            old(self)@[source as int].contains(target),
        ensures
            final(self).wf(),
            final(self).capacity() == old(self).capacity(),
            final(self)@ == spec_contract(old(self)@, target, source),
    {
        let ghost a = old(self)@;
        let ghost t = target as int;
        let ghost s = source as int;
        proof {
            assert(a[t].contains(source) <==> a[s].contains(target));
        }
        let ws = bits_drain_at(&mut self.m_data, source as usize);
        proof {
            assert(self@ =~= a.update(s, Set::<u32>::empty()));
            assert(self@[t] =~= a[t].union(taken_nontarget(ws@, 0, target)));
            assert(adj_bounded(self@));
            assert(adj_finite(self@));
        }
        let mut k: usize = 0;
        while k < ws.len()
            invariant
                old(self).wf(),
                a == old(self)@,
                t == target as int,
                s == source as int,
                (target as nat) < a.len(),
                (source as nat) < a.len(),
                target != source,
                a[s].contains(target),
                a[t].contains(source),
                k <= ws@.len(),
                forall|k1: int, k2: int| 0 <= k1 < k2 < ws@.len() ==> ws@[k1] < ws@[k2],
                forall|j: int| 0 <= j < ws@.len() ==> a[s].contains(#[trigger] ws@[j]),
                forall|x: u32| a[s].contains(x) ==> ws@.contains(x),
                self@.len() == a.len(),
                self.m_degrees@.len() == a.len(),
                self@[s] == Set::<u32>::empty(),
                self@[t] == a[t].union(taken_nontarget(ws@, k as int, target)),
                forall|w: u32|
                    taken_nontarget(ws@, k as int, target).contains(w) ==> #[trigger] self@[w as int]
                        == a[w as int].remove(source).insert(target),
                forall|x: int|
                    0 <= x < a.len() && x != s && x != t && !taken_nontarget(
                        ws@,
                        k as int,
                        target,
                    ).contains(x as u32) ==> #[trigger] self@[x] == a[x],
                forall|x: int|
                    0 <= x < a.len() && x != s ==> #[trigger] self.m_degrees@[x] as nat
                        == self@[x].len(),
                self.m_degrees@[s] as nat == a[s].len(),
                self.m_order == old(self).m_order,
                adj_bounded(self@),
                adj_finite(self@),
            decreases ws@.len() - k,
        {
            let w = ws[k];
            let ghost before = self@;
            proof {
                assert(a[s].contains(w));
                assert((w as nat) < a.len());
                assert(w != source);
                assert(!taken_nontarget(ws@, k as int, target).contains(w)) by {
                    if ws@.take(k as int).to_set().contains(w) {
                        let j = choose|j: int| 0 <= j < k && ws@.take(k as int)[j] == w;
                        assert(ws@[j] < ws@[k as int]);
                    }
                }
                let s1 = ws@.take(k as int + 1);
                let s0 = ws@.take(k as int);
                assert forall|x: u32| s1.to_set().contains(x) implies s0.to_set().insert(
                    w,
                ).contains(x) by {
                    let j = choose|j: int| 0 <= j < s1.len() && s1[j] == x;
                    if j < k as int {
                        assert(s0[j] == x);
                    }
                }
                assert forall|x: u32| s0.to_set().insert(w).contains(x) implies s1.to_set().contains(
                    x,
                ) by {
                    if x == w {
                        assert(s1[k as int] == w);
                    } else {
                        let j = choose|j: int| 0 <= j < s0.len() && s0[j] == x;
                        assert(s1[j] == x);
                    }
                }
                assert(s1.to_set() =~= s0.to_set().insert(w));
            }
            if w != target {
                proof {
                    assert(before[w as int] == a[w as int]);
                    assert(a[w as int].contains(source) <==> a[s].contains(w));
                }
                let already = bits_add_at(&mut self.m_data, target as usize, w);
                let ghost v1 = self@;
                proof {
                    assert(v1 =~= before.update(t, before[t].insert(w)));
                }
                if !already {
                    proof {
                        lemma_bounded_set_len(before[t], a.len() as u32);
                    }
                    let d = self.m_degrees[target as usize];
                    self.m_degrees.set(target as usize, d + 1);
                }
                bits_remove_at(&mut self.m_data, w as usize, source);
                let ghost v2 = self@;
                proof {
                    assert(v2 =~= v1.update(w as int, a[w as int].remove(source)));
                }
                let had = bits_add_at(&mut self.m_data, w as usize, target);
                let ghost v3 = self@;
                proof {
                    assert(v3 =~= v2.update(
                        w as int,
                        a[w as int].remove(source).insert(target),
                    ));
                }
                if had {
                    let d = self.m_degrees[w as usize];
                    self.m_degrees.set(w as usize, d - 1);
                }
                proof {
                    let taken1 = taken_nontarget(ws@, k as int + 1, target);
                    let taken0 = taken_nontarget(ws@, k as int, target);
                    assert(taken1 =~= taken0.insert(w));
                    assert(self@[t] =~= a[t].union(taken1));
                    assert(self@[w as int] == a[w as int].remove(source).insert(target));
                    assert forall|w2: u32| taken1.contains(w2) implies #[trigger] self@[w2 as int]
                        == a[w2 as int].remove(source).insert(target) by {
                        if w2 != w {
                            assert(taken0.contains(w2));
                            assert(before[w2 as int] == a[w2 as int].remove(source).insert(
                                target,
                            ));
                            assert(self@[w2 as int] == before[w2 as int]);
                        }
                    }
                    assert forall|x: int|
                        0 <= x < a.len() && x != s && x != t && !taken1.contains(
                            x as u32,
                        ) implies #[trigger] self@[x] == a[x] by {
                        assert(x != w as int);
                        assert(!taken0.contains(x as u32));
                        assert(self@[x] == before[x]);
                    }
                    assert forall|x: int|
                        0 <= x < a.len() && x != s implies #[trigger] self.m_degrees@[x] as nat
                        == self@[x].len() by {
                        if x == t {
                            if already {
                                assert(before[t].insert(w) =~= before[t]);
                            }
                        } else if x == w as int {
                            assert(a[w as int].contains(source));
                        }
                    }
                    assert(adj_bounded(self@)) by {
                        assert forall|x: int, y: u32|
                            0 <= x < self@.len() && #[trigger] self@[x].contains(y) implies y
                            < self@.len() by {
                            if x != t && x != w as int {
                                assert(self@[x] == before[x]);
                            }
                        }
                    }
                    assert(adj_finite(self@)) by {
                        assert forall|x: int| 0 <= x < self@.len() implies (
                        #[trigger] self@[x]).finite() by {
                            if x != t && x != w as int {
                                assert(self@[x] == before[x]);
                            }
                        }
                    }
                }
            } else {
                proof {
                    assert(taken_nontarget(ws@, k as int + 1, target) =~= taken_nontarget(
                        ws@,
                        k as int,
                        target,
                    ));
                }
            }
            k = k + 1;
        }
        proof {
            assert(ws@.take(ws@.len() as int) =~= ws@);
            assert(taken_nontarget(ws@, ws@.len() as int, target) =~= a[s].remove(target));
        }
        let ghost loop_end = self@;
        bits_remove_at(&mut self.m_data, target as usize, source);
        proof {
            assert(self@ =~= loop_end.update(t, loop_end[t].remove(source)));
            assert(self@[t] =~= a[t].union(a[s]).remove(target).remove(source));
        }
        let d = self.m_degrees[target as usize];
        self.m_degrees.set(target as usize, d - 1);
        self.m_degrees.set(source as usize, 0);
        proof {
            let fin = self@;
            let tset = fin[t];
            assert(loop_end[t].contains(source));
            assert(d as nat == loop_end[t].len());
            assert(tset.len() == d - 1);
            // How the set of non-isolated vertices changed: `source` always
            // becomes isolated, `target` only if it had no neighbor left.
            let mid = a.update(s, Set::<u32>::empty()).update(t, tset);
            lemma_order_of_update(a, s, Set::<u32>::empty());
            lemma_order_of_update(a.update(s, Set::<u32>::empty()), t, tset);
            lemma_order_of_pos(a.update(s, Set::<u32>::empty()), t);
            assert forall|x: int|
                0 <= x < a.len() implies ((#[trigger] mid[x]).len() > 0 <==> (#[trigger] fin[x]).len()
                > 0) by {
                if x != s && x != t {
                    if a[s].contains(x as u32) {
                        assert(fin[x] == a[x].remove(source).insert(target));
                        assert(fin[x].contains(target));
                        assert(a[x].contains(source));
                    } else {
                        assert(fin[x] == a[x]);
                    }
                }
            }
            lemma_order_of_same_pattern(mid, fin);
        }
        if d - 1 == 0 {
            self.m_order = self.m_order - 1;
        }
        self.m_order = self.m_order - 1;
        proof {
            let fin = self@;
            let spec_fin = spec_contract(a, target, source);
            assert forall|x: int| 0 <= x < a.len() implies #[trigger] fin[x] =~= spec_fin[x] by {
                if x == s {
                } else if x == t {
                } else if a[s].contains(x as u32) {
                    assert(fin[x] == a[x].remove(source).insert(target));
                } else {
                    assert(fin[x] == a[x]);
                }
            }
            assert(fin =~~= spec_fin);
            lemma_contract_wf(a, target, source);
        }
    }

    /// Contracts the edge `{target, source}` after validating that both
    /// endpoints are distinct in-range vertices joined by an edge: `target`
    /// absorbs the union of the two neighborhoods and `source` is isolated.
    /// On an error nothing is mutated.
    pub fn contract_edge(&mut self, target: u32, source: u32) -> (r: Result<(), GraphError>)
        requires
            old(self).wf(),
        ensures
            final(self).wf(),
            final(self).capacity() == old(self).capacity(),
            match r {
                Ok(()) => {
                    &&& (target as nat) < old(self).capacity()
                    &&& (source as nat) < old(self).capacity()
                    &&& target != source
                    &&& old(self)@[source as int].contains(target)
                    &&& final(self)@ == spec_contract(old(self)@, target, source)
                },
                Err(e) => final(self)@ == old(self)@ && ((e == GraphError::OutOfBounds && ((target
                    as nat) >= old(self).capacity() || (source as nat) >= old(self).capacity()))
                    || (e == GraphError::SelfLoop && (target as nat) < old(self).capacity() && (
                source as nat) < old(self).capacity() && target == source) || (e
                    == GraphError::NonexistentEdge && (target as nat) < old(self).capacity() && (
                source as nat) < old(self).capacity() && target != source && !old(
                    self,
                )@[source as int].contains(target))),
            },
    {
        self.check_bounds(target)?;
        self.check_bounds(source)?;
        self.check_is_same(target, source)?;
        let t_has = bits_contains(&self.m_data[target as usize], source);
        let s_has = bits_contains(&self.m_data[source as usize], target);
        proof {
            assert(self@[target as int] == bits_view(self.m_data@[target as int]));
            assert(self@[source as int] == bits_view(self.m_data@[source as int]));
            assert(self@[target as int].contains(source) <==> self@[source as int].contains(
                target,
            ));
        }
        if t_has && s_has {
            self.contract_edge_unchecked(target, source);
            Ok(())
        } else {
            Err(GraphError::NonexistentEdge)
        }
    }

    /// The current neighbors of `v`, in ascending order, each exactly once.
    pub fn neighbors(&self, v: u32) -> (r: Vec<u32>)
        requires
            self.wf(),
            (v as nat) < self.capacity(),
        ensures
            forall|k1: int, k2: int| 0 <= k1 < k2 < r@.len() ==> r@[k1] < r@[k2],
            forall|k: int| 0 <= k < r@.len() ==> self@[v as int].contains(#[trigger] r@[k]),
            forall|x: u32| self@[v as int].contains(x) ==> r@.contains(x),
            forall|k: int| 0 <= k < r@.len() ==> (#[trigger] r@[k] as nat) < self.capacity(),
            r@.len() == self@[v as int].len(),
    {
        let r = bits_list(&self.m_data[v as usize]);
        proof {
            assert(self@[v as int] == bits_view(self.m_data@[v as int]));
            assert(r@.to_set() =~= self@[v as int]);
            r@.unique_seq_to_set();
        }
        r
    }
}

/// Symmetry law: after any sequence of operations on a well-formed graph,
/// `u` neighbors `v` exactly when `v` neighbors `u`.
pub proof fn lemma_symmetry(g: BitGraph, u: u32, v: u32)
    requires
        g.wf(),
        (u as nat) < g.capacity(),
        (v as nat) < g.capacity(),
    ensures
        g@[u as int].contains(v) <==> g@[v as int].contains(u),
{
}

/// Order law: what `order` returns is the number of vertices whose degree
/// is nonzero.
pub proof fn lemma_order_consistency(g: BitGraph)
    requires
        g.wf(),
    ensures
        order_of(g@) == Set::new(|v: int| 0 <= v < g@.len() && g@[v].len() > 0).len(),
{
    lemma_order_counts_active(g@);
}

} // verus!
