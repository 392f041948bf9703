//! Lazy depth-first traversal over a `BitGraph`.
//!
//! The iterator keeps an explicit stack. Popping an unvisited vertex marks
//! and yields it; in either case the popped vertex's not-yet-visited
//! neighbors are pushed, so a vertex may sit on the stack several times and
//! the duplicates are filtered by the visited check on pop, not on push.

use vstd::prelude::*;

use crate::bits::VisitedBits;
use crate::bits::visited_contains;
use crate::bits::visited_insert;
use crate::bits::visited_new;
use crate::bits::visited_view;
use crate::graph::BitGraph;
use crate::model::reachable;
use crate::model::reaches_within;

verus! {

broadcast use vstd::set::group_set_axioms;

/// A one-shot depth-first traversal of the graph it borrows: each vertex
/// reachable from the start is yielded exactly once.
pub struct DfsIterator<'a> {
    m_visited: VisitedBits,
    m_stack: Vec<u32>,
    m_graph: &'a BitGraph,
}

/// Every neighbor of a vertex of `vis` is itself in `vis` or waits in
/// `stack`: the traversal can still reach everything it owes.
pub open spec fn frontier_covered(a: Seq<Set<u32>>, vis: Set<u32>, stack: Seq<u32>) -> bool {
    forall|u: u32, w: u32|
        vis.contains(u) && u < a.len() && #[trigger] a[u as int].contains(w) ==> vis.contains(w)
            || stack.contains(w)
}

/// `x` waits in `stack` or neighbors a vertex of `vis`: where everything a
/// traversal step can yield comes from.
pub open spec fn from_frontier(a: Seq<Set<u32>>, vis: Set<u32>, stack: Seq<u32>, x: u32) -> bool {
    stack.contains(x) || exists|u: u32|
        vis.contains(u) && u < a.len() && #[trigger] a[u as int].contains(x)
}

impl<'a> DfsIterator<'a> {
    /// The graph being traversed.
    pub closed spec fn graph(self) -> BitGraph {
        *self.m_graph
    }

    /// The vertices yielded so far.
    pub closed spec fn visited(self) -> Set<u32> {
        Set::new(|x: u32| visited_view(self.m_visited).contains(x as usize))
    }

    /// The vertices waiting on the traversal stack, bottom first.
    pub closed spec fn stack(self) -> Seq<u32> {
        self.m_stack@
    }

    /// The traversal's invariant: the graph is well-formed, every stacked or
    /// visited index is one of its vertices, and no yielded vertex has a
    /// neighbor that the traversal could no longer reach.
    pub closed spec fn wf(self) -> bool {
        &&& self.graph().wf()
        &&& forall|k: int|
            0 <= k < self.m_stack@.len() ==> (#[trigger] self.m_stack@[k] as nat)
                < self.graph().capacity()
        &&& forall|x: u32| self.visited().contains(x) ==> (x as nat) < self.graph().capacity()
        &&& frontier_covered(self.graph()@, self.visited(), self.m_stack@)
    }

    /// One when the stack is empty or its top was already visited, zero
    /// otherwise; popping a visited vertex can only lower it or shorten the
    /// stack, which bounds the traversal loop.
    spec fn pending(self) -> int {
        if self.m_stack@.len() > 0 && !self.visited().contains(self.m_stack@.last()) {
            0
        } else {
            1
        }
    }

    /// Yields the next newly reached vertex of the traversal, or `None` once
    /// the stack is exhausted. Every yield is a vertex not yielded before and
    /// comes from the frontier, and the new stack holds only frontier
    /// vertices, so every yield over the iterator's lifetime is reachable
    /// from the start. Exhaustion is answered only once every stacked vertex
    /// has been yielded, and then the yielded set is closed under adjacency:
    /// nothing reachable from a yield is missed.
    pub fn next(&mut self) -> (r: Option<u32>)
        requires
            old(self).wf(),
        ensures
            final(self).wf(),
            final(self).graph() == old(self).graph(),
            match r {
                Some(v) => {
                    &&& (v as nat) < old(self).graph().capacity()
                    &&& !old(self).visited().contains(v)
                    &&& final(self).visited() == old(self).visited().insert(v)
                    &&& from_frontier(
                        old(self).graph()@,
                        old(self).visited(),
                        old(self).stack(),
                        v,
                    )
                    &&& forall|k: int|
                        0 <= k < final(self).stack().len() ==> from_frontier(
                            old(self).graph()@,
                            final(self).visited(),
                            old(self).stack(),
                            #[trigger] final(self).stack()[k],
                        )
                },
                None => {
                    &&& final(self).visited() == old(self).visited()
                    &&& final(self).stack().len() == 0
                    &&& forall|k: int|
                        0 <= k < old(self).stack().len() ==> old(self).visited().contains(
                            #[trigger] old(self).stack()[k],
                        )
                    &&& frontier_covered(
                        old(self).graph()@,
                        old(self).visited(),
                        Seq::<u32>::empty(),
                    )
                },
            },
    {
        proof {
            assert forall|k: int| 0 <= k < old(self).stack().len() implies self.m_stack@.contains(
                old(self).stack()[k],
            ) by {
                assert(self.m_stack@[k] == old(self).stack()[k]);
            }
        }
        while self.m_stack.len() > 0
            invariant
                self.wf(),
                self.graph() == old(self).graph(),
                self.visited() == old(self).visited(),
                forall|k: int|
                    0 <= k < self.m_stack@.len() ==> from_frontier(
                        old(self).graph()@,
                        old(self).visited(),
                        old(self).stack(),
                        #[trigger] self.m_stack@[k],
                    ),
                forall|k: int|
                    0 <= k < old(self).stack().len() ==> old(self).visited().contains(
                        #[trigger] old(self).stack()[k],
                    ) || self.m_stack@.contains(old(self).stack()[k]),
            decreases self.pending(), self.m_stack@.len(),
        {
            let ghost entry = *self;
            let v = self.m_stack.pop().unwrap();
            let fresh = !visited_contains(&self.m_visited, v as usize);
            if fresh {
                proof {
                    self.graph().lemma_wf_adj();
                }
                visited_insert(&mut self.m_visited, v as usize);
                proof {
                    assert(self.visited() =~= entry.visited().insert(v));
                }
            }
            let g = self.m_graph;
            let ns = g.neighbors(v);
            let ghost vis_now = self.visited();
            let ghost kept = self.m_stack@;
            let ghost base = kept.len();
            proof {
                // After the pop, every owed neighbor is still covered: its
                // stack witness either survives the pop or was the popped
                // vertex itself, which is visited by now.
                assert forall|u: u32, w: u32|
                    vis_now.contains(u) && (u as nat) < self.graph().capacity()
                        && #[trigger] self.graph()@[u as int].contains(w) && u != v implies vis_now.contains(
                    w,
                ) || kept.contains(w) by {
                    if !entry.visited().contains(w) {
                        assert(entry.m_stack@.contains(w));
                        let j = choose|j: int|
                            0 <= j < entry.m_stack@.len() && entry.m_stack@[j] == w;
                        if j < entry.m_stack@.len() - 1 {
                            assert(kept[j] == w);
                        }
                    }
                }
                if !fresh {
                    // A yet-unvisited entry of the call's original stack kept
                    // its witness: the popped copy was of a visited vertex.
                    assert forall|k: int|
                        0 <= k < old(self).stack().len() && !old(self).visited().contains(
                            old(self).stack()[k],
                        ) implies kept.contains(old(self).stack()[k]) by {
                        let x = old(self).stack()[k];
                        assert(entry.m_stack@.contains(x));
                        let j = choose|j: int|
                            0 <= j < entry.m_stack@.len() && entry.m_stack@[j] == x;
                        if j < entry.m_stack@.len() - 1 {
                            assert(kept[j] == x);
                        }
                    }
                }
            }
            let mut i: usize = 0;
            while i < ns.len()
                invariant
                    i <= ns@.len(),
                    (v as nat) < self.graph().capacity(),
                    forall|k: int|
                        0 <= k < ns@.len() ==> (#[trigger] ns@[k] as nat) < self.graph().capacity(),
                    forall|k: int|
                        0 <= k < self.m_stack@.len() ==> (#[trigger] self.m_stack@[k] as nat)
                            < self.graph().capacity(),
                    self.m_graph == entry.m_graph,
                    self.graph() == old(self).graph(),
                    self.visited() == vis_now,
                    !fresh ==> vis_now == old(self).visited() && vis_now.contains(v),
                    forall|k: int|
                        0 <= k < ns@.len() ==> old(self).graph()@[v as int].contains(
                            #[trigger] ns@[k],
                        ),
                    self.m_stack@.len() >= base,
                    self.m_stack@.take(base as int) == kept,
                    self.m_stack@.len() > base ==> !self.visited().contains(self.m_stack@.last()),
                    forall|u: u32, w: u32|
                        vis_now.contains(u) && (u as nat) < self.graph().capacity()
                            && #[trigger] self.graph()@[u as int].contains(w) && u != v
                            ==> vis_now.contains(w) || kept.contains(w),
                    forall|j: int|
                        0 <= j < i ==> vis_now.contains(#[trigger] ns@[j])
                            || self.m_stack@.contains(ns@[j]),
                    !fresh ==> forall|k: int|
                        0 <= k < self.m_stack@.len() ==> from_frontier(
                            old(self).graph()@,
                            old(self).visited(),
                            old(self).stack(),
                            #[trigger] self.m_stack@[k],
                        ),
                    !fresh ==> forall|k: int|
                        0 <= k < old(self).stack().len() ==> old(self).visited().contains(
                            #[trigger] old(self).stack()[k],
                        ) || self.m_stack@.contains(old(self).stack()[k]),
                    forall|k: int|
                        base <= k < self.m_stack@.len() ==> old(self).graph()@[v as int].contains(
                            #[trigger] self.m_stack@[k],
                        ),
                decreases ns@.len() - i,
            {
                let u = ns[i];
                let ghost held = self.m_stack@;
                if !visited_contains(&self.m_visited, u as usize) {
                    self.m_stack.push(u);
                    proof {
                        assert(self.m_stack@.take(base as int) =~= held.take(base as int));
                        if !fresh {
                            assert forall|k: int| 0 <= k < self.m_stack@.len() implies from_frontier(
                                old(self).graph()@,
                                old(self).visited(),
                                old(self).stack(),
                                #[trigger] self.m_stack@[k],
                            ) by {
                                if k < held.len() {
                                    assert(self.m_stack@[k] == held[k]);
                                } else {
                                    assert(self.m_stack@[k] == u);
                                    assert(vis_now.contains(v));
                                    assert(old(self).graph()@[v as int].contains(ns@[i as int]));
                                }
                            }
                            assert forall|k: int|
                                0 <= k < old(self).stack().len() && !old(self).visited().contains(
                                    old(self).stack()[k],
                                ) implies self.m_stack@.contains(old(self).stack()[k]) by {
                                let x = old(self).stack()[k];
                                let m = choose|m: int| 0 <= m < held.len() && held[m] == x;
                                assert(self.m_stack@[m] == x);
                            }
                        }
                    }
                }
                proof {
                    assert forall|j: int|
                        0 <= j < i + 1 && !vis_now.contains(#[trigger] ns@[j]) implies self.m_stack@.contains(
                        ns@[j],
                    ) by {
                        if j < i {
                            let m = choose|m: int| 0 <= m < held.len() && held[m] == ns@[j];
                            assert(self.m_stack@[m] == ns@[j]);
                        } else {
                            assert(self.m_stack@.last() == ns@[j]);
                        }
                    }
                }
                i = i + 1;
            }
            proof {
                // The popped vertex's whole neighborhood is now covered, and
                // everything covered before the pop still is.
                assert forall|u: u32, w: u32|
                    self.visited().contains(u) && (u as nat) < self.graph().capacity()
                        && #[trigger] self.graph()@[u as int].contains(w) && !self.visited().contains(
                    w,
                ) implies self.m_stack@.contains(w) by {
                    if u == v {
                        assert(ns@.contains(w));
                        let j = choose|j: int| 0 <= j < ns@.len() && ns@[j] == w;
                    } else {
                        assert(vis_now.contains(w) || kept.contains(w));
                        let j = choose|j: int| 0 <= j < kept.len() && kept[j] == w;
                        assert(self.m_stack@.take(base as int)[j] == w);
                        assert(self.m_stack@[j] == w);
                    }
                }
            }
            if fresh {
                proof {
                    assert(entry.m_stack@[entry.m_stack@.len() - 1] == v);
                    // Every surviving stack entry is an original entry, whose
                    // frontier witness persists, or a freshly pushed neighbor
                    // of `v`, which is visited by now.
                    assert forall|k: int| 0 <= k < self.m_stack@.len() implies from_frontier(
                        old(self).graph()@,
                        self.visited(),
                        old(self).stack(),
                        #[trigger] self.m_stack@[k],
                    ) by {
                        let x = self.m_stack@[k];
                        if k < base {
                            assert(self.m_stack@.take(base as int)[k] == x);
                            assert(kept[k] == x);
                            assert(entry.m_stack@[k] == x);
                            assert(from_frontier(
                                old(self).graph()@,
                                old(self).visited(),
                                old(self).stack(),
                                x,
                            ));
                            if !old(self).stack().contains(x) {
                                let u = choose|u: u32|
                                    old(self).visited().contains(u) && u < old(self).graph()@.len()
                                        && #[trigger] old(self).graph()@[u as int].contains(x);
                                assert(self.visited().contains(u));
                                assert(old(self).graph()@[u as int].contains(x));
                            }
                        } else {
                            assert(old(self).graph()@[v as int].contains(x));
                            assert(self.visited().contains(v));
                        }
                    }
                }
                return Some(v);
            }
        }
        None
    }
}

/// Completeness law of the traversal: a yielded set that contains `src` and
/// covers its own frontier — what `next` guarantees at exhaustion — contains
/// every vertex reachable from `src`.
pub proof fn lemma_covered_contains_reachable(
    a: Seq<Set<u32>>,
    vis: Set<u32>,
    src: u32,
    dst: u32,
)
    requires
        vis.contains(src),
        frontier_covered(a, vis, Seq::<u32>::empty()),
        reachable(a, src, dst),
    ensures
        vis.contains(dst),
{
    let n = choose|n: nat| reaches_within(a, src, dst, n);
    lemma_covered_contains_reaches(a, vis, src, dst, n);
}

proof fn lemma_covered_contains_reaches(a: Seq<Set<u32>>, vis: Set<u32>, src: u32, dst: u32, n: nat)
    requires
        vis.contains(src),
        frontier_covered(a, vis, Seq::<u32>::empty()),
        reaches_within(a, src, dst, n),
    ensures
        vis.contains(dst),
    decreases n,
{
    if dst != src {
        let u = choose|u: u32|
            reaches_within(a, src, u, (n - 1) as nat) && u < a.len()
                && #[trigger] a[u as int].contains(dst);
        lemma_covered_contains_reaches(a, vis, src, u, (n - 1) as nat);
        assert(!Seq::<u32>::empty().contains(dst));
    }
}

/// Soundness law of the traversal: a vertex drawn from the frontier of
/// reachable vertices — what `next` guarantees of every yield and of every
/// vertex it leaves on the stack — is itself reachable.
pub proof fn lemma_frontier_reachable(
    a: Seq<Set<u32>>,
    vis: Set<u32>,
    stack: Seq<u32>,
    src: u32,
    x: u32,
)
    requires
        forall|k: int| 0 <= k < stack.len() ==> reachable(a, src, #[trigger] stack[k]),
        forall|u: u32| vis.contains(u) ==> reachable(a, src, u),
        from_frontier(a, vis, stack, x),
    ensures
        reachable(a, src, x),
{
    if stack.contains(x) {
        let k = choose|k: int| 0 <= k < stack.len() && stack[k] == x;
        assert(reachable(a, src, stack[k]));
    } else {
        let u = choose|u: u32| vis.contains(u) && u < a.len() && #[trigger] a[u as int].contains(x);
        let n = choose|n: nat| reaches_within(a, src, u, n);
        assert(reaches_within(a, src, x, n + 1));
    }
}

impl BitGraph {
    /// Starts a depth-first traversal at `v`. The iterator borrows the graph,
    /// so the graph cannot be mutated while the traversal is alive.
    pub fn dfs(&self, v: u32) -> (it: DfsIterator<'_>)
        requires
            self.wf(),
            (v as nat) < self.capacity(),
        ensures
            it.wf(),
            it.graph() == *self,
            it.visited() == Set::<u32>::empty(),
            it.stack() == seq![v],
    {
        let mut stack: Vec<u32> = Vec::new();
        stack.push(v);
        let m_visited = visited_new(self.order() as usize);
        let it = DfsIterator { m_visited, m_stack: stack, m_graph: self };
        proof {
            assert(it.visited() =~= Set::<u32>::empty());
            assert(it.stack() =~= seq![v]);
        }
        it
    }
}

} // verus!
