//! The timing model of a graph: paths and their weights, the equations of
//! the forward and the backward pass, and what their solutions say about
//! the longest path.

use crate::graph_extension::{is_topological_order, Dag};
use vstd::prelude::*;

verus! {

/// A walk through a graph: the node it starts at and the edges it follows.
pub struct Path {
    pub start: int,
    pub edges: Seq<int>,
}

impl Path {
    /// The walk without its last edge.
    pub open spec fn prefix(self) -> Path {
        Path { start: self.start, edges: self.edges.drop_last() }
    }

    /// The walk extended by edge `e`.
    pub open spec fn extend(self, e: int) -> Path {
        Path { start: self.start, edges: self.edges.push(e) }
    }

    /// The walk that stays at node `v`.
    pub open spec fn single(v: int) -> Path {
        Path { start: v, edges: Seq::empty() }
    }
}

impl Dag {
    /// Communication time of edge `e`.
    pub open spec fn comm(&self, e: int) -> int {
        self.edges@[e].communication_time as int
    }

    /// Whether no edge enters node `v`.
    pub open spec fn is_source_node(&self, v: int) -> bool {
        forall|e: int| 0 <= e < self.edges@.len() ==> (#[trigger] self.edges@[e]).target != v
    }

    /// Whether no edge leaves node `v`.
    pub open spec fn is_sink_node(&self, v: int) -> bool {
        forall|e: int| 0 <= e < self.edges@.len() ==> (#[trigger] self.edges@[e]).source != v
    }

    /// The node at which `p` ends.
    pub open spec fn path_end(&self, p: Path) -> int {
        if p.edges.len() == 0 {
            p.start
        } else {
            self.edges@[p.edges.last()].target as int
        }
    }

    /// Whether `p` starts at a node of the graph and each of its edges leaves
    /// the node that the walk has reached.
    pub open spec fn is_path(&self, p: Path) -> bool
        decreases p.edges.len(),
    {
        if p.edges.len() == 0 {
            0 <= p.start < self.nodes@.len()
        } else {
            &&& 0 <= p.edges.last() < self.edges@.len()
            &&& self.is_path(p.prefix())
            &&& self.edges@[p.edges.last()].source == self.path_end(p.prefix())
        }
    }

    /// Execution times of the nodes visited plus communication times of the
    /// edges followed.
    pub open spec fn path_weight(&self, p: Path) -> int
        decreases p.edges.len(),
    {
        if p.edges.len() == 0 {
            self.wcet(p.start)
        } else {
            self.path_weight(p.prefix()) + self.comm(p.edges.last()) + self.wcet(
                self.edges@[p.edges.last()].target as int,
            )
        }
    }

    /// What edge `e` allows as a start of its target, given the starts `est`:
    /// the finish of its source plus its communication time.
    pub open spec fn arrival(&self, est: Seq<int>, e: int) -> int {
        est[self.edges@[e].source as int] + self.wcet(self.edges@[e].source as int) + self.comm(e)
    }

    /// The largest arrival over the first `upto` edges that enter `v`; 0 if
    /// there is none.
    pub open spec fn in_max(&self, est: Seq<int>, v: int, upto: int) -> int
        decreases upto,
    {
        if upto <= 0 {
            0
        } else {
            let rest = self.in_max(est, v, upto - 1);
            if self.edges@[upto - 1].target == v && self.arrival(est, upto - 1) > rest {
                self.arrival(est, upto - 1)
            } else {
                rest
            }
        }
    }

    /// The equations of the forward pass: a node starts when the last of its
    /// predecessors has finished and its data has arrived, and at 0 if it has
    /// no predecessor.
    pub open spec fn forward_solution(&self, est: Seq<int>) -> bool {
        &&& est.len() == self.nodes@.len()
        &&& forall|v: int|
            0 <= v < est.len() ==> #[trigger] est[v] == self.in_max(est, v, self.edges@.len() as int)
    }

    /// The largest finish time `est[v] + wcet(v)` over the first `upto` nodes.
    pub open spec fn max_finish(&self, est: Seq<int>, upto: int) -> int
        decreases upto,
    {
        if upto <= 0 {
            0
        } else {
            let rest = self.max_finish(est, upto - 1);
            if est[upto - 1] + self.wcet(upto - 1) > rest {
                est[upto - 1] + self.wcet(upto - 1)
            } else {
                rest
            }
        }
    }

    /// What edge `e` allows as a finish of its source, given the latest
    /// starts `lst`.
    pub open spec fn departure(&self, lst: Seq<int>, e: int) -> int {
        lst[self.edges@[e].target as int] - self.comm(e)
    }

    /// The smallest departure over the first `upto` edges that leave `v`;
    /// `horizon` if there is none.
    pub open spec fn out_min(&self, lst: Seq<int>, v: int, upto: int, horizon: int) -> int
        decreases upto,
    {
        if upto <= 0 {
            horizon
        } else {
            let rest = self.out_min(lst, v, upto - 1, horizon);
            if self.edges@[upto - 1].source == v && self.departure(lst, upto - 1) < rest {
                self.departure(lst, upto - 1)
            } else {
                rest
            }
        }
    }

    /// The equations of the backward pass, anchored at `horizon`: a node
    /// must start early enough to finish before each successor's latest
    /// start less the communication time, and before `horizon`.
    pub open spec fn backward_solution(&self, lst: Seq<int>, horizon: int) -> bool {
        &&& lst.len() == self.nodes@.len()
        &&& forall|v: int|
            0 <= v < lst.len() ==> #[trigger] lst[v] == self.out_min(
                lst,
                v,
                self.edges@.len() as int,
                horizon,
            ) - self.wcet(v)
    }

    /// `in_max` is at least 0 and at least the arrival of every edge it covers.
    pub proof fn lemma_in_max_bounds(&self, est: Seq<int>, v: int, upto: int)
        requires
            0 <= upto <= self.edges@.len(),
        ensures
            self.in_max(est, v, upto) >= 0,
            forall|e: int|
                0 <= e < upto && self.edges@[e].target == v ==> self.in_max(est, v, upto)
                    >= #[trigger] self.arrival(est, e),
        decreases upto,
    {
        if upto > 0 {
            self.lemma_in_max_bounds(est, v, upto - 1);
        }
    }

    /// `in_max` is 0 with no arrival above 0, or is the arrival of one of
    /// the edges it covers.
    pub proof fn lemma_in_max_attained(&self, est: Seq<int>, v: int, upto: int) -> (e: int)
        requires
            0 <= upto <= self.edges@.len(),
        ensures
            e == -1 ==> self.in_max(est, v, upto) == 0,
            e != -1 ==> 0 <= e < upto && self.edges@[e].target == v && self.in_max(est, v, upto)
                == self.arrival(est, e),
        decreases upto,
    {
        if upto <= 0 {
            -1
        } else {
            let rest = self.lemma_in_max_attained(est, v, upto - 1);
            if self.edges@[upto - 1].target == v && self.arrival(est, upto - 1) > self.in_max(
                est,
                v,
                upto - 1,
            ) {
                upto - 1
            } else {
                rest
            }
        }
    }

    /// `in_max` at `v` depends only on the starts of the sources of the
    /// edges that enter `v`.
    pub proof fn lemma_in_max_congruent(&self, a: Seq<int>, b: Seq<int>, v: int, upto: int)
        requires
            0 <= upto <= self.edges@.len(),
            forall|e: int|
                0 <= e < upto && (#[trigger] self.edges@[e]).target == v ==> a[self.edges@[e].source as int]
                    == b[self.edges@[e].source as int],
        ensures
            self.in_max(a, v, upto) == self.in_max(b, v, upto),
        decreases upto,
    {
        if upto > 0 {
            self.lemma_in_max_congruent(a, b, v, upto - 1);
            assert(self.edges@[upto - 1].target == v ==> self.arrival(a, upto - 1) == self.arrival(
                b,
                upto - 1,
            ));
        }
    }

    /// `max_finish` is at least 0 and at least every finish it covers.
    pub proof fn lemma_max_finish_bounds(&self, est: Seq<int>, upto: int)
        requires
            0 <= upto <= est.len(),
        ensures
            self.max_finish(est, upto) >= 0,
            forall|v: int|
                0 <= v < upto ==> self.max_finish(est, upto) >= #[trigger] est[v] + self.wcet(v),
        decreases upto,
    {
        if upto > 0 {
            self.lemma_max_finish_bounds(est, upto - 1);
        }
    }

    /// `max_finish` is never negative.
    pub proof fn lemma_max_finish_nonnegative(&self, est: Seq<int>, upto: int)
        ensures
            self.max_finish(est, upto) >= 0,
        decreases upto,
    {
        if upto > 0 {
            self.lemma_max_finish_nonnegative(est, upto - 1);
        }
    }

    /// `max_finish` is 0 with nothing above it, or is the finish of one of
    /// the nodes it covers.
    pub proof fn lemma_max_finish_attained(&self, est: Seq<int>, upto: int) -> (v: int)
        requires
            0 <= upto <= est.len(),
        ensures
            v == -1 ==> self.max_finish(est, upto) == 0,
            v != -1 ==> 0 <= v < upto && self.max_finish(est, upto) == est[v] + self.wcet(v),
        decreases upto,
    {
        if upto <= 0 {
            -1
        } else {
            let rest = self.lemma_max_finish_attained(est, upto - 1);
            if est[upto - 1] + self.wcet(upto - 1) > self.max_finish(est, upto - 1) {
                upto - 1
            } else {
                rest
            }
        }
    }

    /// `out_min` at `v` depends only on the latest starts of the targets of
    /// the edges that leave `v`.
    pub proof fn lemma_out_min_congruent(
        &self,
        a: Seq<int>,
        b: Seq<int>,
        v: int,
        upto: int,
        horizon: int,
    )
        requires
            0 <= upto <= self.edges@.len(),
            forall|e: int|
                0 <= e < upto && (#[trigger] self.edges@[e]).source == v ==> a[self.edges@[e].target as int]
                    == b[self.edges@[e].target as int],
        ensures
            self.out_min(a, v, upto, horizon) == self.out_min(b, v, upto, horizon),
        decreases upto,
    {
        if upto > 0 {
            self.lemma_out_min_congruent(a, b, v, upto - 1, horizon);
            assert(self.edges@[upto - 1].source == v ==> self.departure(a, upto - 1)
                == self.departure(b, upto - 1));
        }
    }

    /// A walk of the graph ends at one of its nodes.
    pub proof fn lemma_path_end_in_bounds(&self, p: Path)
        requires
            self.wf(),
            self.is_path(p),
        ensures
            0 <= self.path_end(p) < self.nodes@.len(),
    {
    }

    /// No walk that ends at `v` weighs more than the finish of `v` under a
    /// solution of the forward equations.
    pub proof fn lemma_path_weight_bounded(&self, est: Seq<int>, p: Path)
        requires
            self.wf(),
            self.forward_solution(est),
            self.is_path(p),
        ensures
            self.path_weight(p) <= est[self.path_end(p)] + self.wcet(self.path_end(p)),
        decreases p.edges.len(),
    {
        let m = self.edges@.len() as int;
        let v = self.path_end(p);
        self.lemma_in_max_bounds(est, v, m);
        if p.edges.len() > 0 {
            let e = p.edges.last();
            self.lemma_path_weight_bounded(est, p.prefix());
            assert(self.in_max(est, v, m) >= self.arrival(est, e));
        }
    }

    /// Under a solution of the forward equations of an acyclic graph, the
    /// finish of the node at position `k` of a topological order is the
    /// weight of a walk from a node without predecessors to that node.
    pub proof fn lemma_finish_is_path_weight(&self, est: Seq<int>, order: Seq<usize>, k: int) -> (p:
        Path)
        requires
            self.wf(),
            self.forward_solution(est),
            is_topological_order(order, self.nodes@.len() as int, self.edges@),
            0 <= k < order.len(),
        ensures
            self.is_path(p),
            self.path_end(p) == order[k],
            self.is_source_node(p.start),
            self.path_weight(p) == est[order[k] as int] + self.wcet(order[k] as int),
        decreases k,
    {
        let m = self.edges@.len() as int;
        let v = order[k] as int;
        let e = self.lemma_in_max_attained(est, v, m);
        let incoming = choose|i: int| 0 <= i < m && self.edges@[i].target == v;
        if 0 <= incoming < m && self.edges@[incoming].target == v {
            self.lemma_in_max_bounds(est, v, m);
            let u_in = self.edges@[incoming].source as int;
            self.lemma_in_max_bounds(est, u_in, m);
            assert(self.arrival(est, incoming) >= 0);
            if e == -1 {
                // Every arrival is 0: the edge found above is as good a witness.
                assert(self.in_max(est, v, m) >= self.arrival(est, incoming));
                self.lemma_walk_through(est, order, k, incoming)
            } else {
                self.lemma_walk_through(est, order, k, e)
            }
        } else {
            assert(self.is_source_node(v)) by {
                assert forall|i: int| 0 <= i < m implies (#[trigger] self.edges@[i]).target
                    != v by {
                    if self.edges@[i].target == v {
                        assert(0 <= i < m && self.edges@[i].target == v);
                    }
                }
            }
            assert(e == -1);
            Path::single(v)
        }
    }

    /// The walk to the node at position `k` that arrives over edge `e`,
    /// where `e` is an edge into that node whose arrival is the node's start.
    proof fn lemma_walk_through(&self, est: Seq<int>, order: Seq<usize>, k: int, e: int) -> (p: Path)
        requires
            self.wf(),
            self.forward_solution(est),
            is_topological_order(order, self.nodes@.len() as int, self.edges@),
            0 <= k < order.len(),
            0 <= e < self.edges@.len(),
            self.edges@[e].target == order[k],
            self.arrival(est, e) == est[order[k] as int],
        ensures
            self.is_path(p),
            self.path_end(p) == order[k],
            self.is_source_node(p.start),
            self.path_weight(p) == est[order[k] as int] + self.wcet(order[k] as int),
        decreases k, 0int,
    {
        let u = self.edges@[e].source;
        assert(order.contains(u));
        let j = choose|j: int| 0 <= j < order.len() && order[j] == u;
        assert(j < k) by {
            let _ = (self.edges@[e], order[j], order[k]);
        }
        let q = self.lemma_finish_is_path_weight(est, order, j);
        let p = q.extend(e);
        assert(p.prefix() == q) by {
            assert(p.edges.drop_last() =~= q.edges);
        }
        assert(p.edges.last() == e);
        p
    }

    /// The starts that the forward pass has fixed after visiting the first
    /// `k` nodes of `order`: 0 for the nodes not yet visited.
    pub open spec fn forward_fill(&self, order: Seq<usize>, k: nat) -> Seq<int>
        decreases k,
    {
        if k == 0 {
            Seq::new(self.nodes@.len(), |v: int| 0int)
        } else {
            let before = self.forward_fill(order, (k - 1) as nat);
            let v = order[k - 1] as int;
            before.update(v, self.in_max(before, v, self.edges@.len() as int))
        }
    }

    /// Visiting the nodes in a topological order satisfies the forward
    /// equation of every node visited.
    pub proof fn lemma_forward_fill(&self, order: Seq<usize>, k: nat)
        requires
            self.wf(),
            is_topological_order(order, self.nodes@.len() as int, self.edges@),
            k <= order.len(),
        ensures
            self.forward_fill(order, k).len() == self.nodes@.len(),
            forall|j: int|
                0 <= j < k ==> (#[trigger] self.forward_fill(order, k)[order[j] as int])
                    == self.in_max(
                    self.forward_fill(order, k),
                    order[j] as int,
                    self.edges@.len() as int,
                ),
        decreases k,
    {
        if k > 0 {
            let m = self.edges@.len() as int;
            let before = self.forward_fill(order, (k - 1) as nat);
            let now = self.forward_fill(order, k);
            let v = order[k - 1] as int;
            self.lemma_forward_fill(order, (k - 1) as nat);
            assert forall|j: int| 0 <= j < k implies (#[trigger] now[order[j] as int])
                == self.in_max(now, order[j] as int, m) by {
                let w = order[j] as int;
                assert forall|e: int| 0 <= e < m && (#[trigger] self.edges@[e]).target
                    == w implies before[self.edges@[e].source as int]
                    == now[self.edges@[e].source as int] by {
                    let u = self.edges@[e].source;
                    assert(order.contains(u));
                    let i = choose|i: int| 0 <= i < order.len() && order[i] == u;
                    let _ = (self.edges@[e], order[i], order[j]);
                    assert(i < j);
                }
                self.lemma_in_max_congruent(before, now, w, m);
            }
        }
    }

    /// The forward equations of an acyclic graph have a solution.
    pub proof fn lemma_forward_solution_exists(&self, order: Seq<usize>) -> (est: Seq<int>)
        requires
            self.wf(),
            is_topological_order(order, self.nodes@.len() as int, self.edges@),
        ensures
            est == self.forward_fill(order, order.len()),
            self.forward_solution(est),
    {
        let est = self.forward_fill(order, order.len());
        self.lemma_forward_fill(order, order.len());
        assert forall|v: int| 0 <= v < est.len() implies #[trigger] est[v] == self.in_max(
            est,
            v,
            self.edges@.len() as int,
        ) by {
            assert(self.nodes@.len() == self.nodes.len());
            let node = v as usize;
            assert(order.contains(node));
            let j = choose|j: int| 0 <= j < order.len() && order[j] == node;
            assert(est[order[j] as int] == self.in_max(
                est,
                order[j] as int,
                self.edges@.len() as int,
            ));
        }
        est
    }

    /// In an acyclic graph, a walk that ends at the node at position `k` of a
    /// topological order can be continued to a node without successors, and
    /// weighs no less for it.
    pub proof fn lemma_walk_to_sink(&self, order: Seq<usize>, p: Path, k: int) -> (q: Path)
        requires
            self.wf(),
            is_topological_order(order, self.nodes@.len() as int, self.edges@),
            self.is_path(p),
            0 <= k < order.len(),
            self.path_end(p) == order[k],
        ensures
            self.is_path(q),
            q.start == p.start,
            self.is_sink_node(self.path_end(q)),
            self.path_weight(q) >= self.path_weight(p),
        decreases order.len() - k,
    {
        let m = self.edges@.len() as int;
        let v = order[k] as int;
        let e = choose|e: int| 0 <= e < m && self.edges@[e].source == v;
        if 0 <= e < m && self.edges@[e].source == v {
            let t = self.edges@[e].target;
            assert(order.contains(t));
            let j = choose|j: int| 0 <= j < order.len() && order[j] == t;
            let _ = (self.edges@[e], order[k], order[j]);
            assert(k < j);
            let longer = p.extend(e);
            assert(longer.prefix() == p) by {
                assert(longer.edges.drop_last() =~= p.edges);
            }
            assert(longer.edges.last() == e);
            assert(self.nodes@[t as int].has_valid_execution_time());
            self.lemma_walk_to_sink(order, longer, j)
        } else {
            assert forall|i: int| 0 <= i < m implies (#[trigger] self.edges@[i]).source != v by {
                if self.edges@[i].source == v {
                    assert(0 <= i < m && self.edges@[i].source == v);
                }
            }
            p
        }
    }

    /// The length of the longest path. Under a solution `est` of the forward
    /// equations of a non-empty acyclic graph, the largest finish time is
    /// the weight of a walk from a node without predecessors to a node
    /// without successors, and no walk of the graph weighs more.
    pub proof fn lemma_critical_path_length_is_longest_path(&self, est: Seq<int>) -> (longest: Path)
        requires
            self.wf(),
            self.is_acyclic(),
            self.forward_solution(est),
            self.nodes@.len() > 0,
        ensures
            self.is_path(longest),
            self.is_source_node(longest.start),
            self.is_sink_node(self.path_end(longest)),
            self.path_weight(longest) == self.max_finish(est, self.nodes@.len() as int),
            forall|p: Path|
                self.is_path(p) ==> #[trigger] self.path_weight(p) <= self.max_finish(
                    est,
                    self.nodes@.len() as int,
                ),
    {
        let n = self.nodes@.len() as int;
        let order = choose|order: Seq<usize>| is_topological_order(order, n, self.edges@);
        self.lemma_max_finish_bounds(est, n);
        assert forall|p: Path| self.is_path(p) implies #[trigger] self.path_weight(p)
            <= self.max_finish(est, n) by {
            self.lemma_path_weight_bounded(est, p);
            self.lemma_path_end_in_bounds(p);
            let end = self.path_end(p);
            assert(self.max_finish(est, n) >= est[end] + self.wcet(end));
        }
        let best = self.lemma_max_finish_attained(est, n);
        let v: int = if best == -1 {
            0
        } else {
            best
        };
        assert(est[v] + self.wcet(v) == self.max_finish(est, n)) by {
            if best == -1 {
                self.lemma_in_max_bounds(est, 0, self.edges@.len() as int);
                assert(self.nodes@[0].has_valid_execution_time());
                assert(self.max_finish(est, n) >= est[0] + self.wcet(0));
            }
        }
        assert(self.nodes@.len() == self.nodes.len());
        let node = v as usize;
        assert(order.contains(node));
        let k = choose|k: int| 0 <= k < order.len() && order[k] == node;
        let reach = self.lemma_finish_is_path_weight(est, order, k);
        let full = self.lemma_walk_to_sink(order, reach, k);
        full
    }

    /// Two solutions of the forward equations agree on the first `k` nodes
    /// of a topological order.
    pub proof fn lemma_forward_agree(&self, a: Seq<int>, b: Seq<int>, order: Seq<usize>, k: int)
        requires
            self.wf(),
            is_topological_order(order, self.nodes@.len() as int, self.edges@),
            self.forward_solution(a),
            self.forward_solution(b),
            0 <= k <= order.len(),
        ensures
            forall|j: int| 0 <= j < k ==> a[(#[trigger] order[j]) as int] == b[order[j] as int],
        decreases k,
    {
        if k > 0 {
            self.lemma_forward_agree(a, b, order, k - 1);
            let m = self.edges@.len() as int;
            let v = order[k - 1] as int;
            assert forall|e: int| 0 <= e < m && (#[trigger] self.edges@[e]).target
                == v implies a[self.edges@[e].source as int] == b[self.edges@[e].source as int] by {
                let u = self.edges@[e].source;
                assert(order.contains(u));
                let i = choose|i: int| 0 <= i < order.len() && order[i] == u;
                let _ = (self.edges@[e], order[i], order[k - 1]);
                assert(i < k - 1);
            }
            self.lemma_in_max_congruent(a, b, v, m);
            assert(a[v] == self.in_max(a, v, m));
            assert(b[v] == self.in_max(b, v, m));
        }
    }

    /// Two solutions of the backward equations for one horizon agree on all
    /// nodes of a topological order from position `k` on.
    pub proof fn lemma_backward_agree(
        &self,
        a: Seq<int>,
        b: Seq<int>,
        horizon: int,
        order: Seq<usize>,
        k: int,
    )
        requires
            self.wf(),
            is_topological_order(order, self.nodes@.len() as int, self.edges@),
            self.backward_solution(a, horizon),
            self.backward_solution(b, horizon),
            0 <= k <= order.len(),
        ensures
            forall|j: int|
                k <= j < order.len() ==> a[(#[trigger] order[j]) as int] == b[order[j] as int],
        decreases order.len() - k,
    {
        if k < order.len() {
            self.lemma_backward_agree(a, b, horizon, order, k + 1);
            let m = self.edges@.len() as int;
            let v = order[k] as int;
            assert forall|e: int| 0 <= e < m && (#[trigger] self.edges@[e]).source
                == v implies a[self.edges@[e].target as int] == b[self.edges@[e].target as int] by {
                let t = self.edges@[e].target;
                assert(order.contains(t));
                let i = choose|i: int| 0 <= i < order.len() && order[i] == t;
                let _ = (self.edges@[e], order[k], order[i]);
                assert(k < i);
            }
            self.lemma_out_min_congruent(a, b, v, m, horizon);
            assert(a[v] == self.out_min(a, v, m, horizon) - self.wcet(v));
            assert(b[v] == self.out_min(b, v, m, horizon) - self.wcet(v));
        }
    }

    /// The earliest start of every node: the solution of the forward
    /// equations.
    pub open spec fn earliest_starts(&self) -> Seq<int> {
        choose|est: Seq<int>| self.forward_solution(est)
    }

    /// The length of the longest path: the largest earliest finish.
    pub open spec fn critical_path_length(&self) -> int {
        self.max_finish(self.earliest_starts(), self.nodes@.len() as int)
    }

    /// The latest start of every node: the solution of the backward
    /// equations, anchored at the length of the longest path.
    pub open spec fn latest_starts(&self) -> Seq<int> {
        choose|lst: Seq<int>| self.backward_solution(lst, self.critical_path_length())
    }

    /// Whether node `v` can be delayed by nothing without delaying the end.
    pub open spec fn has_zero_slack(&self, v: int) -> bool {
        self.earliest_starts()[v] == self.latest_starts()[v]
    }

    /// In an acyclic graph the forward equations have one solution only.
    pub proof fn lemma_earliest_starts_unique(&self, est: Seq<int>)
        requires
            self.wf(),
            self.is_acyclic(),
            self.forward_solution(est),
        ensures
            est == self.earliest_starts(),
    {
        let n = self.nodes@.len() as int;
        let order = choose|order: Seq<usize>| is_topological_order(order, n, self.edges@);
        let other = self.earliest_starts();
        self.lemma_forward_agree(est, other, order, n);
        assert forall|v: int| 0 <= v < n implies est[v] == other[v] by {
            assert(self.nodes@.len() == self.nodes.len());
            let node = v as usize;
            assert(order.contains(node));
            let j = choose|j: int| 0 <= j < order.len() && order[j] == node;
            assert(est[order[j] as int] == other[order[j] as int]);
        }
        assert(est =~= other);
    }

    /// In an acyclic graph the backward equations, anchored at the length
    /// of the longest path, have one solution only.
    pub proof fn lemma_latest_starts_unique(&self, lst: Seq<int>)
        requires
            self.wf(),
            self.is_acyclic(),
            self.backward_solution(lst, self.critical_path_length()),
        ensures
            lst == self.latest_starts(),
    {
        let n = self.nodes@.len() as int;
        let order = choose|order: Seq<usize>| is_topological_order(order, n, self.edges@);
        let other = self.latest_starts();
        self.lemma_backward_agree(lst, other, self.critical_path_length(), order, 0);
        assert forall|v: int| 0 <= v < n implies lst[v] == other[v] by {
            assert(self.nodes@.len() == self.nodes.len());
            let node = v as usize;
            assert(order.contains(node));
            let j = choose|j: int| 0 <= j < order.len() && order[j] == node;
            assert(lst[order[j] as int] == other[order[j] as int]);
        }
        assert(lst =~= other);
    }

    /// The earliest start of every node of an acyclic graph solves the
    /// forward equations.
    pub proof fn lemma_earliest_starts_solve(&self)
        requires
            self.wf(),
            self.is_acyclic(),
        ensures
            self.forward_solution(self.earliest_starts()),
    {
        let order = choose|order: Seq<usize>|
            is_topological_order(order, self.nodes@.len() as int, self.edges@);
        let est = self.lemma_forward_solution_exists(order);
    }

    /// The length of the longest path of a non-empty acyclic graph is the
    /// earliest finish of a node without successors, and the weight of a
    /// walk from a node without predecessors to that node: execution times
    /// of the nodes plus communication times of the edges. No walk of the
    /// graph weighs more.
    pub proof fn lemma_longest_path(&self) -> (longest: Path)
        requires
            self.wf(),
            self.is_acyclic(),
            self.nodes@.len() > 0,
        ensures
            self.is_path(longest),
            self.is_source_node(longest.start),
            self.is_sink_node(self.path_end(longest)),
            self.path_weight(longest) == self.critical_path_length(),
            self.earliest_starts()[self.path_end(longest)] + self.wcet(self.path_end(longest))
                == self.critical_path_length(),
            forall|p: Path|
                self.is_path(p) ==> #[trigger] self.path_weight(p) <= self.critical_path_length(),
    {
        self.lemma_earliest_starts_solve();
        let est = self.earliest_starts();
        let longest = self.lemma_critical_path_length_is_longest_path(est);
        self.lemma_path_weight_bounded(est, longest);
        self.lemma_path_end_in_bounds(longest);
        self.lemma_max_finish_bounds(est, self.nodes@.len() as int);
        let end = self.path_end(longest);
        assert(self.max_finish(est, self.nodes@.len() as int) >= est[end] + self.wcet(end));
        longest
    }
}

} // verus!
