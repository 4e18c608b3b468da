//! The forward and the backward pass over a graph, along a topological
//! order of its nodes.

use crate::graph_extension::{edges_in_bounds, is_topological_order, CustomError, Dag, Edge};
use crate::timing::Path;
use vstd::prelude::*;

verus! {

/// The earliest and latest start of every node, and the length of the
/// longest path.
pub struct Timing {
    pub earliest_start: Vec<i32>,
    pub latest_start: Vec<i32>,
    pub critical_path_length: i32,
}

/// The mathematical integers that `s` holds.
pub open spec fn as_ints(s: Seq<i32>) -> Seq<int> {
    s.map_values(|x: i32| x as int)
}

/// Sorts the nodes `0..node_count` topologically with
/// `petgraph::algo::toposort`, on a graph built of that many nodes and one
/// edge for each of `edges`. As documented there, the result is an order in
/// which every node stands once and before its successors; it is absent
/// exactly when the edges form a cycle, in which case no such order exists.
#[verifier::external_body]
fn toposort_indices(node_count: usize, edges: &Vec<Edge>) -> (sorted: Option<Vec<usize>>)
    requires
        edges_in_bounds(node_count as int, edges@),
    ensures
        match sorted {
            Some(order) => is_topological_order(order@, node_count as int, edges@),
            None => forall|order: Seq<usize>|
                !is_topological_order(order, node_count as int, edges@),
        },
{
    let mut graph = petgraph::graph::Graph::<(), (), petgraph::Directed, usize>::with_capacity(
        node_count,
        edges.len(),
    );
    for _ in 0..node_count {
        graph.add_node(());
    }
    for edge in edges.iter() {
        graph.add_edge(edge.source.into(), edge.target.into(), ());
    }
    match petgraph::algo::toposort(&graph, None) {
        Ok(order) => Some(order.into_iter().map(|node| node.index()).collect()),
        Err(_) => None,
    }
}

impl Dag {
    /// Execution time of node `v`.
    pub fn get_execution_time(&self, v: usize) -> (t: i32)
        requires
            self.wf(),
            v < self.nodes@.len(),
        ensures
            t == self.wcet(v as int),
            t >= 0,
    {
        assert(self.nodes@[v as int].has_valid_execution_time());
        match self.nodes[v].execution_time {
            Some(t) => t,
            None => 0,
        }
    }

    /// A topological order of the nodes, or `Cyclic` if the edges form a
    /// cycle.
    pub fn topological_order(&self) -> (sorted: Result<Vec<usize>, CustomError>)
        requires
            self.wf(),
        ensures
            match sorted {
                Ok(order) => is_topological_order(
                    order@,
                    self.nodes@.len() as int,
                    self.edges@,
                ),
                Err(e) => e == CustomError::Cyclic,
            },
            sorted is Ok <==> self.is_acyclic(),
    {
        match toposort_indices(self.nodes.len(), &self.edges) {
            Some(order) => Ok(order),
            None => Err(CustomError::Cyclic),
        }
    }

    /// Forward pass along `order`: the earliest start of every node.
    /// Fails with `Overflow` exactly when some walk of the graph weighs
    /// more than an `i32` holds.
    pub fn forward_pass(&self, order: &Vec<usize>) -> (starts: Result<Vec<i32>, CustomError>)
        requires
            self.wf(),
            is_topological_order(order@, self.nodes@.len() as int, self.edges@),
        ensures
            match starts {
                Ok(est) => {
                    &&& self.forward_solution(as_ints(est@))
                    &&& forall|v: int|
                        0 <= v < est@.len() ==> 0 <= #[trigger] est@[v] && est@[v] + self.wcet(v)
                            <= i32::MAX
                    &&& forall|p: Path|
                        self.is_path(p) ==> #[trigger] self.path_weight(p) <= i32::MAX
                },
                Err(e) => e == CustomError::Overflow && exists|p: Path|
                    self.is_path(p) && #[trigger] self.path_weight(p) > i32::MAX,
            },
    {
        let n = self.nodes.len();
        let m = self.edges.len();
        let ghost sol = self.forward_fill(order@, order@.len());
        proof {
            self.lemma_forward_solution_exists(order@);
        }
        let mut est: Vec<i32> = Vec::new();
        let mut i: usize = 0;
        while i < n
            invariant
                i <= n,
                est@.len() == i,
            decreases n - i,
        {
            est.push(0);
            i += 1;
        }
        let mut k: usize = 0;
        while k < n
            invariant
                self.wf(),
                is_topological_order(order@, self.nodes@.len() as int, self.edges@),
                self.forward_solution(sol),
                n == self.nodes@.len(),
                m == self.edges@.len(),
                k <= n,
                est@.len() == n,
                forall|j: int|
                    0 <= j < k ==> (#[trigger] est@[order@[j] as int]) as int == sol[order@[j] as int]
                        && sol[order@[j] as int] + self.wcet(order@[j] as int) <= i32::MAX,
            decreases n - k,
        {
            let v = order[k];
            let mut acc: i32 = 0;
            let mut e: usize = 0;
            while e < m
                invariant
                    self.wf(),
                    is_topological_order(order@, self.nodes@.len() as int, self.edges@),
                    self.forward_solution(sol),
                    n == self.nodes@.len(),
                    m == self.edges@.len(),
                    k < n,
                    v == order@[k as int],
                    e <= m,
                    est@.len() == n,
                    acc as int == self.in_max(sol, v as int, e as int),
                    forall|j: int|
                        0 <= j < k ==> (#[trigger] est@[order@[j] as int]) as int
                            == sol[order@[j] as int] && sol[order@[j] as int] + self.wcet(
                            order@[j] as int,
                        ) <= i32::MAX,
                decreases m - e,
            {
                let edge = self.edges[e];
                if edge.target == v {
                    let u = edge.source;
                    proof {
                        assert(order@.contains(u));
                        let j = choose|j: int| 0 <= j < order@.len() && order@[j] == u;
                        let _ = (self.edges@[e as int], order@[j], order@[k as int]);
                        assert(j < k);
                        assert(est@[order@[j] as int] as int == sol[order@[j] as int]);
                    }
                    let wcet = self.get_execution_time(u);
                    let arrival: i64 = est[u] as i64 + wcet as i64 + edge.communication_time as i64;
                    assert(arrival == self.arrival(sol, e as int));
                    if arrival > i32::MAX as i64 {
                        proof {
                            self.lemma_in_max_bounds(sol, v as int, m as int);
                            let p = self.lemma_finish_is_path_weight(sol, order@, k as int);
                            assert(self.nodes@[v as int].has_valid_execution_time());
                            assert(self.path_weight(p) > i32::MAX);
                        }
                        return Err(CustomError::Overflow);
                    }
                    if arrival > acc as i64 {
                        acc = arrival as i32;
                    }
                }
                e += 1;
            }
            let wcet = self.get_execution_time(v);
            if acc as i64 + wcet as i64 > i32::MAX as i64 {
                proof {
                    let p = self.lemma_finish_is_path_weight(sol, order@, k as int);
                    assert(self.path_weight(p) > i32::MAX);
                }
                return Err(CustomError::Overflow);
            }
            proof {
                self.lemma_in_max_bounds(sol, v as int, m as int);
            }
            est[v] = acc;
            assert forall|j: int| 0 <= j < k + 1 implies (#[trigger] est@[order@[j] as int]) as int
                == sol[order@[j] as int] && sol[order@[j] as int] + self.wcet(order@[j] as int)
                <= i32::MAX by {
                if j < k {
                    assert(order@[j] != order@[k as int]);
                }
            }
            k += 1;
        }
        proof {
            assert forall|v: int| 0 <= v < n implies (#[trigger] est@[v]) as int == sol[v] && sol[v]
                + self.wcet(v) <= i32::MAX by {
                let node = v as usize;
                assert(order@.contains(node));
                let j = choose|j: int| 0 <= j < order@.len() && order@[j] == node;
                assert(est@[order@[j] as int] as int == sol[order@[j] as int]);
            }
            assert(as_ints(est@) =~= sol);
            assert forall|v: int| 0 <= v < est@.len() implies 0 <= #[trigger] est@[v] by {
                self.lemma_in_max_bounds(sol, v, m as int);
            }
            assert forall|p: Path| self.is_path(p) implies #[trigger] self.path_weight(p)
                <= i32::MAX by {
                self.lemma_path_weight_bounded(sol, p);
                self.lemma_path_end_in_bounds(p);
                let end = self.path_end(p);
                assert(est@[end] as int == sol[end]);
            }
        }
        Ok(est)
    }

    /// The largest finish time under the starts `est`.
    pub fn longest_finish(&self, est: &Vec<i32>) -> (longest: i32)
        requires
            self.wf(),
            est@.len() == self.nodes@.len(),
            forall|v: int|
                0 <= v < est@.len() ==> 0 <= #[trigger] est@[v] && est@[v] + self.wcet(v)
                    <= i32::MAX,
        ensures
            longest == self.max_finish(as_ints(est@), self.nodes@.len() as int),
            longest >= 0,
    {
        let n = self.nodes.len();
        let mut longest: i32 = 0;
        let mut v: usize = 0;
        while v < n
            invariant
                self.wf(),
                n == self.nodes@.len(),
                est@.len() == n,
                v <= n,
                longest == self.max_finish(as_ints(est@), v as int),
                longest >= 0,
                forall|v: int|
                    0 <= v < est@.len() ==> 0 <= #[trigger] est@[v] && est@[v] + self.wcet(v)
                        <= i32::MAX,
            decreases n - v,
        {
            let wcet = self.get_execution_time(v);
            assert(0 <= est@[v as int] && est@[v as int] + self.wcet(v as int) <= i32::MAX);
            let finish = est[v] + wcet;
            assert(as_ints(est@)[v as int] == est@[v as int]);
            if finish > longest {
                longest = finish;
            }
            v += 1;
        }
        longest
    }

    /// Backward pass along `order`, anchored at `horizon`: the latest start
    /// of every node. No node's latest start lies before its earliest.
    pub fn backward_pass(&self, order: &Vec<usize>, est: &Vec<i32>, horizon: i32) -> (latest: Vec<
        i32,
    >)
        requires
            self.wf(),
            is_topological_order(order@, self.nodes@.len() as int, self.edges@),
            self.forward_solution(as_ints(est@)),
            forall|v: int|
                0 <= v < est@.len() ==> 0 <= #[trigger] est@[v] && est@[v] + self.wcet(v)
                    <= horizon,
        ensures
            self.backward_solution(as_ints(latest@), horizon as int),
            forall|v: int|
                0 <= v < latest@.len() ==> est@[v] <= #[trigger] latest@[v] && latest@[v]
                    + self.wcet(v) <= horizon,
    {
        let n = self.nodes.len();
        let m = self.edges.len();
        let mut lst: Vec<i32> = Vec::new();
        let mut i: usize = 0;
        while i < n
            invariant
                i <= n,
                lst@.len() == i,
            decreases n - i,
        {
            lst.push(0);
            i += 1;
        }
        let mut k: usize = n;
        while k > 0
            invariant
                self.wf(),
                is_topological_order(order@, self.nodes@.len() as int, self.edges@),
                self.forward_solution(as_ints(est@)),
                n == self.nodes@.len(),
                m == self.edges@.len(),
                k <= n,
                lst@.len() == n,
                forall|v: int|
                    0 <= v < est@.len() ==> 0 <= #[trigger] est@[v] && est@[v] + self.wcet(v)
                        <= horizon,
                forall|j: int|
                    k <= j < n ==> {
                        let w = order@[j] as int;
                        &&& (#[trigger] lst@[order@[j] as int]) as int == self.out_min(
                            as_ints(lst@),
                            w,
                            m as int,
                            horizon as int,
                        ) - self.wcet(w)
                        &&& est@[w] <= lst@[w]
                        &&& lst@[w] + self.wcet(w) <= horizon
                    },
            decreases k,
        {
            k -= 1;
            let v = order[k];
            let ghost before = as_ints(lst@);
            let mut acc: i32 = horizon;
            let mut e: usize = 0;
            let wcet = self.get_execution_time(v);
            assert(0 <= est@[v as int] && est@[v as int] + self.wcet(v as int) <= horizon);
            while e < m
                invariant
                    self.wf(),
                    is_topological_order(order@, self.nodes@.len() as int, self.edges@),
                    self.forward_solution(as_ints(est@)),
                    n == self.nodes@.len(),
                    m == self.edges@.len(),
                    k < n,
                    v == order@[k as int],
                    e <= m,
                    lst@.len() == n,
                    before == as_ints(lst@),
                    acc as int == self.out_min(before, v as int, e as int, horizon as int),
                    est@[v as int] + self.wcet(v as int) <= acc <= horizon,
                    forall|v: int|
                        0 <= v < est@.len() ==> 0 <= #[trigger] est@[v] && est@[v] + self.wcet(v)
                            <= horizon,
                    forall|j: int|
                        k < j < n ==> {
                            let w = order@[j] as int;
                            &&& (#[trigger] lst@[order@[j] as int]) as int == self.out_min(
                                as_ints(lst@),
                                w,
                                m as int,
                                horizon as int,
                            ) - self.wcet(w)
                            &&& est@[w] <= lst@[w]
                            &&& lst@[w] + self.wcet(w) <= horizon
                        },
                decreases m - e,
            {
                let edge = self.edges[e];
                if edge.source == v {
                    let t = edge.target;
                    proof {
                        assert(order@.contains(t));
                        let j = choose|j: int| 0 <= j < order@.len() && order@[j] == t;
                        let _ = (self.edges@[e as int], order@[k as int], order@[j]);
                        assert(k < j);
                        assert(est@[order@[j] as int] <= lst@[order@[j] as int]);
                        self.lemma_in_max_bounds(as_ints(est@), t as int, m as int);
                        assert(as_ints(est@)[t as int] >= self.arrival(as_ints(est@), e as int));
                        assert(self.nodes@[t as int].has_valid_execution_time());
                    }
                    let departure: i32 = lst[t] - edge.communication_time;
                    assert(departure == self.departure(before, e as int));
                    if departure < acc {
                        acc = departure;
                    }
                }
                e += 1;
            }
            lst[v] = acc - wcet;
            proof {
                let now = as_ints(lst@);
                assert forall|j: int| k <= j < n implies {
                    let w = order@[j] as int;
                    &&& (#[trigger] lst@[order@[j] as int]) as int == self.out_min(
                        as_ints(lst@),
                        w,
                        m as int,
                        horizon as int,
                    ) - self.wcet(w)
                    &&& est@[w] <= lst@[w]
                    &&& lst@[w] + self.wcet(w) <= horizon
                } by {
                    let w = order@[j] as int;
                    if j > k {
                        assert(order@[j] != order@[k as int]);
                        assert(now[w] == before[w]);
                    }
                    assert forall|i: int| 0 <= i < m && (#[trigger] self.edges@[i]).source
                        == w implies before[self.edges@[i].target as int]
                        == now[self.edges@[i].target as int] by {
                        let t = self.edges@[i].target;
                        assert(order@.contains(t));
                        let jt = choose|jt: int| 0 <= jt < order@.len() && order@[jt] == t;
                        let _ = (self.edges@[i], order@[j], order@[jt]);
                        assert(j < jt);
                        assert(order@[jt] != order@[k as int]);
                    }
                    self.lemma_out_min_congruent(before, now, w, m as int, horizon as int);
                }
            }
        }
        proof {
            assert forall|v: int| 0 <= v < n implies {
                &&& (#[trigger] lst@[v]) as int == self.out_min(
                    as_ints(lst@),
                    v,
                    m as int,
                    horizon as int,
                ) - self.wcet(v)
                &&& est@[v] <= lst@[v]
                &&& lst@[v] + self.wcet(v) <= horizon
            } by {
                let node = v as usize;
                assert(order@.contains(node));
                let j = choose|j: int| 0 <= j < order@.len() && order@[j] == node;
                assert(lst@[order@[j] as int] == lst@[v]);
            }
            assert forall|v: int| 0 <= v < as_ints(lst@).len() implies #[trigger] as_ints(lst@)[v]
                == self.out_min(as_ints(lst@), v, self.edges@.len() as int, horizon as int)
                - self.wcet(v) by {
                assert(as_ints(lst@)[v] == lst@[v]);
            }
        }
        lst
    }

    /// Earliest and latest starts and the length of the longest path.
    /// Fails with `Cyclic` exactly when the edges form a cycle, and with
    /// `Overflow` exactly when they do not and some walk weighs more than an
    /// `i32` holds.
    pub fn calculate_timing(&self) -> (timing: Result<Timing, CustomError>)
        requires
            self.wf(),
        ensures
            match timing {
                Ok(t) => {
                    &&& self.forward_solution(self.earliest_starts())
                    &&& self.backward_solution(self.latest_starts(), self.critical_path_length())
                    &&& as_ints(t.earliest_start@) == self.earliest_starts()
                    &&& as_ints(t.latest_start@) == self.latest_starts()
                    &&& t.critical_path_length == self.critical_path_length()
                    &&& forall|v: int|
                        0 <= v < self.nodes@.len() ==> 0 <= #[trigger] t.earliest_start@[v]
                            <= t.latest_start@[v] && t.latest_start@[v] + self.wcet(v)
                            <= t.critical_path_length
                },
                Err(e) => e == CustomError::Cyclic || e == CustomError::Overflow,
            },
            timing == Err::<Timing, CustomError>(CustomError::Cyclic) <==> !self.is_acyclic(),
            timing == Err::<Timing, CustomError>(CustomError::Overflow) <==> self.is_acyclic()
                && exists|p: Path| self.is_path(p) && #[trigger] self.path_weight(p) > i32::MAX,
    {
        let order = match self.topological_order() {
            Ok(order) => order,
            Err(e) => {
                return Err(e);
            },
        };
        let est = match self.forward_pass(&order) {
            Ok(est) => est,
            Err(e) => {
                return Err(e);
            },
        };
        let horizon = self.longest_finish(&est);
        proof {
            self.lemma_max_finish_bounds(as_ints(est@), self.nodes@.len() as int);
            assert forall|v: int| 0 <= v < est@.len() implies est@[v] + self.wcet(v) <= horizon by {
                assert(as_ints(est@)[v] == est@[v]);
            }
        }
        let lst = self.backward_pass(&order, &est, horizon);
        proof {
            self.lemma_earliest_starts_unique(as_ints(est@));
            self.lemma_latest_starts_unique(as_ints(lst@));
        }
        Ok(Timing { earliest_start: est, latest_start: lst, critical_path_length: horizon })
    }
}

} // verus!
