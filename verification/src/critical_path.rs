//! Critical paths: the walks from a node without predecessors to a node
//! without successors on which no node has slack.

use crate::graph_analysis::as_ints;
use crate::graph_extension::{is_topological_order, CustomError, Dag};
use crate::timing::Path;
use vstd::prelude::*;

verus! {

/// The nodes that each of `paths` visits.
pub open spec fn path_views(paths: Seq<Vec<usize>>) -> Seq<Seq<usize>> {
    paths.map_values(|p: Vec<usize>| p@)
}

/// Whether one of `paths` visits exactly the nodes `walk`, in that order.
pub open spec fn contains_path(paths: Seq<Vec<usize>>, walk: Seq<usize>) -> bool {
    exists|i: int| 0 <= i < paths.len() && (#[trigger] paths[i])@ == walk
}

/// Whether node `v` stands at position `level` or later in `order`.
pub open spec fn ranked(order: Seq<usize>, v: usize, level: int) -> bool {
    exists|k: int| level <= k < order.len() && #[trigger] order[k] == v
}

/// Appending a path keeps every path that was there, and adds that one.
pub proof fn lemma_contains_after_push(paths: Seq<Vec<usize>>, added: Vec<usize>)
    ensures
        contains_path(paths.push(added), added@),
        forall|walk: Seq<usize>| #[trigger]
            contains_path(paths, walk) ==> contains_path(paths.push(added), walk),
{
    assert(paths.push(added)[paths.len() as int]@ == added@);
    assert forall|walk: Seq<usize>| #[trigger] contains_path(paths, walk) implies contains_path(
        paths.push(added),
        walk,
    ) by {
        let i = choose|i: int| 0 <= i < paths.len() && (#[trigger] paths[i])@ == walk;
        assert(paths.push(added)[i]@ == walk);
    }
}

/// A copy of `path`.
fn copy_path(path: &Vec<usize>) -> (copy: Vec<usize>)
    ensures
        copy@ == path@,
{
    let mut copy: Vec<usize> = Vec::new();
    let mut i: usize = 0;
    while i < path.len()
        invariant
            i <= path@.len(),
            copy@ == path@.subrange(0, i as int),
        decreases path@.len() - i,
    {
        copy.push(path[i]);
        assert(copy@ =~= path@.subrange(0, i + 1));
        i += 1;
    }
    assert(path@.subrange(0, path@.len() as int) =~= path@);
    copy
}

impl Dag {
    /// Whether some edge leads from `u` to `v`.
    pub open spec fn joined(&self, u: usize, v: usize) -> bool {
        exists|e: int|
            0 <= e < self.edges@.len() && (#[trigger] self.edges@[e]).source == u
                && self.edges@[e].target == v
    }

    /// Whether `walk` starts at a node without predecessors, follows edges,
    /// and visits nodes without slack only.
    pub open spec fn is_critical_prefix(&self, walk: Seq<usize>) -> bool {
        &&& walk.len() > 0
        &&& forall|i: int|
            0 <= i < walk.len() ==> (#[trigger] walk[i]) < self.nodes@.len()
                && self.has_zero_slack(walk[i] as int)
        &&& self.is_source_node(walk[0] as int)
        &&& forall|i: int| 0 <= i < walk.len() - 1 ==> self.joined(#[trigger] walk[i], walk[i + 1])
    }

    /// Whether `walk` is a critical path: it starts at a node without
    /// predecessors, follows edges through nodes without slack, and ends at
    /// a node without successors.
    pub open spec fn is_critical_walk(&self, walk: Seq<usize>) -> bool {
        &&& self.is_critical_prefix(walk)
        &&& self.is_sink_node(walk.last() as int)
    }

    /// Whether `walk` is a candidate of the given level of the search: a
    /// critical prefix of `level + 1` nodes whose last node stands no
    /// earlier than `level` in `order`.
    pub open spec fn is_candidate(&self, walk: Seq<usize>, level: int, order: Seq<usize>) -> bool {
        &&& self.is_critical_prefix(walk)
        &&& walk.len() == level + 1
        &&& ranked(order, walk.last(), level)
    }

    /// The walks of one node with which the search starts: the nodes from
    /// `from` on that have no predecessor and no slack, the last first.
    pub open spec fn start_walks_from(&self, from: int) -> Seq<Seq<usize>>
        decreases self.nodes@.len() - from,
    {
        if from < 0 || from >= self.nodes@.len() {
            Seq::empty()
        } else {
            let later = self.start_walks_from(from + 1);
            if self.is_source_node(from) && self.has_zero_slack(from) {
                later.push(seq![from as usize])
            } else {
                later
            }
        }
    }

    /// `walk` continued over each edge from `from` on that leaves its last
    /// node for a node without slack, the last such edge first.
    pub open spec fn extensions_from(&self, walk: Seq<usize>, from: int) -> Seq<Seq<usize>>
        decreases self.edges@.len() - from,
    {
        if from < 0 || from >= self.edges@.len() {
            Seq::empty()
        } else {
            let later = self.extensions_from(walk, from + 1);
            let e = self.edges@[from];
            if e.source == walk.last() && self.has_zero_slack(e.target as int) {
                later.push(walk.push(e.target))
            } else {
                later
            }
        }
    }

    /// Among the first `upto` walks of `frontier`, those that have reached a
    /// node without successors, in their order.
    pub open spec fn level_done(&self, frontier: Seq<Seq<usize>>, upto: int) -> Seq<Seq<usize>>
        decreases upto,
    {
        if upto <= 0 {
            Seq::empty()
        } else {
            let rest = self.level_done(frontier, upto - 1);
            if self.is_sink_node(frontier[upto - 1].last() as int) {
                rest.push(frontier[upto - 1])
            } else {
                rest
            }
        }
    }

    /// The continuations of the first `upto` walks of `frontier` that have
    /// not reached a node without successors, walk by walk.
    pub open spec fn level_next(&self, frontier: Seq<Seq<usize>>, upto: int) -> Seq<Seq<usize>>
        decreases upto,
    {
        if upto <= 0 {
            Seq::empty()
        } else {
            let rest = self.level_next(frontier, upto - 1);
            if self.is_sink_node(frontier[upto - 1].last() as int) {
                rest
            } else {
                rest + self.extensions_from(frontier[upto - 1], 0)
            }
        }
    }

    /// What a breadth-first search finds from `frontier` within `levels`
    /// levels: level by level, the walks that have reached a node without
    /// successors.
    pub open spec fn search(&self, frontier: Seq<Seq<usize>>, levels: nat) -> Seq<Seq<usize>>
        decreases levels,
    {
        if levels == 0 || frontier.len() == 0 {
            Seq::empty()
        } else {
            self.level_done(frontier, frontier.len() as int) + self.search(
                self.level_next(frontier, frontier.len() as int),
                (levels - 1) as nat,
            )
        }
    }

    /// The critical paths in the order in which a breadth-first search
    /// finds them.
    pub open spec fn critical_paths(&self) -> Seq<Seq<usize>> {
        self.search(self.start_walks_from(0), self.nodes@.len())
    }

    /// All critical paths, found breadth first from the nodes without
    /// predecessors, in the order of discovery. Every path returned is a
    /// critical path, and every critical path is returned. Fails as
    /// `calculate_timing` does.
    pub fn get_critical_paths(&self) -> (found: Result<Vec<Vec<usize>>, CustomError>)
        requires
            self.wf(),
        ensures
            match found {
                Ok(paths) => {
                    &&& path_views(paths@) == self.critical_paths()
                    &&& forall|i: int|
                        0 <= i < paths@.len() ==> self.is_critical_walk((#[trigger] paths@[i])@)
                    &&& forall|walk: Seq<usize>| #[trigger]
                        self.is_critical_walk(walk) ==> contains_path(paths@, walk)
                },
                Err(e) => e == CustomError::Cyclic || e == CustomError::Overflow,
            },
            found == Err::<Vec<Vec<usize>>, CustomError>(CustomError::Cyclic)
                <==> !self.is_acyclic(),
            found == Err::<Vec<Vec<usize>>, CustomError>(CustomError::Overflow)
                <==> self.is_acyclic() && exists|p: Path|
                self.is_path(p) && #[trigger] self.path_weight(p) > i32::MAX,
    {
        let timing = match self.calculate_timing() {
            Ok(t) => t,
            Err(e) => {
                return Err(e);
            },
        };
        let n = self.nodes.len();
        let m = self.edges.len();
        let in_flags = self.incoming_flags();
        let out_flags = self.outgoing_flags();
        let est = timing.earliest_start;
        let lst = timing.latest_start;
        let ghost order = choose|order: Seq<usize>|
            is_topological_order(order, n as int, self.edges@);
        assert(est@.len() == n && lst@.len() == n) by {
            assert(as_ints(est@).len() == n);
            assert(as_ints(lst@).len() == n);
        }
        assert forall|v: int| 0 <= v < n implies ((#[trigger] est@[v]) == lst@[v]
            <==> self.has_zero_slack(v)) by {
            assert(as_ints(est@)[v] == est@[v]);
            assert(as_ints(lst@)[v] == lst@[v]);
        }

        let mut frontier: Vec<Vec<usize>> = Vec::new();
        let mut v: usize = n;
        while v > 0
            invariant
                self.wf(),
                is_topological_order(order, n as int, self.edges@),
                n == self.nodes@.len(),
                v <= n,
                est@.len() == n,
                lst@.len() == n,
                in_flags@.len() == n,
                forall|u: int| 0 <= u < n ==> #[trigger] in_flags@[u] == !self.is_source_node(u),
                forall|u: int| 0 <= u < n ==> ((#[trigger] est@[u]) == lst@[u] <==> self.has_zero_slack(u)),
                forall|i: int|
                    0 <= i < frontier@.len() ==> self.is_candidate((#[trigger] frontier@[i])@, 0, order),
                forall|u: usize|
                    v <= u < n && self.is_source_node(u as int) && self.has_zero_slack(u as int)
                        ==> contains_path(frontier@, #[trigger] seq![u]),
                path_views(frontier@) == self.start_walks_from(v as int),
            decreases v,
        {
            v -= 1;
            let ghost before = frontier@;
            if !in_flags[v] && est[v] == lst[v] {
                let mut path: Vec<usize> = Vec::new();
                path.push(v);
                proof {
                    assert(path@ =~= seq![v]);
                    assert(order.contains(v));
                    lemma_contains_after_push(frontier@, path);
                }
                frontier.push(path);
                assert(path_views(frontier@) =~= path_views(before).push(seq![v]));
            }
        }

        let mut paths: Vec<Vec<usize>> = Vec::new();
        let mut level: usize = 0;
        proof {
            assert(path_views(paths@) =~= Seq::<Seq<usize>>::empty());
            assert(path_views(paths@) + self.search(path_views(frontier@), n as nat)
                =~= self.critical_paths());
            assert forall|walk: Seq<usize>| #[trigger]
                self.is_critical_walk(walk) && walk.len() > 0 implies contains_path(
                frontier@,
                walk.subrange(0, 1),
            ) by {
                assert(walk.subrange(0, 1) =~= seq![walk[0]]);
            }
        }
        while frontier.len() > 0
            invariant
                self.wf(),
                is_topological_order(order, n as int, self.edges@),
                n == self.nodes@.len(),
                m == self.edges@.len(),
                level <= n,
                est@.len() == n,
                lst@.len() == n,
                out_flags@.len() == n,
                forall|u: int| 0 <= u < n ==> #[trigger] out_flags@[u] == !self.is_sink_node(u),
                forall|u: int| 0 <= u < n ==> ((#[trigger] est@[u]) == lst@[u] <==> self.has_zero_slack(u)),
                forall|i: int|
                    0 <= i < frontier@.len() ==> self.is_candidate(
                        (#[trigger] frontier@[i])@,
                        level as int,
                        order,
                    ),
                forall|i: int|
                    0 <= i < paths@.len() ==> self.is_critical_walk((#[trigger] paths@[i])@),
                forall|walk: Seq<usize>| #[trigger]
                    self.is_critical_walk(walk) && walk.len() <= level ==> contains_path(
                        paths@,
                        walk,
                    ),
                forall|walk: Seq<usize>| #[trigger]
                    self.is_critical_walk(walk) && walk.len() > level ==> contains_path(
                        frontier@,
                        walk.subrange(0, level + 1),
                    ),
                path_views(paths@) + self.search(path_views(frontier@), (n - level) as nat)
                    == self.critical_paths(),
            decreases n - level,
        {
            proof {
                let first = frontier@[0]@;
                assert(self.is_candidate(first, level as int, order));
            }
            let ghost seen = paths@;
            let ghost front = path_views(frontier@);
            let mut next: Vec<Vec<usize>> = Vec::new();
            let mut i: usize = 0;
            while i < frontier.len()
                invariant
                    self.wf(),
                    is_topological_order(order, n as int, self.edges@),
                    n == self.nodes@.len(),
                    m == self.edges@.len(),
                    level < n,
                    i <= frontier@.len(),
                    est@.len() == n,
                    lst@.len() == n,
                    out_flags@.len() == n,
                    forall|u: int| 0 <= u < n ==> #[trigger] out_flags@[u] == !self.is_sink_node(u),
                    forall|u: int|
                        0 <= u < n ==> ((#[trigger] est@[u]) == lst@[u] <==> self.has_zero_slack(u)),
                    forall|i: int|
                        0 <= i < frontier@.len() ==> self.is_candidate(
                            (#[trigger] frontier@[i])@,
                            level as int,
                            order,
                        ),
                    forall|i: int|
                        0 <= i < paths@.len() ==> self.is_critical_walk((#[trigger] paths@[i])@),
                    forall|walk: Seq<usize>| #[trigger]
                        contains_path(seen, walk) ==> contains_path(paths@, walk),
                    forall|j: int|
                        0 <= j < next@.len() ==> self.is_candidate(
                            (#[trigger] next@[j])@,
                            level + 1,
                            order,
                        ),
                    forall|j: int|
                        0 <= j < i && self.is_sink_node((#[trigger] frontier@[j])@.last() as int)
                            ==> contains_path(paths@, frontier@[j]@),
                    forall|j: int, e: int|
                        0 <= j < i && 0 <= e < m && (#[trigger] self.edges@[e]).source
                            == (#[trigger] frontier@[j])@.last() && self.has_zero_slack(
                            self.edges@[e].target as int,
                        ) ==> contains_path(next@, frontier@[j]@.push(self.edges@[e].target)),
                    front == path_views(frontier@),
                    path_views(paths@) == path_views(seen) + self.level_done(front, i as int),
                    path_views(next@) == self.level_next(front, i as int),
                decreases frontier@.len() - i,
            {
                let path = &frontier[i];
                assert(self.is_candidate(path@, level as int, order));
                let last = path[path.len() - 1];
                assert(last < n);
                assert(front[i as int] == path@);
                let ghost paths_before = paths@;
                let ghost next_before = next@;
                if !out_flags[last] {
                    let finished = copy_path(path);
                    proof {
                        lemma_contains_after_push(paths@, finished);
                    }
                    paths.push(finished);
                    assert(path_views(paths@) =~= path_views(paths_before).push(path@));
                    assert(path_views(paths@) =~= path_views(seen) + self.level_done(front, i + 1));
                } else {
                    let mut e: usize = m;
                    while e > 0
                        invariant
                            self.wf(),
                            is_topological_order(order, n as int, self.edges@),
                            n == self.nodes@.len(),
                            m == self.edges@.len(),
                            level < n,
                            i < frontier@.len(),
                            e <= m,
                            path@ == frontier@[i as int]@,
                            last == path@.last(),
                            self.is_candidate(path@, level as int, order),
                            est@.len() == n,
                            lst@.len() == n,
                            forall|u: int|
                                0 <= u < n ==> ((#[trigger] est@[u]) == lst@[u]
                                    <==> self.has_zero_slack(u)),
                            forall|j: int|
                                0 <= j < next@.len() ==> self.is_candidate(
                                    (#[trigger] next@[j])@,
                                    level + 1,
                                    order,
                                ),
                            forall|j: int, e: int|
                                0 <= j < i && 0 <= e < m && (#[trigger] self.edges@[e]).source
                                    == (#[trigger] frontier@[j])@.last() && self.has_zero_slack(
                                    self.edges@[e].target as int,
                                ) ==> contains_path(
                                    next@,
                                    frontier@[j]@.push(self.edges@[e].target),
                                ),
                            forall|f: int|
                                e <= f < m && (#[trigger] self.edges@[f]).source == last
                                    && self.has_zero_slack(self.edges@[f].target as int)
                                    ==> contains_path(next@, path@.push(self.edges@[f].target)),
                            path_views(next@) == path_views(next_before) + self.extensions_from(
                                path@,
                                e as int,
                            ),
                        decreases e,
                    {
                        e -= 1;
                        let edge = self.edges[e];
                        let ghost next_inner = next@;
                        if edge.source == last && est[edge.target] == lst[edge.target] {
                            let mut longer = copy_path(path);
                            longer.push(edge.target);
                            proof {
                                let t = edge.target;
                                assert(longer@ == path@.push(t));
                                assert(self.joined(last, t));
                                assert forall|x: int| 0 <= x < longer@.len() - 1 implies self.joined(
                                    #[trigger] longer@[x],
                                    longer@[x + 1],
                                ) by {
                                    if x < path@.len() - 1 {
                                        assert(self.joined(path@[x], path@[x + 1]));
                                    }
                                }
                                let k = choose|k: int|
                                    level <= k < order.len() && #[trigger] order[k] == last;
                                assert(order.contains(t));
                                let kt = choose|kt: int| 0 <= kt < order.len() && order[kt] == t;
                                let _ = (self.edges@[e as int], order[k], order[kt]);
                                assert(k < kt);
                                assert(ranked(order, t, level + 1));
                                assert(self.is_candidate(longer@, level + 1, order));
                                lemma_contains_after_push(next@, longer);
                            }
                            next.push(longer);
                            assert(path_views(next@) =~= path_views(next_inner).push(longer@));
                        }
                        assert(path_views(next@) =~= path_views(next_before) + self.extensions_from(
                            path@,
                            e as int,
                        ));
                    }
                    assert(path_views(next@) =~= self.level_next(front, i + 1));
                }
                i += 1;
            }
            proof {
                assert forall|walk: Seq<usize>| #[trigger]
                    self.is_critical_walk(walk) && walk.len() <= level + 1 implies contains_path(
                    paths@,
                    walk,
                ) by {
                    if walk.len() <= level {
                        assert(contains_path(seen, walk));
                    } else {
                        assert(walk.subrange(0, level + 1) =~= walk);
                        let j = choose|j: int|
                            0 <= j < frontier@.len() && (#[trigger] frontier@[j])@ == walk;
                        assert(self.is_sink_node(frontier@[j]@.last() as int));
                    }
                }
                assert forall|walk: Seq<usize>| #[trigger]
                    self.is_critical_walk(walk) && walk.len() > level + 1 implies contains_path(
                    next@,
                    walk.subrange(0, level + 2),
                ) by {
                    let head = walk.subrange(0, level + 1);
                    assert(contains_path(frontier@, head));
                    let j = choose|j: int|
                        0 <= j < frontier@.len() && (#[trigger] frontier@[j])@ == head;
                    assert(head.last() == walk[level as int]);
                    assert(self.joined(walk[level as int], walk[level + 1]));
                    let e = choose|e: int|
                        0 <= e < self.edges@.len() && (#[trigger] self.edges@[e]).source
                            == walk[level as int] && self.edges@[e].target == walk[level + 1];
                    assert(self.has_zero_slack(walk[level + 1] as int));
                    assert(head.push(walk[level + 1]) =~= walk.subrange(0, level + 2));
                    assert(contains_path(next@, frontier@[j]@.push(self.edges@[e].target)));
                }
            }
            proof {
                assert(self.search(front, (n - level) as nat) == self.level_done(
                    front,
                    front.len() as int,
                ) + self.search(self.level_next(front, front.len() as int), (n - level - 1) as nat));
                assert(path_views(paths@) + self.search(path_views(next@), (n - level - 1) as nat)
                    =~= path_views(seen) + self.search(front, (n - level) as nat));
            }
            frontier = next;
            level += 1;
        }
        proof {
            assert(path_views(paths@) =~= self.critical_paths());
            assert forall|walk: Seq<usize>| #[trigger] self.is_critical_walk(walk) implies contains_path(
                paths@,
                walk,
            ) by {
                if walk.len() > level {
                    assert(contains_path(frontier@, walk.subrange(0, level + 1)));
                }
            }
        }
        Ok(paths)
    }
}

} // verus!
