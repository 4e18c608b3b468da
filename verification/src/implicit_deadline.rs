//! Making the period and the end-to-end deadline of a task agree.

use crate::graph_extension::{CustomError, Dag, NodeData, ParamKey};
use crate::log::all_wf;
use vstd::prelude::*;

verus! {

impl Dag {
    /// The first node from `from` on that no edge enters.
    pub open spec fn first_source_from(&self, from: int) -> Option<int>
        decreases self.nodes@.len() - from,
    {
        if from < 0 || from >= self.nodes@.len() {
            None
        } else if self.is_source_node(from) {
            Some(from)
        } else {
            self.first_source_from(from + 1)
        }
    }

    /// The first node from `from` on that no edge leaves.
    pub open spec fn first_sink_from(&self, from: int) -> Option<int>
        decreases self.nodes@.len() - from,
    {
        if from < 0 || from >= self.nodes@.len() {
            None
        } else if self.is_sink_node(from) {
            Some(from)
        } else {
            self.first_sink_from(from + 1)
        }
    }

    /// Why the period and the deadline cannot be made to agree, if they
    /// cannot: `MissingDeadline` where the task has neither; `NoEndpoint`
    /// where the one that is missing has no node to go to.
    pub open spec fn implicit_deadline_fault(&self) -> Option<CustomError> {
        match (self.head_period(), self.end_to_end_deadline()) {
            (None, None) => Some(CustomError::MissingDeadline),
            (None, Some(_)) => if self.first_source_from(0) is None {
                Some(CustomError::NoEndpoint)
            } else {
                None
            },
            (Some(_), None) => if self.first_sink_from(0) is None {
                Some(CustomError::NoEndpoint)
            } else {
                None
            },
            (Some(_), Some(_)) => None,
        }
    }

    /// The nodes once the period and the deadline agree. Where both are
    /// present and differ, every node without successors that carries a
    /// deadline gets the period as its deadline. Where the period is missing,
    /// the first node without predecessors gets the deadline as its period;
    /// where the deadline is missing, the first node without successors gets
    /// the period as its deadline.
    pub open spec fn implicit_deadline_nodes(&self) -> Seq<NodeData> {
        match (self.head_period(), self.end_to_end_deadline()) {
            (Some(p), Some(d)) => if d != p {
                Seq::new(
                    self.nodes@.len(),
                    |v: int|
                        if self.is_sink_node(v) && self.nodes@[v].end_to_end_deadline is Some {
                            self.nodes@[v].with_param(ParamKey::EndToEndDeadline, Some(p))
                        } else {
                            self.nodes@[v]
                        },
                )
            } else {
                self.nodes@
            },
            (None, Some(d)) => match self.first_source_from(0) {
                Some(s) => self.nodes@.update(
                    s,
                    self.nodes@[s].with_param(ParamKey::Period, Some(d)),
                ),
                None => self.nodes@,
            },
            (Some(p), None) => match self.first_sink_from(0) {
                Some(t) => self.nodes@.update(
                    t,
                    self.nodes@[t].with_param(ParamKey::EndToEndDeadline, Some(p)),
                ),
                None => self.nodes@,
            },
            (None, None) => self.nodes@,
        }
    }

    /// Whether the period and the deadline can be made to agree.
    pub fn check_implicit_deadline(&self) -> (fault: Option<CustomError>)
        requires
            self.wf(),
        ensures
            fault == self.implicit_deadline_fault(),
    {
        let period = self.get_head_period();
        let deadline = self.get_end_to_end_deadline();
        match (period, deadline) {
            (None, None) => Some(CustomError::MissingDeadline),
            (None, Some(_)) => {
                let sources = self.get_source_nodes();
                proof {
                    self.lemma_first_source(0);
                    if sources@.len() > 0 {
                        assert(self.is_source_node(sources@[0] as int));
                    }
                    if self.first_source_from(0) is Some {
                        assert(self.nodes@.len() == self.nodes.len());
                        assert(sources@.contains(self.first_source_from(0)->0 as usize));
                    }
                }
                if sources.len() == 0 {
                    Some(CustomError::NoEndpoint)
                } else {
                    None
                }
            },
            (Some(_), None) => {
                let sinks = self.get_sink_nodes();
                proof {
                    self.lemma_first_sink(0);
                    if sinks@.len() > 0 {
                        assert(self.is_sink_node(sinks@[0] as int));
                    }
                    if self.first_sink_from(0) is Some {
                        assert(self.nodes@.len() == self.nodes.len());
                        assert(sinks@.contains(self.first_sink_from(0)->0 as usize));
                    }
                }
                if sinks.len() == 0 {
                    Some(CustomError::NoEndpoint)
                } else {
                    None
                }
            },
            (Some(_), Some(_)) => None,
        }
    }

    /// The first node without predecessors is one, and no node before it is.
    pub proof fn lemma_first_source(&self, from: int)
        requires
            0 <= from <= self.nodes@.len(),
        ensures
            match self.first_source_from(from) {
                Some(s) => from <= s < self.nodes@.len() && self.is_source_node(s) && forall|v: int|
                    from <= v < s ==> !self.is_source_node(v),
                None => forall|v: int| from <= v < self.nodes@.len() ==> !self.is_source_node(v),
            },
        decreases self.nodes@.len() - from,
    {
        if from < self.nodes@.len() && !self.is_source_node(from) {
            self.lemma_first_source(from + 1);
        }
    }

    /// The first node without successors is one, and no node before it is.
    pub proof fn lemma_first_sink(&self, from: int)
        requires
            0 <= from <= self.nodes@.len(),
        ensures
            match self.first_sink_from(from) {
                Some(t) => from <= t < self.nodes@.len() && self.is_sink_node(t) && forall|v: int|
                    from <= v < t ==> !self.is_sink_node(v),
                None => forall|v: int| from <= v < self.nodes@.len() ==> !self.is_sink_node(v),
            },
        decreases self.nodes@.len() - from,
    {
        if from < self.nodes@.len() && !self.is_sink_node(from) {
            self.lemma_first_sink(from + 1);
        }
    }

    /// Makes the period and the end-to-end deadline of the task agree,
    /// the period winning where both are present. Changes nothing where
    /// they cannot be made to agree.
    pub fn adjust_to_implicit_deadline(&mut self) -> (adjusted: Result<(), CustomError>)
        requires
            old(self).wf(),
        ensures
            final(self).wf(),
            final(self).edges@ == old(self).edges@,
            match adjusted {
                Ok(_) => old(self).implicit_deadline_fault() is None && final(self).nodes@ == old(
                    self,
                ).implicit_deadline_nodes(),
                Err(e) => old(self).implicit_deadline_fault() == Some(e) && final(self).nodes@
                    == old(self).nodes@,
            },
    {
        if let Some(e) = self.check_implicit_deadline() {
            return Err(e);
        }
        let period = self.get_head_period();
        let deadline = self.get_end_to_end_deadline();
        match (period, deadline) {
            (Some(p), Some(d)) => {
                if d != p {
                    let flags = self.outgoing_flags();
                    let n = self.nodes.len();
                    let mut v: usize = 0;
                    while v < n
                        invariant
                            self.wf(),
                            old(self).wf(),
                            self.edges@ == old(self).edges@,
                            n == self.nodes@.len(),
                            n == old(self).nodes@.len(),
                            v <= n,
                            flags@.len() == n,
                            forall|u: int|
                                0 <= u < n ==> #[trigger] flags@[u] == !old(self).is_sink_node(u),
                            forall|u: int|
                                0 <= u < v ==> #[trigger] self.nodes@[u] == if old(
                                    self,
                                ).is_sink_node(u) && old(self).nodes@[u].end_to_end_deadline
                                    is Some {
                                    old(self).nodes@[u].with_param(
                                        ParamKey::EndToEndDeadline,
                                        Some(p),
                                    )
                                } else {
                                    old(self).nodes@[u]
                                },
                            forall|u: int| v <= u < n ==> self.nodes@[u] == old(self).nodes@[u],
                        decreases n - v,
                    {
                        if !flags[v] {
                            let ghost before = self.nodes@;
                            self.update_param(v, ParamKey::EndToEndDeadline, p);
                            assert(forall|u: int|
                                0 <= u < n && u != v ==> self.nodes@[u] == before[u]);
                        }
                        v += 1;
                    }
                    assert(self.nodes@ =~= old(self).implicit_deadline_nodes());
                }
            },
            (None, Some(d)) => {
                let sources = self.get_source_nodes();
                proof {
                    self.lemma_first_source(0);
                    assert(self.nodes@.len() == self.nodes.len());
                    assert(sources@.contains(self.first_source_from(0)->0 as usize));
                    let i = choose|i: int|
                        0 <= i < sources@.len() && sources@[i] == self.first_source_from(0)->0 as usize;
                    assert(self.is_source_node(sources@[0] as int));
                    if i > 0 {
                        assert(sources@[0] < sources@[i]);
                    }
                }
                let source = sources[0];
                proof {
                    self.lemma_head_param_absent(ParamKey::Period, 0, source as int);
                }
                self.add_param(source, ParamKey::Period, d);
            },
            (Some(p), None) => {
                let sinks = self.get_sink_nodes();
                proof {
                    self.lemma_first_sink(0);
                    assert(self.nodes@.len() == self.nodes.len());
                    assert(sinks@.contains(self.first_sink_from(0)->0 as usize));
                    let i = choose|i: int|
                        0 <= i < sinks@.len() && sinks@[i] == self.first_sink_from(0)->0 as usize;
                    assert(self.is_sink_node(sinks@[0] as int));
                    if i > 0 {
                        assert(sinks@[0] < sinks@[i]);
                    }
                }
                let sink = sinks[0];
                proof {
                    self.lemma_tail_param_absent(ParamKey::EndToEndDeadline, 0, sink as int);
                }
                self.add_param(sink, ParamKey::EndToEndDeadline, p);
            },
            (None, None) => {},
        }
        Ok(())
    }

    /// Where the head of the task carries no `key`, no node without
    /// predecessors carries it.
    pub proof fn lemma_head_param_absent(&self, key: ParamKey, from: int, v: int)
        requires
            0 <= from <= v < self.nodes@.len(),
            self.head_param_from(key, from) is None,
            self.is_source_node(v),
        ensures
            self.nodes@[v].param(key) is None,
        decreases v - from,
    {
        if from < v {
            self.lemma_head_param_absent(key, from + 1, v);
        }
    }

    /// Where the tail of the task carries no `key`, no node without
    /// successors carries it.
    pub proof fn lemma_tail_param_absent(&self, key: ParamKey, from: int, v: int)
        requires
            0 <= from <= v < self.nodes@.len(),
            self.tail_param_from(key, from) is None,
            self.is_sink_node(v),
        ensures
            self.nodes@[v].param(key) is None,
        decreases v - from,
    {
        if from < v {
            self.lemma_tail_param_absent(key, from + 1, v);
        }
    }
}

/// The position of the first task of `dag_set`, from `from` on, whose
/// period and deadline cannot be made to agree.
pub open spec fn first_deadline_fault(dag_set: Seq<Dag>, from: int) -> Option<int>
    decreases dag_set.len() - from,
{
    if from < 0 || from >= dag_set.len() {
        None
    } else if dag_set[from].implicit_deadline_fault() is Some {
        Some(from)
    } else {
        first_deadline_fault(dag_set, from + 1)
    }
}

/// Makes the period and the end-to-end deadline of every task of `dag_set`
/// agree. Fails with the fault of the first task for which that cannot be
/// done, and then changes no task at all.
pub fn adjust_to_implicit_deadline(dag_set: &mut Vec<Dag>) -> (adjusted: Result<(), CustomError>)
    requires
        all_wf(old(dag_set)@),
    ensures
        all_wf(final(dag_set)@),
        final(dag_set)@.len() == old(dag_set)@.len(),
        match adjusted {
            Ok(_) => first_deadline_fault(old(dag_set)@, 0) is None && forall|d: int|
                0 <= d < old(dag_set)@.len() ==> (#[trigger] final(dag_set)@[d]).nodes@ == old(
                    dag_set,
                )@[d].implicit_deadline_nodes() && final(dag_set)@[d].edges@ == old(
                    dag_set,
                )@[d].edges@,
            Err(e) => first_deadline_fault(old(dag_set)@, 0) is Some && Some(e) == old(
                dag_set,
            )@[first_deadline_fault(old(dag_set)@, 0)->0].implicit_deadline_fault()
                && final(dag_set)@ == old(dag_set)@,
        },
{
    let n = dag_set.len();
    let mut d: usize = 0;
    while d < n
        invariant
            dag_set@ == old(dag_set)@,
            all_wf(dag_set@),
            n == dag_set@.len(),
            d <= n,
            first_deadline_fault(dag_set@, 0) == first_deadline_fault(dag_set@, d as int),
            forall|j: int| 0 <= j < d ==> (#[trigger] dag_set@[j]).implicit_deadline_fault() is None,
        decreases n - d,
    {
        assert(dag_set@[d as int].wf());
        if let Some(e) = dag_set[d].check_implicit_deadline() {
            return Err(e);
        }
        d += 1;
    }
    let mut d: usize = 0;
    while d < n
        invariant
            all_wf(dag_set@),
            all_wf(old(dag_set)@),
            n == dag_set@.len(),
            n == old(dag_set)@.len(),
            d <= n,
            first_deadline_fault(old(dag_set)@, 0) is None,
            forall|j: int|
                0 <= j < n ==> (#[trigger] old(dag_set)@[j]).implicit_deadline_fault() is None,
            forall|j: int|
                0 <= j < d ==> (#[trigger] dag_set@[j]).nodes@ == old(
                    dag_set,
                )@[j].implicit_deadline_nodes() && dag_set@[j].edges@ == old(dag_set)@[j].edges@,
            forall|j: int| d <= j < n ==> dag_set@[j] == old(dag_set)@[j],
        decreases n - d,
    {
        assert(dag_set@[d as int].wf());
        assert(old(dag_set)@[d as int].implicit_deadline_fault() is None);
        let ghost before = dag_set@;
        let adjusted = dag_set[d].adjust_to_implicit_deadline();
        assert(forall|j: int| 0 <= j < n && j != d ==> dag_set@[j] == before[j]);
        assert forall|j: int| 0 <= j < dag_set@.len() implies (#[trigger] dag_set@[j]).wf() by {
            if j != d {
                assert(before[j].wf());
            }
        }
        d += 1;
    }
    Ok(())
}

/// Two graphs with the same edges whose nodes agree on `key` have the
/// same `key` at their head.
pub proof fn lemma_head_param_same(a: Dag, b: Dag, key: ParamKey, from: int)
    requires
        a.nodes@.len() == b.nodes@.len(),
        a.edges@ == b.edges@,
        forall|v: int| 0 <= v < a.nodes@.len() ==> (#[trigger] a.nodes@[v]).param(key) == b.nodes@[v].param(key),
    ensures
        a.head_param_from(key, from) == b.head_param_from(key, from),
    decreases a.nodes@.len() - from,
{
    if 0 <= from < a.nodes@.len() {
        assert(a.nodes@[from].param(key) == b.nodes@[from].param(key));
        lemma_head_param_same(a, b, key, from + 1);
    }
}

/// Two graphs with the same edges whose nodes agree on `key` have the
/// same `key` at their tail.
pub proof fn lemma_tail_param_same(a: Dag, b: Dag, key: ParamKey, from: int)
    requires
        a.nodes@.len() == b.nodes@.len(),
        a.edges@ == b.edges@,
        forall|v: int| 0 <= v < a.nodes@.len() ==> (#[trigger] a.nodes@[v]).param(key) == b.nodes@[v].param(key),
    ensures
        a.tail_param_from(key, from) == b.tail_param_from(key, from),
    decreases a.nodes@.len() - from,
{
    if 0 <= from < a.nodes@.len() {
        assert(a.nodes@[from].param(key) == b.nodes@[from].param(key));
        lemma_tail_param_same(a, b, key, from + 1);
    }
}

/// The head of a graph carries what its first node without predecessors
/// carries, where that node carries `key`.
pub proof fn lemma_head_param_found(dag: Dag, key: ParamKey, from: int, s: int, value: i32)
    requires
        0 <= from <= s < dag.nodes@.len(),
        forall|v: int| from <= v < s ==> !dag.is_source_node(v),
        dag.is_source_node(s),
        dag.nodes@[s].param(key) == Some(value),
    ensures
        dag.head_param_from(key, from) == Some(value),
    decreases s - from,
{
    if from < s {
        lemma_head_param_found(dag, key, from + 1, s, value);
    }
}

/// The tail of a graph carries what its first node without successors
/// carries, where that node carries `key`.
pub proof fn lemma_tail_param_found(dag: Dag, key: ParamKey, from: int, t: int, value: i32)
    requires
        0 <= from <= t < dag.nodes@.len(),
        forall|v: int| from <= v < t ==> !dag.is_sink_node(v),
        dag.is_sink_node(t),
        dag.nodes@[t].param(key) == Some(value),
    ensures
        dag.tail_param_from(key, from) == Some(value),
    decreases t - from,
{
    if from < t {
        lemma_tail_param_found(dag, key, from + 1, t, value);
    }
}

/// Where every deadline at a node without successors has been replaced by
/// `p`, the tail carries `p` if it carried a deadline, and none if it
/// carried none.
pub proof fn lemma_tail_deadline_replaced(before: Dag, after: Dag, p: i32, from: int)
    requires
        after.nodes@.len() == before.nodes@.len(),
        after.edges@ == before.edges@,
        forall|v: int|
            0 <= v < before.nodes@.len() ==> #[trigger] after.nodes@[v] == if before.is_sink_node(v)
                && before.nodes@[v].end_to_end_deadline is Some {
                before.nodes@[v].with_param(ParamKey::EndToEndDeadline, Some(p))
            } else {
                before.nodes@[v]
            },
    ensures
        after.tail_param_from(ParamKey::EndToEndDeadline, from) == if before.tail_param_from(
            ParamKey::EndToEndDeadline,
            from,
        ) is Some {
            Some(p)
        } else {
            None
        },
    decreases before.nodes@.len() - from,
{
    if 0 <= from < before.nodes@.len() {
        lemma_tail_deadline_replaced(before, after, p, from + 1);
    }
}

/// Once the period and the deadline of a task have been made to agree,
/// they agree: `after` is `before` with its nodes adjusted. The task then
/// has the period that it had, or, where it had none, its deadline as its
/// period.
pub proof fn lemma_implicit_deadline_agrees(before: Dag, after: Dag)
    requires
        before.wf(),
        before.implicit_deadline_fault() is None,
        after.nodes@ == before.implicit_deadline_nodes(),
        after.edges@ == before.edges@,
    ensures
        after.head_period() is Some,
        after.end_to_end_deadline() == after.head_period(),
        after.head_period() == if before.head_period() is Some {
            before.head_period()
        } else {
            before.end_to_end_deadline()
        },
{
    let n = before.nodes@.len() as int;
    match (before.head_period(), before.end_to_end_deadline()) {
        (Some(p), Some(d)) => {
            if d != p {
                assert forall|v: int| 0 <= v < n implies (#[trigger] after.nodes@[v]).param(
                    ParamKey::Period,
                ) == before.nodes@[v].param(ParamKey::Period) by {}
                lemma_head_param_same(after, before, ParamKey::Period, 0);
                lemma_tail_deadline_replaced(before, after, p, 0);
            } else {
                lemma_head_param_same(after, before, ParamKey::Period, 0);
                lemma_tail_param_same(after, before, ParamKey::EndToEndDeadline, 0);
            }
        },
        (None, Some(d)) => {
            before.lemma_first_source(0);
            let s = before.first_source_from(0)->0;
            assert forall|v: int| 0 <= v < n implies (#[trigger] after.nodes@[v]).param(
                ParamKey::EndToEndDeadline,
            ) == before.nodes@[v].param(ParamKey::EndToEndDeadline) by {}
            lemma_tail_param_same(after, before, ParamKey::EndToEndDeadline, 0);
            assert forall|v: int| 0 <= v < s implies !after.is_source_node(v) by {
                assert(!before.is_source_node(v));
                let e = choose|e: int|
                    0 <= e < before.edges@.len() && (#[trigger] before.edges@[e]).target == v;
                assert(after.edges@[e].target == v);
            }
            assert(after.is_source_node(s)) by {
                assert(before.is_source_node(s));
            }
            lemma_head_param_found(after, ParamKey::Period, 0, s, d);
        },
        (Some(p), None) => {
            before.lemma_first_sink(0);
            let t = before.first_sink_from(0)->0;
            assert forall|v: int| 0 <= v < n implies (#[trigger] after.nodes@[v]).param(
                ParamKey::Period,
            ) == before.nodes@[v].param(ParamKey::Period) by {}
            lemma_head_param_same(after, before, ParamKey::Period, 0);
            assert forall|v: int| 0 <= v < t implies !after.is_sink_node(v) by {
                assert(!before.is_sink_node(v));
                let e = choose|e: int|
                    0 <= e < before.edges@.len() && (#[trigger] before.edges@[e]).source == v;
                assert(after.edges@[e].source == v);
            }
            assert(after.is_sink_node(t)) by {
                assert(before.is_sink_node(t));
            }
            lemma_tail_param_found(after, ParamKey::EndToEndDeadline, 0, t, p);
        },
        (None, None) => {},
    }
}

} // verus!
