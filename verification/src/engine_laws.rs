//! What holds of every tick of the engine.

use crate::engine_model::{
    dag_of, inserted, priority_of, sorted_by_priority, EngineView, PassView,
};
use crate::graph_extension::NodeData;
use vstd::prelude::*;

verus! {

/// Whether `queue` is in ascending order of priority value.
pub open spec fn is_ordered(queue: Seq<NodeData>) -> bool {
    forall|i: int, j: int|
        0 <= i <= j < queue.len() ==> priority_of(#[trigger] queue[i]) <= priority_of(
            #[trigger] queue[j],
        )
}

/// Inserting into an ordered queue leaves it ordered.
pub proof fn lemma_inserted_is_ordered(queue: Seq<NodeData>, x: NodeData)
    requires
        is_ordered(queue),
    ensures
        is_ordered(inserted(queue, x)),
        inserted(queue, x).len() == queue.len() + 1,
        forall|i: int|
            0 <= i < inserted(queue, x).len() ==> (#[trigger] inserted(queue, x)[i]) == x || (exists|
                k: int,
            |
                0 <= k < queue.len() && queue[k] == inserted(queue, x)[i]),
    decreases queue.len(),
{
    let result = inserted(queue, x);
    if queue.len() > 0 && priority_of(queue.last()) > priority_of(x) {
        let head = queue.drop_last();
        assert(is_ordered(head)) by {
            assert forall|i: int, j: int| 0 <= i <= j < head.len() implies priority_of(
                #[trigger] head[i],
            ) <= priority_of(#[trigger] head[j]) by {
                assert(head[i] == queue[i] && head[j] == queue[j]);
            }
        }
        lemma_inserted_is_ordered(head, x);
        let inner = inserted(head, x);
        assert forall|i: int| 0 <= i < result.len() implies (#[trigger] result[i]) == x || (exists|
            k: int,
        |
            0 <= k < queue.len() && queue[k] == result[i]) by {
            if i < inner.len() {
                assert(result[i] == inner[i]);
                if inner[i] != x {
                    let k = choose|k: int| 0 <= k < head.len() && head[k] == inner[i];
                    assert(queue[k] == result[i]);
                }
            } else {
                assert(queue[queue.len() - 1] == result[i]);
            }
        }
        assert forall|i: int, j: int| 0 <= i <= j < result.len() implies priority_of(
            #[trigger] result[i],
        ) <= priority_of(#[trigger] result[j]) by {
            if j < inner.len() {
                assert(result[i] == inner[i] && result[j] == inner[j]);
            } else if i < inner.len() {
                assert(result[i] == inner[i]);
                if inner[i] != x {
                    let k = choose|k: int| 0 <= k < head.len() && head[k] == inner[i];
                    assert(queue[k] == inner[i]);
                    assert(priority_of(queue[k]) <= priority_of(queue[queue.len() - 1]));
                }
            }
        }
    } else {
        assert forall|i: int| 0 <= i < result.len() implies (#[trigger] result[i]) == x || (exists|
            k: int,
        |
            0 <= k < queue.len() && queue[k] == result[i]) by {
            if i < queue.len() {
                assert(queue[i] == result[i]);
            }
        }
        assert forall|i: int, j: int| 0 <= i <= j < result.len() implies priority_of(
            #[trigger] result[i],
        ) <= priority_of(#[trigger] result[j]) by {
            if j < queue.len() {
                assert(result[i] == queue[i] && result[j] == queue[j]);
            } else if i < queue.len() {
                assert(result[i] == queue[i]);
                assert(priority_of(queue[i]) <= priority_of(queue[queue.len() - 1]));
            }
        }
    }
}

/// The ready queue is in order after it has been put in order.
pub proof fn lemma_sorted_is_ordered(queue: Seq<NodeData>)
    ensures
        is_ordered(sorted_by_priority(queue)),
    decreases queue.len(),
{
    if queue.len() > 0 {
        lemma_sorted_is_ordered(queue.drop_last());
        lemma_inserted_is_ordered(sorted_by_priority(queue.drop_last()), queue.last());
    }
}

impl EngineView {
    /// The cores that nodes are bound to while the first `upto` nodes of
    /// the ready queue are considered, in the order of the bindings.
    pub open spec fn bindings_upto(self, upto: int) -> Seq<usize>
        decreases upto,
    {
        if upto <= 0 {
            Seq::empty()
        } else {
            let rest = self.bindings_upto(upto - 1);
            match self.allocate_upto(upto - 1).view.placement(self.queue[upto - 1]) {
                Some(c) => rest.push(c),
                None => rest,
            }
        }
    }

    /// The cores that nodes are bound to in the allocation phase of a tick.
    pub open spec fn bindings(self) -> Seq<usize> {
        self.bindings_upto(self.queue.len() as int)
    }

    /// The first idle core that a node may run on is a core, and idle.
    pub proof fn lemma_first_eligible_idle(self, d: int, from: int)
        requires
            0 <= from <= self.cores.len() <= usize::MAX,
        ensures
            self.first_eligible_idle(d, from) is Some ==> self.first_eligible_idle(d, from)->0
                < self.cores.len() && self.cores[self.first_eligible_idle(
                d,
                from,
            )->0 as int].is_idle(),
        decreases self.cores.len() - from,
    {
        if from < self.cores.len() && !(self.cores[from].is_idle() && self.eligible(d, from)) {
            self.lemma_first_eligible_idle(d, from + 1);
        }
    }

    /// The core whose node may be displaced is a core, and busy.
    pub proof fn lemma_victim(self, d: int, upto: int)
        requires
            0 <= upto <= self.cores.len() <= usize::MAX,
        ensures
            self.victim_upto(d, upto) is Some ==> self.victim_upto(d, upto)->0 < upto
                && !self.cores[self.victim_upto(d, upto)->0 as int].is_idle(),
        decreases upto,
    {
        if upto > 0 {
            self.lemma_victim(d, upto - 1);
        }
    }

    /// A node is placed on a core only; and on a busy core only where the
    /// node that runs there is less urgent.
    pub proof fn lemma_placement(self, x: NodeData)
        requires
            self.cores.len() <= usize::MAX,
        ensures
            self.placement(x) is Some ==> {
                let c = self.placement(x)->0 as int;
                &&& 0 <= c < self.cores.len()
                &&& !self.cores[c].is_idle() ==> priority_of(self.cores[c].processing_node->0)
                    > priority_of(x)
            },
    {
        self.lemma_first_eligible_idle(dag_of(x), 0);
        self.lemma_victim(dag_of(x), self.cores.len() as int);
    }

    /// While the nodes of an ordered ready queue are considered, no core is
    /// bound twice; and every core that was bound runs a node that is at
    /// least as urgent as every node considered so far.
    pub proof fn lemma_bindings_differ(self, upto: int)
        requires
            is_ordered(self.queue),
            self.cores.len() <= usize::MAX,
            0 <= upto <= self.queue.len(),
        ensures
            self.allocate_upto(upto).view.cores.len() == self.cores.len(),
            forall|i: int, j: int|
                0 <= i < j < self.bindings_upto(upto).len() ==> self.bindings_upto(upto)[i]
                    != self.bindings_upto(upto)[j],
            forall|i: int|
                0 <= i < self.bindings_upto(upto).len() ==> {
                    let c = (#[trigger] self.bindings_upto(upto)[i]) as int;
                    let core = self.allocate_upto(upto).view.cores[c];
                    &&& 0 <= c < self.cores.len()
                    &&& !core.is_idle()
                    &&& upto > 0
                    &&& priority_of(core.processing_node->0) <= priority_of(self.queue[upto - 1])
                },
        decreases upto,
    {
        if upto > 0 {
            self.lemma_bindings_differ(upto - 1);
            let before = self.allocate_upto(upto - 1);
            let rest = self.bindings_upto(upto - 1);
            let now = self.bindings_upto(upto);
            let x = self.queue[upto - 1];
            before.view.lemma_placement(x);
            assert forall|i: int| 0 <= i < rest.len() implies priority_of(
                before.view.cores[(#[trigger] rest[i]) as int].processing_node->0,
            ) <= priority_of(x) by {
                assert(priority_of(self.queue[upto - 2]) <= priority_of(self.queue[upto - 1]));
            }
            match before.view.placement(x) {
                Some(c) => {
                    let after = before.bound(x, c);
                    assert(after.view.cores == before.view.cores.update(
                        c as int,
                        crate::processor::Core::running(x),
                    ));
                    assert forall|i: int| 0 <= i < rest.len() implies (#[trigger] rest[i]) != c by {
                        assert(priority_of(before.view.cores[rest[i] as int].processing_node->0)
                            <= priority_of(x));
                    }
                    assert forall|i: int, j: int| 0 <= i < j < now.len() implies now[i]
                        != now[j] by {
                        if j < rest.len() {
                            assert(now[i] == rest[i] && now[j] == rest[j]);
                        } else {
                            assert(now[i] == rest[i]);
                        }
                    }
                    assert forall|i: int| 0 <= i < now.len() implies {
                        let k = (#[trigger] now[i]) as int;
                        let core = after.view.cores[k];
                        &&& 0 <= k < self.cores.len()
                        &&& !core.is_idle()
                        &&& priority_of(core.processing_node->0) <= priority_of(x)
                    } by {
                        if i < rest.len() {
                            assert(now[i] == rest[i]);
                        }
                    }
                },
                None => {
                    assert(now == rest);
                },
            }
        }
    }

    /// In the allocation phase of a tick no core is bound to two nodes: not
    /// a shared core, not a dedicated one, and not one that is lent while its
    /// owner rests.
    pub proof fn lemma_no_core_is_bound_twice(self)
        requires
            self.cores.len() <= usize::MAX,
        ensures
            forall|i: int, j: int|
                0 <= i < j < self.sorted().bindings().len() ==> self.sorted().bindings()[i]
                    != self.sorted().bindings()[j],
    {
        lemma_sorted_is_ordered(self.queue);
        self.sorted().lemma_bindings_differ(self.sorted().queue.len() as int);
    }
}

} // verus!
