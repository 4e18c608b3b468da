//! Timing segments of a task: the intervals between consecutive earliest
//! finish times, each with the nodes that span it.

use crate::graph_analysis::as_ints;
use crate::graph_extension::{CustomError, Dag, NodeData};
use crate::timing::Path;
use vstd::prelude::*;

verus! {

/// Whether a segment carries much work or little.
#[derive(Debug, Clone, Copy, PartialEq, Eq, Structural)]
pub enum SegmentClassification {
    Heavy,
    Light,
}

/// One timing segment: the nodes that run all through it, where it begins
/// and ends, and its deadline and class once they have been decided.
#[derive(Debug)]
pub struct Segment {
    pub nodes: Vec<NodeData>,
    pub begin_range: i32,
    pub end_range: i32,
    pub deadline: i32,
    pub classification: Option<SegmentClassification>,
}

/// `times` without every value that repeats the one just before it.
pub open spec fn without_repeats(times: Seq<i32>) -> Seq<i32>
    decreases times.len(),
{
    if times.len() <= 1 {
        times
    } else {
        let rest = without_repeats(times.drop_last());
        if times.last() == times[times.len() - 2] {
            rest
        } else {
            rest.push(times.last())
        }
    }
}

/// `times`, which is in order, with `t` put behind every value that is no
/// larger.
pub open spec fn time_inserted(times: Seq<i32>, t: i32) -> Seq<i32>
    decreases times.len(),
{
    if times.len() == 0 {
        seq![t]
    } else if times.last() <= t {
        times.push(t)
    } else {
        time_inserted(times.drop_last(), t).push(times.last())
    }
}

/// `times` in ascending order.
pub open spec fn ascending(times: Seq<i32>) -> Seq<i32>
    decreases times.len(),
{
    if times.len() == 0 {
        times
    } else {
        time_inserted(ascending(times.drop_last()), times.last())
    }
}

/// Where `t` comes to stand in `times`.
pub proof fn lemma_time_inserted_at(times: Seq<i32>, t: i32, at: int)
    requires
        0 <= at <= times.len(),
        forall|i: int| at <= i < times.len() ==> (#[trigger] times[i]) > t,
        at > 0 ==> times[at - 1] <= t,
    ensures
        time_inserted(times, t) == times.insert(at, t),
    decreases times.len() - at,
{
    if times.len() == 0 {
        assert(times.insert(at, t) =~= seq![t]);
    } else if at == times.len() {
        assert(times.insert(at, t) =~= times.push(t));
    } else {
        lemma_time_inserted_at(times.drop_last(), t, at);
        assert(times.drop_last().insert(at, t).push(times.last()) =~= times.insert(at, t));
    }
}

/// The earliest finish of every node, in the order of the nodes.
pub open spec fn finish_times(dag: Dag, est: Seq<int>) -> Seq<int> {
    Seq::new(est.len(), |v: int| est[v] + dag.wcet(v))
}

/// Where the segments end: the earliest finish times in the order of the
/// nodes, without the values that repeat the one just before them, in
/// ascending order.
pub open spec fn segment_ends(finishes: Seq<i32>) -> Seq<i32> {
    ascending(without_repeats(finishes))
}

/// Where segment `i` begins: at 0 for the first, and where the segment
/// before it ends for the others.
pub open spec fn segment_begin(ends: Seq<i32>, i: int) -> i32 {
    if i == 0 {
        0
    } else {
        ends[i - 1]
    }
}

/// Whether a node that may start at `start` and finishes at `finish` at the
/// earliest spans the segment from `begin` to `end`.
pub open spec fn spans(start: i32, finish: i32, begin: i32, end: i32) -> bool {
    start <= begin && end <= finish
}

/// Among the first `upto` nodes, those that span the segment from `begin`
/// to `end`, in the order of the nodes.
pub open spec fn spanning_nodes(
    nodes: Seq<NodeData>,
    starts: Seq<i32>,
    finishes: Seq<i32>,
    begin: i32,
    end: i32,
    upto: int,
) -> Seq<NodeData>
    decreases upto,
{
    if upto <= 0 {
        Seq::empty()
    } else {
        let rest = spanning_nodes(nodes, starts, finishes, begin, end, upto - 1);
        if spans(starts[upto - 1], finishes[upto - 1], begin, end) {
            rest.push(nodes[upto - 1])
        } else {
            rest
        }
    }
}

/// Removes every value that repeats the one just before it.
pub fn remove_repeats(times: &Vec<i32>) -> (kept: Vec<i32>)
    ensures
        kept@ == without_repeats(times@),
{
    let mut kept: Vec<i32> = Vec::new();
    let mut i: usize = 0;
    while i < times.len()
        invariant
            i <= times@.len(),
            kept@ == without_repeats(times@.subrange(0, i as int)),
        decreases times@.len() - i,
    {
        let ghost head = times@.subrange(0, i + 1);
        assert(head.drop_last() =~= times@.subrange(0, i as int));
        if i == 0 || times[i] != times[i - 1] {
            kept.push(times[i]);
        }
        assert(kept@ =~= without_repeats(head));
        i += 1;
    }
    assert(times@.subrange(0, times@.len() as int) =~= times@);
    kept
}

/// Puts `times` in ascending order.
pub fn sort_times(times: &Vec<i32>) -> (sorted: Vec<i32>)
    ensures
        sorted@ == ascending(times@),
{
    let mut sorted: Vec<i32> = Vec::new();
    let mut i: usize = 0;
    while i < times.len()
        invariant
            i <= times@.len(),
            sorted@ == ascending(times@.subrange(0, i as int)),
        decreases times@.len() - i,
    {
        let t = times[i];
        let mut at: usize = sorted.len();
        while at > 0 && sorted[at - 1] > t
            invariant
                at <= sorted@.len(),
                forall|j: int| at <= j < sorted@.len() ==> (#[trigger] sorted@[j]) > t,
            decreases at,
        {
            at -= 1;
        }
        proof {
            lemma_time_inserted_at(sorted@, t, at as int);
            assert(times@.subrange(0, i + 1).drop_last() =~= times@.subrange(0, i as int));
            assert(times@.subrange(0, i + 1).last() == t);
        }
        sorted.insert(at, t);
        i += 1;
    }
    assert(times@.subrange(0, times@.len() as int) =~= times@);
    sorted
}

/// Cuts the run of `dag` into timing segments. The segments end at the
/// earliest finish times of the nodes, taken in the order of the nodes,
/// without the values that repeat the one just before them, in ascending
/// order; each begins where the one before it ends, the first at 0. A
/// segment holds, in the order of the nodes, every node that may start no
/// later than the segment begins and finishes no earlier than it ends. No
/// segment has a deadline or a class yet. Fails as the timing analysis does.
pub fn create_segments(dag: &Dag) -> (segments: Result<Vec<Segment>, CustomError>)
    requires
        dag.wf(),
    ensures
        match segments {
            Ok(list) => {
                let starts = dag.earliest_starts();
                let finishes = finish_times(*dag, starts);
                exists|est: Seq<i32>, eft: Seq<i32>|
                    {
                        &&& as_ints(est) == starts
                        &&& as_ints(eft) == finishes
                        &&& list@.len() == segment_ends(eft).len()
                        &&& forall|i: int|
                            0 <= i < list@.len() ==> {
                                let s = #[trigger] list@[i];
                                &&& s.begin_range == segment_begin(segment_ends(eft), i)
                                &&& s.end_range == segment_ends(eft)[i]
                                &&& s.deadline == 0
                                &&& s.classification is None
                                &&& s.nodes@ == spanning_nodes(
                                    dag.nodes@,
                                    est,
                                    eft,
                                    s.begin_range,
                                    s.end_range,
                                    dag.nodes@.len() as int,
                                )
                            }
                    }
            },
            Err(e) => e == CustomError::Cyclic || e == CustomError::Overflow,
        },
        segments == Err::<Vec<Segment>, CustomError>(CustomError::Cyclic) <==> !dag.is_acyclic(),
        segments == Err::<Vec<Segment>, CustomError>(CustomError::Overflow) <==> dag.is_acyclic()
            && exists|p: Path| dag.is_path(p) && #[trigger] dag.path_weight(p) > i32::MAX,
{
    let timing = match dag.calculate_timing() {
        Ok(t) => t,
        Err(e) => {
            return Err(e);
        },
    };
    let est = &timing.earliest_start;
    let n = dag.nodes.len();
    assert(est@.len() == n) by {
        assert(as_ints(est@).len() == n);
    }
    assert forall|u: int| 0 <= u < n implies 0 <= #[trigger] est@[u] && est@[u] + dag.wcet(u)
        <= timing.critical_path_length by {
        assert(0 <= timing.earliest_start@[u] <= timing.latest_start@[u]);
    }
    let mut eft: Vec<i32> = Vec::new();
    let mut v: usize = 0;
    while v < n
        invariant
            dag.wf(),
            n == dag.nodes@.len(),
            est@.len() == n,
            v <= n,
            eft@.len() == v,
            forall|u: int|
                0 <= u < n ==> 0 <= #[trigger] est@[u] && est@[u] + dag.wcet(u)
                    <= timing.critical_path_length,
            forall|u: int| 0 <= u < v ==> (#[trigger] eft@[u]) == est@[u] + dag.wcet(u),
        decreases n - v,
    {
        let wcet = dag.get_execution_time(v);
        assert(0 <= est@[v as int] && est@[v as int] + dag.wcet(v as int)
            <= timing.critical_path_length);
        eft.push(est[v] + wcet);
        v += 1;
    }
    proof {
        assert(as_ints(eft@) =~= finish_times(*dag, dag.earliest_starts())) by {
            assert forall|u: int| 0 <= u < n implies as_ints(eft@)[u] == finish_times(
                *dag,
                dag.earliest_starts(),
            )[u] by {
                assert(as_ints(est@)[u] == est@[u]);
                assert(as_ints(eft@)[u] == eft@[u]);
            }
        }
    }
    let kept = remove_repeats(&eft);
    let ends = sort_times(&kept);
    let mut segments: Vec<Segment> = Vec::new();
    let mut i: usize = 0;
    while i < ends.len()
        invariant
            dag.wf(),
            n == dag.nodes@.len(),
            est@.len() == n,
            eft@.len() == n,
            ends@ == segment_ends(eft@),
            i <= ends@.len(),
            segments@.len() == i,
            forall|j: int|
                0 <= j < i ==> {
                    let s = #[trigger] segments@[j];
                    &&& s.begin_range == segment_begin(ends@, j)
                    &&& s.end_range == ends@[j]
                    &&& s.deadline == 0
                    &&& s.classification is None
                    &&& s.nodes@ == spanning_nodes(
                        dag.nodes@,
                        est@,
                        eft@,
                        s.begin_range,
                        s.end_range,
                        n as int,
                    )
                },
        decreases ends@.len() - i,
    {
        let begin_range = if i == 0 {
            0
        } else {
            ends[i - 1]
        };
        let end_range = ends[i];
        let mut nodes: Vec<NodeData> = Vec::new();
        let mut v: usize = 0;
        while v < n
            invariant
                n == dag.nodes@.len(),
                est@.len() == n,
                eft@.len() == n,
                v <= n,
                nodes@ == spanning_nodes(
                    dag.nodes@,
                    est@,
                    eft@,
                    begin_range,
                    end_range,
                    v as int,
                ),
            decreases n - v,
        {
            if est[v] <= begin_range && end_range <= eft[v] {
                nodes.push(dag.nodes[v]);
            }
            v += 1;
        }
        segments.push(
            Segment { nodes, begin_range, end_range, deadline: 0, classification: None },
        );
        i += 1;
    }
    Ok(segments)
}

} // verus!
