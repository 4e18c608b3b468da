//! The names under which the parameters of a node are written.

use crate::graph_extension::ParamKey;
use vstd::prelude::*;

verus! {

/// The name of `key`.
pub open spec fn name_of(key: ParamKey) -> Seq<char> {
    match key {
        ParamKey::ExecutionTime => "execution_time"@,
        ParamKey::Priority => "priority"@,
        ParamKey::Period => "period"@,
        ParamKey::EndToEndDeadline => "end_to_end_deadline"@,
        ParamKey::Offset => "offset"@,
        ParamKey::DagId => "dag_id"@,
        ParamKey::IsPreempted => "is_preempted"@,
    }
}

/// Whether `a` and `b` hold the same text.
fn same_text(a: &str, b: &str) -> (same: bool)
    ensures
        same == (a@ == b@),
{
    let x = a.to_owned();
    let y = b.to_owned();
    x == y
}

impl ParamKey {
    /// The key that is written as `name`, if there is one.
    pub fn from_name(name: &str) -> (key: Option<ParamKey>)
        ensures
            match key {
                Some(k) => name@ == name_of(k),
                None => forall|k: ParamKey| name@ != name_of(k),
            },
    {
        proof {
            reveal_strlit("execution_time");
            reveal_strlit("priority");
            reveal_strlit("period");
            reveal_strlit("end_to_end_deadline");
            reveal_strlit("offset");
            reveal_strlit("dag_id");
            reveal_strlit("is_preempted");
        }
        if same_text(name, "execution_time") {
            Some(ParamKey::ExecutionTime)
        } else if same_text(name, "priority") {
            Some(ParamKey::Priority)
        } else if same_text(name, "period") {
            Some(ParamKey::Period)
        } else if same_text(name, "end_to_end_deadline") {
            Some(ParamKey::EndToEndDeadline)
        } else if same_text(name, "offset") {
            Some(ParamKey::Offset)
        } else if same_text(name, "dag_id") {
            Some(ParamKey::DagId)
        } else if same_text(name, "is_preempted") {
            Some(ParamKey::IsPreempted)
        } else {
            None
        }
    }

    /// The name under which this key is written.
    pub fn get_name(&self) -> (name: &'static str)
        ensures
            name@ == name_of(*self),
    {
        match self {
            ParamKey::ExecutionTime => "execution_time",
            ParamKey::Priority => "priority",
            ParamKey::Period => "period",
            ParamKey::EndToEndDeadline => "end_to_end_deadline",
            ParamKey::Offset => "offset",
            ParamKey::DagId => "dag_id",
            ParamKey::IsPreempted => "is_preempted",
        }
    }
}

} // verus!
