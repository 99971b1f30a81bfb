//! The decisions of the workflow driver: what a task is, whether its
//! dependencies are met, and what a success registers.

use vstd::prelude::*;
use crate::text::chars_of;
use crate::value::{Value, str_eq_chars};
use crate::registry::{Registry, RegisteredResponse, response_model};
use crate::types::Task;

verus! {

/// What the driver does with a task.
#[derive(PartialEq, Eq, Structural, Clone, Copy, Debug)]
pub enum TaskKind {
    /// Run it with the execution protocol.
    Http,
    /// Show registered responses.
    Display,
    /// Skip it.
    Unknown,
}

pub open spec fn kind_of(kind: Seq<char>) -> TaskKind {
    if kind == "http"@ {
        TaskKind::Http
    } else if kind == "display"@ {
        TaskKind::Display
    } else {
        TaskKind::Unknown
    }
}

/// Classifies a task by its `type` text.
pub fn task_kind(kind: &str) -> (r: TaskKind)
    ensures
        r == kind_of(kind@),
{
    let k = chars_of(kind);
    if str_eq_chars("http", &k) {
        TaskKind::Http
    } else if str_eq_chars("display", &k) {
        TaskKind::Display
    } else {
        TaskKind::Unknown
    }
}

/// The names of the tasks that completed so far, in completion order.
pub open spec fn names_of(s: Seq<String>) -> Seq<Seq<char>> {
    s.map_values(|x: String| x@)
}

/// The first dependency of `depends_on` that is not among `completed`.
pub fn missing_dependency(depends_on: &Vec<String>, completed: &Vec<String>) -> (r: Option<usize>)
    ensures
        match r {
            Some(i) => i < depends_on.len() && !names_of(completed@).contains(depends_on@[i as int]@)
                && forall|j: int|
                0 <= j < i ==> names_of(completed@).contains(#[trigger] depends_on@[j]@),
            None => forall|j: int|
                0 <= j < depends_on.len() ==> names_of(completed@).contains(
                    #[trigger] depends_on@[j]@,
                ),
        },
{
    let mut i: usize = 0;
    while i < depends_on.len()
        invariant
            i <= depends_on.len(),
            forall|j: int|
                0 <= j < i ==> names_of(completed@).contains(#[trigger] depends_on@[j]@),
        decreases depends_on.len() - i,
    {
        let d = chars_of(depends_on[i].as_str());
        let mut found = false;
        let mut k: usize = 0;
        while k < completed.len()
            invariant
                k <= completed.len(),
                d@ == depends_on@[i as int]@,
                found ==> names_of(completed@).contains(d@),
                !found ==> forall|m: int| 0 <= m < k ==> completed@[m]@ != d@,
            decreases completed.len() - k,
        {
            if str_eq_chars(completed[k].as_str(), &d) {
                assert(names_of(completed@)[k as int] == d@);
                found = true;
            }
            k += 1;
        }
        if !found {
            assert(!names_of(completed@).contains(d@)) by {
                if names_of(completed@).contains(d@) {
                    let m = choose|m: int| 0 <= m < completed@.len() && names_of(completed@)[m] == d@;
                    assert(completed@[m]@ == d@);
                }
            }
            return Some(i);
        }
        i += 1;
    }
    None
}

/// Stores a successful task's result under its `register` name, if it has one.
pub fn register_result(registry: &mut Registry, task: &Task, json: Value, text: String)
    ensures
        match task.register {
            Some(name) => final(registry)@ == old(registry)@.insert(
                name@,
                (json@, text@),
            ),
            None => final(registry)@ == old(registry)@,
        },
{
    match &task.register {
        Some(name) => {
            let response = RegisteredResponse { json, text };
            assert(response_model(response) == (json@, text@));
            registry.insert(name.clone(), response);
        },
        None => {},
    }
}

} // verus!
