//! The task record: the sole entity of the store.

use vstd::prelude::*;

verus! {

/// The mathematical value of a [`Task`]: every field as a plain sequence of
/// characters, the priority as the number itself.
#[verifier::ext_equal]
pub ghost struct TaskView {
    pub title: Seq<char>,
    pub description: Seq<char>,
    pub priority: u8,
    pub status: Seq<char>,
    pub project: Seq<char>,
}

/// A task record. The title serves as the lookup key for update and removal;
/// uniqueness of titles is not enforced, and lookups act on the first match.
#[derive(Debug)]
pub struct Task {
    pub title: String,
    pub description: String,
    pub priority: u8,
    pub status: String,
    pub project: String,
}

impl View for Task {
    type V = TaskView;

    open spec fn view(&self) -> TaskView {
        TaskView {
            title: self.title@,
            description: self.description@,
            priority: self.priority,
            status: self.status@,
            project: self.project@,
        }
    }
}

impl Task {
    /// Builds a task from its five fields; all of them are required.
    pub fn new(
        title: String,
        description: String,
        priority: u8,
        status: String,
        project: String,
    ) -> (r: Task)
        ensures
            r@ == (TaskView {
                title: title@,
                description: description@,
                priority: priority,
                status: status@,
                project: project@,
            }),
    {
        Task { title, description, priority, status, project }
    }
}

impl Clone for Task {
    fn clone(&self) -> (r: Self)
        ensures
            r@ == self@,
    {
        Task {
            title: self.title.clone(),
            description: self.description.clone(),
            priority: self.priority,
            status: self.status.clone(),
            project: self.project.clone(),
        }
    }
}

impl PartialEq for Task {
    fn eq(&self, other: &Self) -> (r: bool) {
        self.title == other.title && self.description == other.description
            && self.priority == other.priority && self.status == other.status
            && self.project == other.project
    }
}

impl vstd::std_specs::cmp::PartialEqSpecImpl for Task {
    open spec fn obeys_eq_spec() -> bool {
        true
    }

    open spec fn eq_spec(&self, other: &Self) -> bool {
        self@ == other@
    }
}

/// The views of a sequence of tasks, element by element.
pub open spec fn views(ts: Seq<Task>) -> Seq<TaskView> {
    ts.map_values(|t: Task| t@)
}

} // verus!
