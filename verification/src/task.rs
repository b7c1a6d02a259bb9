//! A single task and what it looks like to the contracts.

use crate::number::{int_text, push_i32};
use vstd::prelude::*;
use vstd::string::StringExecFns;

verus! {

/// One entry of the task list.
#[derive(Debug)]
pub struct Task {
    /// The number by which the task is found again; no two tasks of a store share it.
    pub id: i32,
    /// What the task is called. Any text, the empty one too.
    pub title: String,
    /// More about the task. Any text, the empty one too.
    pub description: String,
    /// Whether the task is done.
    pub completed: bool,
}

/// A task as the contracts see it: its id as an integer, its texts as sequences of
/// characters.
pub struct TaskView {
    pub id: int,
    pub title: Seq<char>,
    pub description: Seq<char>,
    pub completed: bool,
}

impl View for Task {
    type V = TaskView;

    open spec fn view(&self) -> TaskView {
        TaskView {
            id: self.id as int,
            title: self.title@,
            description: self.description@,
            completed: self.completed,
        }
    }
}

impl DeepView for Task {
    type V = TaskView;

    open spec fn deep_view(&self) -> TaskView {
        self@
    }
}

/// The task that an add creates: not completed yet.
pub open spec fn new_task(id: int, title: Seq<char>, description: Seq<char>) -> TaskView {
    TaskView { id, title, description, completed: false }
}

/// `t` with its completion flag flipped.
pub open spec fn flipped(t: TaskView) -> TaskView {
    TaskView { id: t.id, title: t.title, description: t.description, completed: !t.completed }
}

/// The word that shows a task's state in its row.
pub open spec fn state_word(completed: bool) -> Seq<char> {
    if completed {
        "Completed"@
    } else {
        "Pending"@
    }
}

/// The text of a task's row in the list: id, title and description, then the state
/// in square brackets.
pub open spec fn label_text(t: TaskView) -> Seq<char> {
    int_text(t.id) + ": "@ + t.title + " - "@ + t.description + " ["@ + state_word(t.completed)
        + "]"@
}

impl Clone for Task {
    fn clone(&self) -> (copy: Task)
        ensures
            copy@ == self@,
    {
        Task {
            id: self.id,
            title: self.title.clone(),
            description: self.description.clone(),
            completed: self.completed,
        }
    }
}

impl PartialEq for Task {
    fn eq(&self, other: &Task) -> (same: bool) {
        self.id == other.id && self.title == other.title && self.description
            == other.description && self.completed == other.completed
    }
}

impl vstd::std_specs::cmp::PartialEqSpecImpl for Task {
    open spec fn obeys_eq_spec() -> bool {
        true
    }

    open spec fn eq_spec(&self, other: &Task) -> bool {
        self.id == other.id && self.title@ == other.title@ && self.description@
            == other.description@ && self.completed == other.completed
    }
}

impl Task {
    /// A task that is not completed yet.
    pub fn new(id: i32, title: String, description: String) -> (task: Task)
        ensures
            task@ == new_task(id as int, title@, description@),
    {
        Task { id, title, description, completed: false }
    }

    /// The text of the task's row in the list, such as `3: Title - Text [Pending]`.
    pub fn label(&self) -> (text: String)
        ensures
            text@ == label_text(self@),
    {
        let mut text = String::new();
        push_i32(&mut text, self.id);
        text.append(": ");
        text.append(self.title.as_str());
        text.append(" - ");
        text.append(self.description.as_str());
        text.append(" [");
        if self.completed {
            text.append("Completed");
        } else {
            text.append("Pending");
        }
        text.append("]");
        assert(text@ =~= label_text(self@));
        text
    }
}

} // verus!
