//! The task manager behind the window: the store, the three entry fields, and
//! what each action of the user does to them.

use crate::store::{has_id, parse_id, parse_id_spec, removed_all, toggled, TaskStore};
use crate::task::{new_task, TaskView};
use vstd::prelude::*;

verus! {

/// What the user did.
#[derive(Debug)]
pub enum Event {
    /// The add button was pressed, with the entry fields as they stand.
    AddClicked,
    /// The check box of the task with this id was flipped.
    Toggled(i32),
    /// The delete buttons of the tasks with these ids were pressed.
    DeleteClicked(Vec<i32>),
}

/// What is to be done outside the manager after an event.
#[derive(Debug, Clone, Copy, PartialEq, Eq, Structural)]
pub enum Action {
    /// Nothing.
    Nothing,
    /// The store changed and is to be written to the file.
    Save,
    /// The id field holds no number: the user is to be told.
    ReportInvalidId,
    /// The id is taken: the user is to be told.
    ReportDuplicateId,
}

/// The store together with the texts of the entry fields for a new task.
pub struct TaskManager {
    store: TaskStore,
    /// The id field, as typed.
    pub task_id: String,
    /// The title field, as typed.
    pub task_title: String,
    /// The description field, as typed.
    pub task_description: String,
}

/// The manager as the contracts see it.
pub struct ManagerView {
    pub tasks: Seq<TaskView>,
    pub task_id: Seq<char>,
    pub task_title: Seq<char>,
    pub task_description: Seq<char>,
}

impl View for TaskManager {
    type V = ManagerView;

    closed spec fn view(&self) -> ManagerView {
        ManagerView {
            tasks: self.store@,
            task_id: self.task_id@,
            task_title: self.task_title@,
            task_description: self.task_description@,
        }
    }
}

/// The manager after the add button: with a number in the id field that no task
/// has, the new task comes last and the fields are emptied; else nothing changes.
pub open spec fn after_add(m: ManagerView) -> ManagerView {
    match parse_id_spec(m.task_id) {
        None => m,
        Some(id) => if has_id(m.tasks, id as int) {
            m
        } else {
            ManagerView {
                tasks: m.tasks.push(new_task(id as int, m.task_title, m.task_description)),
                task_id: Seq::<char>::empty(),
                task_title: Seq::<char>::empty(),
                task_description: Seq::<char>::empty(),
            }
        },
    }
}

/// What follows the add button.
pub open spec fn action_of_add(m: ManagerView) -> Action {
    match parse_id_spec(m.task_id) {
        None => Action::ReportInvalidId,
        Some(id) => if has_id(m.tasks, id as int) {
            Action::ReportDuplicateId
        } else {
            Action::Save
        },
    }
}

/// The manager with other tasks and the same entry fields.
pub open spec fn with_tasks(m: ManagerView, tasks: Seq<TaskView>) -> ManagerView {
    ManagerView {
        tasks,
        task_id: m.task_id,
        task_title: m.task_title,
        task_description: m.task_description,
    }
}

/// The manager after an event.
pub open spec fn next_state(m: ManagerView, event: Event) -> ManagerView {
    match event {
        Event::AddClicked => after_add(m),
        Event::Toggled(id) => with_tasks(m, toggled(m.tasks, id as int)),
        Event::DeleteClicked(ids) => with_tasks(m, removed_all(m.tasks, ids@)),
    }
}

/// What is to be done after an event. A flipped check box is not written to the
/// file; a deletion is, as soon as at least one id is given.
pub open spec fn next_action(m: ManagerView, event: Event) -> Action {
    match event {
        Event::AddClicked => action_of_add(m),
        Event::Toggled(id) => Action::Nothing,
        Event::DeleteClicked(ids) => if ids@.len() == 0 {
            Action::Nothing
        } else {
            Action::Save
        },
    }
}

impl TaskManager {
    /// A manager of the given store, with empty entry fields.
    pub fn new(store: TaskStore) -> (manager: TaskManager)
        ensures
            manager@ == (ManagerView {
                tasks: store@,
                task_id: Seq::<char>::empty(),
                task_title: Seq::<char>::empty(),
                task_description: Seq::<char>::empty(),
            }),
    {
        TaskManager {
            store,
            task_id: String::new(),
            task_title: String::new(),
            task_description: String::new(),
        }
    }

    /// The store.
    pub fn store(&self) -> (store: &TaskStore)
        ensures
            store@ == self@.tasks,
    {
        &self.store
    }

    /// Adds the task that the entry fields describe, and empties the fields.
    /// Where the id field holds no number, or the number is taken, nothing changes.
    pub fn submit(&mut self) -> (action: Action)
        ensures
            final(self)@ == after_add(old(self)@),
            action == action_of_add(old(self)@),
    {
        let id = match parse_id(self.task_id.as_str()) {
            Err(_) => {
                return Action::ReportInvalidId;
            },
            Ok(id) => id,
        };
        if self.store.contains(id) {
            return Action::ReportDuplicateId;
        }
        let mut title = String::new();
        let mut description = String::new();
        std::mem::swap(&mut title, &mut self.task_title);
        std::mem::swap(&mut description, &mut self.task_description);
        let _ = self.store.insert(id, title, description);
        self.task_id = String::new();
        Action::Save
    }

    /// Flips the completion flag of the task with the id `id`.
    pub fn toggle(&mut self, id: i32) -> (action: Action)
        ensures
            final(self)@ == with_tasks(old(self)@, toggled(old(self)@.tasks, id as int)),
            action == Action::Nothing,
    {
        self.store.toggle_completed(id);
        Action::Nothing
    }

    /// Removes the tasks whose ids are given.
    pub fn delete(&mut self, ids: &Vec<i32>) -> (action: Action)
        ensures
            final(self)@ == with_tasks(old(self)@, removed_all(old(self)@.tasks, ids@)),
            action == if ids@.len() == 0 {
                Action::Nothing
            } else {
                Action::Save
            },
    {
        let _ = self.store.remove_all(ids);
        if ids.len() == 0 {
            Action::Nothing
        } else {
            Action::Save
        }
    }

    /// Takes one event: changes the manager as the event asks, and says what is to
    /// be done outside.
    pub fn handle(&mut self, event: Event) -> (action: Action)
        ensures
            final(self)@ == next_state(old(self)@, event),
            action == next_action(old(self)@, event),
    {
        match event {
            Event::AddClicked => self.submit(),
            Event::Toggled(id) => self.toggle(id),
            Event::DeleteClicked(ids) => self.delete(&ids),
        }
    }
}

} // verus!
