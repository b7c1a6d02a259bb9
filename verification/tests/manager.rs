use task_manager::manager::{Action, Event, TaskManager};
use task_manager::store::TaskStore;
use task_manager::task::Task;

fn filled(id: &str, title: &str, description: &str) -> TaskManager {
    let mut manager = TaskManager::new(TaskStore::new());
    manager.task_id = String::from(id);
    manager.task_title = String::from(title);
    manager.task_description = String::from(description);
    manager
}

fn with_three() -> TaskManager {
    let mut store = TaskStore::new();
    for id in [1, 2, 3] {
        assert_eq!(store.insert(id, format!("t{}", id), format!("d{}", id)), Ok(()));
    }
    TaskManager::new(store)
}

#[test]
fn a_new_manager_has_empty_fields() {
    let manager = with_three();
    assert_eq!(manager.task_id, "");
    assert_eq!(manager.task_title, "");
    assert_eq!(manager.task_description, "");
    assert_eq!(manager.store().len(), 3);
}

#[test]
fn submit_adds_the_task_and_empties_the_fields() {
    let mut manager = filled(" 7 ", "Title", " Text ");
    assert_eq!(manager.submit(), Action::Save);
    assert_eq!(manager.store().list(), vec![Task::new(7, String::from("Title"), String::from(" Text "))]);
    assert_eq!(manager.task_id, "");
    assert_eq!(manager.task_title, "");
    assert_eq!(manager.task_description, "");
}

#[test]
fn submit_with_a_bad_id_keeps_everything() {
    let mut manager = filled("seven", "Title", "Text");
    assert_eq!(manager.submit(), Action::ReportInvalidId);
    assert!(manager.store().is_empty());
    assert_eq!(manager.task_id, "seven");
    assert_eq!(manager.task_title, "Title");
    assert_eq!(manager.task_description, "Text");
}

#[test]
fn submit_with_empty_fields_reports_the_id() {
    let mut manager = TaskManager::new(TaskStore::new());
    assert_eq!(manager.submit(), Action::ReportInvalidId);
    assert!(manager.store().is_empty());
}

#[test]
fn submit_with_a_taken_id_keeps_everything() {
    let mut manager = with_three();
    let before = manager.store().list();
    manager.task_id = String::from("2");
    manager.task_title = String::from("Title");
    manager.task_description = String::from("Text");
    assert_eq!(manager.submit(), Action::ReportDuplicateId);
    assert_eq!(manager.store().list(), before);
    assert_eq!(manager.task_id, "2");
    assert_eq!(manager.task_title, "Title");
    assert_eq!(manager.task_description, "Text");
}

#[test]
fn submit_twice_adds_two_tasks() {
    let mut manager = filled("1", "A", "");
    assert_eq!(manager.handle(Event::AddClicked), Action::Save);
    manager.task_id = String::from("2");
    manager.task_title = String::from("B");
    assert_eq!(manager.handle(Event::AddClicked), Action::Save);
    manager.task_id = String::from("1");
    assert_eq!(manager.handle(Event::AddClicked), Action::ReportDuplicateId);
    let tasks = manager.store().list();
    assert_eq!(tasks, vec![Task::new(1, String::from("A"), String::new()), Task::new(2, String::from("B"), String::new())]);
}

#[test]
fn toggle_flips_and_asks_for_nothing() {
    let mut manager = with_three();
    manager.task_title = String::from("typing");
    assert_eq!(manager.toggle(2), Action::Nothing);
    let tasks = manager.store().list();
    assert!(!tasks[0].completed);
    assert!(tasks[1].completed);
    assert!(!tasks[2].completed);
    assert_eq!(manager.task_title, "typing");
    assert_eq!(manager.handle(Event::Toggled(2)), Action::Nothing);
    assert!(!manager.store().list()[1].completed);
    assert_eq!(manager.handle(Event::Toggled(9)), Action::Nothing);
    assert_eq!(manager.store().len(), 3);
}

#[test]
fn delete_removes_and_asks_for_a_save() {
    let mut manager = with_three();
    manager.task_id = String::from("typing");
    assert_eq!(manager.delete(&vec![1, 3]), Action::Save);
    let tasks = manager.store().list();
    assert_eq!(tasks.len(), 1);
    assert_eq!(tasks[0].id, 2);
    assert_eq!(manager.task_id, "typing");
}

#[test]
fn delete_of_unknown_ids_still_asks_for_a_save() {
    let mut manager = with_three();
    assert_eq!(manager.handle(Event::DeleteClicked(vec![8])), Action::Save);
    assert_eq!(manager.store().len(), 3);
}

#[test]
fn delete_of_nothing_asks_for_nothing() {
    let mut manager = with_three();
    assert_eq!(manager.handle(Event::DeleteClicked(Vec::new())), Action::Nothing);
    assert_eq!(manager.store().len(), 3);
}
