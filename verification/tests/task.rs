use task_manager::task::Task;

#[test]
fn a_new_task_is_not_completed() {
    let task = Task::new(4, String::from("Title"), String::from("Text"));
    assert_eq!(task.id, 4);
    assert_eq!(task.title, "Title");
    assert_eq!(task.description, "Text");
    assert!(!task.completed);
}

#[test]
fn a_copy_equals_its_task() {
    let task = Task { id: -3, title: String::from("a"), description: String::new(), completed: true };
    let copy = task.clone();
    assert_eq!(copy, task);
    assert_eq!(copy.id, -3);
    assert_eq!(copy.title, "a");
    assert_eq!(copy.description, "");
    assert!(copy.completed);
}

#[test]
fn tasks_differ_where_a_field_differs() {
    let task = Task::new(1, String::from("a"), String::from("b"));
    assert_ne!(task, Task::new(2, String::from("a"), String::from("b")));
    assert_ne!(task, Task::new(1, String::from("x"), String::from("b")));
    assert_ne!(task, Task::new(1, String::from("a"), String::from("x")));
    let mut done = task.clone();
    done.completed = true;
    assert_ne!(task, done);
}

#[test]
fn label_of_a_pending_task() {
    let task = Task::new(1, String::from("Buy milk"), String::from("2%"));
    assert_eq!(task.label(), "1: Buy milk - 2% [Pending]");
}

#[test]
fn label_of_a_completed_task() {
    let task = Task {
        id: -12,
        title: String::from("Pay bills"),
        description: String::new(),
        completed: true,
    };
    assert_eq!(task.label(), "-12: Pay bills -  [Completed]");
}

#[test]
fn label_is_what_the_format_string_gives() {
    let task = Task::new(2147483647, String::from("a, b"), String::from("[c]"));
    let expected = format!(
        "{}: {} - {} [{}]",
        task.id,
        task.title,
        task.description,
        if task.completed { "Completed" } else { "Pending" }
    );
    assert_eq!(task.label(), expected);
}
