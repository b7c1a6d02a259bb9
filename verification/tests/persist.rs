use task_manager::persist::{
    format_line, load, load_lines, parse_line, push_line, save, Line, LoadError,
};
use task_manager::store::TaskStore;
use task_manager::task::Task;

fn task(id: i32, title: &str, description: &str, completed: bool) -> Task {
    Task { id, title: String::from(title), description: String::from(description), completed }
}

fn record(line: &str) -> Task {
    match parse_line(line) {
        Line::Record(task) => task,
        other => panic!("no task in {:?}: {:?}", line, other),
    }
}

#[test]
fn a_line_holds_the_four_fields() {
    assert_eq!(format_line(&task(1, "Buy milk", "2%", false)), "1,Buy milk,2%,false");
    assert_eq!(format_line(&task(2, "Pay bills", "", true)), "2,Pay bills,,true");
    assert_eq!(format_line(&task(-30, "", "", false)), "-30,,,false");
    assert_eq!(format_line(&task(i32::MIN, "a b", " c ", true)), "-2147483648,a b, c ,true");
}

#[test]
fn a_line_is_what_the_format_string_gives() {
    for t in [task(0, "x", "y", true), task(77, "a,b", "c\nd", false), task(-1, "", "", false)] {
        let expected = format!("{},{},{},{}", t.id, t.title, t.description, t.completed);
        assert_eq!(format_line(&t), expected);
    }
}

#[test]
fn push_line_writes_behind_what_is_there() {
    let mut out = String::from("> ");
    push_line(&mut out, &task(3, "t", "d", true));
    assert_eq!(out, "> 3,t,d,true");
}

#[test]
fn save_writes_one_line_for_each_task() {
    let tasks = vec![task(1, "Buy milk", "2%", false), task(2, "Pay bills", "", true)];
    assert_eq!(save(&tasks), "1,Buy milk,2%,false\n2,Pay bills,,true\n");
}

#[test]
fn save_of_no_task_is_empty() {
    assert_eq!(save(&Vec::new()), "");
}

#[test]
fn parse_line_reads_a_task() {
    assert_eq!(record("1,Buy milk,2%,false"), task(1, "Buy milk", "2%", false));
    assert_eq!(record("2,Pay bills,,true"), task(2, "Pay bills", "", true));
    assert_eq!(record("-7,,,true"), task(-7, "", "", true));
    assert_eq!(record("+7, a , b ,false"), task(7, " a ", " b ", false));
}

#[test]
fn parse_line_takes_anything_but_true_for_false() {
    assert!(record("1,a,b,true").completed);
    assert!(!record("1,a,b,false").completed);
    assert!(!record("1,a,b,").completed);
    assert!(!record("1,a,b,True").completed);
    assert!(!record("1,a,b,TRUE").completed);
    assert!(!record("1,a,b, true").completed);
    assert!(!record("1,a,b,true ").completed);
    assert!(!record("1,a,b,yes").completed);
    assert!(!record("1,a,b,1").completed);
}

#[test]
fn parse_line_passes_over_other_field_counts() {
    for line in ["", "1", "1,a", "1,a,b", "1,a,b,true,extra", "1,a,b,c,d,e", ",,", ",,,,", "x"] {
        assert!(matches!(parse_line(line), Line::Skipped), "line {:?}", line);
    }
}

#[test]
fn parse_line_reports_a_bad_id() {
    for line in ["x,a,b,true", ",a,b,true", " 1,a,b,true", "1 ,a,b,false", "1.5,a,b,false",
        "2147483648,a,b,false", ",,,", "--1,,,"]
    {
        assert!(matches!(parse_line(line), Line::BadId), "line {:?}", line);
    }
}

#[test]
fn load_reads_the_tasks_in_order() {
    let tasks = load("3,c,z,true\n1,a,x,false\n2,b,y,false\n").unwrap();
    assert_eq!(tasks, vec![task(3, "c", "z", true), task(1, "a", "x", false), task(2, "b", "y", false)]);
}

#[test]
fn load_of_an_empty_text_is_empty() {
    assert_eq!(load(""), Ok(Vec::new()));
    assert_eq!(load("\n\n"), Ok(Vec::new()));
}

#[test]
fn load_reads_a_last_line_without_line_feed() {
    assert_eq!(load("1,a,b,true"), Ok(vec![task(1, "a", "b", true)]));
    assert_eq!(load("1,a,b,true\n2,c,d,true"), Ok(vec![task(1, "a", "b", true), task(2, "c", "d", true)]));
}

#[test]
fn load_reads_lines_that_end_in_carriage_return_and_line_feed() {
    assert_eq!(load("1,a,b,true\r\n2,c,d,false\r\n"), Ok(vec![task(1, "a", "b", true), task(2, "c", "d", false)]));
}

#[test]
fn load_passes_over_malformed_lines() {
    let text = "1,a,b,false\nnot a task\n\n2,too,many,commas,false\n3,c,d,true\n4,few\n";
    assert_eq!(load(text), Ok(vec![task(1, "a", "b", false), task(3, "c", "d", true)]));
}

#[test]
fn load_stops_at_the_first_bad_id() {
    assert_eq!(load("1,a,b,false\nx,c,d,true\n3,e,f,true\n"), Err(LoadError { line: 1 }));
    assert_eq!(load("x,c,d,true\n"), Err(LoadError { line: 0 }));
    assert_eq!(load("skipped\n\n1,a,b,false\n,c,d,true\ny,e,f,true\n"), Err(LoadError { line: 3 }));
    assert_eq!(load("1,a,b,false\n99999999999,c,d,true"), Err(LoadError { line: 1 }));
}

#[test]
fn load_keeps_lines_that_repeat_an_id() {
    assert_eq!(load("1,a,b,false\n1,c,d,true\n"), Ok(vec![task(1, "a", "b", false), task(1, "c", "d", true)]));
}

#[test]
fn load_lines_reads_each_line() {
    let lines = vec![
        String::from("1,a,b,false"),
        String::from("skip me"),
        String::from("2,c,d,true"),
    ];
    assert_eq!(load_lines(&lines), Ok(vec![task(1, "a", "b", false), task(2, "c", "d", true)]));
    assert_eq!(load_lines(&Vec::new()), Ok(Vec::new()));
}

#[test]
fn load_lines_takes_each_string_as_one_line() {
    let lines = vec![String::from("1,a\nb,c,false"), String::from("2,d\r,e,true")];
    assert_eq!(load_lines(&lines), Ok(vec![task(1, "a\nb", "c", false), task(2, "d\r", "e", true)]));
}

#[test]
fn load_lines_stops_at_the_first_bad_id() {
    let lines = vec![
        String::from("1,a,b,false"),
        String::from("2,c,d,true"),
        String::from("two,c,d,true"),
        String::from("three,c,d,true"),
    ];
    assert_eq!(load_lines(&lines), Err(LoadError { line: 2 }));
}

#[test]
fn what_is_saved_loads_again() {
    let tasks = vec![
        task(1, "Buy milk", "2%", false),
        task(-2, "", "", true),
        task(i32::MAX, "  spaces  ", "tab\there", false),
        task(i32::MIN, "\u{e9}t\u{e9}", "\r", true),
        task(0, "true", "false", true),
    ];
    assert_eq!(load(&save(&tasks)), Ok(tasks));
}

#[test]
fn add_save_reload() {
    let mut store = TaskStore::new();
    assert_eq!(store.add("1", "Buy milk", "2%"), Ok(()));
    assert_eq!(store.add("2", "Pay bills", ""), Ok(()));
    let text = store.to_text();
    assert_eq!(text, "1,Buy milk,2%,false\n2,Pay bills,,false\n");
    let reloaded = TaskStore::from_text(&text).unwrap();
    let tasks = reloaded.list();
    assert_eq!(tasks.len(), 2);
    assert_eq!(tasks[0].id, 1);
    assert_eq!(tasks[1].id, 2);
    assert!(!tasks[0].completed);
    assert!(!tasks[1].completed);
    assert_eq!(tasks, store.list());
}

#[test]
fn a_store_with_completed_tasks_loads_again() {
    let mut store = TaskStore::new();
    for id in [4, 2, 9, -1] {
        assert_eq!(store.insert(id, format!("task {}", id), String::from("text")), Ok(()));
    }
    store.toggle_completed(2);
    store.toggle_completed(-1);
    let reloaded = TaskStore::from_text(&store.to_text()).unwrap();
    assert_eq!(reloaded.list(), store.list());
    assert_eq!(reloaded.to_text(), store.to_text());
}

#[test]
fn a_comma_in_a_field_does_not_load_again() {
    let tasks = vec![task(1, "milk, eggs", "", false), task(2, "fine", "", false)];
    let text = save(&tasks);
    assert_eq!(text, "1,milk, eggs,,false\n2,fine,,false\n");
    assert_eq!(load(&text), Ok(vec![task(2, "fine", "", false)]));
}

#[test]
fn a_line_feed_in_a_field_does_not_load_again() {
    let tasks = vec![task(1, "two\nlines", "", false)];
    assert_eq!(load(&save(&tasks)), Ok(Vec::new()));
}

#[test]
fn a_store_from_text_keeps_the_first_of_each_id() {
    let store = TaskStore::from_text("1,a,b,false\n2,c,d,true\n1,e,f,true\n").unwrap();
    assert_eq!(store.list(), vec![task(1, "a", "b", false), task(2, "c", "d", true)]);
}

#[test]
fn a_store_from_text_reports_a_bad_id() {
    assert_eq!(TaskStore::from_text("1,a,b,false\nid,c,d,true\n").err(), Some(LoadError { line: 1 }));
    let lines = vec![String::from("id,c,d,true")];
    assert_eq!(TaskStore::from_lines(&lines).err(), Some(LoadError { line: 0 }));
}

#[test]
fn a_store_from_lines_holds_their_tasks() {
    let lines = vec![String::from("5,a,b,true"), String::from(""), String::from("6,c,d,false")];
    let store = TaskStore::from_lines(&lines).unwrap();
    assert_eq!(store.list(), vec![task(5, "a", "b", true), task(6, "c", "d", false)]);
}

#[test]
fn a_store_from_no_text_is_empty() {
    assert!(TaskStore::from_text("").unwrap().is_empty());
    assert_eq!(TaskStore::new().to_text(), "");
}
