use taskmgr::store::load_tasks;
use taskmgr::store::save_tasks;
use taskmgr::task::Task;
use taskmgr::StoreError;

fn task(title: &str, description: &str, priority: u8, status: &str, project: &str) -> Task {
    Task::new(
        title.to_string(),
        description.to_string(),
        priority,
        status.to_string(),
        project.to_string(),
    )
}

#[test]
fn test_save_and_load_tasks() {
    let tasks = vec![
        task("Task 1", "Description 1", 1, "Todo", "Project"),
        task("Task 2", "Description 2", 2, "In Progress", "Project"),
    ];

    let stored = save_tasks(&tasks);
    let loaded = load_tasks(&stored).unwrap();

    assert_eq!(tasks, loaded);
}

#[test]
fn round_trip_keeps_awkward_characters() {
    let tasks = vec![
        task("say \"hi\"", "a\\b and a\ttab and a\nnewline", 0, "Todo", "p"),
        task("unicode \u{e9}\u{4e16}", "control \u{1} end", 255, "Done", "\u{fc}ber"),
    ];

    let stored = save_tasks(&tasks);
    let loaded = load_tasks(&stored).unwrap();

    assert_eq!(tasks, loaded);
}

#[test]
fn round_trip_of_empty_collection() {
    let tasks: Vec<Task> = Vec::new();
    let stored = save_tasks(&tasks);
    assert_eq!(stored, "[]");
    assert_eq!(load_tasks(&stored).unwrap(), tasks);
}

#[test]
fn empty_content_means_no_tasks() {
    assert_eq!(load_tasks("").unwrap(), Vec::new());
}

#[test]
fn stored_text_is_pretty_printed() {
    let tasks = vec![task("T", "D", 3, "Todo", "P")];
    let stored = save_tasks(&tasks);
    let expected = "[\n  {\n    \"title\": \"T\",\n    \"description\": \"D\",\n    \"priority\": 3,\n    \"status\": \"Todo\",\n    \"project\": \"P\"\n  }\n]";
    assert_eq!(stored, expected);
}

#[test]
fn malformed_content_is_a_decode_error() {
    assert_eq!(load_tasks("not an array").unwrap_err(), StoreError::DecodeError);
    assert_eq!(load_tasks("[").unwrap_err(), StoreError::DecodeError);
    let tasks = vec![task("T", "D", 3, "Todo", "P")];
    let stored = save_tasks(&tasks);
    let truncated = &stored[..stored.len() - 1];
    assert_eq!(load_tasks(truncated).unwrap_err(), StoreError::DecodeError);
}

#[test]
fn priority_above_eight_bits_is_a_decode_error() {
    let tasks = vec![task("T", "D", 255, "Todo", "P")];
    let stored = save_tasks(&tasks).replace("255", "256");
    assert_eq!(load_tasks(&stored).unwrap_err(), StoreError::DecodeError);
}
