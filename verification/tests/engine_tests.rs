use taskmgr::engine::add_task;
use taskmgr::engine::find_by_priority;
use taskmgr::engine::find_by_project;
use taskmgr::engine::find_by_status;
use taskmgr::engine::list_tasks;
use taskmgr::engine::remove_task;
use taskmgr::engine::search_tasks;
use taskmgr::engine::update_task;
use taskmgr::store::save_tasks;
use taskmgr::task::Task;
use taskmgr::StoreError;

fn task(title: &str, description: &str, priority: u8, status: &str, project: &str) -> Task {
    Task::new(
        title.to_string(),
        description.to_string(),
        priority,
        status.to_string(),
        project.to_string(),
    )
}

fn two_tasks() -> Vec<Task> {
    vec![
        task("Task 1", "Description 1", 1, "Todo", "Project"),
        task("Task 2", "Description 2", 2, "In Progress", "Project"),
    ]
}

#[test]
fn test_update_task() {
    let mut tasks = two_tasks();

    update_task(&mut tasks, "Task 1", Some("Updated Description"), None, None, None).unwrap();

    let updated_task = tasks.iter().find(|t| t.title == "Task 1").unwrap();
    assert_eq!(updated_task.description, "Updated Description");
}

#[test]
fn test_add_task() {
    let mut tasks = vec![task("Task 1", "Description 1", 1, "Todo", "Project")];

    add_task(&mut tasks, task("New Task", "New Description", 3, "In Progress", "Project"));

    let added_task = tasks.iter().find(|t| t.title == "New Task").unwrap();
    assert_eq!(added_task.description, "New Description");
    assert_eq!(added_task.priority, 3);
    assert_eq!(added_task.status, "In Progress");
    assert_eq!(added_task.project, "Project");
}

#[test]
fn test_remove_task() {
    let mut tasks = two_tasks();

    remove_task(&mut tasks, "Task 1");

    assert!(!tasks.iter().any(|t| t.title == "Task 1"));
}

#[test]
fn remove_keeps_only_the_other_title() {
    let mut tasks = two_tasks();
    remove_task(&mut tasks, "Task 1");
    assert_eq!(tasks.len(), 1);
    assert_eq!(tasks[0].title, "Task 2");
}

#[test]
fn remove_of_absent_title_is_a_no_op() {
    let mut tasks = two_tasks();
    let before = save_tasks(&tasks);
    remove_task(&mut tasks, "No Such Task");
    assert_eq!(tasks, two_tasks());
    assert_eq!(save_tasks(&tasks), before);
}

#[test]
fn remove_takes_every_task_with_the_title() {
    let mut tasks = vec![
        task("Dup", "first", 1, "Todo", "P"),
        task("Other", "second", 2, "Todo", "P"),
        task("Dup", "third", 3, "Todo", "P"),
    ];
    remove_task(&mut tasks, "Dup");
    assert_eq!(tasks.len(), 1);
    assert_eq!(tasks[0].title, "Other");
}

#[test]
fn list_preserves_order() {
    let tasks = two_tasks();
    let listed = list_tasks(&tasks);
    assert_eq!(listed, tasks);
    assert_eq!(list_tasks(&tasks), listed);
}

#[test]
fn find_by_project_is_exact_and_case_sensitive() {
    let tasks = vec![
        task("A", "d", 1, "Todo", "Home"),
        task("B", "d", 2, "Todo", "home"),
        task("C", "d", 3, "Todo", "Home"),
    ];
    let found = find_by_project(&tasks, "Home");
    assert_eq!(found.len(), 2);
    assert_eq!(found[0].title, "A");
    assert_eq!(found[1].title, "C");
    assert_eq!(find_by_project(&tasks, "Home"), found);
}

#[test]
fn find_by_status_is_exact_and_case_sensitive() {
    let tasks = two_tasks();
    let found = find_by_status(&tasks, "Todo");
    assert_eq!(found.len(), 1);
    assert_eq!(found[0].title, "Task 1");
    assert!(find_by_status(&tasks, "todo").is_empty());
}

#[test]
fn find_by_priority_matches_exactly() {
    let tasks = vec![
        task("A", "d", 3, "Todo", "P"),
        task("B", "d", 1, "Todo", "P"),
        task("C", "d", 3, "Todo", "P"),
    ];
    let found = find_by_priority(&tasks, 3);
    assert_eq!(found.len(), 2);
    assert_eq!(found[0].title, "A");
    assert_eq!(found[1].title, "C");
    assert!(find_by_priority(&tasks, 2).is_empty());
}

#[test]
fn add_then_find_by_project_returns_the_new_task() {
    let mut tasks = two_tasks();
    let new_task = task("Fresh", "just added", 5, "Todo", "Garden");
    add_task(&mut tasks, new_task.clone());
    let found = find_by_project(&tasks, "Garden");
    assert!(found.contains(&new_task));
}

#[test]
fn search_folds_case_on_both_sides() {
    let tasks = vec![task("Task 1", "WrItE ScRiPt", 1, "Todo", "P")];
    let found = search_tasks(&tasks, "sCrI");
    assert_eq!(found.len(), 1);
    assert_eq!(found[0].title, "Task 1");
}

#[test]
fn search_matches_title_or_description() {
    let tasks = vec![
        task("Plant the garden", "outdoors", 1, "Todo", "Home"),
        task("Taxes", "paperwork about the garden shed", 2, "Todo", "Home"),
        task("Dishes", "kitchen", 3, "Todo", "Home"),
    ];
    let found = search_tasks(&tasks, "GARDEN");
    assert_eq!(found.len(), 2);
    assert_eq!(found[0].title, "Plant the garden");
    assert_eq!(found[1].title, "Taxes");
    assert_eq!(search_tasks(&tasks, "GARDEN"), found);
}

#[test]
fn update_changes_only_the_supplied_field() {
    let mut tasks = two_tasks();
    update_task(&mut tasks, "Task 1", Some("Updated Description"), None, None, None).unwrap();
    assert_eq!(tasks[0].description, "Updated Description");
    assert_eq!(tasks[0].priority, 1);
    assert_eq!(tasks[0].status, "Todo");
    assert_eq!(tasks[0].project, "Project");
    assert_eq!(tasks[1], two_tasks()[1]);
}

#[test]
fn update_of_first_matching_title_only() {
    let mut tasks = vec![
        task("Dup", "first", 1, "Todo", "P"),
        task("Dup", "second", 2, "Todo", "P"),
    ];
    update_task(&mut tasks, "Dup", Some("changed"), None, None, None).unwrap();
    assert_eq!(tasks[0].description, "changed");
    assert_eq!(tasks[1].description, "second");
}

#[test]
fn update_of_missing_title_is_not_found() {
    let mut tasks = two_tasks();
    let r = update_task(&mut tasks, "Ghost", Some("x"), None, None, None);
    assert_eq!(r.unwrap_err(), StoreError::NotFoundError);
    assert_eq!(tasks, two_tasks());
}

#[test]
fn update_with_bad_priority_is_a_validation_error() {
    let mut tasks = two_tasks();
    let r = update_task(&mut tasks, "Task 1", Some("x"), Some("abc"), None, None);
    assert_eq!(r.unwrap_err(), StoreError::ValidationError);
    assert_eq!(tasks, two_tasks());

    let r = update_task(&mut tasks, "Task 1", None, Some("256"), None, None);
    assert_eq!(r.unwrap_err(), StoreError::ValidationError);
    assert_eq!(tasks, two_tasks());

    let r = update_task(&mut tasks, "Task 1", None, Some(""), None, None);
    assert_eq!(r.unwrap_err(), StoreError::ValidationError);
}

#[test]
fn update_accepts_the_priority_forms_of_parse() {
    let mut tasks = two_tasks();
    update_task(&mut tasks, "Task 1", None, Some("255"), None, None).unwrap();
    assert_eq!(tasks[0].priority, 255);
    update_task(&mut tasks, "Task 1", None, Some("+007"), None, None).unwrap();
    assert_eq!(tasks[0].priority, 7);
}

#[test]
fn update_of_every_field_at_once() {
    let mut tasks = two_tasks();
    update_task(&mut tasks, "Task 2", Some("d"), Some("9"), Some("Done"), Some("Attic")).unwrap();
    assert_eq!(tasks[1], task("Task 2", "d", 9, "Done", "Attic"));
}
