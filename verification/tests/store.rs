use todo_list::models::{
    add_multiple_task, add_task, clear_completed_tasks, complete_multiple_task, complete_task,
    delete_multiple_task, delete_task, edit_priority, edit_task, sort, Priority, SortOpt, Task,
};

fn task(id: u32, description: &str, completed: bool, priority: Priority) -> Task {
    Task { id, description: description.to_string(), completed, priority }
}

fn ids(todos: &Vec<Task>) -> Vec<u32> {
    todos.iter().map(|t| t.id).collect()
}

#[test]
fn add_two_tasks_assigns_ids_one_and_two() {
    let mut todos: Vec<Task> = Vec::new();
    add_multiple_task(&mut todos, &vec!["buy milk".to_string(), "walk dog".to_string()]);
    assert_eq!(todos.len(), 2);
    assert_eq!(todos[0].id, 1);
    assert_eq!(todos[1].id, 2);
    assert_eq!(todos[0].description, "buy milk");
    assert_eq!(todos[1].description, "walk dog");
    assert!(!todos[0].completed);
    assert!(!todos[1].completed);
    assert_eq!(todos[0].priority, Priority::Low);
}

#[test]
fn add_trims_surrounding_whitespace() {
    let mut todos: Vec<Task> = Vec::new();
    let id = add_task(&mut todos, "  buy milk \t\n");
    assert_eq!(id, 1);
    assert_eq!(todos[0].description, "buy milk");
}

#[test]
fn add_fills_first_free_id_from_length() {
    let mut todos = vec![
        task(1, "a", false, Priority::Low),
        task(2, "b", false, Priority::Low),
        task(3, "c", false, Priority::Low),
    ];
    // length is 3 and id 3 is taken, so the scan lands on 4
    let id = add_task(&mut todos, "d");
    assert_eq!(id, 4);
    // after deleting id 2, length is 3 again and 3 and 4 are taken
    delete_task(&mut todos, 2);
    let id = add_task(&mut todos, "e");
    assert_eq!(id, 5);
}

#[test]
fn ids_stay_unique_over_many_adds() {
    let mut todos: Vec<Task> = Vec::new();
    for k in 0..20 {
        add_task(&mut todos, &format!("task {}", k));
    }
    delete_multiple_task(&mut todos, &vec![3, 7, 11]);
    for k in 0..5 {
        add_task(&mut todos, &format!("more {}", k));
    }
    let mut seen = ids(&todos);
    seen.sort();
    let before = seen.len();
    seen.dedup();
    assert_eq!(seen.len(), before);
}

#[test]
fn complete_toggles_and_reports_found() {
    let mut todos = vec![task(1, "a", false, Priority::Low)];
    assert!(complete_task(&mut todos, 1));
    assert!(todos[0].completed);
    assert!(complete_task(&mut todos, 1));
    assert!(!todos[0].completed);
    assert!(!complete_task(&mut todos, 9));
}

#[test]
fn complete_on_empty_collection_reports_not_found() {
    let mut todos: Vec<Task> = Vec::new();
    let found = complete_multiple_task(&mut todos, &vec![1]);
    assert_eq!(found, vec![false]);
    assert!(todos.is_empty());
}

#[test]
fn complete_multiple_reports_each_id() {
    let mut todos = vec![task(1, "a", false, Priority::Low), task(2, "b", false, Priority::Low)];
    let found = complete_multiple_task(&mut todos, &vec![2, 5, 1]);
    assert_eq!(found, vec![true, false, true]);
    assert!(todos[0].completed);
    assert!(todos[1].completed);
}

#[test]
fn delete_removes_matching_id() {
    let mut todos = vec![
        task(1, "a", false, Priority::Low),
        task(2, "b", false, Priority::Low),
        task(3, "c", false, Priority::Low),
    ];
    delete_task(&mut todos, 2);
    assert_eq!(ids(&todos), vec![1, 3]);
}

#[test]
fn delete_nonexistent_id_leaves_collection_unchanged() {
    let mut todos = vec![task(1, "a", false, Priority::Low), task(2, "b", true, Priority::High)];
    delete_task(&mut todos, 42);
    assert_eq!(ids(&todos), vec![1, 2]);
    assert_eq!(todos[0].description, "a");
    assert_eq!(todos[1].description, "b");
    assert!(todos[1].completed);
    delete_multiple_task(&mut todos, &vec![40, 41]);
    assert_eq!(ids(&todos), vec![1, 2]);
}

#[test]
fn delete_multiple_removes_each_listed_id() {
    let mut todos = vec![
        task(1, "a", false, Priority::Low),
        task(2, "b", false, Priority::Low),
        task(3, "c", false, Priority::Low),
    ];
    delete_multiple_task(&mut todos, &vec![1, 3]);
    assert_eq!(ids(&todos), vec![2]);
}

#[test]
fn edit_replaces_description_of_matching_id() {
    let mut todos = vec![task(1, "old text", false, Priority::Low)];
    assert!(edit_task(&mut todos, &1, "new text".to_string()));
    assert_eq!(todos[0].description, "new text");
    assert!(!edit_task(&mut todos, &2, "nobody".to_string()));
    assert_eq!(todos[0].description, "new text");
}

#[test]
fn edit_priority_replaces_priority_of_matching_id() {
    let mut todos = vec![task(1, "a", false, Priority::Low)];
    assert!(edit_priority(&mut todos, &1, Priority::High));
    assert_eq!(todos[0].priority, Priority::High);
    assert!(!edit_priority(&mut todos, &7, Priority::Medium));
    assert_eq!(todos[0].priority, Priority::High);
}

#[test]
fn clear_removes_completed_tasks_and_counts_them() {
    let mut todos = vec![
        task(1, "a", true, Priority::Low),
        task(2, "b", false, Priority::Low),
        task(3, "c", true, Priority::High),
    ];
    let removed = clear_completed_tasks(&mut todos);
    assert_eq!(removed, 2);
    assert_eq!(ids(&todos), vec![2]);
    let removed = clear_completed_tasks(&mut todos);
    assert_eq!(removed, 0);
    assert_eq!(ids(&todos), vec![2]);
}

#[test]
fn sort_by_priority_groups_high_medium_low_keeping_order() {
    let mut todos = vec![
        task(1, "low one", false, Priority::Low),
        task(2, "high one", false, Priority::High),
        task(3, "med one", false, Priority::Medium),
        task(4, "high two", false, Priority::High),
        task(5, "low two", false, Priority::Low),
        task(6, "med two", false, Priority::Medium),
    ];
    sort(&mut todos, &SortOpt::Priority);
    assert_eq!(ids(&todos), vec![2, 4, 3, 6, 1, 5]);
    assert_eq!(todos[0].description, "high one");
    assert_eq!(todos[1].description, "high two");
}

#[test]
fn sort_by_id_orders_ascending() {
    let mut todos = vec![
        task(5, "e", false, Priority::Low),
        task(1, "a", false, Priority::High),
        task(3, "c", true, Priority::Medium),
    ];
    sort(&mut todos, &SortOpt::Id);
    assert_eq!(ids(&todos), vec![1, 3, 5]);
    assert_eq!(todos[0].description, "a");
    assert!(todos[1].completed);
}
