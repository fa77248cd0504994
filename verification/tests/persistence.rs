use todo_list::codec::{parse_tasks, serialize_tasks};
use todo_list::models::{Priority, Task};
use todo_list::storage::{load_todos, load_todos_backup};

fn task(id: u32, description: &str, completed: bool, priority: Priority) -> Task {
    Task { id, description: description.to_string(), completed, priority }
}

fn same_tasks(a: &Vec<Task>, b: &Vec<Task>) -> bool {
    a.len() == b.len()
        && a.iter().zip(b.iter()).all(|(x, y)| {
            x.id == y.id
                && x.description == y.description
                && x.completed == y.completed
                && x.priority == y.priority
        })
}

#[test]
fn serialize_empty_store_is_empty_array() {
    let todos: Vec<Task> = Vec::new();
    assert_eq!(serialize_tasks(&todos), "[]");
}

#[test]
fn serialize_writes_exact_record_text() {
    let todos = vec![task(1, "buy milk", false, Priority::Low)];
    assert_eq!(
        serialize_tasks(&todos),
        "[{\"id\":1,\"description\":\"buy milk\",\"completed\":false,\"priority\":\"Low\"}]"
    );
}

#[test]
fn serialize_separates_records_with_commas() {
    let todos = vec![
        task(12, "a", true, Priority::High),
        task(340, "b", false, Priority::Medium),
    ];
    assert_eq!(
        serialize_tasks(&todos),
        "[{\"id\":12,\"description\":\"a\",\"completed\":true,\"priority\":\"High\"},{\"id\":340,\"description\":\"b\",\"completed\":false,\"priority\":\"Medium\"}]"
    );
}

#[test]
fn serialize_escapes_quotes_backslashes_and_controls() {
    let todos = vec![task(7, "say \"hi\" \\ now\n", false, Priority::Low)];
    assert_eq!(
        serialize_tasks(&todos),
        "[{\"id\":7,\"description\":\"say \\\"hi\\\" \\\\ now\\u000a\",\"completed\":false,\"priority\":\"Low\"}]"
    );
}

#[test]
fn parse_empty_array_is_empty_store() {
    let parsed = parse_tasks("[]").expect("empty array is a valid store");
    assert!(parsed.is_empty());
}

#[test]
fn save_then_load_round_trips() {
    let todos = vec![
        task(1, "buy milk", false, Priority::Low),
        task(2, "say \"hi\" to \\everyone\t", true, Priority::High),
        task(4000000000, "big id", false, Priority::Medium),
    ];
    let text = serialize_tasks(&todos);
    let parsed = parse_tasks(&text).expect("written text must parse");
    assert!(same_tasks(&todos, &parsed));
}

#[test]
fn parse_rejects_corrupt_text() {
    // each of these breaks the stored form at a different point
    assert!(parse_tasks("").is_none());
    assert!(parse_tasks("not json").is_none());
    assert!(parse_tasks("[").is_none());
    assert!(parse_tasks("[]]").is_none());
    assert!(parse_tasks("[{\"id\":,\"description\":\"a\",\"completed\":false,\"priority\":\"Low\"}]").is_none());
    assert!(parse_tasks("[{\"id\":1,\"description\":\"a\",\"completed\":false,\"priority\":\"Low\"}").is_none());
    assert!(parse_tasks("[{\"id\":1,\"description\":\"a\",\"completed\":maybe,\"priority\":\"Low\"}]").is_none());
    assert!(parse_tasks("[{\"id\":1,\"description\":\"a\",\"completed\":false,\"priority\":\"Urgent\"}]").is_none());
    assert!(parse_tasks("[{\"id\":1,\"description\":\"a\",\"completed\":false,\"priority\":\"Low\"}]trailing").is_none());
    // the id must fit an unsigned 32-bit number
    assert!(parse_tasks("[{\"id\":4294967296,\"description\":\"a\",\"completed\":false,\"priority\":\"Low\"}]").is_none());
    // a lone backslash at the end of a description is not a valid escape
    assert!(parse_tasks("[{\"id\":1,\"description\":\"a\\\",\"completed\":false,\"priority\":\"Low\"}]").is_none());
}

#[test]
fn load_uses_primary_when_it_is_valid() {
    let todos = vec![task(1, "from primary", false, Priority::Low)];
    let primary = serialize_tasks(&todos);
    let backup = "[{\"id\":9,\"description\":\"from backup\",\"completed\":false,\"priority\":\"Low\"}]";
    let loaded = load_todos(Some(&primary), Some(backup));
    assert!(same_tasks(&todos, &loaded));
}

#[test]
fn load_falls_back_to_backup_when_primary_is_corrupt() {
    let expected = vec![task(9, "from backup", true, Priority::High)];
    let backup = serialize_tasks(&expected);
    let loaded = load_todos(Some("{corrupt"), Some(&backup));
    assert!(same_tasks(&expected, &loaded));
}

#[test]
fn load_starts_fresh_when_primary_is_missing() {
    // a missing primary is a first run: the backup is not even consulted
    let backup = "[{\"id\":9,\"description\":\"ignored\",\"completed\":false,\"priority\":\"Low\"}]";
    let loaded = load_todos(None, Some(backup));
    assert!(loaded.is_empty());
}

#[test]
fn load_returns_empty_when_both_are_missing_or_corrupt() {
    assert!(load_todos(None, None).is_empty());
    assert!(load_todos(Some("junk"), None).is_empty());
    assert!(load_todos(Some("junk"), Some("more junk")).is_empty());
}

#[test]
fn load_backup_parses_or_degrades_to_empty() {
    let expected = vec![task(3, "kept", false, Priority::Medium)];
    let text = serialize_tasks(&expected);
    assert!(same_tasks(&expected, &load_todos_backup(Some(&text))));
    assert!(load_todos_backup(Some("broken")).is_empty());
    assert!(load_todos_backup(None).is_empty());
}
