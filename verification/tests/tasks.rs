//! The shared task list, with deterministic ids and a fixed clock.

use visible::error::CoreError;
use visible::task::Tasks;

const NOW: &str = "2024-01-01T00:00:00+00:00";

struct Ids {
    next: usize,
}

impl Ids {
    fn new_id(&mut self) -> String {
        self.next += 1;
        format!("task-{}", self.next)
    }
}

fn open_tasks() -> (Tasks, Ids) {
    (Tasks::new(), Ids { next: 0 })
}

#[test]
fn created_tasks_appear_in_the_list_not_done() {
    let (mut tasks, mut ids) = open_tasks();

    let made = tasks.create("Buy paper towels".to_string(), ids.new_id(), NOW.to_string()).unwrap();
    assert_eq!(made.title, "Buy paper towels");
    assert!(!made.done);

    let list = tasks.list();
    assert_eq!(list.len(), 1);
    assert_eq!(list[0].id, made.id);
    assert!(!list[0].done);
}

#[test]
fn create_trims_the_title_and_rejects_a_blank_one() {
    let (mut tasks, mut ids) = open_tasks();

    let made = tasks.create("  Water the plants  ".to_string(), ids.new_id(), NOW.to_string()).unwrap();
    assert_eq!(made.title, "Water the plants");

    let blank = tasks.create("   ".to_string(), ids.new_id(), NOW.to_string());
    assert!(matches!(blank, Err(CoreError::Internal(_))));
    assert_eq!(tasks.list().len(), 1);
}

#[test]
fn set_done_checks_a_task_off_and_back_on() {
    let (mut tasks, mut ids) = open_tasks();
    let made = tasks.create("Fix the faucet".to_string(), ids.new_id(), NOW.to_string()).unwrap();

    tasks.set_done(&made.id, true).unwrap();
    assert!(tasks.list()[0].done);

    tasks.set_done(&made.id, false).unwrap();
    assert!(!tasks.list()[0].done);
}

#[test]
fn open_tasks_sort_before_done_ones() {
    let (mut tasks, mut ids) = open_tasks();
    let first = tasks.create("first".to_string(), ids.new_id(), NOW.to_string()).unwrap();
    let second = tasks.create("second".to_string(), ids.new_id(), NOW.to_string()).unwrap();

    tasks.set_done(&first.id, true).unwrap();

    let list = tasks.list();
    assert_eq!(list.len(), 2);
    assert_eq!(list[0].id, second.id, "open task is first");
    assert!(!list[0].done);
    assert_eq!(list[1].id, first.id, "done task is last");
    assert!(list[1].done);
}

#[test]
fn rename_changes_the_title_and_rejects_a_blank_one() {
    let (mut tasks, mut ids) = open_tasks();
    let made = tasks.create("old".to_string(), ids.new_id(), NOW.to_string()).unwrap();

    tasks.rename(&made.id, "  new  ".to_string()).unwrap();
    assert_eq!(tasks.list()[0].title, "new");

    let blank = tasks.rename(&made.id, "  ".to_string());
    assert!(matches!(blank, Err(CoreError::Internal(_))));
}

#[test]
fn delete_removes_a_task_and_a_missing_one_is_not_an_error() {
    let (mut tasks, mut ids) = open_tasks();
    let made = tasks.create("temporary".to_string(), ids.new_id(), NOW.to_string()).unwrap();

    assert!(tasks.delete(&made.id));
    assert!(tasks.list().is_empty());

    assert!(!tasks.delete(&made.id));
}

#[test]
fn set_done_and_rename_are_not_found_for_a_missing_task() {
    let (mut tasks, _ids) = open_tasks();
    assert!(matches!(tasks.set_done("ghost", true), Err(CoreError::NotFound(_))));
    assert!(matches!(tasks.rename("ghost", "x".to_string()), Err(CoreError::NotFound(_))));
}

#[test]
fn most_recent_open_task_comes_first() {
    let (mut tasks, mut ids) = open_tasks();
    let older = tasks.create("older".to_string(), ids.new_id(), "2024-01-01T00:00:00+00:00".to_string()).unwrap();
    let newer = tasks.create("newer".to_string(), ids.new_id(), "2024-02-01T00:00:00+00:00".to_string()).unwrap();
    let done = tasks.create("done".to_string(), ids.new_id(), "2024-03-01T00:00:00+00:00".to_string()).unwrap();
    tasks.set_done(&done.id, true).unwrap();

    let order: Vec<String> = tasks.list().into_iter().map(|t| t.id).collect();
    assert_eq!(order, vec![newer.id, older.id, done.id]);
}

#[test]
fn creating_a_task_with_a_taken_id_is_a_database_error() {
    let (mut tasks, _ids) = open_tasks();
    tasks.create("one".to_string(), "same".to_string(), NOW.to_string()).unwrap();
    let err = tasks.create("two".to_string(), "same".to_string(), NOW.to_string()).unwrap_err();
    assert!(matches!(err, CoreError::Database(_)), "{err:?}");
    assert_eq!(tasks.list().len(), 1);
}

#[test]
fn task_error_messages_name_the_task() {
    let (mut tasks, _ids) = open_tasks();
    assert_eq!(tasks.set_done("ghost", true), Err(CoreError::NotFound("no task ghost to set done".to_string())));
    assert_eq!(tasks.rename("ghost", "x".to_string()), Err(CoreError::NotFound("no task ghost to rename".to_string())));
    assert_eq!(
        tasks.rename("ghost", " ".to_string()),
        Err(CoreError::Internal("cannot rename a task to a blank title".to_string()))
    );
}
