//! Loading a task store from file contents, tolerating corruption of the
//! primary copy: a corrupt primary falls back to the backup copy, and a
//! missing or doubly corrupt state degrades to an empty store. The caller
//! hands in what it read from disk; `None` stands for a file that is missing
//! or unreadable.

use crate::codec::{lemma_write_read_roundtrip, parse_tasks, parse_tasks_spec, ser_tasks};
use crate::models::{views, Task, TaskV};
use vstd::prelude::*;

verus! {

/// The characters of an optional file content.
pub open spec fn content_view(c: Option<&str>) -> Option<Seq<char>> {
    match c {
        Some(s) => Some(s@),
        None => None,
    }
}

/// What loading from the backup text alone yields: its parsed store, or the
/// empty store when the backup is missing or corrupt.
pub open spec fn load_backup_spec(b: Option<Seq<char>>) -> Seq<TaskV> {
    match b {
        None => seq![],
        Some(bc) => match parse_tasks_spec(bc) {
            Some(ts) => ts,
            None => seq![],
        },
    }
}

/// What loading yields: a missing primary is a first run and means a fresh
/// start; a primary that is there but corrupt falls back to the backup; a
/// backup that is missing or corrupt in turn means a fresh start.
pub open spec fn load_spec(p: Option<Seq<char>>, b: Option<Seq<char>>) -> Seq<TaskV> {
    match p {
        None => seq![],
        Some(pc) => match parse_tasks_spec(pc) {
            Some(ts) => ts,
            None => load_backup_spec(b),
        },
    }
}

/// Turns the backup file's contents into a store. Never errors: a missing or
/// corrupt backup yields the empty store.
pub fn load_todos_backup(backup: Option<&str>) -> (r: Vec<Task>)
    ensures
        views(r@) == load_backup_spec(content_view(backup)),
{
    proof {
        assert(views(Seq::<Task>::empty()) =~= Seq::<TaskV>::empty());
    }
    match backup {
        None => Vec::new(),
        Some(content) => match parse_tasks(content) {
            Some(v) => v,
            None => Vec::new(),
        },
    }
}

/// Turns the two files' contents into a store. Never errors: every outcome
/// of missing or corrupt files degrades as `load_spec` says.
pub fn load_todos(primary: Option<&str>, backup: Option<&str>) -> (r: Vec<Task>)
    ensures
        views(r@) == load_spec(content_view(primary), content_view(backup)),
{
    proof {
        assert(views(Seq::<Task>::empty()) =~= Seq::<TaskV>::empty());
    }
    match primary {
        None => Vec::new(),
        Some(content) => match parse_tasks(content) {
            Some(v) => v,
            None => load_todos_backup(backup),
        },
    }
}

/// A store written by `save` and loaded back is the same store, whatever the
/// backup holds: the round trip loses nothing.
pub proof fn lemma_save_load_roundtrip(ts: Seq<TaskV>, b: Option<Seq<char>>)
    ensures
        load_spec(Some(ser_tasks(ts)), b) == ts,
{
    lemma_write_read_roundtrip(ts);
}

/// When the primary text is corrupt and the backup text is a valid store,
/// loading returns the backup's contents.
pub proof fn lemma_load_falls_back_to_backup(p: Seq<char>, b: Seq<char>, ts: Seq<TaskV>)
    requires
        parse_tasks_spec(p) == None::<Seq<TaskV>>,
        parse_tasks_spec(b) == Some(ts),
    ensures
        load_spec(Some(p), Some(b)) == ts,
{
}

/// When both files are missing or corrupt, loading returns the empty store.
pub proof fn lemma_load_degrades_to_empty(p: Option<Seq<char>>, b: Option<Seq<char>>)
    requires
        (match p {
            Some(pc) => parse_tasks_spec(pc) == None::<Seq<TaskV>>,
            None => true,
        }),
        (match b {
            Some(bc) => parse_tasks_spec(bc) == None::<Seq<TaskV>>,
            None => true,
        }),
    ensures
        load_spec(p, b) == Seq::<TaskV>::empty(),
{
}

} // verus!
