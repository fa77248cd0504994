//! The in-memory task store: task records and the operations that mutate an
//! ordered collection of them.

use vstd::multiset::Multiset;
use vstd::prelude::*;

verus! {

/// Urgency of a task. Sorting by priority groups `High` first, then
/// `Medium`, then `Low`.
#[derive(Clone, Copy, Debug, PartialEq, Eq, Structural)]
pub enum Priority {
    High,
    Medium,
    Low,
}

/// The two orders a store can be rearranged into.
#[derive(Clone, Copy, Debug, PartialEq, Eq, Structural)]
pub enum SortOpt {
    Id,
    Priority,
}

/// One to-do record. Within a store, live tasks have pairwise distinct ids.
#[derive(Debug)]
pub struct Task {
    pub id: u32,
    pub description: String,
    pub completed: bool,
    pub priority: Priority,
}

/// The mathematical value of a [`Task`]: the description is seen as its
/// character sequence.
#[verifier::ext_equal]
pub ghost struct TaskV {
    pub id: u32,
    pub description: Seq<char>,
    pub completed: bool,
    pub priority: Priority,
}

impl View for Task {
    type V = TaskV;

    open spec fn view(&self) -> TaskV {
        TaskV {
            id: self.id,
            description: self.description@,
            completed: self.completed,
            priority: self.priority,
        }
    }
}

/// The value of a whole store: each task seen through its view.
pub open spec fn views(ts: Seq<Task>) -> Seq<TaskV> {
    ts.map_values(|t: Task| t@)
}

/// The store invariant: no two live tasks share an id.
pub open spec fn unique_ids(ts: Seq<TaskV>) -> bool {
    forall|i: int, j: int| 0 <= i < j < ts.len() ==> ts[i].id != ts[j].id
}

/// Whether some task in `ts` carries `id`.
pub open spec fn has_id(ts: Seq<TaskV>, id: u32) -> bool {
    exists|i: int| 0 <= i < ts.len() && ts[i].id == id
}

/// Index of the first task carrying `id`, or `ts.len()` when there is none.
pub open spec fn idx_of_id(ts: Seq<TaskV>, id: u32) -> int
    decreases ts.len(),
{
    if ts.len() == 0 {
        0
    } else if ts[0].id == id {
        0
    } else {
        1 + idx_of_id(ts.drop_first(), id)
    }
}

/// `idx_of_id` finds the first index carrying `id`, and finds one exactly
/// when `has_id` holds.
pub proof fn lemma_idx_of_id(ts: Seq<TaskV>, id: u32)
    ensures
        0 <= idx_of_id(ts, id) <= ts.len(),
        has_id(ts, id) <==> idx_of_id(ts, id) < ts.len(),
        idx_of_id(ts, id) < ts.len() ==> ts[idx_of_id(ts, id)].id == id,
        forall|j: int| 0 <= j < idx_of_id(ts, id) ==> ts[j].id != id,
    decreases ts.len(),
{
    if ts.len() == 0 {
        assert(!has_id(ts, id));
    } else if ts[0].id == id {
        assert(has_id(ts, id));
    } else {
        let rest = ts.drop_first();
        lemma_idx_of_id(rest, id);
        assert forall|j: int| 0 <= j < idx_of_id(ts, id) implies ts[j].id != id by {
            if j > 0 {
                assert(rest[j - 1] == ts[j]);
            }
        }
        if has_id(rest, id) {
            let w = choose|i: int| 0 <= i < rest.len() && rest[i].id == id;
            assert(ts[w + 1].id == id);
            assert(has_id(ts, id));
        }
        if has_id(ts, id) {
            let w = choose|i: int| 0 <= i < ts.len() && ts[i].id == id;
            assert(w > 0);
            assert(rest[w - 1].id == id);
            assert(has_id(rest, id));
        }
    }
}

/// The store after toggling the completion flag of the task carrying `id`.
pub open spec fn toggle_id(ts: Seq<TaskV>, id: u32) -> Seq<TaskV> {
    let k = idx_of_id(ts, id);
    if k < ts.len() {
        ts.update(
            k,
            TaskV {
                id: ts[k].id,
                description: ts[k].description,
                completed: !ts[k].completed,
                priority: ts[k].priority,
            },
        )
    } else {
        ts
    }
}

/// The store after replacing the description of the task carrying `id`.
pub open spec fn reword_id(ts: Seq<TaskV>, id: u32, desc: Seq<char>) -> Seq<TaskV> {
    let k = idx_of_id(ts, id);
    if k < ts.len() {
        ts.update(
            k,
            TaskV {
                id: ts[k].id,
                description: desc,
                completed: ts[k].completed,
                priority: ts[k].priority,
            },
        )
    } else {
        ts
    }
}

/// The store after replacing the priority of the task carrying `id`.
pub open spec fn reprioritize_id(ts: Seq<TaskV>, id: u32, p: Priority) -> Seq<TaskV> {
    let k = idx_of_id(ts, id);
    if k < ts.len() {
        ts.update(
            k,
            TaskV {
                id: ts[k].id,
                description: ts[k].description,
                completed: ts[k].completed,
                priority: p,
            },
        )
    } else {
        ts
    }
}

/// Index of the first task carrying `id`, or `None` when the id is absent.
fn find_index(todos: &Vec<Task>, id: u32) -> (r: Option<usize>)
    ensures
        ({
            let ts = views(todos@);
            let k = idx_of_id(ts, id);
            match r {
                Some(i) => k == i && k < ts.len(),
                None => k == ts.len(),
            }
        }),
{
    proof {
        lemma_idx_of_id(views(todos@), id);
    }
    let ghost ts = views(todos@);
    let ghost k = idx_of_id(ts, id);
    let n = todos.len();
    let mut i: usize = 0;
    while i < n
        invariant
            n == todos@.len(),
            ts == views(todos@),
            k == idx_of_id(ts, id),
            0 <= k <= ts.len(),
            has_id(ts, id) <==> k < ts.len(),
            k < ts.len() ==> ts[k].id == id,
            forall|j: int| 0 <= j < k ==> ts[j].id != id,
            i <= n,
            forall|j: int| 0 <= j < i ==> ts[j].id != id,
        decreases n - i,
    {
        if todos[i].id == id {
            proof {
                assert(ts[i as int].id == id);
                assert(has_id(ts, id));
            }
            return Some(i);
        }
        i += 1;
    }
    proof {
        assert(!has_id(ts, id));
    }
    None
}

/// Toggles the completion flag of the task carrying `id`, reporting whether
/// such a task exists. An absent id leaves the store unchanged.
pub fn complete_task(todos: &mut Vec<Task>, id: u32) -> (found: bool)
    ensures
        views(final(todos)@) == toggle_id(views(old(todos)@), id),
        found == has_id(views(old(todos)@), id),
{
    proof {
        lemma_idx_of_id(views(old(todos)@), id);
    }
    match find_index(todos, id) {
        Some(i) => {
            let t = todos.remove(i);
            let t2 = Task {
                id: t.id,
                description: t.description,
                completed: !t.completed,
                priority: t.priority,
            };
            todos.insert(i, t2);
            proof {
                assert(views(todos@) =~= toggle_id(views(old(todos)@), id));
            }
            true
        },
        None => {
            proof {
                assert(views(todos@) =~= toggle_id(views(old(todos)@), id));
            }
            false
        },
    }
}

/// Replaces the description of the task carrying `id`, reporting whether
/// such a task exists. An absent id leaves the store unchanged.
pub fn edit_task(todos: &mut Vec<Task>, id: &u32, new_task: String) -> (found: bool)
    ensures
        views(final(todos)@) == reword_id(views(old(todos)@), *id, new_task@),
        found == has_id(views(old(todos)@), *id),
{
    proof {
        lemma_idx_of_id(views(old(todos)@), *id);
    }
    match find_index(todos, *id) {
        Some(i) => {
            let t = todos.remove(i);
            let t2 = Task {
                id: t.id,
                description: new_task,
                completed: t.completed,
                priority: t.priority,
            };
            todos.insert(i, t2);
            proof {
                assert(views(todos@) =~= reword_id(views(old(todos)@), *id, new_task@));
            }
            true
        },
        None => {
            proof {
                assert(views(todos@) =~= reword_id(views(old(todos)@), *id, new_task@));
            }
            false
        },
    }
}

/// Replaces the priority of the task carrying `id`, reporting whether such a
/// task exists. An absent id leaves the store unchanged.
pub fn edit_priority(todos: &mut Vec<Task>, id: &u32, priority: Priority) -> (found: bool)
    ensures
        views(final(todos)@) == reprioritize_id(views(old(todos)@), *id, priority),
        found == has_id(views(old(todos)@), *id),
{
    proof {
        lemma_idx_of_id(views(old(todos)@), *id);
    }
    match find_index(todos, *id) {
        Some(i) => {
            let t = todos.remove(i);
            let t2 = Task {
                id: t.id,
                description: t.description,
                completed: t.completed,
                priority,
            };
            todos.insert(i, t2);
            proof {
                assert(views(todos@) =~= reprioritize_id(views(old(todos)@), *id, priority));
            }
            true
        },
        None => {
            proof {
                assert(views(todos@) =~= reprioritize_id(views(old(todos)@), *id, priority));
            }
            false
        },
    }
}

/// A copy of a task: same id, same description text, same flags.
fn clone_task(t: &Task) -> (r: Task)
    ensures
        r@ == t@,
{
    Task {
        id: t.id,
        description: t.description.clone(),
        completed: t.completed,
        priority: t.priority,
    }
}

proof fn lemma_views_push(s: Seq<Task>, t: Task)
    ensures
        views(s.push(t)) == views(s).push(t@),
{
    assert(views(s.push(t)) =~= views(s).push(t@));
}

proof fn lemma_filter_take_step(ts: Seq<TaskV>, i: int, pred: spec_fn(TaskV) -> bool)
    requires
        0 <= i < ts.len(),
    ensures
        ts.take(i + 1).filter(pred) == if pred(ts[i]) {
            ts.take(i).filter(pred).push(ts[i])
        } else {
            ts.take(i).filter(pred)
        },
{
    assert(ts.take(i + 1).drop_last() =~= ts.take(i));
    reveal(Seq::filter);
}

/// Linear membership test over a vector of ids.
fn contains_u32(v: &Vec<u32>, x: u32) -> (r: bool)
    ensures
        r == v@.contains(x),
{
    let n = v.len();
    let mut i: usize = 0;
    while i < n
        invariant
            n == v@.len(),
            i <= n,
            forall|j: int| 0 <= j < i ==> v@[j] != x,
        decreases n - i,
    {
        if v[i] == x {
            return true;
        }
        i += 1;
    }
    false
}

/// Removes every task carrying `id`. An absent id leaves the store unchanged
/// and is not an error.
pub fn delete_task(todos: &mut Vec<Task>, id: u32)
    ensures
        views(final(todos)@) == views(old(todos)@).filter(|t: TaskV| t.id != id),
{
    let ghost orig = views(old(todos)@);
    let mut kept: Vec<Task> = Vec::new();
    let n = todos.len();
    let mut i: usize = 0;
    while i < n
        invariant
            n == todos@.len(),
            views(todos@) == orig,
            i <= n,
            views(kept@) == orig.take(i as int).filter(|t: TaskV| t.id != id),
        decreases n - i,
    {
        proof {
            lemma_filter_take_step(orig, i as int, |t: TaskV| t.id != id);
        }
        if todos[i].id != id {
            let t = clone_task(&todos[i]);
            proof {
                lemma_views_push(kept@, t);
            }
            kept.push(t);
        }
        i += 1;
    }
    proof {
        assert(orig.take(n as int) =~= orig);
    }
    *todos = kept;
}

/// Removes every task whose id occurs in `values`. Absent ids are ignored.
pub fn delete_multiple_task(todos: &mut Vec<Task>, values: &Vec<u32>)
    ensures
        views(final(todos)@) == views(old(todos)@).filter(|t: TaskV| !values@.contains(t.id)),
{
    let ghost orig = views(old(todos)@);
    let mut kept: Vec<Task> = Vec::new();
    let n = todos.len();
    let mut i: usize = 0;
    while i < n
        invariant
            n == todos@.len(),
            views(todos@) == orig,
            i <= n,
            views(kept@) == orig.take(i as int).filter(|t: TaskV| !values@.contains(t.id)),
        decreases n - i,
    {
        proof {
            lemma_filter_take_step(orig, i as int, |t: TaskV| !values@.contains(t.id));
        }
        if !contains_u32(values, todos[i].id) {
            let t = clone_task(&todos[i]);
            proof {
                lemma_views_push(kept@, t);
            }
            kept.push(t);
        }
        i += 1;
    }
    proof {
        assert(orig.take(n as int) =~= orig);
    }
    *todos = kept;
}

/// Removes every completed task and reports how many were removed.
pub fn clear_completed_tasks(todos: &mut Vec<Task>) -> (removed: usize)
    ensures
        views(final(todos)@) == views(old(todos)@).filter(|t: TaskV| !t.completed),
        removed == old(todos)@.len() - final(todos)@.len(),
{
    let ghost orig = views(old(todos)@);
    let mut kept: Vec<Task> = Vec::new();
    let n = todos.len();
    let mut i: usize = 0;
    while i < n
        invariant
            n == todos@.len(),
            views(todos@) == orig,
            i <= n,
            kept@.len() <= i,
            views(kept@) == orig.take(i as int).filter(|t: TaskV| !t.completed),
        decreases n - i,
    {
        proof {
            lemma_filter_take_step(orig, i as int, |t: TaskV| !t.completed);
        }
        if !todos[i].completed {
            let t = clone_task(&todos[i]);
            proof {
                lemma_views_push(kept@, t);
            }
            kept.push(t);
        }
        i += 1;
    }
    proof {
        assert(orig.take(n as int) =~= orig);
    }
    let removed = n - kept.len();
    *todos = kept;
    removed
}

/// Deleting an id that no task carries leaves the store exactly as it was.
pub proof fn lemma_delete_absent_id_is_noop(ts: Seq<TaskV>, id: u32)
    requires
        !has_id(ts, id),
    ensures
        ts.filter(|t: TaskV| t.id != id) == ts,
    decreases ts.len(),
{
    reveal(Seq::filter);
    if ts.len() == 0 {
    } else {
        let rest = ts.drop_last();
        assert forall|i: int| 0 <= i < rest.len() implies rest[i].id != id by {
            assert(ts[i] == rest[i]);
            assert(!has_id(ts, id) ==> ts[i].id != id);
        }
        assert(!has_id(rest, id));
        lemma_delete_absent_id_is_noop(rest, id);
        assert(ts.last().id != id);
        assert(ts.filter(|t: TaskV| t.id != id) =~= ts);
    }
}

/// The store after toggling, in order, each id of `ids`.
pub open spec fn toggle_all(ts: Seq<TaskV>, ids: Seq<u32>) -> Seq<TaskV>
    decreases ids.len(),
{
    if ids.len() == 0 {
        ts
    } else {
        toggle_all(toggle_id(ts, ids[0]), ids.drop_first())
    }
}

/// For each id of `ids`, in order, whether the store held it at the moment
/// it was toggled.
pub open spec fn toggle_found(ts: Seq<TaskV>, ids: Seq<u32>) -> Seq<bool>
    decreases ids.len(),
{
    if ids.len() == 0 {
        seq![]
    } else {
        seq![has_id(ts, ids[0])] + toggle_found(toggle_id(ts, ids[0]), ids.drop_first())
    }
}

/// Toggles the completion flag of each id of `values`, in order, and reports
/// for each whether a task carried it when its turn came.
pub fn complete_multiple_task(todos: &mut Vec<Task>, values: &Vec<u32>) -> (found: Vec<bool>)
    ensures
        views(final(todos)@) == toggle_all(views(old(todos)@), values@),
        found@ == toggle_found(views(old(todos)@), values@),
{
    let ghost orig = views(old(todos)@);
    let ghost ids = values@;
    let mut found: Vec<bool> = Vec::new();
    let n = values.len();
    let mut k: usize = 0;
    proof {
        assert(ids.skip(0) =~= ids);
        assert(found@ + toggle_found(orig, ids) =~= toggle_found(orig, ids));
    }
    while k < n
        invariant
            ids == values@,
            n == ids.len(),
            k <= n,
            toggle_all(orig, ids) == toggle_all(views(todos@), ids.skip(k as int)),
            toggle_found(orig, ids) == found@ + toggle_found(views(todos@), ids.skip(k as int)),
        decreases n - k,
    {
        let ghost before = views(todos@);
        let ghost prev_found = found@;
        let b = complete_task(todos, values[k]);
        found.push(b);
        proof {
            let rest = ids.skip(k as int);
            assert(rest.len() > 0);
            assert(rest[0] == ids[k as int]);
            assert(rest.drop_first() =~= ids.skip(k as int + 1));
            assert(toggle_all(before, rest) == toggle_all(
                views(todos@),
                ids.skip(k as int + 1),
            ));
            assert(toggle_found(before, rest) == seq![b] + toggle_found(
                views(todos@),
                ids.skip(k as int + 1),
            ));
            assert(prev_found + (seq![b] + toggle_found(views(todos@), ids.skip(k as int + 1)))
                =~= found@ + toggle_found(views(todos@), ids.skip(k as int + 1)));
        }
        k += 1;
    }
    proof {
        assert(ids.skip(n as int) =~= Seq::<u32>::empty());
        assert(found@ + toggle_found(views(todos@), Seq::<u32>::empty()) =~= found@);
    }
    found
}

/// What an outside call computes: the argument without its leading and
/// trailing whitespace.
pub uninterp spec fn trim_of(s: Seq<char>) -> Seq<char>;

/// Relies on str::trim: returns the string without leading and trailing
/// whitespace; the result depends on the characters alone.
#[verifier::external_body]
fn trim_str(s: &str) -> (r: String)
    ensures
        r@ == trim_of(s@),
{
    s.trim().to_owned()
}

/// The value the id scan starts from: the store's length, or 1 for an empty
/// store.
pub open spec fn start_id(ts: Seq<TaskV>) -> int {
    if ts.len() == 0 {
        1
    } else {
        ts.len() as int
    }
}

/// `id` is the first unused id at or above the scan's starting point.
pub open spec fn is_next_free(ts: Seq<TaskV>, id: u32) -> bool {
    &&& start_id(ts) <= id
    &&& !has_id(ts, id)
    &&& forall|j: u32| start_id(ts) <= j < id ==> has_id(ts, j)
}

/// The id an add operation assigns in store `ts`.
pub open spec fn next_id(ts: Seq<TaskV>) -> u32 {
    choose|id: u32| is_next_free(ts, id)
}

/// The store after adding one task with (already trimmed) description `desc`.
pub open spec fn add_one(ts: Seq<TaskV>, desc: Seq<char>) -> Seq<TaskV> {
    ts.push(
        TaskV { id: next_id(ts), description: desc, completed: false, priority: Priority::Low },
    )
}

/// The store after adding one task per description of `descs`, in order.
pub open spec fn add_all(ts: Seq<TaskV>, descs: Seq<Seq<char>>) -> Seq<TaskV>
    decreases descs.len(),
{
    if descs.len() == 0 {
        ts
    } else {
        add_all(add_one(ts, descs[0]), descs.drop_first())
    }
}

/// Among the `ts.len() + 1` values `start ..= start + ts.len()` at least one
/// is not the id of any of the `ts.len()` tasks.
proof fn lemma_free_id_exists(ts: Seq<TaskV>, start: u32)
    requires
        start + ts.len() <= u32::MAX,
    ensures
        exists|id: u32| start <= id <= start + ts.len() && !has_id(ts, id),
{
    broadcast use vstd::seq_lib::seq_to_set_is_finite;

    let ids = ts.map_values(|t: TaskV| t.id as int);
    if forall|id: u32| start <= id <= start + ts.len() ==> has_id(ts, id) {
        let r = vstd::set_lib::set_int_range(start as int, start as int + ts.len() + 1);
        vstd::set_lib::lemma_int_range(start as int, start as int + ts.len() + 1);
        assert forall|v: int| r.contains(v) implies ids.to_set().contains(v) by {
            let id = v as u32;
            assert(start <= id <= start + ts.len());
            assert(has_id(ts, id));
            let w = choose|i: int| 0 <= i < ts.len() && ts[i].id == id;
            assert(ids[w] == v);
            assert(ids.contains(v));
        }
        vstd::set_lib::lemma_len_subset(r, ids.to_set());
        ids.lemma_cardinality_of_set();
        assert(false);
    }
}

/// Two ids that are both the first free one are the same id.
proof fn lemma_next_free_unique(ts: Seq<TaskV>, a: u32, b: u32)
    requires
        is_next_free(ts, a),
        is_next_free(ts, b),
    ensures
        a == b,
{
    if a < b {
        assert(has_id(ts, a));
    }
    if b < a {
        assert(has_id(ts, b));
    }
}

/// Below any unused id at or above the starting point there is a first
/// unused one.
proof fn lemma_next_free_exists(ts: Seq<TaskV>, f: u32)
    requires
        start_id(ts) <= f,
        !has_id(ts, f),
    ensures
        exists|id: u32| is_next_free(ts, id),
    decreases f,
{
    if forall|j: u32| start_id(ts) <= j < f ==> has_id(ts, j) {
        assert(is_next_free(ts, f));
    } else {
        let j = choose|j: u32| start_id(ts) <= j < f && !has_id(ts, j);
        lemma_next_free_exists(ts, j);
    }
}

/// Adds a task: the description is trimmed of surrounding whitespace, the
/// task starts not completed and with `Low` priority, and its id is the
/// first unused one found by scanning upward from the store's length (from 1
/// when the store is empty). Returns the assigned id.
pub fn add_task(todos: &mut Vec<Task>, description: &str) -> (id: u32)
    requires
        old(todos)@.len() < 0x1000_0000,
    ensures
        views(final(todos)@) == add_one(views(old(todos)@), trim_of(description@)),
        id == next_id(views(old(todos)@)),
        is_next_free(views(old(todos)@), id),
{
    let ghost orig = views(old(todos)@);
    let d = trim_str(description);
    let start: u32 = if todos.len() == 0 {
        1
    } else {
        todos.len() as u32
    };
    proof {
        assert(start as int == start_id(orig));
    }
    let mut cand: u32 = start;
    let mut taken = find_index(todos, cand).is_some();
    proof {
        lemma_idx_of_id(orig, cand);
    }
    while taken
        invariant
            orig == views(todos@),
            orig.len() < 0x1000_0000,
            start as int == start_id(orig),
            start <= cand,
            cand as int <= start as int + orig.len(),
            forall|j: u32| start <= j < cand ==> has_id(orig, j),
            taken == has_id(orig, cand),
        decreases start as int + orig.len() - cand as int,
    {
        proof {
            lemma_free_id_exists(orig, start);
            let f = choose|id2: u32| start <= id2 <= start + orig.len() && !has_id(orig, id2);
            if f < cand {
                assert(has_id(orig, f));
            }
            assert(f > cand);
        }
        cand = cand + 1;
        taken = find_index(todos, cand).is_some();
        proof {
            lemma_idx_of_id(orig, cand);
        }
    }
    proof {
        assert(is_next_free(orig, cand));
        assert(is_next_free(orig, next_id(orig)));
        lemma_next_free_unique(orig, cand, next_id(orig));
    }
    let t = Task { id: cand, description: d, completed: false, priority: Priority::Low };
    proof {
        lemma_views_push(todos@, t);
    }
    todos.push(t);
    proof {
        assert(views(todos@) =~= add_one(orig, trim_of(description@)));
    }
    cand
}

/// Adds one task per entry of `values`, in order; each gets the first unused
/// id at the time it is added, its description trimmed, `completed` false
/// and `Low` priority.
pub fn add_multiple_task(todos: &mut Vec<Task>, values: &Vec<String>)
    requires
        old(todos)@.len() + values@.len() < 0x1000_0000,
    ensures
        views(final(todos)@) == add_all(
            views(old(todos)@),
            values@.map_values(|s: String| trim_of(s@)),
        ),
{
    let ghost orig = views(old(todos)@);
    let ghost descs = values@.map_values(|s: String| trim_of(s@));
    let n = values.len();
    let mut k: usize = 0;
    proof {
        assert(descs.skip(0) =~= descs);
    }
    while k < n
        invariant
            descs == values@.map_values(|s: String| trim_of(s@)),
            n == descs.len(),
            k <= n,
            todos@.len() == orig.len() + k,
            orig.len() + n < 0x1000_0000,
            add_all(orig, descs) == add_all(views(todos@), descs.skip(k as int)),
        decreases n - k,
    {
        let ghost before = views(todos@);
        add_task(todos, values[k].as_str());
        proof {
            assert(views(todos@) == add_one(before, trim_of(values@[k as int]@)));
            assert(todos@.len() == views(todos@).len());
            let rest = descs.skip(k as int);
            assert(rest.len() > 0);
            assert(rest[0] == trim_of(values@[k as int]@));
            assert(rest.drop_first() =~= descs.skip(k as int + 1));
            assert(add_all(before, rest) == add_all(views(todos@), descs.skip(k as int + 1)));
        }
        k += 1;
    }
    proof {
        assert(descs.skip(n as int) =~= Seq::<Seq<char>>::empty());
    }
}

/// Adding tasks to a store with pairwise distinct ids keeps the ids
/// pairwise distinct: each new task gets an id that no live task carries.
pub proof fn lemma_add_all_unique_ids(ts: Seq<TaskV>, descs: Seq<Seq<char>>)
    requires
        unique_ids(ts),
        ts.len() + descs.len() < 0x1000_0000,
    ensures
        unique_ids(add_all(ts, descs)),
    decreases descs.len(),
{
    if descs.len() > 0 {
        let start = if ts.len() == 0 {
            1u32
        } else {
            ts.len() as u32
        };
        lemma_free_id_exists(ts, start);
        let f = choose|id: u32| start <= id <= start + ts.len() && !has_id(ts, id);
        lemma_next_free_exists(ts, f);
        assert(is_next_free(ts, next_id(ts)));
        let ts2 = add_one(ts, descs[0]);
        assert forall|i: int, j: int| 0 <= i < j < ts2.len() implies ts2[i].id != ts2[j].id by {
            if j == ts2.len() - 1 {
                assert(!has_id(ts, ts2[j].id));
                assert(ts2[i] == ts[i]);
            }
        }
        lemma_add_all_unique_ids(ts2, descs.drop_first());
    }
}

/// From an empty store, any sequence of adds yields a store whose ids are
/// pairwise distinct.
pub proof fn lemma_adds_from_empty_unique_ids(descs: Seq<Seq<char>>)
    requires
        descs.len() < 0x1000_0000,
    ensures
        unique_ids(add_all(Seq::<TaskV>::empty(), descs)),
{
    lemma_add_all_unique_ids(Seq::<TaskV>::empty(), descs);
}

/// The tasks of `ts` carrying priority `p`, in their original order.
pub open spec fn with_priority(ts: Seq<TaskV>, p: Priority) -> Seq<TaskV> {
    ts.filter(|t: TaskV| t.priority == p)
}

/// The store grouped by priority: first every `High` task, then every
/// `Medium` one, then every `Low` one, each group in the original order.
pub open spec fn grouped_by_priority(ts: Seq<TaskV>) -> Seq<TaskV> {
    with_priority(ts, Priority::High) + with_priority(ts, Priority::Medium) + with_priority(
        ts,
        Priority::Low,
    )
}

/// Position of a priority in the grouped order.
pub open spec fn priority_rank(p: Priority) -> int {
    match p {
        Priority::High => 0,
        Priority::Medium => 1,
        Priority::Low => 2,
    }
}

/// Ids never decrease along the store.
pub open spec fn sorted_by_id(ts: Seq<TaskV>) -> bool {
    forall|i: int, j: int| 0 <= i < j < ts.len() ==> ts[i].id <= ts[j].id
}

proof fn lemma_with_priority_take_step(ts: Seq<TaskV>, i: int, p: Priority)
    requires
        0 <= i < ts.len(),
    ensures
        with_priority(ts.take(i + 1), p) == if ts[i].priority == p {
            with_priority(ts.take(i), p).push(ts[i])
        } else {
            with_priority(ts.take(i), p)
        },
{
    assert(ts.take(i + 1).drop_last() =~= ts.take(i));
    reveal(Seq::filter);
}

proof fn lemma_views_add(a: Seq<Task>, b: Seq<Task>)
    ensures
        views(a + b) == views(a) + views(b),
{
    assert(views(a + b) =~= views(a) + views(b));
}

/// The tasks of `todos` carrying priority `p`, in their original order.
fn filter_by_priority(todos: &Vec<Task>, p: Priority) -> (r: Vec<Task>)
    ensures
        views(r@) == with_priority(views(todos@), p),
{
    let ghost orig = views(todos@);
    let mut kept: Vec<Task> = Vec::new();
    let n = todos.len();
    let mut i: usize = 0;
    while i < n
        invariant
            n == todos@.len(),
            views(todos@) == orig,
            i <= n,
            views(kept@) == with_priority(orig.take(i as int), p),
        decreases n - i,
    {
        proof {
            lemma_with_priority_take_step(orig, i as int, p);
        }
        if todos[i].priority == p {
            let t = clone_task(&todos[i]);
            proof {
                lemma_views_push(kept@, t);
            }
            kept.push(t);
        }
        i += 1;
    }
    proof {
        assert(orig.take(n as int) =~= orig);
    }
    kept
}

/// Reorders the store: by ascending id, or grouped by priority (`High`,
/// then `Medium`, then `Low`) with the original relative order kept inside
/// each group.
pub fn sort(todos: &mut Vec<Task>, option: &SortOpt)
    ensures
        (match option {
            SortOpt::Priority => views(final(todos)@) == grouped_by_priority(views(old(todos)@)),
            SortOpt::Id => views(final(todos)@).to_multiset() == views(old(todos)@).to_multiset()
                && sorted_by_id(views(final(todos)@)),
        }),
{
    match option {
        SortOpt::Priority => {
            let ghost orig = views(old(todos)@);
            let mut out = filter_by_priority(todos, Priority::High);
            let mut med = filter_by_priority(todos, Priority::Medium);
            let mut low = filter_by_priority(todos, Priority::Low);
            let ghost high_part = out@;
            out.append(&mut med);
            let ghost first_two = out@;
            out.append(&mut low);
            proof {
                lemma_views_add(high_part, first_two.subrange(high_part.len() as int, first_two.len() as int));
                assert(first_two =~= high_part + first_two.subrange(high_part.len() as int, first_two.len() as int));
                lemma_views_add(first_two, out@.subrange(first_two.len() as int, out@.len() as int));
                assert(out@ =~= first_two + out@.subrange(first_two.len() as int, out@.len() as int));
                assert(views(out@) =~= grouped_by_priority(orig));
            }
            *todos = out;
        },
        SortOpt::Id => {
            let ghost orig = views(old(todos)@);
            let mut out: Vec<Task> = Vec::new();
            proof {
                broadcast use vstd::seq_lib::group_to_multiset_ensures;

                assert(views(out@).to_multiset().add(views(todos@).to_multiset())
                    =~= orig.to_multiset());
            }
            while todos.len() > 0
                invariant
                    views(out@).to_multiset().add(views(todos@).to_multiset())
                        == orig.to_multiset(),
                    sorted_by_id(views(out@)),
                    forall|a: int, b: int|
                        0 <= a < out@.len() && 0 <= b < todos@.len() ==> views(out@)[a].id
                            <= views(todos@)[b].id,
                decreases todos@.len(),
            {
                let mut m: usize = 0;
                let mut i: usize = 1;
                while i < todos.len()
                    invariant
                        todos@.len() > 0,
                        m < i,
                        i <= todos@.len(),
                        forall|j: int|
                            0 <= j < i ==> views(todos@)[m as int].id <= views(todos@)[j].id,
                    decreases todos@.len() - i,
                {
                    if todos[i].id < todos[m].id {
                        m = i;
                    }
                    i += 1;
                }
                let ghost pre = views(todos@);
                let t = todos.remove(m);
                proof {
                    broadcast use vstd::seq_lib::group_to_multiset_ensures;

                    assert(views(todos@) =~= pre.remove(m as int));
                    pre.remove_ensures(m as int);
                    assert(pre.contains(pre[m as int]));
                    lemma_views_push(out@, t);
                }
                out.push(t);
                proof {
                    assert(views(out@).to_multiset().add(views(todos@).to_multiset())
                        =~= orig.to_multiset());
                }
            }
            proof {
                broadcast use vstd::seq_lib::group_to_multiset_ensures;

                assert(views(todos@).to_multiset() =~= Multiset::empty());
                assert(views(out@).to_multiset() =~= orig.to_multiset());
            }
            *todos = out;
        },
    }
}

/// In a store grouped by priority every task stands no later than any task
/// of a lower-ranked priority: `High` before `Medium` before `Low`.
pub proof fn lemma_grouped_by_priority_ordered(ts: Seq<TaskV>)
    ensures
        forall|a: int, b: int|
            0 <= a < b < grouped_by_priority(ts).len() ==> priority_rank(
                grouped_by_priority(ts)[a].priority,
            ) <= priority_rank(grouped_by_priority(ts)[b].priority),
{
    broadcast use vstd::seq_lib::group_filter_ensures;

    let g = grouped_by_priority(ts);
    let h = with_priority(ts, Priority::High);
    let m = with_priority(ts, Priority::Medium);
    let l = with_priority(ts, Priority::Low);
    assert forall|a: int, b: int|
        0 <= a < b < g.len() implies priority_rank(g[a].priority) <= priority_rank(
        g[b].priority,
    ) by {
        assert forall|k: int| 0 <= k < g.len() implies priority_rank(g[k].priority) == (
        if k < h.len() {
            0int
        } else if k < h.len() + m.len() {
            1int
        } else {
            2int
        }) by {
            if k < h.len() {
                assert(g[k] == h[k]);
            } else if k < h.len() + m.len() {
                assert(g[k] == m[k - h.len()]);
            } else {
                assert(g[k] == l[k - h.len() - m.len()]);
            }
        }
    }
}

} // verus!
