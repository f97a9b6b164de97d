//! Operations on the ordered lists of tasks and reading items: adding with
//! the next id, finding, updating and removing by id, and reordering.
use vstd::prelude::*;
use vstd::multiset::Multiset;
use crate::reading::ReadingItem;
use crate::task::Task;

verus! {

// ── Ids ─────────────────────────────────────────────────────────────────────

/// The ids of the tasks, in list order.
pub open spec fn task_ids(s: Seq<Task>) -> Seq<u32> {
    s.map_values(|t: Task| t.id)
}

/// The ids of the reading items, in list order.
pub open spec fn reading_ids(s: Seq<ReadingItem>) -> Seq<u32> {
    s.map_values(|r: ReadingItem| r.id)
}

/// The largest id, or 0 for no ids.
pub open spec fn max_id(ids: Seq<u32>) -> nat
    decreases ids.len(),
{
    if ids.len() == 0 {
        0
    } else {
        let m = max_id(ids.drop_last());
        if ids.last() > m {
            ids.last() as nat
        } else {
            m
        }
    }
}

/// The id that a new entry gets: one more than the largest id, 1 for an empty
/// list.
pub open spec fn next_id(ids: Seq<u32>) -> nat {
    max_id(ids) + 1
}

/// The position of the first occurrence of `id`.
pub open spec fn index_of(ids: Seq<u32>, id: u32) -> Option<int>
    decreases ids.len(),
{
    if ids.len() == 0 {
        None
    } else {
        match index_of(ids.drop_last(), id) {
            Some(i) => Some(i),
            None => if ids.last() == id {
                Some(ids.len() - 1)
            } else {
                None
            },
        }
    }
}

/// No id occurs twice.
pub open spec fn ids_unique(ids: Seq<u32>) -> bool {
    forall|i: int, j: int| 0 <= i < j < ids.len() ==> ids[i] != ids[j]
}

/// What `index_of` says: a hit holds `id` and nothing before it does; a miss
/// means `id` does not occur.
pub proof fn lemma_index_of(ids: Seq<u32>, id: u32)
    ensures
        match index_of(ids, id) {
            Some(i) => 0 <= i < ids.len() && ids[i] == id && (forall|j: int|
                0 <= j < i ==> ids[j] != id),
            None => forall|j: int| 0 <= j < ids.len() ==> ids[j] != id,
        },
    decreases ids.len(),
{
    if ids.len() > 0 {
        let d = ids.drop_last();
        lemma_index_of(d, id);
        assert forall|j: int| 0 <= j < d.len() implies d[j] == ids[j] by {}
    }
}

/// Every id is at most `max_id`.
pub proof fn lemma_max_id(ids: Seq<u32>)
    ensures
        forall|j: int| 0 <= j < ids.len() ==> ids[j] <= max_id(ids),
        ids.len() > 0 ==> exists|j: int| 0 <= j < ids.len() && ids[j] == max_id(ids),
    decreases ids.len(),
{
    if ids.len() > 0 {
        let d = ids.drop_last();
        lemma_max_id(d);
        assert forall|j: int| 0 <= j < ids.len() implies ids[j] <= max_id(ids) by {
            if j < d.len() {
                assert(d[j] == ids[j]);
            }
        }
        if ids.len() > 1 && ids.last() <= max_id(ids.drop_last()) {
            let j = choose|j: int|
                0 <= j < ids.drop_last().len() && ids.drop_last()[j] == max_id(ids.drop_last());
            assert(ids[j] == max_id(ids));
        } else {
            assert(ids[ids.len() - 1] == max_id(ids));
        }
    }
}

fn ids_of_tasks(tasks: &Vec<Task>) -> (v: Vec<u32>)
    ensures
        v@ == task_ids(tasks@),
{
    let mut v: Vec<u32> = Vec::new();
    let mut i: usize = 0;
    while i < tasks.len()
        invariant
            i <= tasks.len(),
            v@ == task_ids(tasks@.take(i as int)),
        decreases tasks.len() - i,
    {
        v.push(tasks[i].id);
        assert(task_ids(tasks@.take(i + 1)) =~= task_ids(tasks@.take(i as int)).push(
            tasks@[i as int].id,
        ));
        i = i + 1;
    }
    assert(tasks@.take(tasks@.len() as int) =~= tasks@);
    v
}

fn ids_of_readings(items: &Vec<ReadingItem>) -> (v: Vec<u32>)
    ensures
        v@ == reading_ids(items@),
{
    let mut v: Vec<u32> = Vec::new();
    let mut i: usize = 0;
    while i < items.len()
        invariant
            i <= items.len(),
            v@ == reading_ids(items@.take(i as int)),
        decreases items.len() - i,
    {
        v.push(items[i].id);
        assert(reading_ids(items@.take(i + 1)) =~= reading_ids(items@.take(i as int)).push(
            items@[i as int].id,
        ));
        i = i + 1;
    }
    assert(items@.take(items@.len() as int) =~= items@);
    v
}

/// The next id for a list with these ids: the largest plus one.
pub fn next_id_of(ids: &Vec<u32>) -> (r: u32)
    requires
        max_id(ids@) < u32::MAX,
    ensures
        r == next_id(ids@),
{
    let mut m: u32 = 0;
    let mut i: usize = 0;
    while i < ids.len()
        invariant
            i <= ids.len(),
            m == max_id(ids@.take(i as int)),
        decreases ids.len() - i,
    {
        assert(ids@.take(i + 1).drop_last() =~= ids@.take(i as int));
        if ids[i] > m {
            m = ids[i];
        }
        i = i + 1;
    }
    assert(ids@.take(ids@.len() as int) =~= ids@);
    m + 1
}

/// The position of the first occurrence of `id`.
pub fn position_of(ids: &Vec<u32>, id: u32) -> (r: Option<usize>)
    ensures
        match r {
            Some(i) => index_of(ids@, id) == Some(i as int),
            None => index_of(ids@, id) is None,
        },
{
    let mut i: usize = 0;
    while i < ids.len()
        invariant
            i <= ids.len(),
            index_of(ids@.take(i as int), id) is None,
        decreases ids.len() - i,
    {
        assert(ids@.take(i + 1).drop_last() =~= ids@.take(i as int));
        if ids[i] == id {
            proof {
                lemma_index_prefix(ids@, id, i + 1);
            }
            return Some(i);
        }
        i = i + 1;
    }
    assert(ids@.take(ids@.len() as int) =~= ids@);
    None
}

/// A first occurrence found in a prefix is the first occurrence in the whole.
pub proof fn lemma_index_prefix(ids: Seq<u32>, id: u32, n: int)
    requires
        0 <= n <= ids.len(),
        index_of(ids.take(n), id) is Some,
    ensures
        index_of(ids, id) == index_of(ids.take(n), id),
    decreases ids.len() - n,
{
    if n < ids.len() {
        assert(ids.take(n + 1).drop_last() =~= ids.take(n));
        lemma_index_prefix(ids, id, n + 1);
    } else {
        assert(ids.take(n) =~= ids);
    }
}

// ── Tasks ───────────────────────────────────────────────────────────────────

/// `t` with its done flag set to `done`.
pub open spec fn with_done(t: Task, done: bool) -> Task {
    Task { id: t.id, text: t.text, done }
}

/// The id the next task added to `tasks` gets.
pub fn next_task_id(tasks: &Vec<Task>) -> (r: u32)
    requires
        max_id(task_ids(tasks@)) < u32::MAX,
    ensures
        r == next_id(task_ids(tasks@)),
{
    let ids = ids_of_tasks(tasks);
    next_id_of(&ids)
}

/// Whether a task can be added: the largest id is below `u32::MAX`, so the
/// next id fits.
pub fn can_add_task(tasks: &Vec<Task>) -> (r: bool)
    ensures
        r == (max_id(task_ids(tasks@)) < u32::MAX),
{
    let ids = ids_of_tasks(tasks);
    largest_below_max(&ids)
}

/// Whether a reading item can be added: the largest id is below `u32::MAX`,
/// so the next id fits.
pub fn can_add_reading(items: &Vec<ReadingItem>) -> (r: bool)
    ensures
        r == (max_id(reading_ids(items@)) < u32::MAX),
{
    let ids = ids_of_readings(items);
    largest_below_max(&ids)
}

fn largest_below_max(ids: &Vec<u32>) -> (r: bool)
    ensures
        r == (max_id(ids@) < u32::MAX),
{
    let mut i: usize = 0;
    while i < ids.len()
        invariant
            i <= ids.len(),
            max_id(ids@.take(i as int)) < u32::MAX,
        decreases ids.len() - i,
    {
        assert(ids@.take(i + 1).drop_last() =~= ids@.take(i as int));
        if ids[i] == u32::MAX {
            proof {
                lemma_max_id(ids@);
            }
            return false;
        }
        i = i + 1;
    }
    assert(ids@.take(ids@.len() as int) =~= ids@);
    true
}

/// Appends a pending task with the next id (one more than the largest id in
/// the list) and returns it.
pub fn add_task(tasks: &mut Vec<Task>, text: String) -> (t: Task)
    requires
        max_id(task_ids(old(tasks)@)) < u32::MAX,
    ensures
        t.id == next_id(task_ids(old(tasks)@)),
        t.text == text,
        !t.done,
        final(tasks)@ == old(tasks)@.push(t),
{
    let id = next_task_id(tasks);
    let t = Task::new(id, text);
    tasks.push(t.clone());
    t
}

/// The position of the first task with id `id`.
pub fn find_task(tasks: &Vec<Task>, id: u32) -> (r: Option<usize>)
    ensures
        match r {
            Some(i) => index_of(task_ids(tasks@), id) == Some(i as int),
            None => index_of(task_ids(tasks@), id) is None,
        },
{
    let ids = ids_of_tasks(tasks);
    position_of(&ids, id)
}

/// Sets the done flag of the first task with id `id` and returns the updated
/// task; `None`, with the list unchanged, where no task has that id.
pub fn set_task_done(tasks: &mut Vec<Task>, id: u32, done: bool) -> (r: Option<Task>)
    ensures
        match index_of(task_ids(old(tasks)@), id) {
            None => r is None && final(tasks)@ == old(tasks)@,
            Some(i) => r == Some(with_done(old(tasks)@[i], done)) && final(tasks)@ == old(
                tasks,
            )@.update(i, with_done(old(tasks)@[i], done)),
        },
{
    match find_task(tasks, id) {
        None => None,
        Some(i) => {
            proof {
                lemma_index_of(task_ids(tasks@), id);
            }
            let mut t = tasks[i].clone();
            t.done = done;
            tasks.set(i, t.clone());
            Some(t)
        },
    }
}

/// Removes the first task with id `id` and returns it; `None`, with the list
/// unchanged, where no task has that id.
pub fn remove_task(tasks: &mut Vec<Task>, id: u32) -> (r: Option<Task>)
    ensures
        match index_of(task_ids(old(tasks)@), id) {
            None => r is None && final(tasks)@ == old(tasks)@,
            Some(i) => r == Some(old(tasks)@[i]) && final(tasks)@ == old(tasks)@.remove(i),
        },
{
    match find_task(tasks, id) {
        None => None,
        Some(i) => {
            proof {
                lemma_index_of(task_ids(tasks@), id);
            }
            Some(tasks.remove(i))
        },
    }
}

// ── Reading items ───────────────────────────────────────────────────────────

/// `r` with its read flag set to `read`.
pub open spec fn with_read(r: ReadingItem, read: bool) -> ReadingItem {
    ReadingItem { id: r.id, url: r.url, title: r.title, read }
}

/// Appends an unread item with the next id (one more than the largest id in
/// the list) and returns it.
pub fn add_reading(items: &mut Vec<ReadingItem>, url: String, title: String) -> (r: ReadingItem)
    requires
        max_id(reading_ids(old(items)@)) < u32::MAX,
    ensures
        r.id == next_id(reading_ids(old(items)@)),
        r.url == url,
        r.title == title,
        !r.read,
        final(items)@ == old(items)@.push(r),
{
    let ids = ids_of_readings(items);
    let id = next_id_of(&ids);
    let r = ReadingItem { id, url, title, read: false };
    items.push(r.clone());
    r
}

/// The position of the first item with id `id`.
pub fn find_reading(items: &Vec<ReadingItem>, id: u32) -> (r: Option<usize>)
    ensures
        match r {
            Some(i) => index_of(reading_ids(items@), id) == Some(i as int),
            None => index_of(reading_ids(items@), id) is None,
        },
{
    let ids = ids_of_readings(items);
    position_of(&ids, id)
}

/// Sets the read flag of the first item with id `id` and returns the updated
/// item; `None`, with the list unchanged, where no item has that id.
pub fn set_reading_read(items: &mut Vec<ReadingItem>, id: u32, read: bool) -> (r: Option<
    ReadingItem,
>)
    ensures
        match index_of(reading_ids(old(items)@), id) {
            None => r is None && final(items)@ == old(items)@,
            Some(i) => r == Some(with_read(old(items)@[i], read)) && final(items)@ == old(
                items,
            )@.update(i, with_read(old(items)@[i], read)),
        },
{
    match find_reading(items, id) {
        None => None,
        Some(i) => {
            proof {
                lemma_index_of(reading_ids(items@), id);
            }
            let mut r = items[i].clone();
            r.read = read;
            items.set(i, r.clone());
            Some(r)
        },
    }
}

/// Removes the first item with id `id` and returns it; `None`, with the list
/// unchanged, where no item has that id.
pub fn remove_reading(items: &mut Vec<ReadingItem>, id: u32) -> (r: Option<ReadingItem>)
    ensures
        match index_of(reading_ids(old(items)@), id) {
            None => r is None && final(items)@ == old(items)@,
            Some(i) => r == Some(old(items)@[i]) && final(items)@ == old(items)@.remove(i),
        },
{
    match find_reading(items, id) {
        None => None,
        Some(i) => {
            proof {
                lemma_index_of(reading_ids(items@), id);
            }
            Some(items.remove(i))
        },
    }
}

// ── Laws of ids ────────────────────────────────────────────────────────────

/// A new entry's id is fresh: every id already in the list is smaller.
pub proof fn lemma_next_id_is_fresh(ids: Seq<u32>)
    ensures
        forall|j: int| 0 <= j < ids.len() ==> ids[j] < next_id(ids),
{
    lemma_max_id(ids);
}

/// The new id is the least fresh one: no number from 1 up that is larger
/// than every id in the list is smaller than it.
pub proof fn lemma_next_id_is_least(ids: Seq<u32>, n: nat)
    requires
        n >= 1,
        forall|j: int| 0 <= j < ids.len() ==> ids[j] < n,
    ensures
        next_id(ids) <= n,
{
    lemma_max_id(ids);
}

/// Adding a task keeps the ids of the list distinct, and the new task is
/// found by its id at the end of the list.
pub proof fn lemma_add_task_keeps_ids_unique(s: Seq<Task>, t: Task)
    requires
        ids_unique(task_ids(s)),
        t.id == next_id(task_ids(s)),
    ensures
        ids_unique(task_ids(s.push(t))),
        index_of(task_ids(s.push(t)), t.id) == Some(s.len() as int),
{
    lemma_next_id_is_fresh(task_ids(s));
    let ids = task_ids(s.push(t));
    assert(ids =~= task_ids(s).push(t.id));
    assert(ids.drop_last() =~= task_ids(s));
    lemma_index_of(task_ids(s), t.id);
}

/// Adding a reading item keeps the ids of the list distinct, and the new
/// item is found by its id at the end of the list.
pub proof fn lemma_add_reading_keeps_ids_unique(s: Seq<ReadingItem>, r: ReadingItem)
    requires
        ids_unique(reading_ids(s)),
        r.id == next_id(reading_ids(s)),
    ensures
        ids_unique(reading_ids(s.push(r))),
        index_of(reading_ids(s.push(r)), r.id) == Some(s.len() as int),
{
    lemma_next_id_is_fresh(reading_ids(s));
    let ids = reading_ids(s.push(r));
    assert(ids =~= reading_ids(s).push(r.id));
    assert(ids.drop_last() =~= reading_ids(s));
    lemma_index_of(reading_ids(s), r.id);
}

/// Marking a task done or pending keeps every id where it was, and the task
/// is then found by its id with the new flag and its old text.
pub proof fn lemma_set_done_then_find(s: Seq<Task>, id: u32, done: bool)
    requires
        index_of(task_ids(s), id) is Some,
    ensures
        ({
            let i = index_of(task_ids(s), id)->0;
            let s2 = s.update(i, with_done(s[i], done));
            &&& task_ids(s2) == task_ids(s)
            &&& index_of(task_ids(s2), id) == Some(i)
            &&& s2[i].done == done
            &&& s2[i].text == s[i].text
        }),
{
    let i = index_of(task_ids(s), id)->0;
    lemma_index_of(task_ids(s), id);
    let s2 = s.update(i, with_done(s[i], done));
    assert(task_ids(s2) =~= task_ids(s));
}

/// Marking an item read or unread keeps every id where it was, and the item
/// is then found by its id with the new flag, its old address and title.
pub proof fn lemma_set_read_then_find(s: Seq<ReadingItem>, id: u32, read: bool)
    requires
        index_of(reading_ids(s), id) is Some,
    ensures
        ({
            let i = index_of(reading_ids(s), id)->0;
            let s2 = s.update(i, with_read(s[i], read));
            &&& reading_ids(s2) == reading_ids(s)
            &&& index_of(reading_ids(s2), id) == Some(i)
            &&& s2[i].read == read
            &&& s2[i].url == s[i].url
            &&& s2[i].title == s[i].title
        }),
{
    let i = index_of(reading_ids(s), id)->0;
    lemma_index_of(reading_ids(s), id);
    let s2 = s.update(i, with_read(s[i], read));
    assert(reading_ids(s2) =~= reading_ids(s));
}

/// Removing the entry at `i` from a list with distinct ids: the ids stay
/// distinct and the removed id is no longer found.
pub proof fn lemma_remove_then_absent(ids: Seq<u32>, i: int)
    requires
        ids_unique(ids),
        0 <= i < ids.len(),
    ensures
        ids_unique(ids.remove(i)),
        index_of(ids.remove(i), ids[i]) is None,
{
    let r = ids.remove(i);
    assert forall|a: int, b: int| 0 <= a < b < r.len() implies r[a] != r[b] by {
        let a2 = if a < i { a } else { a + 1 };
        let b2 = if b < i { b } else { b + 1 };
        assert(r[a] == ids[a2] && r[b] == ids[b2]);
    }
    lemma_index_of(r, ids[i]);
    assert forall|j: int| 0 <= j < r.len() implies r[j] != ids[i] by {
        let j2 = if j < i { j } else { j + 1 };
        assert(r[j] == ids[j2]);
    }
}

/// Removing a task by id from a list with distinct ids: the ids stay
/// distinct and no task with that id is left.
pub proof fn lemma_remove_task_then_absent(s: Seq<Task>, id: u32)
    requires
        ids_unique(task_ids(s)),
        index_of(task_ids(s), id) is Some,
    ensures
        ({
            let s2 = s.remove(index_of(task_ids(s), id)->0);
            ids_unique(task_ids(s2)) && index_of(task_ids(s2), id) is None
        }),
{
    let i = index_of(task_ids(s), id)->0;
    lemma_index_of(task_ids(s), id);
    assert(task_ids(s.remove(i)) =~= task_ids(s).remove(i));
    lemma_remove_then_absent(task_ids(s), i);
}

/// Removing a reading item by id from a list with distinct ids: the ids stay
/// distinct and no item with that id is left.
pub proof fn lemma_remove_reading_then_absent(s: Seq<ReadingItem>, id: u32)
    requires
        ids_unique(reading_ids(s)),
        index_of(reading_ids(s), id) is Some,
    ensures
        ({
            let s2 = s.remove(index_of(reading_ids(s), id)->0);
            ids_unique(reading_ids(s2)) && index_of(reading_ids(s2), id) is None
        }),
{
    let i = index_of(reading_ids(s), id)->0;
    lemma_index_of(reading_ids(s), id);
    assert(reading_ids(s.remove(i)) =~= reading_ids(s).remove(i));
    lemma_remove_then_absent(reading_ids(s), i);
}

// ── Reordering ──────────────────────────────────────────────────────────────

/// The tasks of `s` that stand at position `r` of `order` (by the first
/// occurrence of their id; `None`: tasks whose id is not in `order`), in
/// list order.
pub open spec fn rank_class(s: Seq<Task>, order: Seq<u32>, r: Option<int>) -> Seq<Task>
    decreases s.len(),
{
    if s.len() == 0 {
        Seq::empty()
    } else {
        let rest = rank_class(s.drop_last(), order, r);
        if index_of(order, s.last().id) == r {
            rest.push(s.last())
        } else {
            rest
        }
    }
}

/// The tasks that stand at positions `0..n` of `order`, position by position.
pub open spec fn ranked_prefix(s: Seq<Task>, order: Seq<u32>, n: nat) -> Seq<Task>
    decreases n,
{
    if n == 0 {
        Seq::empty()
    } else {
        ranked_prefix(s, order, (n - 1) as nat) + rank_class(s, order, Some(n - 1))
    }
}

/// `s` sorted, stably, by where each task's id first occurs in `order`;
/// tasks whose id is not in `order` come last, in their old order.
pub open spec fn reordered(s: Seq<Task>, order: Seq<u32>) -> Seq<Task> {
    ranked_prefix(s, order, order.len()) + rank_class(s, order, None)
}

spec fn opt_int(o: Option<usize>) -> Option<int> {
    match o {
        Some(r) => Some(r as int),
        None => None,
    }
}

/// Sorts the tasks, stably, by the position of their id in `order`; tasks
/// whose id is not in `order` go last.
pub fn reorder_tasks(tasks: &mut Vec<Task>, order: &Vec<u32>)
    ensures
        final(tasks)@ == reordered(old(tasks)@, order@),
{
    let n = tasks.len();
    let mut ranks: Vec<Option<usize>> = Vec::new();
    let mut i: usize = 0;
    while i < n
        invariant
            n == tasks.len(),
            i <= n,
            ranks.len() == i,
            forall|j: int| 0 <= j < i ==> opt_int(#[trigger] ranks@[j]) == index_of(order@, tasks@[j].id),
        decreases n - i,
    {
        let r = position_of(order, tasks[i].id);
        ranks.push(r);
        i = i + 1;
    }
    let mut out: Vec<Task> = Vec::new();
    let mut k: usize = 0;
    while k < order.len()
        invariant
            n == tasks.len(),
            ranks.len() == n,
            k <= order.len(),
            forall|j: int| 0 <= j < n ==> opt_int(#[trigger] ranks@[j]) == index_of(order@, tasks@[j].id),
            out@ == ranked_prefix(tasks@, order@, k as nat),
        decreases order.len() - k,
    {
        let ghost before = out@;
        let mut i: usize = 0;
        while i < n
            invariant
                n == tasks.len(),
                ranks.len() == n,
                i <= n,
                k < order.len(),
                forall|j: int| 0 <= j < n ==> opt_int(#[trigger] ranks@[j]) == index_of(order@, tasks@[j].id),
                before == ranked_prefix(tasks@, order@, k as nat),
                out@ == before + rank_class(tasks@.take(i as int), order@, Some(k as int)),
            decreases n - i,
        {
            assert(tasks@.take(i + 1).drop_last() =~= tasks@.take(i as int));
            assert(tasks@.take(i + 1).last() == tasks@[i as int]);
            assert(opt_int(ranks@[i as int]) == index_of(order@, tasks@[i as int].id));
            match ranks[i] {
                Some(r) => {
                    if r == k {
                        out.push(tasks[i].clone());
                    }
                },
                None => {},
            }
            i = i + 1;
        }
        assert(tasks@.take(n as int) =~= tasks@);
        k = k + 1;
    }
    let ghost before = out@;
    let mut i: usize = 0;
    while i < n
        invariant
            n == tasks.len(),
            ranks.len() == n,
            i <= n,
            forall|j: int| 0 <= j < n ==> opt_int(#[trigger] ranks@[j]) == index_of(order@, tasks@[j].id),
            before == ranked_prefix(tasks@, order@, order@.len()),
            out@ == before + rank_class(tasks@.take(i as int), order@, None),
        decreases n - i,
    {
        assert(tasks@.take(i + 1).drop_last() =~= tasks@.take(i as int));
        assert(tasks@.take(i + 1).last() == tasks@[i as int]);
        assert(opt_int(ranks@[i as int]) == index_of(order@, tasks@[i as int].id));
        if ranks[i].is_none() {
            out.push(tasks[i].clone());
        }
        i = i + 1;
    }
    assert(tasks@.take(n as int) =~= tasks@);
    *tasks = out;
}

// ── Laws of reordering ──────────────────────────────────────────────────────

/// The sort key of a task id: its position in `order`, or `order.len()`
/// where it does not occur.
pub open spec fn rank_key(order: Seq<u32>, id: u32) -> int {
    match index_of(order, id) {
        Some(k) => k,
        None => order.len() as int,
    }
}

/// The tasks are in ascending order of their sort keys.
pub open spec fn sorted_by_rank(r: Seq<Task>, order: Seq<u32>) -> bool {
    forall|i: int, j: int|
        0 <= i < j < r.len() ==> rank_key(order, r[i].id) <= rank_key(order, r[j].id)
}

proof fn lemma_class_concat(a: Seq<Task>, b: Seq<Task>, o: Seq<u32>, c: Option<int>)
    ensures
        rank_class(a + b, o, c) == rank_class(a, o, c) + rank_class(b, o, c),
    decreases b.len(),
{
    if b.len() == 0 {
        assert(a + b =~= a);
        assert(rank_class(a, o, c) + rank_class(b, o, c) =~= rank_class(a, o, c));
    } else {
        lemma_class_concat(a, b.drop_last(), o, c);
        assert((a + b).drop_last() =~= a + b.drop_last());
        assert((a + b).last() == b.last());
        if index_of(o, b.last().id) == c {
            assert(rank_class(a, o, c) + rank_class(b.drop_last(), o, c).push(b.last()) =~= (
            rank_class(a, o, c) + rank_class(b.drop_last(), o, c)).push(b.last()));
        }
    }
}

proof fn lemma_class_members(s: Seq<Task>, o: Seq<u32>, c: Option<int>)
    ensures
        forall|i: int|
            0 <= i < rank_class(s, o, c).len() ==> index_of(o, #[trigger] rank_class(
                s,
                o,
                c,
            )[i].id) == c,
    decreases s.len(),
{
    if s.len() > 0 {
        lemma_class_members(s.drop_last(), o, c);
    }
}

proof fn lemma_class_of_uniform(x: Seq<Task>, o: Seq<u32>, c: Option<int>, c2: Option<int>)
    requires
        forall|i: int| 0 <= i < x.len() ==> index_of(o, #[trigger] x[i].id) == c2,
    ensures
        rank_class(x, o, c) == (if c == c2 {
            x
        } else {
            Seq::<Task>::empty()
        }),
    decreases x.len(),
{
    if x.len() > 0 {
        let d = x.drop_last();
        assert forall|i: int| 0 <= i < d.len() implies index_of(o, #[trigger] d[i].id) == c2 by {
            assert(d[i] == x[i]);
        }
        lemma_class_of_uniform(d, o, c, c2);
        assert(index_of(o, x[x.len() - 1].id) == c2);
        if c == c2 {
            assert(d.push(x.last()) =~= x);
        }
    }
}

proof fn lemma_class_out_of_range(s: Seq<Task>, o: Seq<u32>, k: int)
    requires
        !(0 <= k < o.len()),
    ensures
        rank_class(s, o, Some(k)) == Seq::<Task>::empty(),
{
    let cls = rank_class(s, o, Some(k));
    lemma_class_members(s, o, Some(k));
    if cls.len() > 0 {
        lemma_index_of(o, cls[0].id);
        assert(index_of(o, cls[0].id) == Some(k));
    }
    assert(cls =~= Seq::<Task>::empty());
}

proof fn lemma_prefix_class(s: Seq<Task>, o: Seq<u32>, n: nat, c: Option<int>)
    ensures
        rank_class(ranked_prefix(s, o, n), o, c) == (if (c matches Some(k) && 0 <= k < n) {
            rank_class(s, o, c)
        } else {
            Seq::<Task>::empty()
        }),
    decreases n,
{
    if n == 0 {
        assert(rank_class(Seq::<Task>::empty(), o, c) =~= Seq::<Task>::empty());
    } else {
        let p = ranked_prefix(s, o, (n - 1) as nat);
        let cls = rank_class(s, o, Some(n - 1));
        lemma_prefix_class(s, o, (n - 1) as nat, c);
        lemma_class_concat(p, cls, o, c);
        lemma_class_members(s, o, Some(n - 1));
        lemma_class_of_uniform(cls, o, c, Some(n - 1));
        if c matches Some(k) && 0 <= k < n - 1 {
            assert(rank_class(s, o, c) + Seq::<Task>::empty() =~= rank_class(s, o, c));
        } else if c == Some(n - 1) {
            assert(Seq::<Task>::empty() + cls =~= cls);
        } else {
            assert(Seq::<Task>::empty() + Seq::<Task>::empty() =~= Seq::<Task>::empty());
        }
    }
}

/// Reordering is stable: for every position of `order` (and for the tasks
/// whose id is not in it), the tasks that belong there come out in the order
/// they had.
pub proof fn lemma_reorder_stable(s: Seq<Task>, order: Seq<u32>)
    ensures
        forall|c: Option<int>|
            #[trigger] rank_class(reordered(s, order), order, c) == rank_class(s, order, c),
{
    assert forall|c: Option<int>|
        #[trigger] rank_class(reordered(s, order), order, c) == rank_class(s, order, c) by {
        let p = ranked_prefix(s, order, order.len());
        let none = rank_class(s, order, None);
        lemma_class_concat(p, none, order, c);
        lemma_prefix_class(s, order, order.len(), c);
        lemma_class_members(s, order, None);
        lemma_class_of_uniform(none, order, c, None);
        if c matches Some(k) && 0 <= k < order.len() {
            assert(rank_class(s, order, c) + Seq::<Task>::empty() =~= rank_class(s, order, c));
        } else if c is None {
            assert(Seq::<Task>::empty() + none =~= none);
        } else {
            let k = c->0;
            lemma_class_out_of_range(s, order, k);
            assert(Seq::<Task>::empty() + Seq::<Task>::empty() =~= Seq::<Task>::empty());
        }
    }
}

proof fn lemma_prefix_sorted(s: Seq<Task>, o: Seq<u32>, n: nat)
    requires
        n <= o.len(),
    ensures
        sorted_by_rank(ranked_prefix(s, o, n), o),
        forall|i: int|
            0 <= i < ranked_prefix(s, o, n).len() ==> rank_key(
                o,
                #[trigger] ranked_prefix(s, o, n)[i].id,
            ) < n,
    decreases n,
{
    if n > 0 {
        let p = ranked_prefix(s, o, (n - 1) as nat);
        let cls = rank_class(s, o, Some(n - 1));
        let r = ranked_prefix(s, o, n);
        lemma_prefix_sorted(s, o, (n - 1) as nat);
        lemma_class_members(s, o, Some(n - 1));
        assert(r == p + cls);
        assert forall|i: int| 0 <= i < r.len() implies rank_key(o, #[trigger] r[i].id) < n by {
            if i < p.len() {
                assert(r[i] == p[i]);
            } else {
                assert(r[i] == cls[i - p.len()]);
            }
        }
        assert forall|i: int, j: int| 0 <= i < j < r.len() implies rank_key(o, r[i].id) <= rank_key(
            o,
            r[j].id,
        ) by {
            if j < p.len() {
                assert(r[i] == p[i] && r[j] == p[j]);
            } else if i < p.len() {
                assert(r[i] == p[i] && r[j] == cls[j - p.len()]);
                assert(rank_key(o, p[i].id) < n - 1);
            } else {
                assert(r[i] == cls[i - p.len()] && r[j] == cls[j - p.len()]);
            }
        }
    }
}

/// Reordering sorts: the sort keys (position in `order`, absent ids last)
/// ascend along the result.
pub proof fn lemma_reorder_sorted(s: Seq<Task>, order: Seq<u32>)
    ensures
        sorted_by_rank(reordered(s, order), order),
{
    let p = ranked_prefix(s, order, order.len());
    let none = rank_class(s, order, None);
    let r = reordered(s, order);
    lemma_prefix_sorted(s, order, order.len());
    lemma_class_members(s, order, None);
    assert forall|i: int, j: int| 0 <= i < j < r.len() implies rank_key(order, r[i].id)
        <= rank_key(order, r[j].id) by {
        if j < p.len() {
            assert(r[i] == p[i] && r[j] == p[j]);
        } else if i < p.len() {
            assert(r[i] == p[i] && r[j] == none[j - p.len()]);
        } else {
            assert(r[i] == none[i - p.len()] && r[j] == none[j - p.len()]);
        }
    }
}

spec fn classes_ms(s: Seq<Task>, o: Seq<u32>, n: nat) -> Multiset<Task>
    decreases n,
{
    if n == 0 {
        Multiset::empty()
    } else {
        classes_ms(s, o, (n - 1) as nat).add(rank_class(s, o, Some(n - 1)).to_multiset())
    }
}

proof fn lemma_prefix_ms(s: Seq<Task>, o: Seq<u32>, n: nat)
    ensures
        ranked_prefix(s, o, n).to_multiset() == classes_ms(s, o, n),
    decreases n,
{
    broadcast use vstd::seq_lib::group_to_multiset_ensures;

    if n == 0 {
        assert(Seq::<Task>::empty().to_multiset() =~= Multiset::<Task>::empty());
    } else {
        lemma_prefix_ms(s, o, (n - 1) as nat);
        vstd::seq_lib::lemma_multiset_commutative(
            ranked_prefix(s, o, (n - 1) as nat),
            rank_class(s, o, Some(n - 1)),
        );
    }
}

proof fn lemma_class_push(s: Seq<Task>, o: Seq<u32>, x: Task, c: Option<int>)
    ensures
        rank_class(s.push(x), o, c) == (if index_of(o, x.id) == c {
            rank_class(s, o, c).push(x)
        } else {
            rank_class(s, o, c)
        }),
{
    assert(s.push(x).drop_last() =~= s);
}

proof fn lemma_classes_ms_push(s: Seq<Task>, o: Seq<u32>, n: nat, x: Task)
    ensures
        classes_ms(s.push(x), o, n) == (if (index_of(o, x.id) matches Some(k) && 0 <= k < n) {
            classes_ms(s, o, n).insert(x)
        } else {
            classes_ms(s, o, n)
        }),
    decreases n,
{
    broadcast use vstd::multiset::group_multiset_axioms;
    broadcast use vstd::seq_lib::group_to_multiset_ensures;

    if n > 0 {
        lemma_classes_ms_push(s, o, (n - 1) as nat, x);
        lemma_class_push(s, o, x, Some(n - 1));
        let a = classes_ms(s, o, (n - 1) as nat);
        let b = rank_class(s, o, Some(n - 1)).to_multiset();
        if index_of(o, x.id) == Some(n - 1) {
            assert(a.add(b.insert(x)) =~= a.add(b).insert(x));
        } else if index_of(o, x.id) matches Some(k) && 0 <= k < n - 1 {
            assert(a.insert(x).add(b) =~= a.add(b).insert(x));
        }
    }
}

proof fn lemma_classes_ms_empty(o: Seq<u32>, n: nat)
    ensures
        classes_ms(Seq::<Task>::empty(), o, n) == Multiset::<Task>::empty(),
    decreases n,
{
    broadcast use vstd::multiset::group_multiset_axioms;
    broadcast use vstd::seq_lib::group_to_multiset_ensures;

    if n > 0 {
        lemma_classes_ms_empty(o, (n - 1) as nat);
        assert(rank_class(Seq::<Task>::empty(), o, Some(n - 1)) =~= Seq::<Task>::empty());
        assert(Seq::<Task>::empty().to_multiset() =~= Multiset::<Task>::empty());
        assert(Multiset::<Task>::empty().add(Multiset::<Task>::empty()) =~= Multiset::<
            Task,
        >::empty());
    }
}

proof fn lemma_partition_ms(s: Seq<Task>, o: Seq<u32>)
    ensures
        classes_ms(s, o, o.len()).add(rank_class(s, o, None).to_multiset()) == s.to_multiset(),
    decreases s.len(),
{
    broadcast use vstd::multiset::group_multiset_axioms;
    broadcast use vstd::seq_lib::group_to_multiset_ensures;

    if s.len() == 0 {
        lemma_classes_ms_empty(o, o.len());
        assert(s =~= Seq::<Task>::empty());
        assert(rank_class(s, o, None) =~= Seq::<Task>::empty());
        assert(Seq::<Task>::empty().to_multiset() =~= Multiset::<Task>::empty());
        assert(Multiset::<Task>::empty().add(Multiset::<Task>::empty()) =~= Multiset::<
            Task,
        >::empty());
    } else {
        let t = s.drop_last();
        let x = s.last();
        assert(t.push(x) =~= s);
        lemma_partition_ms(t, o);
        lemma_classes_ms_push(t, o, o.len(), x);
        lemma_class_push(t, o, x, None);
        lemma_index_of(o, x.id);
        let a = classes_ms(t, o, o.len());
        let b = rank_class(t, o, None).to_multiset();
        if index_of(o, x.id) is None {
            assert(a.add(b.insert(x)) =~= a.add(b).insert(x));
        } else {
            assert(a.insert(x).add(b) =~= a.add(b).insert(x));
        }
    }
}

/// Reordering only rearranges: the result holds the same tasks, each as
/// often as before.
pub proof fn lemma_reorder_permutation(s: Seq<Task>, order: Seq<u32>)
    ensures
        reordered(s, order).to_multiset() == s.to_multiset(),
{
    lemma_prefix_ms(s, order, order.len());
    lemma_partition_ms(s, order);
    vstd::seq_lib::lemma_multiset_commutative(
        ranked_prefix(s, order, order.len()),
        rank_class(s, order, None),
    );
}

} // verus!
