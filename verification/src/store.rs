//! The task store: an ordered list of tasks in which no id occurs twice.

use crate::number::{parse_i32, parse_i32_spec};
use crate::task::{flipped, new_task, Task, TaskView};
use crate::text::{trim, trimmed};
use vstd::prelude::*;

verus! {

/// Why an add was refused.
#[derive(Debug, Clone, Copy, PartialEq, Eq, Structural)]
pub enum AddError {
    /// The text given as id is not a 32-bit signed integer.
    InvalidId,
    /// A task of the store has the id already.
    DuplicateId,
}

/// Whether one of `tasks` has the id `id`.
pub open spec fn has_id(tasks: Seq<TaskView>, id: int) -> bool {
    exists|i: int| 0 <= i < tasks.len() && (#[trigger] tasks[i]).id == id
}

/// Whether no two of `tasks` share an id.
pub open spec fn distinct_ids(tasks: Seq<TaskView>) -> bool {
    forall|i: int, j: int|
        0 <= i < j < tasks.len() ==> (#[trigger] tasks[i]).id != (#[trigger] tasks[j]).id
}

/// The list after an attempt to add `t`: `t` comes last, unless its id is taken,
/// in which case nothing changes.
pub open spec fn added(tasks: Seq<TaskView>, t: TaskView) -> Seq<TaskView> {
    if has_id(tasks, t.id) {
        tasks
    } else {
        tasks.push(t)
    }
}

/// The list after attempts to add each of `news` in turn.
pub open spec fn added_all(tasks: Seq<TaskView>, news: Seq<TaskView>) -> Seq<TaskView>
    decreases news.len(),
{
    if news.len() == 0 {
        tasks
    } else {
        added(added_all(tasks, news.drop_last()), news.last())
    }
}

/// The list without the tasks whose id is `id`; the others keep their order.
pub open spec fn removed(tasks: Seq<TaskView>, id: int) -> Seq<TaskView> {
    tasks.filter(|t: TaskView| t.id != id)
}

/// Whether `id` is one of `ids`.
pub open spec fn marked(ids: Seq<i32>, id: int) -> bool {
    exists|k: int| 0 <= k < ids.len() && #[trigger] ids[k] == id
}

/// The list without the tasks whose id is one of `ids`; the others keep their order.
pub open spec fn removed_all(tasks: Seq<TaskView>, ids: Seq<i32>) -> Seq<TaskView> {
    tasks.filter(|t: TaskView| !marked(ids, t.id))
}

/// The list with the completion flag flipped on the tasks whose id is `id`.
pub open spec fn toggled(tasks: Seq<TaskView>, id: int) -> Seq<TaskView> {
    Seq::new(
        tasks.len(),
        |k: int|
            if tasks[k].id == id {
                flipped(tasks[k])
            } else {
                tasks[k]
            },
    )
}

/// A filter that every element passes changes nothing.
proof fn lemma_filter_all(tasks: Seq<TaskView>, keep: spec_fn(TaskView) -> bool)
    requires
        forall|i: int| 0 <= i < tasks.len() ==> keep(#[trigger] tasks[i]),
    ensures
        tasks.filter(keep) == tasks,
    decreases tasks.len(),
{
    reveal(Seq::filter);
    if tasks.len() > 0 {
        let head = tasks.drop_last();
        assert forall|i: int| 0 <= i < head.len() implies keep(#[trigger] head[i]) by {
            assert(head[i] == tasks[i]);
        }
        lemma_filter_all(head, keep);
        assert(keep(tasks[tasks.len() - 1]));
        assert(head.push(tasks.last()) =~= tasks);
    }
}

/// What a filter keeps of a list without repeated ids has no repeated ids, and
/// has only ids of the list.
proof fn lemma_filter_distinct(tasks: Seq<TaskView>, keep: spec_fn(TaskView) -> bool)
    requires
        distinct_ids(tasks),
    ensures
        distinct_ids(tasks.filter(keep)),
        forall|id: int| has_id(tasks.filter(keep), id) ==> has_id(tasks, id),
    decreases tasks.len(),
{
    reveal(Seq::filter);
    if tasks.len() > 0 {
        let head = tasks.drop_last();
        let last = tasks.last();
        assert(distinct_ids(head)) by {
            assert forall|i: int, j: int| 0 <= i < j < head.len() implies (#[trigger] head[i]).id
                != (#[trigger] head[j]).id by {
                assert(head[i] == tasks[i] && head[j] == tasks[j]);
            }
        }
        lemma_filter_distinct(head, keep);
        let kept = head.filter(keep);
        assert forall|id: int| has_id(head, id) implies has_id(tasks, id) by {
            let i = choose|i: int| 0 <= i < head.len() && (#[trigger] head[i]).id == id;
            assert(tasks[i].id == id);
        }
        assert(!has_id(head, last.id)) by {
            if has_id(head, last.id) {
                let i = choose|i: int| 0 <= i < head.len() && (#[trigger] head[i]).id == last.id;
                assert(tasks[i].id == tasks[tasks.len() - 1].id);
            }
        }
        if keep(last) {
            let all = kept.push(last);
            assert forall|i: int, j: int| 0 <= i < j < all.len() implies (#[trigger] all[i]).id
                != (#[trigger] all[j]).id by {
                if j == kept.len() {
                    assert(kept[i].id == all[i].id);
                    assert(has_id(kept, all[i].id));
                } else {
                    assert(all[i] == kept[i] && all[j] == kept[j]);
                }
            }
            assert forall|id: int| has_id(all, id) implies has_id(tasks, id) by {
                let i = choose|i: int| 0 <= i < all.len() && (#[trigger] all[i]).id == id;
                if i == kept.len() {
                    assert(tasks[tasks.len() - 1].id == id);
                } else {
                    assert(kept[i].id == id);
                    assert(has_id(kept, id));
                }
            }
        }
    }
}

/// Removing an id that no task has changes nothing.
pub proof fn lemma_remove_absent(tasks: Seq<TaskView>, id: int)
    requires
        !has_id(tasks, id),
    ensures
        removed(tasks, id) == tasks,
{
    lemma_filter_all(tasks, |t: TaskView| t.id != id);
}

/// Where no id occurs twice, removing the id of the task at position `i` takes
/// out that task and no other: the rest stays as it was, in the same order.
pub proof fn lemma_remove_present(tasks: Seq<TaskView>, id: int, i: int)
    requires
        distinct_ids(tasks),
        0 <= i < tasks.len(),
        tasks[i].id == id,
    ensures
        removed(tasks, id) == tasks.remove(i),
        removed(tasks, id).len() == tasks.len() - 1,
        !has_id(removed(tasks, id), id),
{
    let keep = |t: TaskView| t.id != id;
    let front = tasks.take(i);
    let one = seq![tasks[i]];
    let back = tasks.skip(i + 1);
    assert(tasks =~= front + one + back);
    assert forall|k: int| 0 <= k < front.len() implies keep(#[trigger] front[k]) by {
        assert(front[k] == tasks[k]);
    }
    assert forall|k: int| 0 <= k < back.len() implies keep(#[trigger] back[k]) by {
        assert(back[k] == tasks[k + i + 1]);
    }
    lemma_filter_all(front, keep);
    lemma_filter_all(back, keep);
    assert(one.filter(keep) =~= Seq::<TaskView>::empty()) by {
        reveal_with_fuel(Seq::filter, 2);
        assert(one.drop_last() =~= Seq::<TaskView>::empty());
    }
    Seq::filter_distributes_over_add(front, one, keep);
    Seq::filter_distributes_over_add(front + one, back, keep);
    assert(tasks.filter(keep) =~= front + back);
    assert(tasks.remove(i) =~= front + back);
    let rest = tasks.remove(i);
    if has_id(rest, id) {
        let k = choose|k: int| 0 <= k < rest.len() && (#[trigger] rest[k]).id == id;
        if k < i {
            assert(rest[k] == tasks[k]);
        } else {
            assert(rest[k] == tasks[k + 1]);
        }
    }
}

/// Flipping the completion flag of an id twice gives the list back.
pub proof fn lemma_toggle_twice(tasks: Seq<TaskView>, id: int)
    ensures
        toggled(toggled(tasks, id), id) == tasks,
{
    assert(toggled(toggled(tasks, id), id) =~= tasks);
}

/// Flipping the completion flag changes no id, no title, no description and no
/// position, and touches no task with another id.
pub proof fn lemma_toggle_keeps_rest(tasks: Seq<TaskView>, id: int)
    ensures
        toggled(tasks, id).len() == tasks.len(),
        forall|k: int|
            0 <= k < tasks.len() ==> {
                let before = #[trigger] tasks[k];
                let after = toggled(tasks, id)[k];
                &&& after.id == before.id
                &&& after.title == before.title
                &&& after.description == before.description
                &&& after.completed == (before.completed != (before.id == id))
            },
{
}

/// Tasks with pairwise distinct ids, added one after another to an empty list,
/// all get in and stand in the order in which they were added.
pub proof fn lemma_adds_keep_order(news: Seq<TaskView>)
    requires
        distinct_ids(news),
    ensures
        added_all(Seq::<TaskView>::empty(), news) == news,
    decreases news.len(),
{
    if news.len() == 0 {
        assert(news =~= Seq::<TaskView>::empty());
    } else {
        let head = news.drop_last();
        assert forall|i: int, j: int| 0 <= i < j < head.len() implies (#[trigger] head[i]).id
            != (#[trigger] head[j]).id by {
            assert(head[i] == news[i] && head[j] == news[j]);
        }
        lemma_adds_keep_order(head);
        if has_id(head, news.last().id) {
            let i = choose|i: int| 0 <= i < head.len() && (#[trigger] head[i]).id == news.last().id;
            assert(news[i].id == news[news.len() - 1].id);
        }
        assert(head.push(news.last()) =~= news);
    }
}

/// The tasks that adds with the given ids, titles and descriptions create.
pub open spec fn new_tasks(entries: Seq<(int, Seq<char>, Seq<char>)>) -> Seq<TaskView> {
    Seq::new(entries.len(), |k: int| new_task(entries[k].0, entries[k].1, entries[k].2))
}

/// Any number of adds with pairwise distinct ids, made on an empty store, all
/// succeed: the store then lists one task for each add, in the order of the adds,
/// with the id, title and description that were given, and none is completed.
pub proof fn lemma_adds_in_order(entries: Seq<(int, Seq<char>, Seq<char>)>)
    requires
        forall|i: int, j: int|
            0 <= i < j < entries.len() ==> (#[trigger] entries[i]).0 != (#[trigger] entries[j]).0,
    ensures
        added_all(Seq::<TaskView>::empty(), new_tasks(entries)) == new_tasks(entries),
        new_tasks(entries).len() == entries.len(),
        forall|k: int|
            0 <= k < entries.len() ==> {
                let task = #[trigger] new_tasks(entries)[k];
                &&& task.id == entries[k].0
                &&& task.title == entries[k].1
                &&& task.description == entries[k].2
                &&& !task.completed
            },
{
    let news = new_tasks(entries);
    assert forall|i: int, j: int| 0 <= i < j < news.len() implies (#[trigger] news[i]).id != (
    #[trigger] news[j]).id by {
        assert(entries[i].0 != entries[j].0);
    }
    lemma_adds_keep_order(news);
}

/// Adding keeps the ids distinct, whether the task gets in or not.
pub proof fn lemma_added_distinct(tasks: Seq<TaskView>, t: TaskView)
    requires
        distinct_ids(tasks),
    ensures
        distinct_ids(added(tasks, t)),
{
    if !has_id(tasks, t.id) {
        let all = tasks.push(t);
        assert forall|i: int, j: int| 0 <= i < j < all.len() implies (#[trigger] all[i]).id
            != (#[trigger] all[j]).id by {
            if j == tasks.len() {
                assert(tasks[i].id == all[i].id);
            } else {
                assert(all[i] == tasks[i] && all[j] == tasks[j]);
            }
        }
    }
}

/// The id that a text holds, as it was typed: a decimal 32-bit signed integer,
/// with any white space around it.
pub open spec fn parse_id_spec(text: Seq<char>) -> Option<i32> {
    parse_i32_spec(trimmed(text))
}

/// Reads an id as it was typed. White space around the number is ignored; any
/// other text that is no 32-bit signed integer is refused.
pub fn parse_id(text: &str) -> (result: Result<i32, AddError>)
    ensures
        match parse_id_spec(text@) {
            Some(id) => result == Ok::<i32, AddError>(id),
            None => result == Err::<i32, AddError>(AddError::InvalidId),
        },
{
    match parse_i32(trim(text)) {
        Some(id) => Ok(id),
        None => Err(AddError::InvalidId),
    }
}

/// Whether no task of `tasks` has the id `id`, so that a new task may take it.
pub fn check_unique_id(tasks: &Vec<Task>, id: i32) -> (unique: bool)
    ensures
        unique == !has_id(tasks.deep_view(), id as int),
{
    let mut i: usize = 0;
    while i < tasks.len()
        invariant
            i <= tasks.len(),
            forall|k: int| 0 <= k < i ==> (#[trigger] tasks.deep_view()[k]).id != id,
        decreases tasks.len() - i,
    {
        if tasks[i].id == id {
            assert(tasks.deep_view()[i as int].id == id);
            return false;
        }
        i = i + 1;
    }
    true
}

/// Whether `id` is one of `ids`.
fn is_marked(ids: &Vec<i32>, id: i32) -> (found: bool)
    ensures
        found == marked(ids@, id as int),
{
    let mut k: usize = 0;
    while k < ids.len()
        invariant
            k <= ids.len(),
            forall|j: int| 0 <= j < k ==> #[trigger] ids@[j] != id,
        decreases ids.len() - k,
    {
        if ids[k] == id {
            return true;
        }
        k = k + 1;
    }
    false
}

/// The position of the first task with the id `id`, or the number of tasks where
/// there is none.
fn position_of(tasks: &Vec<Task>, id: i32) -> (i: usize)
    ensures
        i <= tasks.len(),
        i < tasks.len() ==> tasks.deep_view()[i as int].id == id,
        forall|k: int| 0 <= k < i ==> (#[trigger] tasks.deep_view()[k]).id != id,
{
    let mut i: usize = 0;
    while i < tasks.len()
        invariant
            i <= tasks.len(),
            forall|k: int| 0 <= k < i ==> (#[trigger] tasks.deep_view()[k]).id != id,
        decreases tasks.len() - i,
    {
        if tasks[i].id == id {
            return i;
        }
        i = i + 1;
    }
    i
}

/// The tasks of `tasks` that `ids` does not name, in their order.
fn without_marked(tasks: Vec<Task>, ids: &Vec<i32>) -> (kept: Vec<Task>)
    ensures
        kept.deep_view() == removed_all(tasks.deep_view(), ids@),
{
    let ghost all = tasks.deep_view();
    let ghost keep = |t: TaskView| !marked(ids@, t.id);
    let mut kept: Vec<Task> = Vec::new();
    proof {
        reveal(Seq::filter);
        assert(all.take(0) =~= Seq::<TaskView>::empty());
        assert(kept.deep_view() =~= all.take(0).filter(keep));
    }
    for task in it: tasks
        invariant
            it.seq().len() == all.len(),
            forall|k: int| 0 <= k < all.len() ==> (#[trigger] it.seq()[k])@ == all[k],
            keep == |t: TaskView| !marked(ids@, t.id),
            kept.deep_view() == all.take(it.index() as int).filter(keep),
    {
        let ghost before = kept.deep_view();
        let ghost t = task@;
        proof {
            reveal(Seq::filter);
            assert(all.take(it.index() as int + 1).drop_last() =~= all.take(it.index() as int));
            assert(all.take(it.index() as int + 1).last() == t);
        }
        if !is_marked(ids, task.id) {
            kept.push(task);
            assert(kept.deep_view() =~= before.push(t));
        }
    }
    proof {
        assert(all.take(all.len() as int) =~= all);
    }
    kept
}

/// The task store. Its tasks stand in the order in which they were added, and no
/// two of them have the same id.
pub struct TaskStore {
    tasks: Vec<Task>,
}

impl View for TaskStore {
    type V = Seq<TaskView>;

    closed spec fn view(&self) -> Seq<TaskView> {
        self.tasks.deep_view()
    }
}

impl TaskStore {
    #[verifier::type_invariant]
    spec fn ids_are_distinct(&self) -> bool {
        distinct_ids(self.tasks.deep_view())
    }

    /// A store without tasks.
    pub fn new() -> (store: TaskStore)
        ensures
            store@ == Seq::<TaskView>::empty(),
    {
        let store = TaskStore { tasks: Vec::new() };
        assert(store@ =~= Seq::<TaskView>::empty());
        store
    }

    /// A store of the given tasks, in their order. Of tasks that share an id the
    /// first one is kept and the later ones are left out, as if each task had been
    /// added in turn; where the ids are distinct the store holds them all.
    pub fn from_tasks(tasks: Vec<Task>) -> (store: TaskStore)
        ensures
            store@ == added_all(Seq::<TaskView>::empty(), tasks.deep_view()),
            distinct_ids(store@),
    {
        let ghost all = tasks.deep_view();
        let mut kept: Vec<Task> = Vec::new();
        proof {
            assert(all.take(0) =~= Seq::<TaskView>::empty());
            assert(kept.deep_view() =~= Seq::<TaskView>::empty());
        }
        for task in it: tasks
            invariant
                it.seq().len() == all.len(),
                forall|k: int| 0 <= k < all.len() ==> (#[trigger] it.seq()[k])@ == all[k],
                kept.deep_view() == added_all(
                    Seq::<TaskView>::empty(),
                    all.take(it.index() as int),
                ),
                distinct_ids(kept.deep_view()),
        {
            let ghost before = kept.deep_view();
            let ghost t = task@;
            proof {
                assert(all.take(it.index() as int + 1).drop_last() =~= all.take(
                    it.index() as int,
                ));
                assert(all.take(it.index() as int + 1).last() == t);
                lemma_added_distinct(before, t);
            }
            if check_unique_id(&kept, task.id) {
                kept.push(task);
                assert(kept.deep_view() =~= before.push(t));
            }
        }
        proof {
            assert(all.take(all.len() as int) =~= all);
        }
        TaskStore { tasks: kept }
    }

    /// The number of tasks.
    pub fn len(&self) -> (n: usize)
        ensures
            n == self@.len(),
    {
        self.tasks.len()
    }

    /// Whether the store has no task.
    pub fn is_empty(&self) -> (empty: bool)
        ensures
            empty == (self@.len() == 0),
    {
        self.tasks.len() == 0
    }

    /// The tasks in the order in which they were added.
    pub fn tasks(&self) -> (tasks: &Vec<Task>)
        ensures
            tasks.deep_view() == self@,
            distinct_ids(self@),
    {
        proof {
            use_type_invariant(self);
        }
        &self.tasks
    }

    /// A copy of every task, in the order in which they were added.
    pub fn list(&self) -> (tasks: Vec<Task>)
        ensures
            tasks.deep_view() == self@,
            distinct_ids(self@),
    {
        proof {
            use_type_invariant(self);
        }
        let mut tasks: Vec<Task> = Vec::new();
        let mut i: usize = 0;
        while i < self.tasks.len()
            invariant
                i <= self.tasks.len(),
                tasks.deep_view() == self.tasks.deep_view().take(i as int),
            decreases self.tasks.len() - i,
        {
            let ghost before = tasks.deep_view();
            let copy = self.tasks[i].clone();
            tasks.push(copy);
            assert(tasks.deep_view() =~= before.push(self.tasks.deep_view()[i as int]));
            assert(tasks.deep_view() =~= self.tasks.deep_view().take(i as int + 1));
            i = i + 1;
        }
        assert(self.tasks.deep_view().take(self.tasks.len() as int) =~= self@);
        tasks
    }

    /// Whether a task has the id `id`.
    pub fn contains(&self, id: i32) -> (found: bool)
        ensures
            found == has_id(self@, id as int),
    {
        !check_unique_id(&self.tasks, id)
    }

    /// Adds a task with the given id, not completed, after the others. Where a
    /// task has the id already, nothing changes and the error says so.
    pub fn insert(&mut self, id: i32, title: String, description: String) -> (result: Result<
        (),
        AddError,
    >)
        ensures
            final(self)@ == added(old(self)@, new_task(id as int, title@, description@)),
            has_id(old(self)@, id as int) ==> result == Err::<(), AddError>(AddError::DuplicateId),
            !has_id(old(self)@, id as int) ==> result == Ok::<(), AddError>(()),
            distinct_ids(final(self)@),
    {
        proof {
            use_type_invariant(&*self);
            lemma_added_distinct(self@, new_task(id as int, title@, description@));
        }
        if !check_unique_id(&self.tasks, id) {
            return Err(AddError::DuplicateId);
        }
        let ghost before = self.tasks.deep_view();
        let mut tasks: Vec<Task> = Vec::new();
        std::mem::swap(&mut tasks, &mut self.tasks);
        tasks.push(Task::new(id, title, description));
        assert(tasks.deep_view() =~= before.push(new_task(id as int, title@, description@)));
        self.tasks = tasks;
        Ok(())
    }

    /// Adds a task whose id is given as text, as it was typed: white space around
    /// the number is ignored. Where the text is no 32-bit signed integer, or a task
    /// has the id already, nothing changes and the error says which.
    pub fn add(&mut self, id: &str, title: &str, description: &str) -> (result: Result<
        (),
        AddError,
    >)
        ensures
            parse_id_spec(id@) is None ==> {
                &&& result == Err::<(), AddError>(AddError::InvalidId)
                &&& final(self)@ == old(self)@
            },
            parse_id_spec(id@) matches Some(n) ==> {
                &&& final(self)@ == added(old(self)@, new_task(n as int, title@, description@))
                &&& has_id(old(self)@, n as int) ==> result == Err::<(), AddError>(
                    AddError::DuplicateId,
                )
                &&& !has_id(old(self)@, n as int) ==> result == Ok::<(), AddError>(())
            },
            distinct_ids(final(self)@),
    {
        proof {
            use_type_invariant(&*self);
        }
        match parse_id(id) {
            Err(error) => Err(error),
            Ok(n) => self.insert(n, title.to_owned(), description.to_owned()),
        }
    }

    /// Removes the task with the id `id`, and says whether there was one. The
    /// other tasks stay as they are, in their order; without such a task nothing
    /// changes.
    pub fn remove(&mut self, id: i32) -> (found: bool)
        ensures
            found == has_id(old(self)@, id as int),
            final(self)@ == removed(old(self)@, id as int),
            distinct_ids(final(self)@),
    {
        proof {
            use_type_invariant(&*self);
            lemma_filter_distinct(self@, |t: TaskView| t.id != id as int);
        }
        let i = position_of(&self.tasks, id);
        if i == self.tasks.len() {
            proof {
                lemma_remove_absent(self@, id as int);
            }
            return false;
        }
        proof {
            lemma_remove_present(self@, id as int, i as int);
        }
        let ghost before = self.tasks.deep_view();
        let mut tasks: Vec<Task> = Vec::new();
        std::mem::swap(&mut tasks, &mut self.tasks);
        tasks.remove(i);
        assert(tasks.deep_view() =~= before.remove(i as int));
        self.tasks = tasks;
        true
    }

    /// Removes every task whose id is one of `ids`, and returns how many tasks
    /// left. The other tasks stay as they are, in their order.
    pub fn remove_all(&mut self, ids: &Vec<i32>) -> (count: usize)
        ensures
            final(self)@ == removed_all(old(self)@, ids@),
            count == old(self)@.len() - final(self)@.len(),
            distinct_ids(final(self)@),
    {
        proof {
            use_type_invariant(&*self);
            lemma_filter_distinct(self@, |t: TaskView| !marked(ids@, t.id));
            self@.lemma_filter_len(|t: TaskView| !marked(ids@, t.id));
        }
        let before = self.tasks.len();
        let mut tasks: Vec<Task> = Vec::new();
        std::mem::swap(&mut tasks, &mut self.tasks);
        let kept = without_marked(tasks, ids);
        let after = kept.len();
        self.tasks = kept;
        before - after
    }

    /// Flips the completion flag of the task with the id `id`. Without such a task
    /// nothing changes.
    pub fn toggle_completed(&mut self, id: i32)
        ensures
            final(self)@ == toggled(old(self)@, id as int),
            distinct_ids(final(self)@),
    {
        proof {
            use_type_invariant(&*self);
        }
        let i = position_of(&self.tasks, id);
        let ghost before = self.tasks.deep_view();
        if i < self.tasks.len() {
            let mut tasks: Vec<Task> = Vec::new();
            std::mem::swap(&mut tasks, &mut self.tasks);
            let mut task = tasks.remove(i);
            task.completed = !task.completed;
            tasks.insert(i, task);
            assert(tasks.deep_view() =~= toggled(before, id as int));
            self.tasks = tasks;
        } else {
            assert(self.tasks.deep_view() =~= toggled(before, id as int));
        }
    }
}

} // verus!
