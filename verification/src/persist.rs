//! The text in which a task list is kept: one line for each task, its four fields
//! separated by commas, in the order id, title, description, completed.

use crate::number::{
    int_text, lemma_int_text_chars, lemma_parse_i32_text, parse_i32, parse_i32_spec, push_i32,
};
use crate::store::{added_all, distinct_ids, lemma_adds_keep_order, TaskStore};
use crate::task::{Task, TaskView};
use crate::text::{
    free_of, join, lemma_join_free, lemma_split_concat, lemma_split_join, lines, lines_of,
    split, split_on, strip_cr, strip_each,
};
use vstd::prelude::*;
use vstd::string::StringExecFns;

verus! {

/// The text of a completion flag.
pub open spec fn bool_text(b: bool) -> Seq<char> {
    if b {
        "true"@
    } else {
        "false"@
    }
}

/// The four fields of a task's line, in order.
pub open spec fn fields_of(t: TaskView) -> Seq<Seq<char>> {
    seq![int_text(t.id), t.title, t.description, bool_text(t.completed)]
}

/// The line of a task, without the line feed that ends it in the file.
pub open spec fn line_text(t: TaskView) -> Seq<char> {
    join(fields_of(t), ',')
}

/// The lines of the tasks, in order.
pub open spec fn lines_text(tasks: Seq<TaskView>) -> Seq<Seq<char>> {
    Seq::new(tasks.len(), |k: int| line_text(tasks[k]))
}

/// The text of a whole list: the line of each task in order, each ended by a line
/// feed.
pub open spec fn file_text(tasks: Seq<TaskView>) -> Seq<char>
    decreases tasks.len(),
{
    if tasks.len() == 0 {
        Seq::<char>::empty()
    } else {
        file_text(tasks.drop_last()) + line_text(tasks.last()).push('\n')
    }
}

/// What a line of the file turns out to be.
pub enum LineView {
    /// The line has four fields and its first one is a 32-bit signed integer.
    Record(TaskView),
    /// The line does not have four fields; it is passed over.
    Skipped,
    /// The line has four fields, but the first one is no 32-bit signed integer.
    BadId,
}

/// What a line of the file turns out to be.
#[derive(Debug)]
pub enum Line {
    /// The line has four fields and its first one is a 32-bit signed integer.
    Record(Task),
    /// The line does not have four fields; it is passed over.
    Skipped,
    /// The line has four fields, but the first one is no 32-bit signed integer.
    BadId,
}

impl View for Line {
    type V = LineView;

    open spec fn view(&self) -> LineView {
        match self {
            Line::Record(task) => LineView::Record(task@),
            Line::Skipped => LineView::Skipped,
            Line::BadId => LineView::BadId,
        }
    }
}

/// The reading of a file stopped at a line whose id field is no 32-bit signed
/// integer.
#[derive(Debug, Clone, Copy, PartialEq, Eq, Structural)]
pub struct LoadError {
    /// The position of that line among the lines read, counted from zero.
    pub line: usize,
}

/// What the line `line` holds. Its fields are what stands between its commas. With
/// four fields it is a task: the first field is the id, written as a decimal
/// integer with nothing around it, the second the title, the third the
/// description, and the task is completed where the fourth is exactly `true`.
pub open spec fn parse_line_spec(line: Seq<char>) -> LineView {
    let fields = split_on(line, ',');
    if fields.len() != 4 {
        LineView::Skipped
    } else {
        match parse_i32_spec(fields[0]) {
            None => LineView::BadId,
            Some(id) => LineView::Record(
                TaskView {
                    id: id as int,
                    title: fields[1],
                    description: fields[2],
                    completed: fields[3] == "true"@,
                },
            ),
        }
    }
}

/// What a sequence of lines holds: the tasks of its lines in order, or the
/// position of the first line with a bad id. Lines without four fields count for
/// nothing.
pub open spec fn load_lines_spec(lines: Seq<Seq<char>>) -> Result<Seq<TaskView>, int>
    decreases lines.len(),
{
    if lines.len() == 0 {
        Ok(Seq::<TaskView>::empty())
    } else {
        match load_lines_spec(lines.drop_last()) {
            Err(at) => Err(at),
            Ok(tasks) => match parse_line_spec(lines.last()) {
                LineView::Record(t) => Ok(tasks.push(t)),
                LineView::Skipped => Ok(tasks),
                LineView::BadId => Err(lines.len() - 1),
            },
        }
    }
}

/// What a text holds: what its lines hold.
pub open spec fn load_spec(text: Seq<char>) -> Result<Seq<TaskView>, int> {
    load_lines_spec(lines_of(text))
}

/// Whether the format can hold the task: its id is a 32-bit signed integer, and
/// neither its title nor its description holds a comma or a line feed.
pub open spec fn storable(t: TaskView) -> bool {
    &&& i32::MIN <= t.id <= i32::MAX
    &&& free_of(t.title, ',')
    &&& free_of(t.title, '\n')
    &&& free_of(t.description, ',')
    &&& free_of(t.description, '\n')
}

/// Whether the format can hold every task of the list.
pub open spec fn all_storable(tasks: Seq<TaskView>) -> bool {
    forall|k: int| 0 <= k < tasks.len() ==> storable(#[trigger] tasks[k])
}

/// The line of a task written out: id, title, description and completion flag,
/// with a comma after each of the first three.
pub proof fn lemma_line_shape(t: TaskView)
    ensures
        line_text(t) == int_text(t.id).push(',') + t.title.push(',') + t.description.push(',')
            + bool_text(t.completed),
{
    let f = fields_of(t);
    reveal_with_fuel(join, 5);
    assert(f.drop_last().drop_last().drop_last() =~= seq![f[0]]);
    assert(f.drop_last().drop_last() =~= seq![f[0], f[1]]);
    assert(f.drop_last() =~= seq![f[0], f[1], f[2]]);
    assert(join(f, ',') =~= f[0].push(',') + f[1].push(',') + f[2].push(',') + f[3]);
}

/// Appends the line of `task` to `out`, without a line feed.
pub fn push_line(out: &mut String, task: &Task)
    ensures
        final(out)@ == old(out)@ + line_text(task@),
{
    push_i32(out, task.id);
    out.push(',');
    out.append(task.title.as_str());
    out.push(',');
    out.append(task.description.as_str());
    out.push(',');
    if task.completed {
        out.append("true");
    } else {
        out.append("false");
    }
    proof {
        lemma_line_shape(task@);
        assert(final(out)@ =~= old(out)@ + line_text(task@));
    }
}

/// The line of `task`, without a line feed.
pub fn format_line(task: &Task) -> (line: String)
    ensures
        line@ == line_text(task@),
{
    let mut line = String::new();
    push_line(&mut line, task);
    assert(line@ =~= line_text(task@));
    line
}

/// The text of the whole list, as the file holds it.
pub fn save(tasks: &Vec<Task>) -> (text: String)
    ensures
        text@ == file_text(tasks.deep_view()),
{
    let mut text = String::new();
    let mut i: usize = 0;
    let ghost all = tasks.deep_view();
    while i < tasks.len()
        invariant
            i <= tasks.len(),
            all == tasks.deep_view(),
            text@ == file_text(all.take(i as int)),
        decreases tasks.len() - i,
    {
        push_line(&mut text, &tasks[i]);
        text.push('\n');
        proof {
            assert(all.take(i as int + 1).drop_last() =~= all.take(i as int));
            assert(all.take(i as int + 1).last() == tasks[i as int]@);
            assert(text@ =~= file_text(all.take(i as int + 1)));
        }
        i = i + 1;
    }
    assert(all.take(tasks.len() as int) =~= all);
    text
}

/// Reads one line of the file.
pub fn parse_line(line: &str) -> (parsed: Line)
    ensures
        parsed@ == parse_line_spec(line@),
{
    let mut fields = split(line, ',');
    if fields.len() != 4 {
        return Line::Skipped;
    }
    let yes = "true".to_owned();
    let completed = fields[3] == yes;
    let description = fields.remove(2);
    let title = fields.remove(1);
    match parse_i32(fields[0].as_str()) {
        None => Line::BadId,
        Some(id) => Line::Record(Task { id, title, description, completed }),
    }
}

/// Reads the tasks from the lines of a file, in order. Lines without four fields
/// are passed over. At the first line whose id is no 32-bit signed integer the
/// reading stops with an error that gives the line's position.
pub fn load_lines(lines: &Vec<String>) -> (result: Result<Vec<Task>, LoadError>)
    ensures
        match load_lines_spec(lines.deep_view()) {
            Ok(tasks) => result matches Ok(found) && found.deep_view() == tasks,
            Err(at) => result == Err::<Vec<Task>, LoadError>(LoadError { line: at as usize })
                && 0 <= at < lines.len(),
        },
{
    let mut found: Vec<Task> = Vec::new();
    let mut i: usize = 0;
    let ghost all = lines.deep_view();
    proof {
        assert(all.take(0) =~= Seq::<Seq<char>>::empty());
        assert(found.deep_view() =~= Seq::<TaskView>::empty());
    }
    while i < lines.len()
        invariant
            i <= lines.len(),
            all == lines.deep_view(),
            load_lines_spec(all.take(i as int)) == Ok::<Seq<TaskView>, int>(found.deep_view()),
        decreases lines.len() - i,
    {
        let ghost before = found.deep_view();
        proof {
            assert(all.take(i as int + 1).drop_last() =~= all.take(i as int));
            assert(all.take(i as int + 1).last() == lines[i as int]@);
        }
        match parse_line(lines[i].as_str()) {
            Line::Record(task) => {
                let ghost t = task@;
                found.push(task);
                assert(found.deep_view() =~= before.push(t));
            },
            Line::Skipped => {},
            Line::BadId => {
                proof {
                    lemma_load_stays_bad(all, i as int + 1);
                }
                return Err(LoadError { line: i });
            },
        }
        i = i + 1;
    }
    assert(all.take(lines.len() as int) =~= all);
    Ok(found)
}

/// Reads the tasks from the text of a file.
pub fn load(text: &str) -> (result: Result<Vec<Task>, LoadError>)
    ensures
        match load_spec(text@) {
            Ok(tasks) => result matches Ok(found) && found.deep_view() == tasks,
            Err(at) => result == Err::<Vec<Task>, LoadError>(LoadError { line: at as usize })
                && 0 <= at < lines_of(text@).len(),
        },
{
    let all = lines(text);
    load_lines(&all)
}

impl TaskStore {
    /// The text of the store's tasks, as the file holds it.
    pub fn to_text(&self) -> (text: String)
        ensures
            text@ == file_text(self@),
    {
        save(self.tasks())
    }

    /// The store that the lines of a file hold. Of lines that repeat an id the
    /// first one counts.
    pub fn from_lines(lines: &Vec<String>) -> (result: Result<TaskStore, LoadError>)
        ensures
            match load_lines_spec(lines.deep_view()) {
                Ok(tasks) => result matches Ok(store) && store@ == added_all(
                    Seq::<TaskView>::empty(),
                    tasks,
                ),
                Err(at) => result matches Err(error) && error.line == at,
            },
    {
        match load_lines(lines) {
            Ok(tasks) => Ok(TaskStore::from_tasks(tasks)),
            Err(error) => Err(error),
        }
    }

    /// The store that the text of a file holds. Of lines that repeat an id the
    /// first one counts.
    pub fn from_text(text: &str) -> (result: Result<TaskStore, LoadError>)
        ensures
            match load_spec(text@) {
                Ok(tasks) => result matches Ok(store) && store@ == added_all(
                    Seq::<TaskView>::empty(),
                    tasks,
                ),
                Err(at) => result matches Err(error) && error.line == at,
            },
    {
        let all = lines(text);
        TaskStore::from_lines(&all)
    }
}

/// Once the first `n` lines hold a bad id, so do all the lines, at the same place.
proof fn lemma_load_stays_bad(lines: Seq<Seq<char>>, n: int)
    requires
        0 <= n <= lines.len(),
        load_lines_spec(lines.take(n)) is Err,
    ensures
        load_lines_spec(lines) == load_lines_spec(lines.take(n)),
    decreases lines.len() - n,
{
    if n == lines.len() {
        assert(lines.take(n) =~= lines);
    } else {
        assert(lines.take(n + 1).drop_last() =~= lines.take(n));
        lemma_load_stays_bad(lines, n + 1);
    }
}

/// The fields of a task that the format can hold are free of commas and line
/// feeds, and its line is free of line feeds and does not end in a carriage return.
proof fn lemma_fields_free(t: TaskView)
    requires
        storable(t),
    ensures
        fields_of(t).len() == 4,
        forall|k: int| 0 <= k < 4 ==> free_of(#[trigger] fields_of(t)[k], ','),
        forall|k: int| 0 <= k < 4 ==> free_of(#[trigger] fields_of(t)[k], '\n'),
        free_of(line_text(t), '\n'),
        strip_cr(line_text(t)) == line_text(t),
        line_text(t).len() > 0,
{
    let f = fields_of(t);
    reveal_strlit("true");
    reveal_strlit("false");
    assert forall|i: int| 0 <= i < f[0].len() implies f[0][i] != ',' && f[0][i] != '\n' by {
        lemma_int_text_chars(t.id, i);
    }
    assert(free_of(f[0], ',') && free_of(f[0], '\n'));
    assert(free_of(f[3], ',') && free_of(f[3], '\n'));
    assert forall|k: int| 0 <= k < 4 implies free_of(#[trigger] f[k], ',') by {
        assert(k == 0 || k == 1 || k == 2 || k == 3);
    }
    assert forall|k: int| 0 <= k < 4 implies free_of(#[trigger] f[k], '\n') by {
        assert(k == 0 || k == 1 || k == 2 || k == 3);
    }
    lemma_join_free(f, ',', '\n');
    assert(join(f, ',') == join(f.drop_last(), ',').push(',') + f[3]);
    assert(f[3].len() >= 4);
    assert(f[3].last() == 'e');
    assert(line_text(t).last() == f[3].last());
}

/// The line written for a task reads back as that task, where the format can
/// hold the task.
pub proof fn lemma_line_round_trip(t: TaskView)
    requires
        storable(t),
    ensures
        parse_line_spec(line_text(t)) == LineView::Record(t),
{
    let f = fields_of(t);
    lemma_fields_free(t);
    lemma_split_join(f, ',');
    lemma_parse_i32_text(t.id as i32);
    reveal_strlit("true");
    reveal_strlit("false");
    assert("true"@.len() != "false"@.len());
    assert((f[3] == "true"@) == t.completed);
}

/// The text written for a list is cut at its line feeds into the lines of the
/// tasks and an empty rest, where the format can hold the tasks.
proof fn lemma_file_pieces(tasks: Seq<TaskView>)
    requires
        all_storable(tasks),
    ensures
        split_on(file_text(tasks), '\n') == lines_text(tasks).push(Seq::<char>::empty()),
    decreases tasks.len(),
{
    if tasks.len() == 0 {
        assert(lines_text(tasks).push(Seq::<char>::empty()) =~= seq![Seq::<char>::empty()]);
    } else {
        let head = tasks.drop_last();
        let line = line_text(tasks.last());
        assert(all_storable(head)) by {
            assert forall|k: int| 0 <= k < head.len() implies storable(#[trigger] head[k]) by {
                assert(head[k] == tasks[k]);
            }
        }
        assert(storable(tasks[tasks.len() - 1]));
        lemma_file_pieces(head);
        lemma_fields_free(tasks.last());
        lemma_split_concat(file_text(head), line, '\n');
        let whole = file_text(tasks);
        assert(whole =~= (file_text(head) + line).push('\n'));
        assert(whole.drop_last() =~= file_text(head) + line);
        let pieces = split_on(file_text(head), '\n');
        assert(pieces.drop_last() =~= lines_text(head));
        assert(pieces.last() + line =~= line);
        assert(lines_text(head).push(line) =~= lines_text(tasks));
    }
}

/// The lines of the text written for a list are the lines of its tasks, where the
/// format can hold the tasks.
pub proof fn lemma_file_lines(tasks: Seq<TaskView>)
    requires
        all_storable(tasks),
    ensures
        lines_of(file_text(tasks)) == lines_text(tasks),
{
    lemma_file_pieces(tasks);
    let pieces = split_on(file_text(tasks), '\n');
    assert(pieces.drop_last() =~= lines_text(tasks));
    assert forall|k: int| 0 <= k < tasks.len() implies strip_cr(lines_text(tasks)[k])
        == lines_text(tasks)[k] by {
        assert(storable(tasks[k]));
        lemma_fields_free(tasks[k]);
    }
    assert(strip_each(lines_text(tasks)) =~= lines_text(tasks));
}

/// The lines written for a list read back as that list, where the format can hold
/// the tasks.
pub proof fn lemma_lines_round_trip(tasks: Seq<TaskView>)
    requires
        all_storable(tasks),
    ensures
        load_lines_spec(lines_text(tasks)) == Ok::<Seq<TaskView>, int>(tasks),
    decreases tasks.len(),
{
    if tasks.len() == 0 {
        assert(tasks =~= Seq::<TaskView>::empty());
    } else {
        let head = tasks.drop_last();
        assert(all_storable(head)) by {
            assert forall|k: int| 0 <= k < head.len() implies storable(#[trigger] head[k]) by {
                assert(head[k] == tasks[k]);
            }
        }
        assert(storable(tasks[tasks.len() - 1]));
        lemma_lines_round_trip(head);
        lemma_line_round_trip(tasks.last());
        assert(lines_text(tasks).drop_last() =~= lines_text(head));
        assert(head.push(tasks.last()) =~= tasks);
    }
}

/// Saving a list and loading the text again gives the same tasks in the same
/// order, where no title and no description holds a comma or a line feed.
pub proof fn lemma_save_load(tasks: Seq<TaskView>)
    requires
        all_storable(tasks),
    ensures
        load_spec(file_text(tasks)) == Ok::<Seq<TaskView>, int>(tasks),
{
    lemma_file_lines(tasks);
    lemma_lines_round_trip(tasks);
}

/// A store that is saved and built again from the text that was saved holds the
/// same tasks in the same order, where no title and no description holds a comma
/// or a line feed.
pub proof fn lemma_store_round_trip(tasks: Seq<TaskView>)
    requires
        distinct_ids(tasks),
        all_storable(tasks),
    ensures
        load_spec(file_text(tasks)) matches Ok(loaded) && added_all(
            Seq::<TaskView>::empty(),
            loaded,
        ) == tasks,
{
    lemma_save_load(tasks);
    lemma_adds_keep_order(tasks);
}

} // verus!
