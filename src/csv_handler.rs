//! The file in which the store is kept: one comma-separated record per task,
//! with the fields name, description, due date (`YYYY-MM-DD` or empty),
//! tags (comma-joined), priority and completion (`true` or `false`).

use vstd::prelude::*;
use crate::date::{date_text, parse_date};
use crate::task::{
    DEFAULT_PRIORITY,
    MAX_PRIORITY,
    Task,
    TaskView,
    date_format_message,
    priority_range_message,
    tags_line,
    tags_of_list,
};
use crate::task::tags_in_order;
use crate::text::{
    join_commas,
    lemma_decimal_round_trip,
    lemma_sorted_listing_exists,
    lemma_split_join,
    strictly_sorted,
    trim_start,
    trim_end,
    decimal,
    decimal_text,
    parse_decimal_u8,
    parse_u8,
    split_commas,
    trim,
    views_of,
};

verus! {

/// Where the store's file lies.
pub struct CsvHandler {
    file_path: String,
}

impl CsvHandler {
    pub fn new(file_path: String) -> (r: CsvHandler)
        ensures
            r.path() == file_path@,
    {
        CsvHandler { file_path }
    }

    pub closed spec fn path(&self) -> Seq<char> {
        self.file_path@
    }

    pub fn file_path(&self) -> (r: &String)
        ensures
            r@ == self.path(),
    {
        &self.file_path
    }
}

/// Field `k` of a record; a missing field reads as empty.
pub open spec fn field(fields: Seq<Seq<char>>, k: int) -> Seq<char> {
    if 0 <= k < fields.len() {
        fields[k]
    } else {
        Seq::empty()
    }
}

/// The record that stands for a task.
pub open spec fn record_of(t: TaskView) -> Seq<Seq<char>> {
    seq![
        t.name,
        match t.description {
            Some(d) => d,
            None => Seq::empty(),
        },
        match t.due_date {
            Some(d) => date_text(d),
            None => Seq::empty(),
        },
        tags_line(t.tags),
        decimal_text(t.priority),
        if t.completed {
            "true"@
        } else {
            "false"@
        },
    ]
}

/// The tags that a tags field lists: its comma-separated pieces, trimmed,
/// without the empty ones.
pub open spec fn tags_of_field(f: Seq<char>) -> Set<Seq<char>> {
    tags_of_list(f)
}

/// The priority that a priority field gives: its number where that is a
/// priority, the default otherwise.
pub open spec fn priority_of_field(f: Seq<char>) -> u8 {
    match parse_u8(f) {
        Some(p) => if p <= MAX_PRIORITY {
            p
        } else {
            DEFAULT_PRIORITY
        },
        None => DEFAULT_PRIORITY,
    }
}

pub open spec fn due_date_rejected(fields: Seq<Seq<char>>) -> bool {
    field(fields, 2).len() > 0 && parse_date(field(fields, 2)) is None
}

/// A priority field that is not empty and not a number from 0 to 10.
pub open spec fn priority_rejected(fields: Seq<Seq<char>>) -> bool {
    field(fields, 4).len() > 0 && !(parse_u8(field(fields, 4)) matches Some(p) && p
        <= MAX_PRIORITY)
}

/// The task that a record stands for. A due date or priority that cannot
/// be read is left at its default; the record is still taken.
pub open spec fn task_of_record(fields: Seq<Seq<char>>) -> TaskView {
    TaskView {
        name: field(fields, 0),
        description: if field(fields, 1).len() > 0 {
            Some(field(fields, 1))
        } else {
            None
        },
        due_date: parse_date(field(fields, 2)),
        tags: tags_of_field(field(fields, 3)),
        priority: priority_of_field(field(fields, 4)),
        completed: field(fields, 5) == "true"@,
    }
}

pub open spec fn due_date_warning(name: Seq<char>) -> Seq<char> {
    "Error setting due date for task '"@ + name + "': "@ + date_format_message()
}

pub open spec fn priority_warning(name: Seq<char>) -> Seq<char> {
    "Error setting priority for task '"@ + name + "': "@ + priority_range_message()
}

/// The warnings that reading a record gives: one for a due date that is
/// not a `YYYY-MM-DD` date, one for a priority that is not a number from 0
/// to 10 (empty fields give none).
pub open spec fn record_warnings(fields: Seq<Seq<char>>) -> Seq<Seq<char>> {
    (if due_date_rejected(fields) {
        seq![due_date_warning(field(fields, 0))]
    } else {
        Seq::empty()
    }) + (if priority_rejected(fields) {
        seq![priority_warning(field(fields, 0))]
    } else {
        Seq::empty()
    })
}

/// A tag that the file keeps as it is: not empty, no comma, no white space
/// at either end.
pub open spec fn storable_tag(tag: Seq<char>) -> bool {
    tag.len() > 0 && !tag.contains(',') && trim(tag) == tag
}

/// A task that the file keeps as it is: its description, if it has one, is
/// not empty, and its tags are storable.
pub open spec fn storable(t: TaskView) -> bool {
    &&& t.wf()
    &&& (t.description matches Some(d) ==> d.len() > 0)
    &&& forall|tag: Seq<char>| t.tags.contains(tag) ==> storable_tag(tag)
}

proof fn lemma_filter_keeps_all(q: Seq<Seq<char>>)
    requires
        forall|i: int| 0 <= i < q.len() ==> (#[trigger] q[i]).len() > 0,
    ensures
        q.filter(|p: Seq<char>| p.len() > 0) == q,
    decreases q.len(),
{
    reveal(Seq::filter);
    if q.len() > 0 {
        lemma_filter_keeps_all(q.drop_last());
        assert(q.drop_last().push(q.last()) =~= q);
    }
}

proof fn lemma_tags_round_trip(tags: Set<Seq<char>>)
    requires
        tags.finite(),
        forall|tag: Seq<char>| tags.contains(tag) ==> storable_tag(tag),
    ensures
        tags_of_field(tags_line(tags)) == tags,
{
    lemma_sorted_listing_exists(tags);
    let q = tags_in_order(tags);
    assert(q.to_set() == tags && strictly_sorted(q));
    assert forall|i: int| 0 <= i < q.len() implies storable_tag(#[trigger] q[i]) by {
        assert(q.to_set().contains(q[i]));
    }
    if q.len() == 0 {
        let e = Seq::<char>::empty();
        assert(join_commas(q) == e);
        assert(trim_start(e) == e);
        assert(trim_end(e) == e);
        let pieces = split_commas(e).map_values(|p: Seq<char>| trim(p));
        assert(pieces =~= seq![e]);
        reveal_with_fuel(Seq::filter, 2);
        assert(seq![e].drop_last() =~= Seq::<Seq<char>>::empty());
        assert(pieces.filter(|p: Seq<char>| p.len() > 0) =~= Seq::<Seq<char>>::empty());
        assert(tags_of_field(tags_line(tags)) =~= tags);
    } else {
        assert forall|i: int, k: int| 0 <= i < q.len() && 0 <= k < q[i].len() implies #[trigger] q[i][k]
            != ',' by {
            assert(storable_tag(q[i]));
            if q[i][k] == ',' {
                assert(q[i].contains(','));
            }
        }
        lemma_split_join(q);
        let trimmed_q = q.map_values(|p: Seq<char>| trim(p));
        assert(trimmed_q =~= q);
        lemma_filter_keeps_all(q);
    }
}

/// Writing a task as a record and reading the record back gives the same
/// task, and no warning, for every task that the file keeps as it is.
pub proof fn lemma_record_round_trip(t: TaskView)
    requires
        storable(t),
    ensures
        task_of_record(record_of(t)) == t,
        record_warnings(record_of(t)) == Seq::<Seq<char>>::empty(),
{
    let r = record_of(t);
    assert(field(r, 0) == t.name);
    if let Some(d) = t.due_date {
        crate::date::lemma_date_text_round_trip(d);
    }
    lemma_tags_round_trip(t.tags);
    lemma_decimal_round_trip(t.priority);
    reveal_strlit("true");
    reveal_strlit("false");
    assert("true"@ != "false"@) by {
        assert("true"@[0] != "false"@[0]);
    }
    assert(task_of_record(r) == t);
    assert(record_warnings(r) =~= Seq::<Seq<char>>::empty());
}

/// Saving tasks and reading back the records gives the same tasks, in the
/// same order, for tasks that the file keeps as they are.
pub proof fn lemma_records_round_trip(ts: Seq<TaskView>)
    requires
        forall|i: int| 0 <= i < ts.len() ==> storable(#[trigger] ts[i]),
    ensures
        ts.map_values(|t: TaskView| record_of(t)).map_values(
            |f: Seq<Seq<char>>| task_of_record(f),
        ) == ts,
        all_warnings(ts.map_values(|t: TaskView| record_of(t))) == Seq::<Seq<char>>::empty(),
    decreases ts.len(),
{
    let recs = ts.map_values(|t: TaskView| record_of(t));
    assert forall|i: int| 0 <= i < ts.len() implies recs.map_values(
        |f: Seq<Seq<char>>| task_of_record(f),
    )[i] == ts[i] by {
        lemma_record_round_trip(ts[i]);
    }
    assert(recs.map_values(|f: Seq<Seq<char>>| task_of_record(f)) =~= ts);
    if ts.len() > 0 {
        lemma_records_round_trip(ts.drop_last());
        assert(recs.drop_last() =~= ts.drop_last().map_values(|t: TaskView| record_of(t)));
        lemma_record_round_trip(ts.last());
    }
}

fn field_text(fields: &Vec<String>, k: usize) -> (r: String)
    ensures
        r@ == field(views_of(fields@), k as int),
{
    if k < fields.len() {
        fields[k].clone()
    } else {
        String::new()
    }
}

fn warning(prefix: &str, name: &String, message: &String) -> (r: String)
    ensures
        r@ == prefix@ + name@ + "': "@ + message@,
{
    let mut r = String::from_str(prefix);
    r.append(name.as_str());
    r.append("': ");
    r.append(message.as_str());
    r
}

/// The task that a record stands for, and the warnings for the fields that
/// could not be taken.
pub fn task_from_record(fields: &Vec<String>) -> (r: (Task, Vec<String>))
    ensures
        r.0@ == task_of_record(views_of(fields@)),
        views_of(r.1@) == record_warnings(views_of(fields@)),
{
    let ghost fv = views_of(fields@);
    let name = field_text(fields, 0);
    let mut task = Task::new(name.clone());
    let mut warnings: Vec<String> = Vec::new();
    let description = field_text(fields, 1);
    if description.as_str().unicode_len() > 0 {
        task.set_description(description);
    }
    let due = field_text(fields, 2);
    if due.as_str().unicode_len() > 0 {
        match task.set_due_date(due) {
            Ok(()) => {},
            Err(e) => {
                warnings.push(warning("Error setting due date for task '", &name, &e));
            },
        }
    }
    let ghost after_date = task@;
    assert(after_date.due_date == parse_date(field(fv, 2)));
    task.add_tags_from_list(field_text(fields, 3).as_str());
    assert(after_date.tags.union(tags_of_field(field(fv, 3))) =~= tags_of_field(field(fv, 3)));
    let ghost after_tags = task@;
    let priority = field_text(fields, 4);
    match parse_decimal_u8(priority.as_str()) {
        Some(p) => {
            match task.set_priority(p) {
                Ok(()) => {},
                Err(e) => {
                    warnings.push(warning("Error setting priority for task '", &name, &e));
                },
            }
        },
        None => {
            if priority.as_str().unicode_len() > 0 {
                let e = String::from_str("Priority must be between 0 and 10.");
                warnings.push(warning("Error setting priority for task '", &name, &e));
            }
        },
    }
    let completed = field_text(fields, 5);
    if completed.eq(&String::from_str("true")) {
        task.mark_completed();
    }
    proof {
        let expected = task_of_record(fv);
        assert(task@ == expected);
        assert(views_of(warnings@) =~= record_warnings(fv));
    }
    (task, warnings)
}

/// The record that stands for a task.
pub fn task_to_record(task: &Task) -> (r: Vec<String>)
    ensures
        views_of(r@) == record_of(task@),
{
    let mut r: Vec<String> = Vec::new();
    r.push(task.name().clone());
    r.push(
        match task.description() {
            Some(d) => String::from_str(d),
            None => String::new(),
        },
    );
    r.push(
        match task.due_date_as_str() {
            Some(d) => d,
            None => String::new(),
        },
    );
    r.push(task.tags_csv());
    r.push(decimal(task.priority()));
    r.push(
        if task.completed() {
            String::from_str("true")
        } else {
            String::from_str("false")
        },
    );
    assert(views_of(r@) =~= record_of(task@));
    r
}

pub open spec fn rows_view(rows: Seq<Vec<String>>) -> Seq<Seq<Seq<char>>> {
    rows.map_values(|row: Vec<String>| views_of(row@))
}

/// The warnings of all records, in order.
pub open spec fn all_warnings(rows: Seq<Seq<Seq<char>>>) -> Seq<Seq<char>>
    decreases rows.len(),
{
    if rows.len() == 0 {
        Seq::empty()
    } else {
        all_warnings(rows.drop_last()) + record_warnings(rows.last())
    }
}

/// The tasks read from a file, and the warnings for fields that could not
/// be taken.
pub struct LoadedTasks {
    pub tasks: Vec<Task>,
    pub warnings: Vec<String>,
}

pub open spec fn task_seq_views(tasks: Seq<Task>) -> Seq<TaskView> {
    tasks.map_values(|t: Task| t@)
}

/// The tasks that the records stand for, one per record, in order.
pub fn tasks_from_records(rows: &Vec<Vec<String>>) -> (r: LoadedTasks)
    ensures
        task_seq_views(r.tasks@) == rows_view(rows@).map_values(
            |f: Seq<Seq<char>>| task_of_record(f),
        ),
        views_of(r.warnings@) == all_warnings(rows_view(rows@)),
{
    let ghost rv = rows_view(rows@);
    let mut tasks: Vec<Task> = Vec::new();
    let mut warnings: Vec<String> = Vec::new();
    let mut i: usize = 0;
    while i < rows.len()
        invariant
            i <= rows@.len(),
            rv == rows_view(rows@),
            task_seq_views(tasks@) == rv.take(i as int).map_values(
                |f: Seq<Seq<char>>| task_of_record(f),
            ),
            views_of(warnings@) == all_warnings(rv.take(i as int)),
        decreases rows.len() - i,
    {
        let (task, more) = task_from_record(&rows[i]);
        assert(rv[i as int] == views_of(rows@[i as int]@));
        assert(rv.take(i + 1).drop_last() =~= rv.take(i as int));
        let ghost tv = task@;
        let ghost before = views_of(warnings@);
        let ghost old_tasks = tasks@;
        tasks.push(task);
        proof {
            assert(task_seq_views(tasks@) =~= task_seq_views(old_tasks).push(tv));
            assert(rv.take(i + 1) =~= rv.take(i as int).push(rv[i as int]));
            rv.take(i as int).lemma_push_map_commute(|f: Seq<Seq<char>>| task_of_record(f), rv[i as int]);
            assert(task_seq_views(tasks@) =~= rv.take(i + 1).map_values(
                |f: Seq<Seq<char>>| task_of_record(f),
            ));
        }
        let mut j: usize = 0;
        while j < more.len()
            invariant
                j <= more@.len(),
                views_of(warnings@) == before + views_of(more@).take(j as int),
            decreases more.len() - j,
        {
            let ghost prior = warnings@;
            let w = more[j].clone();
            warnings.push(w);
            proof {
                assert(views_of(warnings@) =~= views_of(prior).push(more@[j as int]@));
                assert(views_of(more@).take(j + 1) =~= views_of(more@).take(j as int).push(
                    more@[j as int]@,
                ));
                assert(views_of(warnings@) =~= before + views_of(more@).take(j + 1));
            }
            j = j + 1;
        }
        assert(views_of(more@).take(more@.len() as int) =~= views_of(more@));
        i = i + 1;
    }
    assert(rv.take(rows@.len() as int) =~= rv);
    LoadedTasks { tasks, warnings }
}

/// The records that stand for the tasks, one per task, in order.
pub fn tasks_to_records(tasks: &Vec<&Task>) -> (r: Vec<Vec<String>>)
    ensures
        rows_view(r@) == tasks@.map_values(|t: &Task| record_of(t@)),
{
    let mut r: Vec<Vec<String>> = Vec::new();
    let mut i: usize = 0;
    while i < tasks.len()
        invariant
            i <= tasks@.len(),
            rows_view(r@) == tasks@.take(i as int).map_values(|t: &Task| record_of(t@)),
        decreases tasks.len() - i,
    {
        let rec = task_to_record(tasks[i]);
        let ghost prior = r@;
        let ghost rec_view = views_of(rec@);
        r.push(rec);
        proof {
            assert(rows_view(r@) =~= rows_view(prior).push(rec_view));
            assert(tasks@.take(i + 1) =~= tasks@.take(i as int).push(tasks@[i as int]));
            tasks@.take(i as int).lemma_push_map_commute(|t: &Task| record_of(t@), tasks@[i as int]);
            assert(rows_view(r@) =~= tasks@.take(i + 1).map_values(|t: &Task| record_of(t@)));
        }
        i = i + 1;
    }
    assert(tasks@.take(tasks@.len() as int) =~= tasks@);
    r
}

#[verifier::external_type_specification]
#[verifier::external_body]
pub struct ExCsvError(csv::Error);

/// The records that csv reads from these bytes, each as its fields, or
/// `None` where it fails.
pub uninterp spec fn csv_records(bytes: Seq<u8>) -> Option<Seq<Seq<Seq<char>>>>;

/// The bytes that csv writes for these records.
pub uninterp spec fn csv_text(rows: Seq<Seq<Seq<char>>>) -> Seq<u8>;

/// Relies on csv's `ReaderBuilder` (with `has_headers(false)`, so the first
/// line is a record too) and `Reader::records`: the records of `bytes`, each
/// as its fields, or csv's error; the same bytes give the same outcome.
#[verifier::external_body]
fn read_records(bytes: &[u8]) -> (r: Result<Vec<Vec<String>>, csv::Error>)
    ensures
        r is Ok <==> csv_records(bytes@) is Some,
        r matches Ok(rows) ==> rows_view(rows@) == csv_records(bytes@)->0,
{
    csv::ReaderBuilder::new()
        .has_headers(false)
        .from_reader(bytes)
        .records()
        .map(|rec| rec.map(|rec| rec.iter().map(|f| f.to_string()).collect()))
        .collect()
}

/// Relies on csv's `Writer::from_writer`, `Writer::write_record` and
/// `Writer::into_inner`: the records written out as csv text. Into a
/// `Vec<u8>` the one failure is a record whose length differs from the
/// first one's (`check_field_count`); flushing into the vector cannot fail.
#[verifier::external_body]
fn write_records(rows: &Vec<Vec<String>>) -> (r: Result<Vec<u8>, csv::Error>)
    ensures
        r matches Ok(b) ==> b@ == csv_text(rows_view(rows@)),
        (forall|i: int| 0 <= i < rows@.len() ==> (#[trigger] rows@[i])@.len() == rows@[0]@.len())
            ==> r is Ok,
{
    let mut writer = csv::Writer::from_writer(Vec::new());
    for row in rows.iter() {
        writer.write_record(row)?;
    }
    writer.into_inner().map_err(|e| csv::Error::from(e.into_error()))
}

/// Why a task file could not be read or written.
#[derive(Clone, Copy, Debug, PartialEq, Eq, Structural)]
pub enum CsvError {
    /// The contents are not csv records.
    Malformed,
    /// The records could not be written out.
    Unwritable,
}

/// The tasks in the contents of a task file. `None` stands for a file that
/// does not exist, which holds no tasks: that is no error.
pub fn load_tasks_from(contents: Option<&[u8]>) -> (r: Result<LoadedTasks, CsvError>)
    ensures
        contents is None ==> (r matches Ok(l) && l.tasks@.len() == 0 && l.warnings@.len() == 0),
        contents matches Some(b) ==> (r is Ok <==> csv_records(b@) is Some),
        contents matches Some(b) ==> (r matches Ok(l) ==> task_seq_views(l.tasks@) == csv_records(
            b@,
        )->0.map_values(|f: Seq<Seq<char>>| task_of_record(f)) && views_of(l.warnings@)
            == all_warnings(csv_records(b@)->0)),
        r matches Err(e) ==> e == CsvError::Malformed,
{
    match contents {
        None => Ok(LoadedTasks { tasks: Vec::new(), warnings: Vec::new() }),
        Some(bytes) => match read_records(bytes) {
            Ok(rows) => Ok(tasks_from_records(&rows)),
            Err(_) => Err(CsvError::Malformed),
        },
    }
}

/// The contents of a task file that holds these tasks, in order.
pub fn save_tasks_to(tasks: &Vec<&Task>) -> (r: Result<Vec<u8>, CsvError>)
    ensures
        r matches Ok(b) && b@ == csv_text(tasks@.map_values(|t: &Task| record_of(t@))),
{
    let rows = tasks_to_records(tasks);
    proof {
        assert forall|i: int| 0 <= i < rows@.len() implies (#[trigger] rows@[i])@.len()
            == rows@[0]@.len() by {
            let recs = tasks@.map_values(|t: &Task| record_of(t@));
            assert(rows_view(rows@).len() == rows@.len());
            assert(recs.len() == tasks@.len());
            assert(rows_view(rows@)[i] == views_of(rows@[i]@));
            assert(rows_view(rows@)[0] == views_of(rows@[0]@));
            assert(recs[i] == record_of(tasks@[i]@));
            assert(recs[0] == record_of(tasks@[0]@));
            assert(views_of(rows@[i]@).len() == 6);
            assert(views_of(rows@[0]@).len() == 6);
        }
    }
    match write_records(&rows) {
        Ok(bytes) => Ok(bytes),
        Err(_) => Err(CsvError::Unwritable),
    }
}

} // verus!
