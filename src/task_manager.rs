//! The task store: tasks keyed by their names, kept in the order in which
//! they were first added, with lookups, filters and a view sorted by due date.

use vstd::prelude::*;
use crate::date::Date;
use crate::task::{Task, TaskView, passes_tag_filter};
use crate::text::views_of;

verus! {

broadcast use vstd::seq_lib::group_to_multiset_ensures;

pub open spec fn task_views(tasks: Seq<Task>) -> Seq<TaskView> {
    tasks.map_values(|t: Task| t@)
}

pub open spec fn ref_views(tasks: Seq<&Task>) -> Seq<TaskView> {
    tasks.map_values(|t: &Task| t@)
}

/// No two tasks share a name.
pub open spec fn names_unique(s: Seq<TaskView>) -> bool {
    forall|i: int, j: int| 0 <= i < j < s.len() ==> (#[trigger] s[i]).name != (#[trigger] s[j]).name
}

pub open spec fn has_task(s: Seq<TaskView>, name: Seq<char>) -> bool {
    exists|i: int| 0 <= i < s.len() && (#[trigger] s[i]).name == name
}

/// Where the task of this name stands, if there is one.
pub open spec fn index_of(s: Seq<TaskView>, name: Seq<char>) -> int {
    choose|i: int| 0 <= i < s.len() && (#[trigger] s[i]).name == name
}

/// The task of this name, if there is one.
pub open spec fn lookup(s: Seq<TaskView>, name: Seq<char>) -> Option<TaskView> {
    if has_task(s, name) {
        Some(s[index_of(s, name)])
    } else {
        None
    }
}

/// `t` added: it takes the place of the task of the same name, if there is
/// one, and goes last otherwise.
pub open spec fn upsert(s: Seq<TaskView>, t: TaskView) -> Seq<TaskView> {
    if has_task(s, t.name) {
        s.update(index_of(s, t.name), t)
    } else {
        s.push(t)
    }
}

/// The tasks without the one of this name.
pub open spec fn without(s: Seq<TaskView>, name: Seq<char>) -> Seq<TaskView> {
    if has_task(s, name) {
        s.remove(index_of(s, name))
    } else {
        s
    }
}

/// The tasks with the one of this name marked completed.
pub open spec fn completed_in(s: Seq<TaskView>, name: Seq<char>) -> Seq<TaskView> {
    if has_task(s, name) {
        s.update(index_of(s, name), TaskView { completed: true, ..s[index_of(s, name)] })
    } else {
        s
    }
}

pub open spec fn is_pending(t: TaskView) -> bool {
    !t.completed
}

pub open spec fn is_done(t: TaskView) -> bool {
    t.completed
}

/// A task with a due date, and, where `pending_only`, not completed.
pub open spec fn dated(t: TaskView, pending_only: bool) -> bool {
    t.due_date is Some && !(pending_only && t.completed)
}

/// A task without a due date, and, where `pending_only`, not completed.
pub open spec fn undated(t: TaskView, pending_only: bool) -> bool {
    t.due_date is None && !(pending_only && t.completed)
}

/// Kept by a selection: without a due date where `undated_only`, and with
/// this completion flag where one is given.
pub open spec fn keeps(t: TaskView, undated_only: bool, completed: Option<bool>) -> bool {
    (!undated_only || t.due_date is None) && (completed matches Some(c) ==> t.completed == c)
}

/// Not completed, and due on this day.
pub open spec fn pending_due(t: TaskView, day: Date) -> bool {
    !t.completed && t.due_date == Some(day)
}

/// `a` is due no later than `b` (both have due dates).
pub open spec fn due_no_later(a: TaskView, b: TaskView) -> bool {
    a.due_date->0.on_or_before(b.due_date->0)
}

pub open spec fn due_sorted(s: Seq<TaskView>) -> bool {
    forall|i: int, j: int| 0 <= i < j < s.len() ==> due_no_later(#[trigger] s[i], #[trigger] s[j])
}

/// `t` placed after every task due no later than it, counting from the end.
pub open spec fn insert_by_due_date(s: Seq<TaskView>, t: TaskView) -> Seq<TaskView>
    decreases s.len(),
{
    if s.len() == 0 {
        seq![t]
    } else if due_no_later(s.last(), t) {
        s.push(t)
    } else {
        insert_by_due_date(s.drop_last(), t).push(s.last())
    }
}

/// The tasks ordered by due date; tasks due on the same day keep their order.
pub open spec fn sort_by_due_date(s: Seq<TaskView>) -> Seq<TaskView>
    decreases s.len(),
{
    if s.len() == 0 {
        s
    } else {
        insert_by_due_date(sort_by_due_date(s.drop_last()), s.last())
    }
}

/// The tasks that have a due date (only the pending ones, where
/// `pending_only`), ordered by due date.
pub open spec fn by_due_date(s: Seq<TaskView>, pending_only: bool) -> Seq<TaskView> {
    sort_by_due_date(s.filter(|t: TaskView| dated(t, pending_only)))
}

proof fn lemma_insert_by_due_date(s: Seq<TaskView>, t: TaskView)
    requires
        due_sorted(s),
    ensures
        due_sorted(insert_by_due_date(s, t)),
        insert_by_due_date(s, t).to_multiset() == s.to_multiset().insert(t),
        insert_by_due_date(s, t).len() == s.len() + 1,
    decreases s.len(),
{
    if s.len() == 0 {
        assert(seq![t] =~= s.push(t));
    } else if due_no_later(s.last(), t) {
    } else {
        let dl = s.drop_last();
        let last = s.last();
        assert(due_sorted(dl));
        lemma_insert_by_due_date(dl, t);
        let r1 = insert_by_due_date(dl, t);
        assert forall|j: int| 0 <= j < r1.len() implies due_no_later(#[trigger] r1[j], last) by {
            assert(r1.to_multiset().count(r1[j]) > 0);
            if r1[j] != t {
                assert(dl.to_multiset().count(r1[j]) > 0);
                assert(dl.contains(r1[j]));
                let k = choose|k: int| 0 <= k < dl.len() && dl[k] == r1[j];
                assert(s[k] == dl[k]);
            }
        }
        assert(dl.push(last) =~= s);
    }
}

/// Sorting by due date gives the same tasks, in non-decreasing due-date
/// order.
pub proof fn lemma_sort_by_due_date(s: Seq<TaskView>)
    ensures
        due_sorted(sort_by_due_date(s)),
        sort_by_due_date(s).to_multiset() == s.to_multiset(),
        sort_by_due_date(s).len() == s.len(),
    decreases s.len(),
{
    if s.len() > 0 {
        lemma_sort_by_due_date(s.drop_last());
        lemma_insert_by_due_date(sort_by_due_date(s.drop_last()), s.last());
        assert(s.drop_last().push(s.last()) =~= s);
    }
}

proof fn lemma_insert_at(s: Seq<TaskView>, t: TaskView, p: int)
    requires
        0 <= p <= s.len(),
        forall|k: int| p <= k < s.len() ==> !due_no_later(#[trigger] s[k], t),
        p == 0 || due_no_later(s[p - 1], t),
    ensures
        insert_by_due_date(s, t) == s.insert(p, t),
    decreases s.len(),
{
    if s.len() == 0 {
        assert(s.insert(p, t) =~= seq![t]);
    } else if p == s.len() {
        assert(s.insert(p, t) =~= s.push(t));
    } else {
        let dl = s.drop_last();
        lemma_insert_at(dl, t, p);
        assert(dl.insert(p, t).push(s.last()) =~= s.insert(p, t));
    }
}

proof fn lemma_upsert(s: Seq<TaskView>, t: TaskView)
    requires
        names_unique(s),
    ensures
        names_unique(upsert(s, t)),
        has_task(upsert(s, t), t.name),
        index_of(upsert(s, t), t.name) == (if has_task(s, t.name) {
            index_of(s, t.name)
        } else {
            s.len() as int
        }),
        upsert(s, t)[index_of(upsert(s, t), t.name)] == t,
        upsert(s, t).len() == s.len() + (if has_task(s, t.name) {
            0int
        } else {
            1int
        }),
{
    let r = upsert(s, t);
    if has_task(s, t.name) {
        let i = index_of(s, t.name);
        assert(r[i].name == t.name);
    } else {
        assert(r[s.len() as int].name == t.name);
    }
    let j = index_of(r, t.name);
    assert(0 <= j < r.len() && r[j].name == t.name);
}

/// Adding two tasks of the same name leaves exactly one task of that name,
/// the later one; the store still holds one task per name, so its count is
/// the number of distinct names.
pub proof fn lemma_same_name_added_twice(s: Seq<TaskView>, first: TaskView, second: TaskView)
    requires
        names_unique(s),
        first.name == second.name,
    ensures
        names_unique(upsert(upsert(s, first), second)),
        lookup(upsert(upsert(s, first), second), second.name) == Some(second),
        forall|i: int|
            0 <= i < upsert(upsert(s, first), second).len() && (#[trigger] upsert(
                upsert(s, first),
                second,
            )[i]).name == second.name ==> upsert(upsert(s, first), second)[i] == second,
        upsert(upsert(s, first), second).len() == s.len() + (if has_task(s, second.name) {
            0int
        } else {
            1int
        }),
        upsert(upsert(s, first), second).map_values(|t: TaskView| t.name).to_set().len()
            == upsert(upsert(s, first), second).len(),
{
    let s1 = upsert(s, first);
    lemma_upsert(s, first);
    lemma_upsert(s1, second);
    let r = upsert(s1, second);
    let k = index_of(r, second.name);
    assert forall|i: int| 0 <= i < r.len() && (#[trigger] r[i]).name == second.name implies r[i]
        == second by {
        if i != k {
            if i < k {
                assert(r[i].name != r[k].name);
            } else {
                assert(r[k].name != r[i].name);
            }
        }
    }
    let names = r.map_values(|t: TaskView| t.name);
    assert(names.no_duplicates()) by {
        assert forall|a: int, b: int| 0 <= a < names.len() && 0 <= b < names.len() && a != b implies names[a]
            != names[b] by {
            if a < b {
                assert(r[a].name != r[b].name);
            } else {
                assert(r[b].name != r[a].name);
            }
        }
    }
    names.unique_seq_to_set();
}

/// The store after adding each of `ts` in turn.
pub open spec fn add_all(s: Seq<TaskView>, ts: Seq<TaskView>) -> Seq<TaskView>
    decreases ts.len(),
{
    if ts.len() == 0 {
        s
    } else {
        upsert(add_all(s, ts.drop_last()), ts.last())
    }
}

/// The names that the tasks carry.
pub open spec fn names_of(s: Seq<TaskView>) -> Set<Seq<char>> {
    s.map_values(|t: TaskView| t.name).to_set()
}

proof fn lemma_unique_count(s: Seq<TaskView>)
    requires
        names_unique(s),
    ensures
        names_of(s).len() == s.len(),
{
    let names = s.map_values(|t: TaskView| t.name);
    assert(names.no_duplicates()) by {
        assert forall|a: int, b: int| 0 <= a < names.len() && 0 <= b < names.len() && a != b implies names[a]
            != names[b] by {
            if a < b {
                assert(s[a].name != s[b].name);
            } else {
                assert(s[b].name != s[a].name);
            }
        }
    }
    names.unique_seq_to_set();
}

proof fn lemma_upsert_names(s: Seq<TaskView>, t: TaskView)
    requires
        names_unique(s),
    ensures
        names_of(upsert(s, t)) == names_of(s).insert(t.name),
{
    let r = upsert(s, t);
    if has_task(s, t.name) {
        let i = index_of(s, t.name);
        assert forall|n: Seq<char>| names_of(r).contains(n) <==> names_of(s).insert(t.name).contains(n) by {
            let rn = r.map_values(|x: TaskView| x.name);
            let sn = s.map_values(|x: TaskView| x.name);
            assert(rn =~= sn);
            assert(sn[i] == t.name);
        }
        assert(names_of(r) =~= names_of(s).insert(t.name));
    } else {
        let sn = s.map_values(|x: TaskView| x.name);
        assert(r.map_values(|x: TaskView| x.name) =~= sn.push(t.name));
        sn.lemma_push_to_set_commute(t.name);
    }
}

/// Adding any tasks one by one to an empty store leaves one task per name:
/// the store's count is the number of distinct names among them.
pub proof fn lemma_count_is_distinct_names(ts: Seq<TaskView>)
    ensures
        names_unique(add_all(Seq::empty(), ts)),
        names_of(add_all(Seq::empty(), ts)) == names_of(ts),
        add_all(Seq::empty(), ts).len() == names_of(ts).len(),
    decreases ts.len(),
{
    let e = Seq::<TaskView>::empty();
    if ts.len() == 0 {
        assert(names_of(e) =~= Set::empty());
        assert(ts.map_values(|t: TaskView| t.name) =~= Seq::<Seq<char>>::empty());
        assert(names_of(ts) =~= Set::empty());
    } else {
        let prev = add_all(e, ts.drop_last());
        lemma_count_is_distinct_names(ts.drop_last());
        lemma_upsert(prev, ts.last());
        lemma_upsert_names(prev, ts.last());
        let tn = ts.drop_last().map_values(|t: TaskView| t.name);
        assert(ts.map_values(|t: TaskView| t.name) =~= tn.push(ts.last().name));
        tn.lemma_push_to_set_commute(ts.last().name);
    }
    lemma_unique_count(add_all(e, ts));
}

/// The tasks with a due date, as the store lists them, are in
/// non-decreasing due-date order, and are exactly the store's tasks that
/// have a due date.
pub proof fn lemma_due_date_view_sorted(s: Seq<TaskView>, pending_only: bool)
    ensures
        due_sorted(by_due_date(s, pending_only)),
        by_due_date(s, pending_only).to_multiset() == s.filter(
            |t: TaskView| dated(t, pending_only),
        ).to_multiset(),
        forall|i: int|
            0 <= i < by_due_date(s, pending_only).len() ==> (#[trigger] by_due_date(
                s,
                pending_only,
            )[i]).due_date is Some,
{
    let f = s.filter(|t: TaskView| dated(t, pending_only));
    lemma_sort_by_due_date(f);
    let r = sort_by_due_date(f);
    assert forall|i: int| 0 <= i < r.len() implies (#[trigger] r[i]).due_date is Some by {
        assert(r.to_multiset().count(r[i]) > 0);
        assert(f.contains(r[i]));
        let k = choose|k: int| 0 <= k < f.len() && f[k] == r[i];
        s.lemma_filter_pred(|t: TaskView| dated(t, pending_only), k);
    }
}

pub struct TaskManager {
    tasks: Vec<Task>,
}

impl View for TaskManager {
    type V = Seq<TaskView>;

    closed spec fn view(&self) -> Seq<TaskView> {
        task_views(self.tasks@)
    }
}

impl TaskManager {
    #[verifier::type_invariant]
    spec fn inv(self) -> bool {
        names_unique(task_views(self.tasks@))
    }

    /// An empty store.
    pub fn new() -> (r: TaskManager)
        ensures
            r@ == Seq::<TaskView>::empty(),
            names_unique(r@),
    {
        let r = TaskManager { tasks: Vec::new() };
        assert(r@ =~= Seq::<TaskView>::empty());
        r
    }

    fn find(&self, name: &str) -> (r: Option<usize>)
        ensures
            match r {
                Some(i) => i < self@.len() && index_of(self@, name@) == i && has_task(self@, name@),
                None => !has_task(self@, name@),
            },
    {
        proof {
            use_type_invariant(self);
        }
        let wanted = String::from_str(name);
        let mut i: usize = 0;
        while i < self.tasks.len()
            invariant
                i <= self.tasks@.len(),
                wanted@ == name@,
                names_unique(self@),
                forall|k: int| 0 <= k < i ==> (#[trigger] self@[k]).name != name@,
            decreases self.tasks.len() - i,
        {
            if self.tasks[i].name().eq(&wanted) {
                proof {
                    assert(self@[i as int].name == name@);
                    let j = index_of(self@, name@);
                    assert(0 <= j < self@.len() && self@[j].name == name@);
                }
                return Some(i);
            }
            i = i + 1;
        }
        None
    }

    /// Adds a task; one of the same name is replaced, in its place.
    pub fn add_task(&mut self, task: Task)
        ensures
            final(self)@ == upsert(old(self)@, task@),
            names_unique(final(self)@),
    {
        proof {
            use_type_invariant(&*self);
        }
        let ghost tv = task@;
        let found = self.find(task.name().as_str());
        let mut tasks: Vec<Task> = Vec::new();
        std::mem::swap(&mut self.tasks, &mut tasks);
        match found {
            Some(i) => {
                tasks.set(i, task);
                proof {
                    assert(task_views(tasks@) =~= old(self)@.update(i as int, tv));
                }
            },
            None => {
                tasks.push(task);
                proof {
                    assert(task_views(tasks@) =~= old(self)@.push(tv));
                }
            },
        }
        self.tasks = tasks;
        proof {
            use_type_invariant(&*self);
        }
    }

    /// Takes the task of this name out of the store, if there is one.
    pub fn remove_task(&mut self, name: &str) -> (r: Option<Task>)
        ensures
            final(self)@ == without(old(self)@, name@),
            match r {
                Some(t) => lookup(old(self)@, name@) == Some(t@),
                None => lookup(old(self)@, name@) is None,
            },
    {
        proof {
            use_type_invariant(&*self);
        }
        match self.find(name) {
            Some(i) => {
                let mut tasks: Vec<Task> = Vec::new();
                std::mem::swap(&mut self.tasks, &mut tasks);
                let t = tasks.remove(i);
                proof {
                    assert(task_views(tasks@) =~= old(self)@.remove(i as int));
                }
                self.tasks = tasks;
                Some(t)
            },
            None => None,
        }
    }

    /// The task of this name, if there is one.
    pub fn get_task(&self, name: &str) -> (r: Option<&Task>)
        ensures
            match r {
                Some(t) => lookup(self@, name@) == Some(t@),
                None => lookup(self@, name@) is None,
            },
    {
        match self.find(name) {
            Some(i) => Some(&self.tasks[i]),
            None => None,
        }
    }

    /// Every task, in the store's order.
    pub fn get_all_tasks(&self) -> (r: Vec<&Task>)
        ensures
            ref_views(r@) == self@,
    {
        let mut r: Vec<&Task> = Vec::new();
        let mut i: usize = 0;
        while i < self.tasks.len()
            invariant
                i <= self.tasks@.len(),
                r@.len() == i,
                ref_views(r@) == self@.take(i as int),
            decreases self.tasks.len() - i,
        {
            let ghost before = r@;
            r.push(&self.tasks[i]);
            proof {
                assert(r@ == before.push(&self.tasks@[i as int]));

                assert forall|k: int| 0 <= k < i + 1 implies ref_views(r@)[k] == self@.take(
                    i + 1,
                )[k] by {
                    if k < i {
                        assert(ref_views(before)[k] == self@.take(i as int)[k]);
                    } else {
                        assert(self@[k] == self.tasks@[k]@);
                    }
                }
                assert(ref_views(r@) =~= self@.take(i + 1));
            }
            i = i + 1;
        }
        assert(self@.take(self.tasks@.len() as int) =~= self@);
        r
    }

    /// Every task, in the store's order.
    pub fn list_tasks(&self) -> (r: Vec<&Task>)
        ensures
            ref_views(r@) == self@,
    {
        self.get_all_tasks()
    }

    /// The tasks with a due date (only the pending ones, where
    /// `pending_only`), ordered by due date; tasks due the same day keep
    /// the store's order.
    fn dated_tasks(&self, pending_only: bool) -> (r: Vec<&Task>)
        ensures
            ref_views(r@) == by_due_date(self@, pending_only),
    {
        let ghost pred = |t: TaskView| dated(t, pending_only);
        let mut r: Vec<&Task> = Vec::new();
        let mut i: usize = 0;
        while i < self.tasks.len()
            invariant
                i <= self.tasks@.len(),
                pred == (|t: TaskView| dated(t, pending_only)),
                ref_views(r@) == sort_by_due_date(self@.take(i as int).filter(pred)),
                forall|k: int| 0 <= k < r@.len() ==> (#[trigger] ref_views(r@)[k]).due_date is Some,
            decreases self.tasks.len() - i,
        {
            let t = &self.tasks[i];
            let ghost tv = t@;
            assert(self@.take(i + 1).drop_last() =~= self@.take(i as int));
            assert(self@.take(i + 1).last() == tv);
            let due = t.due_date();
            let ghost filtered = self@.take(i as int).filter(pred);
            assert(self@[i as int] == self.tasks@[i as int]@);
            assert(self@.take(i + 1) =~= self@.take(i as int).push(tv));
            proof {
                self@.take(i as int).lemma_filter_push(tv, pred);
            }
            assert(self@.take(i + 1).filter(pred) == if pred(tv) {
                filtered.push(tv)
            } else {
                filtered
            });
            assert(filtered.push(tv).drop_last() =~= filtered);
            if due.is_some() && !(pending_only && t.completed()) {
                let d = due.unwrap();
                let ghost before = ref_views(r@);
                let mut p: usize = r.len();
                while p > 0
                    invariant
                        p <= r@.len(),
                        before == ref_views(r@),
                        tv.due_date == Some(d),
                        forall|k: int| 0 <= k < before.len() ==> (#[trigger] before[k]).due_date is Some,
                        forall|k: int| p <= k < before.len() ==> !due_no_later(#[trigger] before[k], tv),
                    ensures
                        p <= r@.len(),
                        forall|k: int| p <= k < before.len() ==> !due_no_later(#[trigger] before[k], tv),
                        p == 0 || due_no_later(before[p - 1], tv),
                    decreases p,
                {
                    assert(before[p - 1] == r@[p - 1]@);
                    let other = r[p - 1].due_date();
                    let later = match other {
                        Some(o) => !o.is_on_or_before(&d),
                        None => false,
                    };
                    if !later {
                        break;
                    }
                    p = p - 1;
                }
                r.insert(p, t);
                proof {
                    lemma_insert_at(before, tv, p as int);
                    assert(ref_views(r@) =~= before.insert(p as int, tv));
                }
            }
            i = i + 1;
        }
        assert(self@.take(self.tasks@.len() as int) =~= self@);
        r
    }

    /// The pending tasks that have a due date, soonest first; tasks due
    /// the same day keep the store's order.
    pub fn get_all_pending_tasks_with_due_date(&self) -> (r: Vec<&Task>)
        ensures
            ref_views(r@) == by_due_date(self@, true),
    {
        self.dated_tasks(true)
    }

    /// The tasks that have a due date, soonest first; tasks due the same
    /// day keep the store's order.
    pub fn get_all_tasks_with_due_date(&self) -> (r: Vec<&Task>)
        ensures
            ref_views(r@) == by_due_date(self@, false),
    {
        self.dated_tasks(false)
    }

    fn select(&self, undated_only: bool, completed: Option<bool>) -> (r: Vec<&Task>)
        ensures
            ref_views(r@) == self@.filter(|t: TaskView| keeps(t, undated_only, completed)),
    {
        let ghost pred = |t: TaskView| keeps(t, undated_only, completed);
        let mut r: Vec<&Task> = Vec::new();
        let mut i: usize = 0;
        while i < self.tasks.len()
            invariant
                i <= self.tasks@.len(),
                pred == (|t: TaskView| keeps(t, undated_only, completed)),
                ref_views(r@) == self@.take(i as int).filter(pred),
            decreases self.tasks.len() - i,
        {
            let t = &self.tasks[i];
            let ghost tv = t@;
            let ghost before = r@;
            assert(self@[i as int] == self.tasks@[i as int]@);
            assert(self@.take(i + 1) =~= self@.take(i as int).push(tv));
            proof {
                self@.take(i as int).lemma_filter_push(tv, pred);
            }
            let keep_date = !undated_only || t.due_date().is_none();
            let keep_flag = match completed {
                Some(c) => t.completed() == c,
                None => true,
            };
            if keep_date && keep_flag {
                r.push(t);
                assert(ref_views(r@) =~= ref_views(before).push(tv));
            }
            i = i + 1;
        }
        assert(self@.take(self.tasks@.len() as int) =~= self@);
        r
    }

    /// The pending tasks without a due date, in the store's order.
    pub fn get_all_pending_tasks_without_due_date(&self) -> (r: Vec<&Task>)
        ensures
            ref_views(r@) == self@.filter(|t: TaskView| undated(t, true)),
    {
        let r = self.select(true, Some(false));
        assert((|t: TaskView| keeps(t, true, Some(false))) =~= (|t: TaskView| undated(t, true)));
        r
    }

    /// The tasks without a due date, in the store's order.
    pub fn get_all_tasks_without_due_date(&self) -> (r: Vec<&Task>)
        ensures
            ref_views(r@) == self@.filter(|t: TaskView| undated(t, false)),
    {
        let r = self.select(true, None);
        assert((|t: TaskView| keeps(t, true, None)) =~= (|t: TaskView| undated(t, false)));
        r
    }

    /// The completed tasks, in the store's order.
    pub fn list_completed_tasks(&self) -> (r: Vec<&Task>)
        ensures
            ref_views(r@) == self@.filter(|t: TaskView| is_done(t)),
    {
        let r = self.select(false, Some(true));
        assert((|t: TaskView| keeps(t, false, Some(true))) =~= (|t: TaskView| is_done(t)));
        r
    }

    /// The tasks not yet completed, in the store's order.
    pub fn list_pending_tasks(&self) -> (r: Vec<&Task>)
        ensures
            ref_views(r@) == self@.filter(|t: TaskView| is_pending(t)),
    {
        let r = self.select(false, Some(false));
        assert((|t: TaskView| keeps(t, false, Some(false))) =~= (|t: TaskView| is_pending(t)));
        r
    }

    /// How many tasks are not yet completed.
    pub fn pending_task_count(&self) -> (r: usize)
        ensures
            r == self@.filter(|t: TaskView| is_pending(t)).len(),
    {
        self.list_pending_tasks().len()
    }

    /// How many tasks the store holds, one per name.
    pub fn task_count(&self) -> (r: usize)
        ensures
            r == self@.len(),
    {
        self.tasks.len()
    }

    /// Empties the store.
    pub fn clear_tasks(&mut self)
        ensures
            final(self)@ == Seq::<TaskView>::empty(),
    {
        self.tasks = Vec::new();
        assert(self@ =~= Seq::<TaskView>::empty());
    }

    /// Marks the task of this name completed and returns it; `None` where
    /// there is no such task, and then the store is unchanged.
    pub fn mark_task_completed(&mut self, name: &str) -> (r: Option<&Task>)
        ensures
            final(self)@ == completed_in(old(self)@, name@),
            match r {
                Some(t) => has_task(old(self)@, name@) && lookup(final(self)@, name@) == Some(t@),
                None => !has_task(old(self)@, name@),
            },
    {
        proof {
            use_type_invariant(&*self);
        }
        match self.find(name) {
            Some(i) => {
                let ghost old_views = self@;
                let mut tasks: Vec<Task> = Vec::new();
                std::mem::swap(&mut self.tasks, &mut tasks);
                tasks[i].mark_completed();
                proof {
                    let done = TaskView { completed: true, ..old_views[i as int] };
                    assert(task_views(tasks@) =~= old_views.update(i as int, done));
                    let s = task_views(tasks@);
                    assert(names_unique(s)) by {
                        assert forall|a: int, b: int| 0 <= a < b < s.len() implies (#[trigger] s[a]).name
                            != (#[trigger] s[b]).name by {
                            assert(old_views[a].name != old_views[b].name);
                        }
                    }
                    assert(has_task(s, name@));
                    assert(s[i as int].name == name@);
                }
                self.tasks = tasks;
                Some(&self.tasks[i])
            },
            None => None,
        }
    }

    /// The tasks that pass a tag filter, in the store's order: all of them
    /// for an empty filter, otherwise those with at least one of its tags.
    pub fn tasks_matching_tags(&self, filter: &Vec<String>) -> (r: Vec<&Task>)
        ensures
            ref_views(r@) == self@.filter(|t: TaskView| passes_tag_filter(t, views_of(filter@))),
    {
        let ghost pred = |t: TaskView| passes_tag_filter(t, views_of(filter@));
        let mut r: Vec<&Task> = Vec::new();
        let mut i: usize = 0;
        while i < self.tasks.len()
            invariant
                i <= self.tasks@.len(),
                pred == (|t: TaskView| passes_tag_filter(t, views_of(filter@))),
                ref_views(r@) == self@.take(i as int).filter(pred),
            decreases self.tasks.len() - i,
        {
            let t = &self.tasks[i];
            let ghost tv = t@;
            let ghost before = r@;
            assert(self@[i as int] == self.tasks@[i as int]@);
            assert(self@.take(i + 1) =~= self@.take(i as int).push(tv));
            proof {
                self@.take(i as int).lemma_filter_push(tv, pred);
            }
            if t.matches_tag_filter(filter) {
                r.push(t);
                assert(ref_views(r@) =~= ref_views(before).push(tv));
            }
            i = i + 1;
        }
        assert(self@.take(self.tasks@.len() as int) =~= self@);
        r
    }

    /// The pending tasks due on this day, in the store's order.
    pub fn pending_due_on(&self, day: Date) -> (r: Vec<&Task>)
        ensures
            ref_views(r@) == self@.filter(|t: TaskView| pending_due(t, day)),
    {
        let ghost pred = |t: TaskView| pending_due(t, day);
        let mut r: Vec<&Task> = Vec::new();
        let mut i: usize = 0;
        while i < self.tasks.len()
            invariant
                i <= self.tasks@.len(),
                pred == (|t: TaskView| pending_due(t, day)),
                ref_views(r@) == self@.take(i as int).filter(pred),
            decreases self.tasks.len() - i,
        {
            let t = &self.tasks[i];
            let ghost tv = t@;
            let ghost before = r@;
            assert(self@[i as int] == self.tasks@[i as int]@);
            assert(self@.take(i + 1) =~= self@.take(i as int).push(tv));
            proof {
                self@.take(i as int).lemma_filter_push(tv, pred);
            }
            let due_that_day = match t.due_date() {
                Some(d) => d == day,
                None => false,
            };
            if !t.completed() && due_that_day {
                r.push(t);
                assert(ref_views(r@) =~= ref_views(before).push(tv));
            }
            i = i + 1;
        }
        assert(self@.take(self.tasks@.len() as int) =~= self@);
        r
    }
}

} // verus!
