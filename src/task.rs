//! A single task: a name, an optional description and due date, a set of
//! tags, a priority from 0 to 10 and a completion flag.

use vstd::prelude::*;
use crate::date::{Date, date_text, format_date, parse_date, parse_date_text};
use crate::text::{
    split_at_commas,
    split_commas,
    trim,
    trimmed,
    lemma_sorted_listing_exists,
    join_commas,
    join_with_commas,
    sorted_strings,
    strictly_sorted,
    views_of,
    lemma_strictly_sorted_unique,
};

verus! {

/// What a task is, as a value.
pub ghost struct TaskView {
    pub name: Seq<char>,
    pub description: Option<Seq<char>>,
    pub due_date: Option<Date>,
    pub tags: Set<Seq<char>>,
    pub priority: u8,
    pub completed: bool,
}

impl TaskView {
    /// The field rules that every task keeps.
    pub open spec fn wf(self) -> bool {
        &&& self.priority <= 10
        &&& (self.due_date matches Some(d) ==> d.valid())
        &&& self.tags.finite()
    }
}

/// The priority that a new task starts with.
pub const DEFAULT_PRIORITY: u8 = 5;

/// The highest priority a task may have.
pub const MAX_PRIORITY: u8 = 10;

pub open spec fn date_format_message() -> Seq<char> {
    "Invalid date format. Use YYYY-MM-DD."@
}

pub open spec fn priority_range_message() -> Seq<char> {
    "Priority must be between 0 and 10."@
}

/// The tags in strictly increasing order.
pub open spec fn tags_in_order(tags: Set<Seq<char>>) -> Seq<Seq<char>> {
    choose|s: Seq<Seq<char>>| s.to_set() == tags && strictly_sorted(s)
}

/// The tags in strictly increasing order, joined with commas.
pub open spec fn tags_line(tags: Set<Seq<char>>) -> Seq<char> {
    join_commas(tags_in_order(tags))
}

/// The tags text depends on the set of tags alone: adding two tags in
/// either order gives the same text, which lists every tag once, in strictly
/// increasing order.
pub proof fn lemma_tags_line_order_free(tags: Set<Seq<char>>, a: Seq<char>, b: Seq<char>)
    requires
        tags.finite(),
    ensures
        tags_line(tags.insert(a).insert(b)) == tags_line(tags.insert(b).insert(a)),
        tags_in_order(tags.insert(a).insert(b)).to_set() == tags.insert(a).insert(b),
        strictly_sorted(tags_in_order(tags.insert(a).insert(b))),
{
    assert(tags.insert(a).insert(b) =~= tags.insert(b).insert(a));
    lemma_sorted_listing_exists(tags.insert(a).insert(b));
}

/// The tags that a comma-separated list names: its pieces, trimmed of white
/// space, without the empty ones.
pub open spec fn tags_of_list(list: Seq<char>) -> Set<Seq<char>> {
    split_commas(list).map_values(|p: Seq<char>| trim(p)).filter(|p: Seq<char>| p.len() > 0).to_set()
}

/// A task passes a tag filter when the filter is empty or names at least
/// one of the task's tags.
pub open spec fn passes_tag_filter(t: TaskView, filter: Seq<Seq<char>>) -> bool {
    filter.len() == 0 || exists|i: int| 0 <= i < filter.len() && t.tags.contains(#[trigger] filter[i])
}

/// The non-blank pieces of a comma-separated list, trimmed, in order.
pub open spec fn list_pieces(list: Seq<char>) -> Seq<Seq<char>> {
    split_commas(list).map_values(|p: Seq<char>| trim(p)).filter(|p: Seq<char>| p.len() > 0)
}

/// The tags that a comma-separated list such as `"work, home"` names, in
/// order: its pieces trimmed of white space, blank ones skipped.
pub fn tag_list(list: &str) -> (r: Vec<String>)
    ensures
        views_of(r@) == list_pieces(list@),
        views_of(r@).to_set() == tags_of_list(list@),
{
    let pieces = split_at_commas(list);
    let ghost pv = views_of(pieces@);
    let ghost trimmed_pieces = pv.map_values(|p: Seq<char>| trim(p));
    let ghost nonempty = |p: Seq<char>| p.len() > 0;
    let mut r: Vec<String> = Vec::new();
    let mut i: usize = 0;
    assert(trimmed_pieces.take(0).filter(nonempty) =~= Seq::<Seq<char>>::empty()) by {
        assert(trimmed_pieces.take(0) =~= Seq::<Seq<char>>::empty());
        reveal(Seq::filter);
    }
    while i < pieces.len()
        invariant
            i <= pieces@.len(),
            pv == views_of(pieces@),
            pv == split_commas(list@),
            trimmed_pieces == pv.map_values(|p: Seq<char>| trim(p)),
            nonempty == (|p: Seq<char>| p.len() > 0),
            views_of(r@) == trimmed_pieces.take(i as int).filter(nonempty),
        decreases pieces.len() - i,
    {
        let tag = trimmed(pieces[i].as_str());
        let ghost prev = trimmed_pieces.take(i as int);
        let ghost before = r@;
        assert(pv[i as int] == pieces@[i as int]@);
        assert(trimmed_pieces.take(i + 1) =~= prev.push(tag@));
        proof {
            prev.lemma_filter_push(tag@, nonempty);
        }
        if tag.as_str().unicode_len() > 0 {
            let ghost tv = tag@;
            r.push(tag);
            assert(views_of(r@) =~= views_of(before).push(tv));
        }
        i = i + 1;
    }
    assert(trimmed_pieces.take(pieces@.len() as int) =~= trimmed_pieces);
    r
}

/// `[`, then one `*` per point of priority, then `_` up to ten places, then `]`.
pub open spec fn priority_bar_text(p: u8) -> Seq<char> {
    seq!['['] + Seq::new(p as nat, |i: int| '*') + Seq::new((10 - p) as nat, |i: int| '_') + seq![
        ']',
    ]
}

#[derive(Debug)]
pub struct Task {
    name: String,
    description: Option<String>,
    due_date: Option<Date>,
    tags: Vec<String>,
    priority: u8,
    completed: bool,
}

impl View for Task {
    type V = TaskView;

    closed spec fn view(&self) -> TaskView {
        TaskView {
            name: self.name@,
            description: match self.description {
                Some(d) => Some(d@),
                None => None,
            },
            due_date: self.due_date,
            tags: views_of(self.tags@).to_set(),
            priority: self.priority,
            completed: self.completed,
        }
    }
}

impl Task {
    #[verifier::type_invariant]
    spec fn inv(self) -> bool {
        &&& self.priority <= 10
        &&& (self.due_date matches Some(d) ==> d.valid())
        &&& views_of(self.tags@).no_duplicates()
    }

    /// A task with this name and every other field at its default: no
    /// description, no due date, no tags, priority 5, not completed.
    pub fn new(name: String) -> (r: Task)
        ensures
            r@ == (TaskView {
                name: name@,
                description: None,
                due_date: None,
                tags: Set::empty(),
                priority: DEFAULT_PRIORITY,
                completed: false,
            }),
    {
        let r = Task {
            name,
            description: None,
            due_date: None,
            tags: Vec::new(),
            priority: DEFAULT_PRIORITY,
            completed: false,
        };
        assert(views_of(r.tags@).to_set() =~= Set::empty());
        r
    }

    pub fn name(&self) -> (r: &String)
        ensures
            r@ == self@.name,
    {
        &self.name
    }

    pub fn description(&self) -> (r: Option<&str>)
        ensures
            self@.description == (match r {
                Some(d) => Some(d@),
                None => None,
            }),
    {
        match &self.description {
            Some(d) => Some(d.as_str()),
            None => None,
        }
    }

    /// The due date in the `YYYY-MM-DD` form.
    pub fn due_date_as_str(&self) -> (r: Option<String>)
        ensures
            self@.due_date is Some <==> r is Some,
            r matches Some(s) ==> s@ == date_text(self@.due_date->0),
    {
        proof {
            use_type_invariant(self);
        }
        match self.due_date {
            Some(d) => Some(format_date(d)),
            None => None,
        }
    }

    pub fn due_date(&self) -> (r: Option<Date>)
        ensures
            r == self@.due_date,
            r matches Some(d) ==> d.valid(),
    {
        proof {
            use_type_invariant(self);
        }
        self.due_date
    }

    /// The tags, each once, in the order in which they were added.
    pub fn tags(&self) -> (r: &Vec<String>)
        ensures
            views_of(r@).to_set() == self@.tags,
            views_of(r@).no_duplicates(),
    {
        proof {
            use_type_invariant(self);
        }
        &self.tags
    }

    pub fn priority(&self) -> (r: u8)
        ensures
            r == self@.priority,
            r <= MAX_PRIORITY,
    {
        proof {
            use_type_invariant(self);
        }
        self.priority
    }

    /// The priority drawn as a bar ten places wide, such as `[***_______]`.
    pub fn priority_bar(&self) -> (r: String)
        ensures
            r@ == priority_bar_text(self@.priority),
    {
        proof {
            use_type_invariant(self);
            reveal_strlit("[");
            reveal_strlit("]");
            reveal_strlit("*");
            reveal_strlit("_");
        }
        let mut r = String::from_str("[");
        let mut i: u8 = 0;
        while i < self.priority
            invariant
                i <= self.priority,
                r@ == seq!['['] + Seq::new(i as nat, |k: int| '*'),
            decreases self.priority - i,
        {
            proof {
                reveal_strlit("*");
            }
            r.append("*");
            assert(r@ =~= seq!['['] + Seq::new((i + 1) as nat, |k: int| '*'));
            i = i + 1;
        }
        let mut j: u8 = 0;
        while j < MAX_PRIORITY - self.priority
            invariant
                self.priority <= 10,
                j <= 10 - self.priority,
                r@ == seq!['['] + Seq::new(self.priority as nat, |k: int| '*') + Seq::new(
                    j as nat,
                    |k: int| '_',
                ),
            decreases 10 - self.priority - j,
        {
            proof {
                reveal_strlit("_");
            }
            r.append("_");
            assert(r@ =~= seq!['['] + Seq::new(self.priority as nat, |k: int| '*') + Seq::new(
                (j + 1) as nat,
                |k: int| '_',
            ));
            j = j + 1;
        }
        r.append("]");
        assert(r@ =~= priority_bar_text(self@.priority));
        r
    }

    pub fn completed(&self) -> (r: bool)
        ensures
            r == self@.completed,
    {
        self.completed
    }

    pub fn set_description(&mut self, description: String)
        ensures
            final(self)@ == (TaskView { description: Some(description@), ..old(self)@ }),
    {
        proof {
            use_type_invariant(&*self);
        }
        self.description = Some(description);
    }

    /// Sets the due date from text in the `YYYY-MM-DD` form. Any day of the
    /// calendar is taken, past ones too. Other text is refused with a
    /// message that names the expected form, and the task is left as it was.
    pub fn set_due_date(&mut self, due_date: String) -> (r: Result<(), String>)
        ensures
            r is Ok <==> parse_date(due_date@) is Some,
            r is Ok ==> final(self)@ == (TaskView { due_date: parse_date(due_date@), ..old(self)@ }),
            r matches Err(e) ==> e@ == date_format_message() && final(self)@ == old(self)@,
    {
        proof {
            use_type_invariant(&*self);
        }
        match parse_date_text(due_date.as_str()) {
            Some(d) => {
                self.due_date = Some(d);
                Ok(())
            },
            None => Err(String::from_str("Invalid date format. Use YYYY-MM-DD.")),
        }
    }

    /// Adds a tag; a tag that is there already stays once.
    pub fn add_tag(&mut self, tag: String)
        ensures
            final(self)@ == (TaskView { tags: old(self)@.tags.insert(tag@), ..old(self)@ }),
    {
        let ghost before = views_of(self.tags@);
        let mut i: usize = 0;
        while i < self.tags.len()
            invariant
                before == views_of(self.tags@),
                i <= self.tags@.len(),
                forall|k: int| 0 <= k < i ==> before[k] != tag@,
            decreases self.tags.len() - i,
        {
            if self.tags[i] == tag {
                proof {
                    assert(before[i as int] == tag@);
                    assert(before.to_set().insert(tag@) =~= before.to_set());
                }
                return;
            }
            i = i + 1;
        }
        proof {
            use_type_invariant(&*self);
        }
        let mut tags: Vec<String> = Vec::new();
        std::mem::swap(&mut self.tags, &mut tags);
        tags.push(tag);
        proof {
            assert(views_of(tags@) =~= before.push(tag@));
        }
        self.tags = tags;
        proof {
            assert(views_of(self.tags@) =~= before.push(tag@));
            before.lemma_push_to_set_commute(tag@);
        }
    }

    /// Adds each tag that a comma-separated list names, such as
    /// `"work, home"`; blank pieces are skipped.
    pub fn add_tags_from_list(&mut self, list: &str)
        ensures
            final(self)@ == (TaskView { tags: old(self)@.tags.union(tags_of_list(list@)), ..old(self)@ }),
    {
        let tags = tag_list(list);
        let ghost tv = views_of(tags@);
        let ghost start = self@;
        let mut i: usize = 0;
        assert(start.tags.union(tv.take(0).to_set()) =~= start.tags);
        while i < tags.len()
            invariant
                i <= tags@.len(),
                tv == views_of(tags@),
                start == old(self)@,
                self@ == (TaskView { tags: start.tags.union(tv.take(i as int).to_set()), ..start }),
            decreases tags.len() - i,
        {
            let tag = tags[i].clone();
            assert(tv[i as int] == tags@[i as int]@);
            assert(tv.take(i + 1) =~= tv.take(i as int).push(tag@));
            proof {
                tv.take(i as int).lemma_push_to_set_commute(tag@);
            }
            self.add_tag(tag);
            assert(start.tags.union(tv.take(i as int).to_set()).insert(tag@) =~= start.tags.union(
                tv.take(i as int).to_set().insert(tag@),
            ));
            i = i + 1;
        }
        assert(tv.take(tags@.len() as int) =~= tv);
    }

    /// Whether the task has this tag.
    pub fn has_tag(&self, tag: &String) -> (r: bool)
        ensures
            r == self@.tags.contains(tag@),
    {
        let ghost tv = views_of(self.tags@);
        let mut i: usize = 0;
        while i < self.tags.len()
            invariant
                i <= self.tags@.len(),
                tv == views_of(self.tags@),
                forall|k: int| 0 <= k < i ==> tv[k] != tag@,
            decreases self.tags.len() - i,
        {
            if self.tags[i].eq(tag) {
                assert(tv[i as int] == tag@);
                return true;
            }
            i = i + 1;
        }
        false
    }

    /// Whether the task passes a tag filter: every task passes an empty
    /// filter; otherwise the task needs at least one of the filter's tags.
    pub fn matches_tag_filter(&self, filter: &Vec<String>) -> (r: bool)
        ensures
            r == passes_tag_filter(self@, views_of(filter@)),
    {
        let ghost fv = views_of(filter@);
        if filter.len() == 0 {
            return true;
        }
        let mut i: usize = 0;
        while i < filter.len()
            invariant
                i <= filter@.len(),
                fv == views_of(filter@),
                forall|k: int| 0 <= k < i ==> !self@.tags.contains(#[trigger] fv[k]),
            decreases filter.len() - i,
        {
            if self.has_tag(&filter[i]) {
                assert(fv[i as int] == filter@[i as int]@);
                return true;
            }
            i = i + 1;
        }
        false
    }

    /// Removes a tag, if the task has it.
    pub fn remove_tag(&mut self, tag: &str)
        ensures
            final(self)@ == (TaskView { tags: old(self)@.tags.remove(tag@), ..old(self)@ }),
    {
        let ghost before = views_of(self.tags@);
        let wanted = String::from_str(tag);
        let mut i: usize = 0;
        while i < self.tags.len()
            invariant
                before == views_of(self.tags@),
                *self == *old(self),
                wanted@ == tag@,
                i <= self.tags@.len(),
                forall|k: int| 0 <= k < i ==> before[k] != tag@,
            decreases self.tags.len() - i,
        {
            if self.tags[i] == wanted {
                proof {
                    use_type_invariant(&*self);
                }
                assert(before[i as int] == tag@);
                let mut tags: Vec<String> = Vec::new();
                std::mem::swap(&mut self.tags, &mut tags);
                tags.remove(i);
                proof {
                    let after = views_of(tags@);
                    assert(after =~= before.remove(i as int));
                    assert(after.no_duplicates());
                }
                self.tags = tags;
                proof {
                    let after = views_of(self.tags@);
                    assert(after =~= before.remove(i as int));
                    assert forall|x: Seq<char>| after.to_set().contains(x) <==> before.to_set().remove(tag@).contains(x) by {
                        if after.to_set().contains(x) {
                            let k = choose|k: int| 0 <= k < after.len() && after[k] == x;
                            if k < i {
                                assert(before[k] == x);
                            } else {
                                assert(before[k + 1] == x);
                            }
                        }
                        if before.to_set().remove(tag@).contains(x) {
                            let k = choose|k: int| 0 <= k < before.len() && before[k] == x;
                            if k < i {
                                assert(after[k] == x);
                            } else {
                                assert(after[k - 1] == x);
                            }
                        }
                    }
                    assert(after.to_set() =~= before.to_set().remove(tag@));
                    assert(after.no_duplicates());
                }
                return;
            }
            i = i + 1;
        }
        assert(before.to_set().remove(tag@) =~= before.to_set());
    }

    /// Sets the priority, which must be at most 10; a higher value is
    /// refused and the task is left as it was.
    pub fn set_priority(&mut self, priority: u8) -> (r: Result<(), String>)
        ensures
            r is Ok <==> priority <= MAX_PRIORITY,
            r is Ok ==> final(self)@ == (TaskView { priority, ..old(self)@ }),
            r matches Err(e) ==> e@ == priority_range_message() && final(self)@ == old(self)@,
    {
        proof {
            use_type_invariant(&*self);
        }
        if priority <= MAX_PRIORITY {
            self.priority = priority;
            Ok(())
        } else {
            Err(String::from_str("Priority must be between 0 and 10."))
        }
    }

    pub fn mark_completed(&mut self)
        ensures
            final(self)@ == (TaskView { completed: true, ..old(self)@ }),
    {
        proof {
            use_type_invariant(&*self);
        }
        self.completed = true;
    }

    /// The tags in increasing order, joined with commas: the same text for
    /// the same set of tags, whatever order they were added in.
    pub fn tags_csv(&self) -> (r: String)
        ensures
            r@ == tags_line(self@.tags),
    {
        proof {
            use_type_invariant(self);
        }
        let sorted = sorted_strings(&self.tags);
        let r = join_with_commas(&sorted);
        proof {
            let s = views_of(sorted@);
            let tags = views_of(self.tags@).to_set();
            assert(s.to_set() == tags && strictly_sorted(s));
            let c = tags_in_order(tags);
            lemma_strictly_sorted_unique(s, c);
        }
        r
    }
}

} // verus!
