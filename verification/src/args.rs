//! The request one invocation carries (which mutation, which sort,
//! which filter) and the store operations it drives.

use vstd::prelude::*;

use crate::date::{due_of_text, due_text, due_text_valid, parse_due_at, push_due_text, DueDate};
use crate::filter::{
    due_pred, filter_pairs, name_pred, pairs_views, pattern_ok, regex_is_match, regex_ok,
    status_pred,
};
use crate::sort::{ge_fn, sort_desc, sort_le, sort_tasks, task_le_fn};
use crate::{chars_to_string, str_to_chars, views, TaskItem, TaskModel, TodoState};

verus! {

/// The key a sort reorders the store by.
#[derive(Clone, Copy, Debug, PartialEq, Eq, Structural)]
pub enum SortBy {
    Task,
    Duedate,
    Status,
}

/// Why a store operation failed.
#[derive(Clone, Copy, Debug, PartialEq, Eq, Structural)]
pub enum TodoError {
    /// A due-date text is not a valid `dd-mm-yyyy hh:mm:ss` timestamp.
    ParseError,
    /// A required parallel field is absent.
    MissingFieldError,
    /// A position is below 1 or beyond the current store length.
    IndexOutOfRange,
    /// A filter pattern is not a valid regular expression.
    PatternError,
    /// A filter was requested with no criterion at all.
    NoCriterionSpecified,
    /// A sort was requested with no key.
    MissingSortKey,
    /// The persisted file could not be written.
    IOError,
}

impl TodoError {
    /// The text each failure is surfaced as.
    pub open spec fn message_text(self) -> Seq<char> {
        match self {
            TodoError::ParseError => "unable to parse the provided due date"@,
            TodoError::MissingFieldError => "a required field was not provided"@,
            TodoError::IndexOutOfRange => "provided Sl.No. of a task is out of bound"@,
            TodoError::PatternError => "unable to parse the provided pattern"@,
            TodoError::NoCriterionSpecified => "unable to process the provided input"@,
            TodoError::MissingSortKey => "unable to parse value provided for sort"@,
            TodoError::IOError => "unable to write the saved tasks"@,
        }
    }

    /// A short description, for surfacing the failure to the user.
    pub fn message(&self) -> (r: &'static str)
        ensures
            r@ == self.message_text(),
    {
        match self {
            TodoError::ParseError => "unable to parse the provided due date",
            TodoError::MissingFieldError => "a required field was not provided",
            TodoError::IndexOutOfRange => "provided Sl.No. of a task is out of bound",
            TodoError::PatternError => "unable to parse the provided pattern",
            TodoError::NoCriterionSpecified => "unable to process the provided input",
            TodoError::MissingSortKey => "unable to parse value provided for sort",
            TodoError::IOError => "unable to write the saved tasks",
        }
    }
}

/// One invocation's request: at most one mutation (add, update, delete),
/// optionally a sort, or a filter, with the field groups they consume.
pub struct Args {
    /// Create new tasks from the `name`/`datetime`/`taskstatus` groups.
    pub add: bool,
    /// Update the task at this 1-based position.
    pub update: Option<usize>,
    /// Delete the tasks at these 1-based positions.
    pub delete: Option<Vec<usize>>,
    /// Reorder the whole store.
    pub sort: Option<SortBy>,
    /// Negate a filter, or reverse a sort.
    pub reverse: bool,
    /// Select a subset instead of mutating.
    pub filter: bool,
    /// Task descriptions.
    pub name: Option<Vec<String>>,
    /// Task due dates as `dd-mm-yyyy hh:mm:ss` texts.
    pub datetime: Option<Vec<String>>,
    /// Task states.
    pub taskstatus: Option<Vec<TodoState>>,
}

/// Checks that a position provided for update or delete is at least 1.
pub fn min_index_val(val: usize) -> (r: Result<usize, TodoError>)
    ensures
        r == if val < 1 {
            Result::<usize, TodoError>::Err(TodoError::IndexOutOfRange)
        } else {
            Result::<usize, TodoError>::Ok(val)
        },
{
    if val < 1 {
        Err(TodoError::IndexOutOfRange)
    } else {
        Ok(val)
    }
}

/// Reads a `dd-mm-yyyy hh:mm:ss` text as a timestamp: `Ok` exactly on
/// the texts that denote a valid calendar timestamp.
pub fn string_to_datetime(value: &str) -> (r: Result<DueDate, TodoError>)
    ensures
        due_text_valid(value@) ==> r == Result::<DueDate, TodoError>::Ok(due_of_text(value@)),
        !due_text_valid(value@) ==> r == Result::<DueDate, TodoError>::Err(TodoError::ParseError),
{
    let chars = str_to_chars(value);
    if chars.len() != 19 {
        proof {
            assert(!due_text_valid(value@));
        }
        return Err(TodoError::ParseError);
    }
    proof {
        assert(chars@.subrange(0, 19) =~= value@);
    }
    match parse_due_at(&chars, 0) {
        Some(d) => Ok(d),
        None => Err(TodoError::ParseError),
    }
}

/// The descriptions of a list of texts.
pub open spec fn texts(v: Seq<String>) -> Seq<Seq<char>> {
    v.map_values(|s: String| s@)
}

/// The store grew by `k` records built from the parallel field lists:
/// descriptions in order, each due date taken by position, each state
/// taken by position with `Todo` beyond the state list. Identities are
/// freshly assigned and therefore not pinned.
pub open spec fn added(
    pre: Seq<TaskModel>,
    post: Seq<TaskModel>,
    names: Seq<Seq<char>>,
    dates: Seq<Seq<char>>,
    statuses: Seq<TodoState>,
    k: int,
) -> bool {
    &&& post.len() == pre.len() + k
    &&& post.take(pre.len() as int) == pre
    &&& forall|i: int| 0 <= i < k ==> (#[trigger] post[pre.len() + i]).task == names[i]
    &&& forall|i: int| 0 <= i < k ==> (#[trigger] post[pre.len() + i]).due == due_of_text(dates[i])
    &&& forall|i: int|
        0 <= i < k ==> (#[trigger] post[pre.len() + i]).status == if i < statuses.len() {
            statuses[i]
        } else {
            TodoState::Todo
        }
}

/// The batch stopped at position `k`: the due dates before it were
/// valid and produced records, the one at `k` was malformed.
pub open spec fn add_stopped_at(
    pre: Seq<TaskModel>,
    post: Seq<TaskModel>,
    names: Seq<Seq<char>>,
    dates: Seq<Seq<char>>,
    statuses: Seq<TodoState>,
    k: int,
) -> bool {
    &&& 0 <= k < names.len()
    &&& !due_text_valid(dates[k])
    &&& forall|j: int| 0 <= j < k ==> due_text_valid(#[trigger] dates[j])
    &&& added(pre, post, names, dates, statuses, k)
}

/// The descriptions a request's name group carries.
pub open spec fn arg_names(args: Args) -> Seq<Seq<char>> {
    match args.name {
        Option::Some(v) => texts(v@),
        Option::None => Seq::empty(),
    }
}

/// The due-date texts a request's datetime group carries.
pub open spec fn arg_dates(args: Args) -> Seq<Seq<char>> {
    match args.datetime {
        Option::Some(v) => texts(v@),
        Option::None => Seq::empty(),
    }
}

/// The states a request's taskstatus group carries.
pub open spec fn arg_statuses(args: Args) -> Seq<TodoState> {
    match args.taskstatus {
        Option::Some(v) => v@,
        Option::None => Seq::empty(),
    }
}

/// Everything adding does: with no description list it fails leaving the
/// store alone; with a shorter due-date list it fails leaving the store
/// alone; otherwise records are appended up to the first malformed due
/// date, which fails the batch with the records before it kept.
pub open spec fn add_rel(
    args: Args,
    pre: Seq<TaskModel>,
    post: Seq<TaskModel>,
    r: Result<(), TodoError>,
) -> bool {
    match args.name {
        Option::None => post == pre && r == Result::<(), TodoError>::Err(
            TodoError::MissingFieldError,
        ),
        Option::Some(namev) => {
            let names = arg_names(args);
            let dates = arg_dates(args);
            let statuses = arg_statuses(args);
            if dates.len() < names.len() {
                post == pre && r == Result::<(), TodoError>::Err(TodoError::MissingFieldError)
            } else if forall|i: int| 0 <= i < names.len() ==> due_text_valid(#[trigger] dates[i]) {
                r == Result::<(), TodoError>::Ok(()) && added(
                    pre,
                    post,
                    names,
                    dates,
                    statuses,
                    names.len() as int,
                )
            } else {
                r == Result::<(), TodoError>::Err(TodoError::ParseError) && exists|k: int|
                    #[trigger] add_stopped_at(pre, post, names, dates, statuses, k)
            }
        },
    }
}

/// Everything updating does: the store and outcome it leaves for a given
/// request and store. The position must be in 1..=len; each provided
/// field is applied to the record there in turn, so a malformed due date
/// fails the request with the new description already applied.
pub open spec fn update_out(args: Args, s: Seq<TaskModel>) -> (Seq<TaskModel>, Result<
    (),
    TodoError,
>) {
    match args.update {
        Option::None => (s, Result::<(), TodoError>::Err(TodoError::MissingFieldError)),
        Option::Some(pos) => if pos < 1 || pos > s.len() {
            (s, Result::<(), TodoError>::Err(TodoError::IndexOutOfRange))
        } else {
            let idx = pos - 1;
            let t0 = s[idx as int];
            let t1 = match args.name {
                Option::Some(v) => TaskModel { task: v@[0]@, ..t0 },
                Option::None => t0,
            };
            match args.datetime {
                Option::Some(v) => if due_text_valid(v@[0]@) {
                    let t2 = TaskModel { due: due_of_text(v@[0]@), ..t1 };
                    let t3 = match args.taskstatus {
                        Option::Some(sv) => TaskModel { status: sv@[0], ..t2 },
                        Option::None => t2,
                    };
                    (s.update(idx as int, t3), Result::<(), TodoError>::Ok(()))
                } else {
                    (s.update(idx as int, t1), Result::<(), TodoError>::Err(TodoError::ParseError))
                },
                Option::None => {
                    let t3 = match args.taskstatus {
                        Option::Some(sv) => TaskModel { status: sv@[0], ..t1 },
                        Option::None => t1,
                    };
                    (s.update(idx as int, t3), Result::<(), TodoError>::Ok(()))
                },
            }
        },
    }
}


/// Updating only the description changes only the description: the
/// update succeeds, the record at the position keeps its identity, due
/// timestamp and state, and every other record is untouched.
pub proof fn lemma_update_description_only(args: Args, s: Seq<TaskModel>, pos: usize)
    requires
        args.update == Option::<usize>::Some(pos),
        args.name is Some && args.name->0@.len() >= 1,
        args.datetime is None,
        args.taskstatus is None,
        1 <= pos <= s.len(),
    ensures
        update_out(args, s).1 == Result::<(), TodoError>::Ok(()),
        update_out(args, s).0.len() == s.len(),
        update_out(args, s).0[pos - 1].task == args.name->0@[0]@,
        update_out(args, s).0[pos - 1].id == s[pos - 1].id,
        update_out(args, s).0[pos - 1].due == s[pos - 1].due,
        update_out(args, s).0[pos - 1].status == s[pos - 1].status,
        forall|j: int| 0 <= j < s.len() && j != pos - 1 ==> update_out(args, s).0[j] == s[j],
{
}


/// Deleting, position by position in descending order: each in-range
/// position removes its record; the first out-of-range position stops
/// the batch, the removals already made kept.
pub open spec fn apply_deletes(s: Seq<TaskModel>, ps: Seq<usize>) -> (Seq<TaskModel>, Option<
    TodoError,
>)
    decreases ps.len(),
{
    if ps.len() == 0 {
        (s, Option::<TodoError>::None)
    } else {
        let p = ps[0];
        if p < 1 || p > s.len() {
            (s, Option::<TodoError>::Some(TodoError::IndexOutOfRange))
        } else {
            apply_deletes(s.remove(p - 1), ps.skip(1))
        }
    }
}

/// A run of equal entries collapsed to one occurrence each. On a
/// descending-sorted list of positions equal positions sit next to each
/// other, so this is how repeated positions are deduplicated.
pub open spec fn dedup_adjacent(s: Seq<usize>) -> Seq<usize>
    decreases s.len(),
{
    if s.len() == 0 {
        Seq::empty()
    } else if s.len() >= 2 && s[0] == s[1] {
        dedup_adjacent(s.skip(1))
    } else {
        seq![s[0]] + dedup_adjacent(s.skip(1))
    }
}

/// Everything deleting does: the requested positions are brought into
/// descending order and deduplicated first, so that a removal never
/// shifts a position still to be processed and a repeated position
/// removes only one record.
pub open spec fn delete_out(args: Args, s: Seq<TaskModel>) -> (Seq<TaskModel>, Result<
    (),
    TodoError,
>) {
    match args.delete {
        Option::None => (s, Result::<(), TodoError>::Err(TodoError::MissingFieldError)),
        Option::Some(dl) => {
            let out = apply_deletes(s, dedup_adjacent(sort_le(ge_fn(), dl@)));
            (
                out.0,
                match out.1 {
                    Option::Some(e) => Result::<(), TodoError>::Err(e),
                    Option::None => Result::<(), TodoError>::Ok(()),
                },
            )
        },
    }
}

/// Everything sorting does: the stable insertion sort under the key, or
/// `MissingSortKey` where no key came.
pub open spec fn sort_out(args: Args, s: Seq<TaskModel>) -> (Seq<TaskModel>, Result<
    (),
    TodoError,
>) {
    match args.sort {
        Option::None => (s, Result::<(), TodoError>::Err(TodoError::MissingSortKey)),
        Option::Some(key) => (
            sort_le(task_le_fn(key, args.reverse), s),
            Result::<(), TodoError>::Ok(()),
        ),
    }
}

impl Args {
    /// The preconditions the command-line layer guarantees: each field
    /// group, where present, carries at least one value.
    pub open spec fn groups_nonempty(self) -> bool {
        &&& (self.name matches Option::Some(v) ==> v@.len() >= 1)
        &&& (self.datetime matches Option::Some(v) ==> v@.len() >= 1)
        &&& (self.taskstatus matches Option::Some(v) ==> v@.len() >= 1)
    }

    /// Appends one new record per description, taking due date and state
    /// by position.
    pub fn handle_add(&self, list: &mut Vec<TaskItem>) -> (r: Result<(), TodoError>)
        ensures
            add_rel(*self, views(old(list)@), views(final(list)@), r),
    {
        if self.name.is_none() {
            return Err(TodoError::MissingFieldError);
        }
        let namev = self.name.as_ref().unwrap();
        let empty_d: Vec<String> = Vec::new();
        let datetimev = if self.datetime.is_some() {
            self.datetime.as_ref().unwrap()
        } else {
            &empty_d
        };
        let empty_s: Vec<TodoState> = Vec::new();
        let taskstatusv = if self.taskstatus.is_some() {
            self.taskstatus.as_ref().unwrap()
        } else {
            &empty_s
        };
        let ghost names = arg_names(*self);
        let ghost dates = arg_dates(*self);
        let ghost statuses = arg_statuses(*self);
        if datetimev.len() < namev.len() {
            return Err(TodoError::MissingFieldError);
        }
        let n = namev.len();
        proof {
            assert(views(list@).take(views(list@).len() as int) =~= views(list@));
        }
        let mut i: usize = 0;
        while i < n
            invariant
                i <= n,
                n == namev@.len(),
                dates.len() >= names.len(),
                self.name is Some,
                names == arg_names(*self),
                dates == arg_dates(*self),
                statuses == arg_statuses(*self),
                names == texts(namev@),
                dates == texts(datetimev@),
                statuses == taskstatusv@,
                forall|j: int| 0 <= j < i ==> due_text_valid(#[trigger] dates[j]),
                added(views(old(list)@), views(list@), names, dates, statuses, i as int),
            decreases n - i,
        {
            let dt = match string_to_datetime(datetimev[i].as_str()) {
                Ok(d) => d,
                Err(_) => {
                    proof {
                        assert(!due_text_valid(dates[i as int]));
                        assert(names.len() == namev@.len());
                        assert(!(forall|q: int|
                            0 <= q < names.len() ==> due_text_valid(#[trigger] dates[q])));
                        assert(add_stopped_at(
                            views(old(list)@),
                            views(list@),
                            names,
                            dates,
                            statuses,
                            i as int,
                        ));
                        assert(add_rel(
                            *self,
                            views(old(list)@),
                            views(list@),
                            Result::<(), TodoError>::Err(TodoError::ParseError),
                        ));
                    }
                    return Err(TodoError::ParseError);
                },
            };
            let mut todostate = TodoState::Todo;
            if i < taskstatusv.len() {
                todostate = taskstatusv[i];
            }
            let newtask = TaskItem::new(namev[i].as_str(), dt, todostate);
            let ghost before = list@;
            list.push(newtask);
            proof {
                assert(views(list@) =~= views(before).push(newtask@));
                assert(views(list@).take(views(old(list)@).len() as int) =~= views(before).take(
                    views(old(list)@).len() as int,
                ));
            }
            i = i + 1;
        }
        Ok(())
    }

    /// Applies each provided field to the record at the 1-based position.
    pub fn handle_update(&self, list: &mut Vec<TaskItem>) -> (r: Result<(), TodoError>)
        requires
            self.groups_nonempty(),
        ensures
            (views(final(list)@), r) == update_out(*self, views(old(list)@)),
    {
        let pos = match self.update {
            Some(p) => p,
            None => {
                return Err(TodoError::MissingFieldError);
            },
        };
        let index = match min_index_val(pos) {
            Ok(p) => p - 1,
            Err(e) => {
                return Err(e);
            },
        };
        if index >= list.len() {
            return Err(TodoError::IndexOutOfRange);
        }
        let mut item = list.remove(index);
        if let Some(value) = &self.name {
            item.update_task(value[0].as_str());
        }
        let mut due_bad = false;
        if let Some(value) = &self.datetime {
            match string_to_datetime(value[0].as_str()) {
                Ok(dt) => item.update_duedate(dt),
                Err(_) => {
                    due_bad = true;
                },
            }
        }
        if !due_bad {
            if let Some(value) = &self.taskstatus {
                item.update_status(value[0]);
            }
        }
        list.insert(index, item);
        proof {
            assert(views(list@) =~= views(old(list)@).update(index as int, item@));
        }
        if due_bad {
            Err(TodoError::ParseError)
        } else {
            Ok(())
        }
    }

    /// Removes the records at the given 1-based positions, largest
    /// position first.
    pub fn handle_delete(&self, list: &mut Vec<TaskItem>) -> (r: Result<(), TodoError>)
        ensures
            (views(final(list)@), r) == delete_out(*self, views(old(list)@)),
    {
        if self.delete.is_none() {
            return Err(TodoError::MissingFieldError);
        }
        let dl = self.delete.as_ref().unwrap();
        let mut ordered: Vec<usize> = Vec::new();
        let mut i: usize = 0;
        let n = dl.len();
        while i < n
            invariant
                i <= n,
                n == dl@.len(),
                ordered@ == dl@.take(i as int),
            decreases n - i,
        {
            proof {
                assert(dl@.take(i as int).push(dl@[i as int]) =~= dl@.take(i + 1));
            }
            ordered.push(dl[i]);
            i = i + 1;
        }
        proof {
            assert(dl@.take(n as int) =~= dl@);
        }
        sort_desc(&mut ordered);
        let mut uniq: Vec<usize> = Vec::new();
        let m0 = ordered.len();
        proof {
            assert(ordered@.skip(0) =~= ordered@);
            assert(Seq::<usize>::empty() + dedup_adjacent(ordered@) =~= dedup_adjacent(
                ordered@,
            ));
        }
        let mut k: usize = 0;
        while k < m0
            invariant
                k <= m0,
                m0 == ordered@.len(),
                dedup_adjacent(ordered@) == uniq@ + dedup_adjacent(ordered@.skip(k as int)),
            decreases m0 - k,
        {
            proof {
                assert(ordered@.skip(k as int)[0] == ordered@[k as int]);
                if k + 1 < m0 {
                    assert(ordered@.skip(k as int)[1] == ordered@[k + 1]);
                }
                assert(ordered@.skip(k as int).skip(1) =~= ordered@.skip(k + 1));
            }
            if !(k + 1 < m0 && ordered[k + 1] == ordered[k]) {
                let ghost before_u = uniq@;
                uniq.push(ordered[k]);
                proof {
                    assert(uniq@ =~= before_u + seq![ordered@[k as int]]);
                    assert((before_u + seq![ordered@[k as int]]) + dedup_adjacent(
                        ordered@.skip(k + 1),
                    ) =~= before_u + (seq![ordered@[k as int]] + dedup_adjacent(
                        ordered@.skip(k + 1),
                    )));
                }
            }
            k = k + 1;
        }
        proof {
            assert(ordered@.skip(m0 as int) =~= Seq::<usize>::empty());
            assert(uniq@ + dedup_adjacent(Seq::<usize>::empty()) =~= uniq@);
        }
        let ghost ord = uniq@;
        proof {
            assert(ord.skip(0) =~= ord);
        }
        let mut j: usize = 0;
        let m = uniq.len();
        while j < m
            invariant
                j <= m,
                m == ord.len(),
                uniq@ == ord,
                self.delete is Some && ord == dedup_adjacent(sort_le(ge_fn(), self.delete->0@)),
                apply_deletes(views(old(list)@), ord) == apply_deletes(
                    views(list@),
                    ord.skip(j as int),
                ),
            decreases m - j,
        {
            let p = uniq[j];
            proof {
                assert(ord.skip(j as int)[0] == ord[j as int]);
                assert(ord.skip(j as int).skip(1) =~= ord.skip(j + 1));
            }
            let index = match min_index_val(p) {
                Ok(q) => q - 1,
                Err(e) => {
                    proof {
                        assert(apply_deletes(views(list@), ord.skip(j as int)) == (
                            views(list@),
                            Option::<TodoError>::Some(TodoError::IndexOutOfRange),
                        ));
                    }
                    return Err(e);
                },
            };
            if index < list.len() {
                let ghost before = list@;
                list.remove(index);
                proof {
                    assert(views(list@) =~= views(before).remove(index as int));
                    assert(apply_deletes(views(before), ord.skip(j as int)) == apply_deletes(
                        views(list@),
                        ord.skip(j + 1),
                    ));
                }
            } else {
                proof {
                    assert(p > views(list@).len());
                    assert(apply_deletes(views(list@), ord.skip(j as int)) == (
                        views(list@),
                        Option::<TodoError>::Some(TodoError::IndexOutOfRange),
                    ));
                }
                return Err(TodoError::IndexOutOfRange);
            }
            j = j + 1;
        }
        proof {
            assert(ord.skip(m as int) =~= Seq::<usize>::empty());
        }
        Ok(())
    }

    /// Reorders the whole store under the requested key; afterwards each
    /// record sorts no later than its successor.
    pub fn handle_sort(&self, list: &mut Vec<TaskItem>) -> (r: Result<(), TodoError>)
        ensures
            (views(final(list)@), r) == sort_out(*self, views(old(list)@)),
            self.sort matches Some(key) ==> crate::sort::sorted_adj(
                task_le_fn(key, self.reverse),
                views(final(list)@),
            ),
    {
        match self.sort {
            Some(key) => {
                sort_tasks(list, key, self.reverse);
                Ok(())
            },
            None => Err(TodoError::MissingSortKey),
        }
    }
}

/// The add stage of one invocation: applied only where requested.
pub open spec fn stage_add(
    args: Args,
    pre: Seq<TaskModel>,
    mid: Seq<TaskModel>,
    ra: Result<(), TodoError>,
) -> bool {
    if args.add {
        add_rel(args, pre, mid, ra)
    } else {
        mid == pre && ra == Result::<(), TodoError>::Ok(())
    }
}

/// The stages after adding, each applied only where requested, each
/// stopping the invocation on its error.
pub open spec fn chain_out(args: Args, s: Seq<TaskModel>) -> (Seq<TaskModel>, Result<
    (),
    TodoError,
>) {
    let u = if args.update is Some {
        update_out(args, s)
    } else {
        (s, Result::<(), TodoError>::Ok(()))
    };
    if u.1 is Err {
        u
    } else {
        let d = if args.delete is Some {
            delete_out(args, u.0)
        } else {
            (u.0, Result::<(), TodoError>::Ok(()))
        };
        if d.1 is Err {
            d
        } else {
            if args.sort is Some {
                sort_out(args, d.0)
            } else {
                (d.0, Result::<(), TodoError>::Ok(()))
            }
        }
    }
}

/// Everything one non-filter invocation does to the store: the add stage
/// (whose new identities are fresh, hence the existential), then update,
/// delete and sort in that order, stopping at the first failure.
pub open spec fn input_rel(
    args: Args,
    pre: Seq<TaskModel>,
    post: Seq<TaskModel>,
    r: Result<(), TodoError>,
) -> bool {
    exists|mid: Seq<TaskModel>, ra: Result<(), TodoError>|
        #[trigger] stage_add(args, pre, mid, ra) && match ra {
            Result::Err(e) => post == mid && r == Result::<(), TodoError>::Err(e),
            Result::Ok(_) => (post, r) == chain_out(args, mid),
        }
}

impl Args {
    /// Applies the requested mutations to the store in order: add,
    /// update, delete, sort; the first failure stops the invocation.
    /// The caller renders the resulting store afterwards.
    pub fn handle_input(self, list: &mut Vec<TaskItem>) -> (r: Result<(), TodoError>)
        requires
            self.groups_nonempty(),
        ensures
            input_rel(self, views(old(list)@), views(final(list)@), r),
    {
        let ghost pre = views(old(list)@);
        let ra = if self.add {
            self.handle_add(list)
        } else {
            Ok(())
        };
        proof {
            assert(stage_add(self, pre, views(list@), ra));
        }
        if let Err(e) = ra {
            return Err(e);
        }
        let ghost mid = views(list@);
        if self.update.is_some() {
            match self.handle_update(list) {
                Ok(_) => (),
                Err(e) => {
                    proof {
                        assert((views(list@), Result::<(), TodoError>::Err(e)) == chain_out(
                            self,
                            mid,
                        ));
                    }
                    return Err(e);
                },
            }
        }
        if self.delete.is_some() {
            match self.handle_delete(list) {
                Ok(_) => (),
                Err(e) => {
                    proof {
                        assert((views(list@), Result::<(), TodoError>::Err(e)) == chain_out(
                            self,
                            mid,
                        ));
                    }
                    return Err(e);
                },
            }
        }
        if self.sort.is_some() {
            match self.handle_sort(list) {
                Ok(_) => (),
                Err(e) => {
                    proof {
                        assert((views(list@), Result::<(), TodoError>::Err(e)) == chain_out(
                            self,
                            mid,
                        ));
                    }
                    return Err(e);
                },
            }
        }
        proof {
            assert((views(list@), Result::<(), TodoError>::Ok(())) == chain_out(self, mid));
        }
        Ok(())
    }
}


/// Everything filtering does: exactly one criterion selects the records
/// (with `reverse` negating the predicate), each kept record keeping its
/// 1-based position in the unfiltered store; an invalid pattern fails
/// with `PatternError`, no criterion with `NoCriterionSpecified`.
pub open spec fn filter_rel(
    args: Args,
    s: Seq<TaskModel>,
    r: Result<Seq<(usize, TaskModel)>, TodoError>,
) -> bool {
    match args.name {
        Option::Some(v) => if pattern_ok(v@[0]@) {
            r == Result::<Seq<(usize, TaskModel)>, TodoError>::Ok(
                filter_pairs(s, name_pred(v@[0]@, args.reverse)),
            )
        } else {
            r == Result::<Seq<(usize, TaskModel)>, TodoError>::Err(TodoError::PatternError)
        },
        Option::None => match args.datetime {
            Option::Some(v) => if pattern_ok(v@[0]@) {
                r == Result::<Seq<(usize, TaskModel)>, TodoError>::Ok(
                    filter_pairs(s, due_pred(v@[0]@, args.reverse)),
                )
            } else {
                r == Result::<Seq<(usize, TaskModel)>, TodoError>::Err(TodoError::PatternError)
            },
            Option::None => match args.taskstatus {
                Option::Some(v) => r == Result::<Seq<(usize, TaskModel)>, TodoError>::Ok(
                    filter_pairs(s, status_pred(v@[0], args.reverse)),
                ),
                Option::None => r == Result::<Seq<(usize, TaskModel)>, TodoError>::Err(
                    TodoError::NoCriterionSpecified,
                ),
            },
        },
    }
}

impl Args {
    /// Selects the records matching the one provided criterion, leaving
    /// the store untouched; the caller renders the returned pairs.
    pub fn handle_filter(&self, list: &Vec<TaskItem>) -> (r: Result<
        Vec<(usize, TaskItem)>,
        TodoError,
    >)
        requires
            self.groups_nonempty(),
        ensures
            r matches Ok(v) ==> filter_rel(
                *self,
                views(list@),
                Result::<Seq<(usize, TaskModel)>, TodoError>::Ok(pairs_views(v@)),
            ),
            r matches Err(e) ==> filter_rel(
                *self,
                views(list@),
                Result::<Seq<(usize, TaskModel)>, TodoError>::Err(e),
            ),
    {
        if self.name.is_some() {
            let todov = self.name.as_ref().unwrap();
            let ghost pat = todov@[0]@;
            if !regex_ok(todov[0].as_str()) {
                return Err(TodoError::PatternError);
            }
            let ghost pred = name_pred(pat, self.reverse);
            let mut matchs: Vec<(usize, TaskItem)> = Vec::new();
            let n = list.len();
            let mut i: usize = 0;
            while i < n
                invariant
                    i <= n,
                    n == list@.len(),
                    self.name is Some && self.name->0@.len() >= 1,
                    todov == self.name->0,
                    pat == todov@[0]@,
                    pattern_ok(pat),
                    pred == name_pred(pat, self.reverse),
                    pairs_views(matchs@) == filter_pairs(views(list@.take(i as int)), pred),
                decreases n - i,
            {
                let m = regex_is_match(todov[0].as_str(), list[i].task.as_str());
                let keep = if self.reverse {
                    !m
                } else {
                    m
                };
                proof {
                    assert(views(list@.take(i + 1)).drop_last() =~= views(list@.take(i as int)));
                    assert(views(list@.take(i + 1)).last() == list@[i as int]@);
                    assert(keep == pred(list@[i as int]@));
                }
                if keep {
                    let pair = (i + 1, list[i].clone());
                    let ghost before = matchs@;
                    matchs.push(pair);
                    proof {
                        assert(pairs_views(matchs@) =~= pairs_views(before).push(
                            ((i + 1) as usize, list@[i as int]@),
                        ));
                    }
                }
                i = i + 1;
            }
            proof {
                assert(list@.take(n as int) =~= list@);
            }
            return Ok(matchs);
        }
        if self.datetime.is_some() {
            let datev = self.datetime.as_ref().unwrap();
            let ghost pat = datev@[0]@;
            if !regex_ok(datev[0].as_str()) {
                return Err(TodoError::PatternError);
            }
            let ghost pred = due_pred(pat, self.reverse);
            let mut matchs: Vec<(usize, TaskItem)> = Vec::new();
            let n = list.len();
            let mut i: usize = 0;
            while i < n
                invariant
                    i <= n,
                    n == list@.len(),
                    self.name is None,
                    self.datetime is Some && self.datetime->0@.len() >= 1,
                    datev == self.datetime->0,
                    pat == datev@[0]@,
                    pattern_ok(pat),
                    pred == due_pred(pat, self.reverse),
                    pairs_views(matchs@) == filter_pairs(views(list@.take(i as int)), pred),
                decreases n - i,
            {
                let mut buf: Vec<char> = Vec::new();
                push_due_text(&mut buf, &list[i].due);
                let text = chars_to_string(&buf);
                let m = regex_is_match(datev[0].as_str(), text.as_str());
                let keep = if self.reverse {
                    !m
                } else {
                    m
                };
                proof {
                    assert(views(list@.take(i + 1)).drop_last() =~= views(list@.take(i as int)));
                    assert(views(list@.take(i + 1)).last() == list@[i as int]@);
                    assert(text@ == due_text(list@[i as int]@.due));
                    assert(keep == pred(list@[i as int]@));
                }
                if keep {
                    let pair = (i + 1, list[i].clone());
                    let ghost before = matchs@;
                    matchs.push(pair);
                    proof {
                        assert(pairs_views(matchs@) =~= pairs_views(before).push(
                            ((i + 1) as usize, list@[i as int]@),
                        ));
                    }
                }
                i = i + 1;
            }
            proof {
                assert(list@.take(n as int) =~= list@);
            }
            return Ok(matchs);
        }
        if self.taskstatus.is_some() {
            let statusv = self.taskstatus.as_ref().unwrap();
            let e = statusv[0];
            let ghost pred = status_pred(e, self.reverse);
            let mut matchs: Vec<(usize, TaskItem)> = Vec::new();
            let n = list.len();
            let mut i: usize = 0;
            while i < n
                invariant
                    i <= n,
                    n == list@.len(),
                    self.name is None,
                    self.datetime is None,
                    self.taskstatus is Some && self.taskstatus->0@.len() >= 1,
                    e == self.taskstatus->0@[0],
                    pred == status_pred(e, self.reverse),
                    pairs_views(matchs@) == filter_pairs(views(list@.take(i as int)), pred),
                decreases n - i,
            {
                let m = list[i].status == e;
                let keep = if self.reverse {
                    !m
                } else {
                    m
                };
                proof {
                    assert(views(list@.take(i + 1)).drop_last() =~= views(list@.take(i as int)));
                    assert(views(list@.take(i + 1)).last() == list@[i as int]@);
                    assert(keep == pred(list@[i as int]@));
                }
                if keep {
                    let pair = (i + 1, list[i].clone());
                    let ghost before = matchs@;
                    matchs.push(pair);
                    proof {
                        assert(pairs_views(matchs@) =~= pairs_views(before).push(
                            ((i + 1) as usize, list@[i as int]@),
                        ));
                    }
                }
                i = i + 1;
            }
            proof {
                assert(list@.take(n as int) =~= list@);
            }
            return Ok(matchs);
        }
        Err(TodoError::NoCriterionSpecified)
    }
}


} // verus!
