//! A small task-tracking engine: an ordered list of task records with
//! add, update, delete, sort and filter operations, and a text codec
//! that persists the list losslessly.

pub mod args;
pub mod codec;
pub mod date;
pub mod filter;
pub mod digits;
pub mod sort;

use vstd::prelude::*;
use vstd::string::StrSliceExecFns;

use crate::date::DueDate;

verus! {

/// The lifecycle state of a task, totally ordered
/// `Todo < InProgress < Completed`.
#[derive(Clone, Copy, Debug, PartialEq, Eq, Structural)]
pub enum TodoState {
    Todo,
    InProgress,
    Completed,
}

impl TodoState {
    /// The ordinal that gives the total order on states.
    pub open spec fn ord(self) -> int {
        match self {
            TodoState::Todo => 0,
            TodoState::InProgress => 1,
            TodoState::Completed => 2,
        }
    }

    /// The text a state is shown and stored as.
    pub open spec fn text(self) -> Seq<char> {
        match self {
            TodoState::Todo => "todo"@,
            TodoState::InProgress => "in-progress"@,
            TodoState::Completed => "completed"@,
        }
    }

    pub fn to_str(&self) -> (r: &'static str)
        ensures
            r@ == self.text(),
    {
        match self {
            TodoState::Todo => "todo",
            TodoState::InProgress => "in-progress",
            TodoState::Completed => "completed",
        }
    }
}

/// What a task record is mathematically: its identity, its description as
/// a sequence of characters, its due timestamp and its state.
pub struct TaskModel {
    pub id: u128,
    pub task: Seq<char>,
    pub due: DueDate,
    pub status: TodoState,
}

/// One task: an identity fixed at creation, a description, a due
/// timestamp and a lifecycle state.
#[derive(Debug)]
pub struct TaskItem {
    pub id: u128,
    pub task: String,
    pub due: DueDate,
    pub status: TodoState,
}

impl View for TaskItem {
    type V = TaskModel;

    open spec fn view(&self) -> TaskModel {
        TaskModel { id: self.id, task: self.task@, due: self.due, status: self.status }
    }
}

impl Clone for TaskItem {
    fn clone(&self) -> (r: Self)
        ensures
            r == *self,
    {
        TaskItem { id: self.id, task: self.task.clone(), due: self.due, status: self.status }
    }
}

/// The view of a whole store: each record by its model.
pub open spec fn views(s: Seq<TaskItem>) -> Seq<TaskModel> {
    s.map_values(|t: TaskItem| t@)
}

/// Relies on `uuid::Uuid::new_v4` for a fresh random identifier.
/// Nothing is promised of the value; the rest of the library never
/// reads it, it is only carried along. The call fails only if the
/// operating system's randomness source itself fails, an environmental
/// condition independent of any input, like allocation failure.
#[verifier::external_body]
fn fresh_id() -> u128 {
    uuid::Uuid::new_v4().as_u128()
}

impl TaskItem {
    /// Creates a record with a newly assigned identity. Everything but
    /// the identity is pinned by the arguments.
    pub fn new(task: &str, datetime: DueDate, todostate: TodoState) -> (r: Self)
        ensures
            r@.task == task@,
            r@.due == datetime,
            r@.status == todostate,
    {
        TaskItem { id: fresh_id(), task: task.to_owned(), due: datetime, status: todostate }
    }

    /// Replaces the description; the other fields stay as they were.
    pub fn update_task(&mut self, task: &str)
        ensures
            final(self)@ == (TaskModel { task: task@, ..old(self)@ }),
    {
        self.task = task.to_owned();
    }

    /// Replaces the due timestamp; the other fields stay as they were.
    pub fn update_duedate(&mut self, datetime: DueDate)
        ensures
            final(self)@ == (TaskModel { due: datetime, ..old(self)@ }),
    {
        self.due = datetime;
    }

    /// Replaces the lifecycle state; the other fields stay as they were.
    pub fn update_status(&mut self, status: TodoState)
        ensures
            final(self)@ == (TaskModel { status: status, ..old(self)@ }),
    {
        self.status = status;
    }
}

/// The characters of a text, one by one.
pub fn str_to_chars(s: &str) -> (r: Vec<char>)
    ensures
        r@ == s@,
{
    let n = s.unicode_len();
    let mut r: Vec<char> = Vec::new();
    let mut i: usize = 0;
    while i < n
        invariant
            i <= n,
            n == s@.len(),
            r@ == s@.take(i as int),
        decreases n - i,
    {
        let c = s.get_char(i);
        proof {
            assert(s@.take(i as int).push(s@[i as int]) =~= s@.take(i + 1));
        }
        r.push(c);
        i = i + 1;
    }
    proof {
        assert(s@.take(n as int) =~= s@);
    }
    r
}

/// Relies on `String`'s `FromIterator<char>`: collecting characters
/// yields the string holding exactly those characters in order.
#[verifier::external_body]
pub(crate) fn chars_to_string(v: &Vec<char>) -> (r: String)
    ensures
        r@ == v@,
{
    v.iter().collect()
}

} // verus!
