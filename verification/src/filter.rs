//! Selecting a subset of the store by a regular expression over the
//! description or the due-date text, or by state, keeping each record's
//! original 1-based position.

use vstd::prelude::*;

use crate::date::due_text;
use crate::{TaskItem, TaskModel, TodoState};

verus! {

/// Whether a pattern is a valid regular expression: a function of the
/// pattern text alone.
pub uninterp spec fn pattern_ok(pat: Seq<char>) -> bool;

/// Whether a valid pattern matches somewhere in a text: a function of
/// the two texts alone.
pub uninterp spec fn pattern_matches(pat: Seq<char>, text: Seq<char>) -> bool;

/// Relies on `regex::Regex::new`: whether a pattern compiles depends on
/// the pattern text alone.
#[verifier::external_body]
pub(crate) fn regex_ok(pat: &str) -> (r: bool)
    ensures
        r == pattern_ok(pat@),
{
    regex::Regex::new(pat).is_ok()
}

/// Relies on `regex::Regex::new` and `regex::Regex::is_match`: whether a
/// valid pattern matches a text depends on the two texts alone.
#[verifier::external_body]
pub(crate) fn regex_is_match(pat: &str, text: &str) -> (r: bool)
    requires
        pattern_ok(pat@),
    ensures
        r == pattern_matches(pat@, text@),
{
    match regex::Regex::new(pat) {
        Ok(re) => re.is_match(text),
        Err(_) => false,
    }
}

/// The records satisfying `pred`, in store order, each with its 1-based
/// position in the store the selection ran over.
pub open spec fn filter_pairs(s: Seq<TaskModel>, pred: spec_fn(TaskModel) -> bool) -> Seq<
    (usize, TaskModel),
>
    decreases s.len(),
{
    if s.len() == 0 {
        Seq::empty()
    } else {
        let pre = filter_pairs(s.drop_last(), pred);
        if pred(s.last()) {
            pre.push((s.len() as usize, s.last()))
        } else {
            pre
        }
    }
}

/// The models of a selected list of (position, record) pairs.
pub open spec fn pairs_views(q: Seq<(usize, TaskItem)>) -> Seq<(usize, TaskModel)> {
    q.map_values(|p: (usize, TaskItem)| (p.0, p.1@))
}

/// Description selection: the pattern against the raw description,
/// negated when `rev` is set.
pub open spec fn name_pred(pat: Seq<char>, rev: bool) -> spec_fn(TaskModel) -> bool {
    |t: TaskModel| rev != pattern_matches(pat, t.task)
}

/// Due-date selection: the pattern against the record's rendered
/// `dd-mm-yyyy hh:mm:ss` text, negated when `rev` is set.
pub open spec fn due_pred(pat: Seq<char>, rev: bool) -> spec_fn(TaskModel) -> bool {
    |t: TaskModel| rev != pattern_matches(pat, due_text(t.due))
}

/// State selection: exact equality, negated when `rev` is set.
pub open spec fn status_pred(st: TodoState, rev: bool) -> spec_fn(TaskModel) -> bool {
    |t: TaskModel| rev != (t.status == st)
}

} // verus!
