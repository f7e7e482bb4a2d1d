//! Stable sorting of the store: a stable insertion sort, specified by a
//! recursive spec-level sort so that the result is pinned exactly, with
//! the description order taken from the outside natural comparison.

use vstd::prelude::*;

use crate::args::SortBy;
use crate::digits::is_digit;
use crate::{str_to_chars, views, TaskItem, TaskModel};

verus! {

/// What `str::to_lowercase` returns: a function of the characters alone.
pub uninterp spec fn lower_of(s: Seq<char>) -> Seq<char>;

/// Whether `a` sorts no later than `b` under natural ordering (embedded
/// runs of digits compare by numeric value).
pub uninterp spec fn natural_le(a: Seq<char>, b: Seq<char>) -> bool;

/// Relies on `str::to_lowercase`: the result depends on the characters
/// alone.
#[verifier::external_body]
fn lowercase(s: &str) -> (r: String)
    ensures
        r@ == lower_of(s@),
{
    s.to_lowercase()
}

/// A scan for a run of 20 decimal digits, `run` of them already seen:
/// true where none follows.
pub open spec fn digit_run_scan(s: Seq<char>, i: int, run: int) -> bool
    decreases s.len() - i,
{
    if i < 0 || i >= s.len() {
        true
    } else if is_digit(s[i]) {
        if run + 1 >= 20 {
            false
        } else {
            digit_run_scan(s, i + 1, run + 1)
        }
    } else {
        digit_run_scan(s, i + 1, 0)
    }
}

/// No run of 20 or more decimal digits anywhere in the text.
pub open spec fn digit_runs_ok(s: Seq<char>) -> bool {
    digit_run_scan(s, 0, 0)
}

/// Whether the text is free of runs of 20 or more decimal digits.
fn digit_runs_ok_exec(v: &Vec<char>) -> (r: bool)
    ensures
        r == digit_runs_ok(v@),
{
    let n = v.len();
    let mut i: usize = 0;
    let mut run: usize = 0;
    while i < n
        invariant
            i <= n,
            n == v@.len(),
            run <= 19,
            digit_runs_ok(v@) == digit_run_scan(v@, i as int, run as int),
        decreases n - i,
    {
        let c = v[i];
        let isd = c == '0' || c == '1' || c == '2' || c == '3' || c == '4' || c == '5' || c == '6'
            || c == '7' || c == '8' || c == '9';
        assert(isd == is_digit(v@[i as int]));
        if isd {
            if run + 1 >= 20 {
                return false;
            }
            run = run + 1;
        } else {
            run = 0;
        }
        i = i + 1;
    }
    true
}

/// Plain character-code order on two texts: the total order the sort
/// falls back to where the natural comparison cannot be called.
pub open spec fn lex_le(a: Seq<char>, b: Seq<char>) -> bool
    decreases a.len(),
{
    if a.len() == 0 {
        true
    } else if b.len() == 0 {
        false
    } else if a[0] as u32 != b[0] as u32 {
        (a[0] as u32) < (b[0] as u32)
    } else {
        lex_le(a.skip(1), b.skip(1))
    }
}

/// `lex_le` is total: one of the two directions always holds.
pub proof fn lemma_lex_le_total(a: Seq<char>, b: Seq<char>)
    ensures
        lex_le(a, b) || lex_le(b, a),
    decreases a.len(),
{
    if a.len() > 0 && b.len() > 0 && a[0] as u32 == b[0] as u32 {
        lemma_lex_le_total(a.skip(1), b.skip(1));
    }
}

/// Distinct characters have distinct code points.
proof fn lemma_char_cast_distinct(c1: char, c2: char)
    requires
        c1 != c2,
    ensures
        c1 as u32 != c2 as u32,
{
}

/// Skipping an equal prefix leaves the comparison unchanged.
proof fn lemma_lex_le_skip(a: Seq<char>, b: Seq<char>, i: int)
    requires
        0 <= i <= a.len(),
        i <= b.len(),
        forall|j: int| 0 <= j < i ==> a[j] == b[j],
    ensures
        lex_le(a, b) == lex_le(a.skip(i), b.skip(i)),
    decreases i,
{
    if i > 0 {
        assert(a[0] == b[0]);
        assert(a.skip(1).skip(i - 1) =~= a.skip(i));
        assert(b.skip(1).skip(i - 1) =~= b.skip(i));
        assert forall|j: int| 0 <= j < i - 1 implies a.skip(1)[j] == #[trigger] b.skip(1)[j] by {
            assert(a.skip(1)[j] == a[j + 1]);
            assert(b.skip(1)[j] == b[j + 1]);
        }
        lemma_lex_le_skip(a.skip(1), b.skip(1), i - 1);
    } else {
        assert(a.skip(0) =~= a);
        assert(b.skip(0) =~= b);
    }
}

/// Compares two texts by plain character-code order.
fn lex_le_exec(a: &Vec<char>, b: &Vec<char>) -> (r: bool)
    ensures
        r == lex_le(a@, b@),
{
    let alen = a.len();
    let blen = b.len();
    let mut i: usize = 0;
    while i < alen && i < blen
        invariant
            i <= alen,
            i <= blen,
            alen == a@.len(),
            blen == b@.len(),
            forall|j: int| 0 <= j < i ==> a@[j] == #[trigger] b@[j],
        decreases alen - i,
    {
        let ca = a[i];
        let cb = b[i];
        if ca != cb {
            proof {
                lemma_lex_le_skip(a@, b@, i as int);
                assert(a@.skip(i as int)[0] == a@[i as int]);
                assert(b@.skip(i as int)[0] == b@[i as int]);
                assert(ca == a@[i as int]);
                assert(cb == b@[i as int]);
                lemma_char_cast_distinct(ca, cb);
                assert(a@[i as int] as u32 != b@[i as int] as u32);
                assert(lex_le(a@.skip(i as int), b@.skip(i as int)) == ((ca as u32) < (
                cb as u32)));
            }
            return (ca as u32) < (cb as u32);
        }
        proof {
            assert(a@[i as int] == b@[i as int]);
        }
        i = i + 1;
    }
    proof {
        lemma_lex_le_skip(a@, b@, i as int);
    }
    alen <= blen
}

/// Relies on `lexicmp::natural_cmp`: it is deterministic in the two
/// character sequences, and swapping its arguments reverses its answer,
/// so where `a` sorts after `b` it also holds that `b` sorts no later
/// than `a`. Its digit accumulator adds up aligned digit runs in
/// unchecked 64-bit arithmetic, so callers keep runs of 20 or more
/// digits out of at least one argument; an aligned run can never be
/// longer than the shorter side's run, so one bounded side keeps the
/// accumulator within 19 digits.
#[verifier::external_body]
fn natural_le_exec(a: &str, b: &str) -> (r: bool)
    requires
        digit_runs_ok(a@) || digit_runs_ok(b@),
    ensures
        r == natural_le(a@, b@),
        !r ==> natural_le(b@, a@),
{
    lexicmp::natural_cmp(a, b) != core::cmp::Ordering::Greater
}

/// Where the new element goes: after every element it is not strictly
/// smaller than, so that elements comparing equal keep their original
/// relative order (stability).
pub open spec fn insert_le<T>(le: spec_fn(T, T) -> bool, s: Seq<T>, x: T) -> Seq<T>
    decreases s.len(),
{
    if s.len() == 0 {
        seq![x]
    } else if le(s.last(), x) {
        s.push(x)
    } else {
        insert_le(le, s.drop_last(), x).push(s.last())
    }
}

/// The stable insertion sort of `s` under `le`.
pub open spec fn sort_le<T>(le: spec_fn(T, T) -> bool, s: Seq<T>) -> Seq<T>
    decreases s.len(),
{
    if s.len() == 0 {
        Seq::empty()
    } else {
        insert_le(le, sort_le(le, s.drop_last()), s.last())
    }
}

/// Each element sorts no later than its successor.
pub open spec fn sorted_adj<T>(le: spec_fn(T, T) -> bool, s: Seq<T>) -> bool {
    forall|j: int| 0 <= j < s.len() - 1 ==> le(#[trigger] s[j], s[j + 1])
}

/// Inserting at the scanned-for position is what `insert_le` does.
proof fn lemma_insert_le_at<T>(le: spec_fn(T, T) -> bool, s: Seq<T>, x: T, pos: int)
    requires
        0 <= pos <= s.len(),
        pos > 0 ==> le(s[pos - 1], x),
        forall|j: int| pos <= j < s.len() ==> !le(#[trigger] s[j], x),
    ensures
        insert_le(le, s, x) == s.take(pos) + seq![x] + s.skip(pos),
    decreases s.len(),
{
    if s.len() == 0 {
        assert(insert_le(le, s, x) =~= s.take(pos) + seq![x] + s.skip(pos));
    } else if le(s.last(), x) {
        assert(pos == s.len());
        assert(insert_le(le, s, x) =~= s.take(pos) + seq![x] + s.skip(pos));
    } else {
        assert(pos <= s.len() - 1);
        let d = s.drop_last();
        assert(forall|j: int| pos <= j < d.len() ==> !le(#[trigger] d[j], x));
        if pos > 0 {
            assert(d[pos - 1] == s[pos - 1]);
        }
        lemma_insert_le_at(le, d, x, pos);
        assert(insert_le(le, s, x) =~= s.take(pos) + seq![x] + s.skip(pos));
    }
}

/// The comparator a sort key and the reverse flag select, as a value,
/// so that contracts can name one and the same function.
pub open spec fn task_le_fn(key: SortBy, reverse: bool) -> spec_fn(TaskModel, TaskModel) -> bool {
    |a: TaskModel, b: TaskModel| task_le(key, reverse, a, b)
}

/// Descending numeric order on positions, as a comparator value.
pub open spec fn ge_fn() -> spec_fn(usize, usize) -> bool {
    |a: usize, b: usize| a >= b
}

/// The order a sort key and the reverse flag put two records in. With
/// the flag set the comparison runs the other way round, as handing a
/// flipped comparator to a stable sort does.
pub open spec fn task_le(key: SortBy, reverse: bool, a: TaskModel, b: TaskModel) -> bool {
    if reverse {
        base_le(key, b, a)
    } else {
        base_le(key, a, b)
    }
}

/// Ascending order under one sort key: descriptions by natural order of
/// their lowercase forms, due dates chronologically, states by their
/// ordinal. Where both lowercased descriptions carry a run of 20 or
/// more digits — the one region the outside natural comparison cannot
/// be handed (its digit accumulator could overflow) — the pair is
/// ordered by plain character codes instead.
pub open spec fn base_le(key: SortBy, a: TaskModel, b: TaskModel) -> bool {
    match key {
        SortBy::Task => if digit_runs_ok(lower_of(a.task)) || digit_runs_ok(lower_of(b.task)) {
            natural_le(lower_of(a.task), lower_of(b.task))
        } else {
            lex_le(lower_of(a.task), lower_of(b.task))
        },
        SortBy::Duedate => a.due.ts() <= b.due.ts(),
        SortBy::Status => a.status.ord() <= b.status.ord(),
    }
}

/// Compares two records under a key; where the answer is "after", the
/// reversed comparison is "no later", so the order is total.
fn task_le_exec(a: &TaskItem, b: &TaskItem, key: SortBy, reverse: bool) -> (r: bool)
    ensures
        r == task_le(key, reverse, a@, b@),
        !r ==> task_le(key, reverse, b@, a@),
{
    let (x, y) = if reverse {
        (b, a)
    } else {
        (a, b)
    };
    match key {
        SortBy::Task => {
            let lx = lowercase(x.task.as_str());
            let ly = lowercase(y.task.as_str());
            let cx = str_to_chars(lx.as_str());
            let cy = str_to_chars(ly.as_str());
            if digit_runs_ok_exec(&cx) || digit_runs_ok_exec(&cy) {
                natural_le_exec(lx.as_str(), ly.as_str())
            } else {
                proof {
                    lemma_lex_le_total(lower_of(x.task@), lower_of(y.task@));
                }
                lex_le_exec(&cx, &cy)
            }
        },
        SortBy::Duedate => x.due.le(&y.due),
        SortBy::Status => {
            let ox: u8 = match x.status {
                crate::TodoState::Todo => 0,
                crate::TodoState::InProgress => 1,
                crate::TodoState::Completed => 2,
            };
            let oy: u8 = match y.status {
                crate::TodoState::Todo => 0,
                crate::TodoState::InProgress => 1,
                crate::TodoState::Completed => 2,
            };
            ox <= oy
        },
    }
}

/// Reorders the store into the stable insertion sort of its records
/// under the key, leaving the result sorted throughout.
pub fn sort_tasks(list: &mut Vec<TaskItem>, key: SortBy, reverse: bool)
    ensures
        views(final(list)@) == sort_le(task_le_fn(key, reverse), views(old(list)@)),
        sorted_adj(task_le_fn(key, reverse), views(final(list)@)),
{
    let ghost le = task_le_fn(key, reverse);
    let mut result: Vec<TaskItem> = Vec::new();
    let n = list.len();
    let mut i: usize = 0;
    while i < n
        invariant
            i <= n,
            n == list@.len(),
            views(result@) == sort_le(le, views(list@.take(i as int))),
            sorted_adj(le, views(result@)),
            le == task_le_fn(key, reverse),
        decreases n - i,
    {
        let x = list[i].clone();
        let mut pos: usize = result.len();
        while pos > 0 && !task_le_exec(&result[pos - 1], &x, key, reverse)
            invariant
                pos <= result@.len(),
                forall|j: int|
                    pos <= j < result@.len() ==> !le(views(result@)[j], x@) && le(
                        x@,
                        #[trigger] views(result@)[j],
                    ),
                le == task_le_fn(key, reverse),
            decreases pos,
        {
            pos = pos - 1;
        }
        proof {
            lemma_insert_le_at(le, views(result@), x@, pos as int);
            assert(views(result@.insert(pos as int, x)) =~= views(result@).take(pos as int)
                + seq![x@] + views(result@).skip(pos as int));
            assert(views(list@.take(i + 1)).drop_last() =~= views(list@.take(i as int)));
            assert(views(list@.take(i + 1)).last() == x@);
        }
        let ghost old_views = views(result@);
        result.insert(pos, x);
        proof {
            assert(views(result@) == insert_le(le, sort_le(le, views(list@.take(i as int))), x@));
            assert(sort_le(le, views(list@.take(i + 1))) == insert_le(
                le,
                sort_le(le, views(list@.take(i + 1)).drop_last()),
                views(list@.take(i + 1)).last(),
            ));
            assert forall|j: int| 0 <= j < views(result@).len() - 1 implies le(
                #[trigger] views(result@)[j],
                views(result@)[j + 1],
            ) by {
                if j < pos - 1 {
                    assert(views(result@)[j] == old_views[j]);
                    assert(views(result@)[j + 1] == old_views[j + 1]);
                } else if j == pos - 1 {
                    assert(views(result@)[j] == old_views[j]);
                    assert(views(result@)[j + 1] == x@);
                } else if j == pos {
                    assert(views(result@)[j] == x@);
                    assert(views(result@)[j + 1] == old_views[j]);
                } else {
                    assert(views(result@)[j] == old_views[j - 1]);
                    assert(views(result@)[j + 1] == old_views[j]);
                }
            }
        }
        i = i + 1;
    }
    proof {
        assert(list@.take(n as int) =~= list@);
    }
    *list = result;
}

/// Reorders a list of positions into descending numeric order (the
/// stable insertion sort under `>=`).
pub fn sort_desc(v: &mut Vec<usize>)
    ensures
        final(v)@ == sort_le(ge_fn(), old(v)@),
        sorted_adj(ge_fn(), final(v)@),
{
    let ghost le = ge_fn();
    let mut result: Vec<usize> = Vec::new();
    let n = v.len();
    let mut i: usize = 0;
    while i < n
        invariant
            i <= n,
            n == v@.len(),
            result@ == sort_le(le, v@.take(i as int)),
            sorted_adj(le, result@),
            le == ge_fn(),
        decreases n - i,
    {
        let x = v[i];
        let mut pos: usize = result.len();
        while pos > 0 && !(result[pos - 1] >= x)
            invariant
                pos <= result@.len(),
                forall|j: int| pos <= j < result@.len() ==> !le(#[trigger] result@[j], x) && le(
                    x,
                    result@[j],
                ),
                le == ge_fn(),
            decreases pos,
        {
            pos = pos - 1;
        }
        proof {
            lemma_insert_le_at(le, result@, x, pos as int);
            assert(v@.take(i + 1).drop_last() =~= v@.take(i as int));
        }
        let ghost old_r = result@;
        result.insert(pos, x);
        proof {
            assert(result@ =~= old_r.take(pos as int) + seq![x] + old_r.skip(pos as int));
            assert forall|j: int| 0 <= j < result@.len() - 1 implies le(
                #[trigger] result@[j],
                result@[j + 1],
            ) by {
                if j < pos - 1 {
                } else if j == pos - 1 {
                    assert(result@[j] == old_r[j]);
                    assert(result@[j + 1] == x);
                } else if j == pos {
                    assert(result@[j] == x);
                    assert(result@[j + 1] == old_r[j]);
                } else {
                    assert(result@[j] == old_r[j - 1]);
                    assert(result@[j + 1] == old_r[j]);
                }
            }
        }
        i = i + 1;
    }
    proof {
        assert(v@.take(n as int) =~= v@);
    }
    *v = result;
}

} // verus!
