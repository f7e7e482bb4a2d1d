//! The persisted text form of a store: a count followed by one framed
//! record per task, every number as fixed-width decimal digits, with
//! the save/load round trip proved lossless.

use vstd::prelude::*;

use crate::date::{due_of_text, due_text, due_text_valid, lemma_due_text_roundtrip, parse_due_at};
use crate::digits::{
    all_digits, lemma_num_text_roundtrip, lemma_pow10_20, lemma_text_num_bound, num_text,
    parse_num, pow10, push_num, text_num,
};
use crate::{chars_to_string, str_to_chars, views, TaskItem, TaskModel, TodoState};

verus! {

/// The character a state is stored as.
pub open spec fn status_char(st: TodoState) -> char {
    match st {
        TodoState::Todo => 't',
        TodoState::InProgress => 'i',
        TodoState::Completed => 'c',
    }
}

/// The state a stored character denotes, if any.
pub open spec fn parse_status(c: char) -> Option<TodoState> {
    if c == 't' {
        Some(TodoState::Todo)
    } else if c == 'i' {
        Some(TodoState::InProgress)
    } else if c == 'c' {
        Some(TodoState::Completed)
    } else {
        None
    }
}

/// One record's text: the description length (20 digits), the
/// description itself, the identity split into its upper and lower
/// halves (20 digits each), the due timestamp text and the state
/// character.
pub open spec fn record_text(m: TaskModel) -> Seq<char> {
    num_text(m.task.len() as int, 20) + m.task + num_text(
        m.id as int / 0x10000000000000000,
        20,
    ) + num_text(m.id as int % 0x10000000000000000, 20) + due_text(m.due) + seq![
        status_char(m.status),
    ]
}

/// The records' texts, first record first.
pub open spec fn records_text(s: Seq<TaskModel>) -> Seq<char>
    decreases s.len(),
{
    if s.len() == 0 {
        Seq::empty()
    } else {
        record_text(s[0]) + records_text(s.skip(1))
    }
}

/// A whole store's text: the record count (20 digits), the records.
pub open spec fn store_text(s: Seq<TaskModel>) -> Seq<char> {
    num_text(s.len() as int, 20) + records_text(s)
}

/// Reads one record off the front of a text: `None` where the frame is
/// damaged, otherwise the record and the text after it.
pub open spec fn parse_record(s: Seq<char>) -> Option<(TaskModel, Seq<char>)> {
    if s.len() < 20 || !all_digits(s.take(20)) {
        None
    } else {
        let l = text_num(s.take(20));
        if s.len() < 80 + l {
            None
        } else {
            let task = s.subrange(20, 20 + l);
            let hit = s.subrange(20 + l, 40 + l);
            let lot = s.subrange(40 + l, 60 + l);
            let duet = s.subrange(60 + l, 79 + l);
            let stc = s[79 + l];
            if !all_digits(hit) || !all_digits(lot) || text_num(hit) > u64::MAX as int || text_num(
                lot,
            ) > u64::MAX as int || !due_text_valid(duet) || parse_status(stc) is None {
                None
            } else {
                Some(
                    (
                        TaskModel {
                            id: (text_num(hit) * 0x10000000000000000 + text_num(lot)) as u128,
                            task: task,
                            due: due_of_text(duet),
                            status: parse_status(stc)->0,
                        },
                        s.skip(80 + l),
                    ),
                )
            }
        }
    }
}

/// Reads exactly `n` records and requires the text to end there.
pub open spec fn parse_records(s: Seq<char>, n: nat) -> Option<Seq<TaskModel>>
    decreases n,
{
    if n == 0 {
        if s.len() == 0 {
            Some(Seq::empty())
        } else {
            None
        }
    } else {
        match parse_record(s) {
            None => None,
            Some(p) => match parse_records(p.1, (n - 1) as nat) {
                None => None,
                Some(ms) => Some(seq![p.0] + ms),
            },
        }
    }
}

/// Reads a whole store's text back, `None` where it is damaged.
pub open spec fn parse_store(s: Seq<char>) -> Option<Seq<TaskModel>> {
    if s.len() < 20 || !all_digits(s.take(20)) {
        None
    } else {
        parse_records(s.skip(20), text_num(s.take(20)) as nat)
    }
}

/// Appending a record's text extends the records' text at the end.
proof fn lemma_records_text_push(s: Seq<TaskModel>, m: TaskModel)
    ensures
        records_text(s.push(m)) == records_text(s) + record_text(m),
    decreases s.len(),
{
    let sp = s.push(m);
    if s.len() == 0 {
        assert(sp[0] == m);
        assert(sp.skip(1) =~= Seq::<TaskModel>::empty());
        assert(records_text(Seq::<TaskModel>::empty()) =~= Seq::<char>::empty());
        assert(records_text(sp) == record_text(m) + records_text(sp.skip(1)));
        assert(records_text(s) =~= Seq::<char>::empty());
        assert(records_text(sp) =~= records_text(s) + record_text(m));
    } else {
        assert(sp[0] == s[0]);
        assert(sp.skip(1) =~= s.skip(1).push(m));
        lemma_records_text_push(s.skip(1), m);
        assert(records_text(sp) == record_text(s[0]) + records_text(sp.skip(1)));
        assert(records_text(sp) =~= records_text(s) + record_text(m));
    }
}

/// A record's text followed by anything reads back as that record with
/// the rest untouched.
proof fn lemma_parse_record_prepend(m: TaskModel, rest: Seq<char>)
    requires
        m.due.wf(),
        m.task.len() < pow10(20),
    ensures
        parse_record(record_text(m) + rest) == Some((m, rest)),
{
    lemma_pow10_20();
    let l = m.task.len() as int;
    let hi = m.id as int / 0x10000000000000000;
    let lo = m.id as int % 0x10000000000000000;
    assert(0 <= hi < 0x10000000000000000) by (nonlinear_arith)
        requires
            0 <= (m.id as int) && (m.id as int) < 0x100000000000000000000000000000000,
            hi == m.id as int / 0x10000000000000000,
    {
    }
    assert(0 <= lo < 0x10000000000000000);
    lemma_num_text_roundtrip(l, 20);
    lemma_num_text_roundtrip(hi, 20);
    lemma_num_text_roundtrip(lo, 20);
    lemma_due_text_roundtrip(m.due);
    let s = record_text(m) + rest;
    assert(s.len() == 80 + l + rest.len());
    assert(s.take(20) =~= num_text(l, 20));
    assert(s.subrange(20, 20 + l) =~= m.task);
    assert(s.subrange(20 + l, 40 + l) =~= num_text(hi, 20));
    assert(s.subrange(40 + l, 60 + l) =~= num_text(lo, 20));
    assert(s.subrange(60 + l, 79 + l) =~= due_text(m.due));
    assert(s[79 + l] == status_char(m.status));
    assert(s.skip(80 + l) =~= rest);
    assert(hi * 0x10000000000000000 + lo == m.id as int) by (nonlinear_arith)
        requires
            hi == m.id as int / 0x10000000000000000,
            lo == m.id as int % 0x10000000000000000,
    {
    }
    assert(parse_status(status_char(m.status)) == Some(m.status));
    let parsed = parse_record(s)->0;
    assert(parsed.0 == m);
    assert(parsed.1 == rest);
}

/// The records' text of a store reads back as exactly those records.
proof fn lemma_parse_records_roundtrip(s: Seq<TaskModel>)
    requires
        forall|i: int| 0 <= i < s.len() ==> (#[trigger] s[i]).due.wf(),
        forall|i: int| 0 <= i < s.len() ==> (#[trigger] s[i]).task.len() < pow10(20),
    ensures
        parse_records(records_text(s), s.len()) == Some(s),
    decreases s.len(),
{
    if s.len() > 0 {
        lemma_parse_record_prepend(s[0], records_text(s.skip(1)));
        assert(forall|i: int|
            0 <= i < s.skip(1).len() ==> (#[trigger] s.skip(1)[i]) == s[i + 1]);
        lemma_parse_records_roundtrip(s.skip(1));
        assert(seq![s[0]] + s.skip(1) =~= s);
    }
}

/// Saving and loading reproduces the store: the text a store renders to
/// reads back as exactly the same sequence of records, identities,
/// descriptions, due timestamps and states included.
pub proof fn lemma_store_roundtrip(s: Seq<TaskModel>)
    requires
        forall|i: int| 0 <= i < s.len() ==> (#[trigger] s[i]).due.wf(),
        forall|i: int| 0 <= i < s.len() ==> (#[trigger] s[i]).task.len() < pow10(20),
        s.len() < pow10(20),
    ensures
        parse_store(store_text(s)) == Some(s),
{
    lemma_num_text_roundtrip(s.len() as int, 20);
    let t = store_text(s);
    assert(t.take(20) =~= num_text(s.len() as int, 20));
    assert(t.skip(20) =~= records_text(s));
    lemma_parse_records_roundtrip(s);
}

/// Renders the whole store as its persisted text.
pub fn encode_store(list: &Vec<TaskItem>) -> (out: Vec<char>)
    ensures
        out@ == store_text(views(list@)),
{
    let mut out: Vec<char> = Vec::new();
    push_num(&mut out, list.len() as u128, 20);
    let n = list.len();
    let mut i: usize = 0;
    while i < n
        invariant
            i <= n,
            n == list@.len(),
            out@ == num_text(list@.len() as int, 20) + records_text(views(list@.take(i as int))),
        decreases n - i,
    {
        let ghost before = out@;
        let tc = str_to_chars(list[i].task.as_str());
        push_num(&mut out, tc.len() as u128, 20);
        let mut j: usize = 0;
        let tlen = tc.len();
        while j < tlen
            invariant
                j <= tlen,
                tlen == tc@.len(),
                out@ == before + num_text(tc@.len() as int, 20) + tc@.take(j as int),
            decreases tlen - j,
        {
            proof {
                assert((before + num_text(tc@.len() as int, 20) + tc@.take(j as int)).push(
                    tc@[j as int],
                ) =~= before + num_text(tc@.len() as int, 20) + tc@.take(j + 1));
            }
            out.push(tc[j]);
            j = j + 1;
        }
        proof {
            assert(tc@.take(tlen as int) =~= tc@);
        }
        let id = list[i].id;
        push_num(&mut out, id / 0x10000000000000000, 20);
        push_num(&mut out, id % 0x10000000000000000, 20);
        push_due_text_local(&mut out, list, i);
        let sc: char = match list[i].status {
            TodoState::Todo => 't',
            TodoState::InProgress => 'i',
            TodoState::Completed => 'c',
        };
        out.push(sc);
        proof {
            lemma_records_text_push(views(list@.take(i as int)), list@[i as int]@);
            assert(views(list@.take(i + 1)) =~= views(list@.take(i as int)).push(
                list@[i as int]@,
            ));
            assert(out@ =~= num_text(list@.len() as int, 20) + records_text(
                views(list@.take(i + 1)),
            ));
        }
        i = i + 1;
    }
    proof {
        assert(list@.take(n as int) =~= list@);
    }
    out
}

/// Appends the due text of the record at `i` (a helper so the borrow of
/// the list and the growing output do not overlap).
fn push_due_text_local(out: &mut Vec<char>, list: &Vec<TaskItem>, i: usize)
    requires
        i < list@.len(),
    ensures
        final(out)@ == old(out)@ + due_text(list@[i as int]@.due),
{
    let d = list[i].due;
    crate::date::push_due_text(out, &d);
}

/// Reads a persisted text back into a store: `Some` exactly where the
/// text is a well-formed store rendering.
#[verifier::rlimit(100)]
#[verifier::spinoff_prover]
pub fn decode_store(input: &Vec<char>) -> (r: Option<Vec<TaskItem>>)
    ensures
        r matches Some(v) ==> parse_store(input@) == Some(views(v@)),
        r is None ==> parse_store(input@) is None,
{
    let ilen = input.len();
    if ilen < 20 {
        return None;
    }
    let n = match parse_num(input, 0, 20) {
        Some(c) => c,
        None => {
            proof {
                assert(input@.take(20) =~= input@.subrange(0, 20));
            }
            return None;
        },
    };
    proof {
        assert(input@.take(20) =~= input@.subrange(0, 20));
        lemma_text_num_bound(input@.take(20));
        lemma_pow10_20();
    }
    let mut acc: Vec<TaskItem> = Vec::new();
    let mut pos: usize = 20;
    let mut k: u128 = 0;
    proof {
        let pr = parse_records(input@.skip(20), n as nat);
        if pr is Some {
            assert(views(acc@) + pr->0 =~= pr->0);
        }
    }
    while k < n
        invariant
            k <= n,
            20 <= pos <= input@.len() == ilen,
            n as nat == text_num(input@.take(20)) as nat,
            parse_store(input@) == (match parse_records(input@.skip(pos as int), (n - k) as nat) {
                Option::None => Option::<Seq<TaskModel>>::None,
                Option::Some(ms) => Option::<Seq<TaskModel>>::Some(views(acc@) + ms),
            }),
        decreases n - k,
    {
        let ghost rem = input@.skip(pos as int);
        let remaining = ilen - pos;
        if remaining < 20 {
            proof {
                assert(parse_record(rem) is None);
            }
            return None;
        }
        let l128 = match parse_num(input, pos, 20) {
            Some(c) => c,
            None => {
                proof {
                    assert(rem.take(20) =~= input@.subrange(pos as int, pos + 20));
                    assert(parse_record(rem) is None);
                }
                return None;
            },
        };
        proof {
            assert(rem.take(20) =~= input@.subrange(pos as int, pos + 20));
            lemma_pow10_20();
            lemma_text_num_bound(rem.take(20));
        }
        if (remaining as u128) < 80 + l128 {
            proof {
                assert(rem.len() < 80 + text_num(rem.take(20)));
                assert(parse_record(rem) is None);
            }
            return None;
        }
        let l = l128 as usize;
        proof {
            assert(l128 <= (remaining as u128));
            assert(l as int == l128 as int);
            assert(text_num(rem.take(20)) == l as int);
            assert(pos + 80 + l <= ilen);
        }
        let mut tc: Vec<char> = Vec::new();
        let mut j: usize = 0;
        while j < l
            invariant
                j <= l,
                pos + 80 + l <= input@.len(),
                input@.len() == ilen,
                tc@ == input@.subrange(pos + 20, pos + 20 + j),
            decreases l - j,
        {
            proof {
                assert(input@.subrange(pos + 20, pos + 20 + j).push(input@[pos + 20 + j]) =~= input@
                    .subrange(pos + 20, pos + 20 + j + 1));
            }
            tc.push(input[pos + 20 + j]);
            j = j + 1;
        }
        let task = chars_to_string(&tc);
        let hi = match parse_num(input, pos + 20 + l, 20) {
            Some(c) => c,
            None => {
                proof {
                    assert(rem.subrange(20 + l as int, 40 + l as int) =~= input@.subrange(
                        pos + 20 + l,
                        pos + 40 + l,
                    ));
                    assert(parse_record(rem) is None);
                }
                return None;
            },
        };
        let lo = match parse_num(input, pos + 40 + l, 20) {
            Some(c) => c,
            None => {
                proof {
                    assert(rem.subrange(20 + l as int, 40 + l as int) =~= input@.subrange(
                        pos + 20 + l,
                        pos + 40 + l,
                    ));
                    assert(rem.subrange(40 + l as int, 60 + l as int) =~= input@.subrange(
                        pos + 40 + l,
                        pos + 60 + l,
                    ));
                    assert(parse_record(rem) is None);
                }
                return None;
            },
        };
        proof {
            assert(rem.subrange(20 + l as int, 40 + l as int) =~= input@.subrange(
                pos + 20 + l,
                pos + 40 + l,
            ));
            assert(rem.subrange(40 + l as int, 60 + l as int) =~= input@.subrange(
                pos + 40 + l,
                pos + 60 + l,
            ));
            lemma_text_num_bound(rem.subrange(20 + l as int, 40 + l as int));
            lemma_text_num_bound(rem.subrange(40 + l as int, 60 + l as int));
            assert(hi as int == text_num(rem.subrange(20 + l as int, 40 + l as int)));
            assert(lo as int == text_num(rem.subrange(40 + l as int, 60 + l as int)));
        }
        if hi > u64::MAX as u128 || lo > u64::MAX as u128 {
            proof {
                assert(parse_record(rem) is None);
            }
            return None;
        }
        let due = match parse_due_at(input, pos + 60 + l) {
            Some(d) => d,
            None => {
                proof {
                    assert(rem.subrange(60 + l as int, 79 + l as int) =~= input@.subrange(
                        pos + 60 + l,
                        pos + 79 + l,
                    ));
                    assert(parse_record(rem) is None);
                }
                return None;
            },
        };
        proof {
            assert(rem.subrange(60 + l as int, 79 + l as int) =~= input@.subrange(
                pos + 60 + l,
                pos + 79 + l,
            ));
        }
        let stc = input[pos + 79 + l];
        let status = if stc == 't' {
            TodoState::Todo
        } else if stc == 'i' {
            TodoState::InProgress
        } else if stc == 'c' {
            TodoState::Completed
        } else {
            proof {
                assert(rem[79 + l as int] == input@[pos + 79 + l]);
                assert(parse_record(rem) is None);
            }
            return None;
        };
        proof {
            assert(rem[79 + l as int] == input@[pos + 79 + l]);
        }
        let id = hi * 0x10000000000000000 + lo;
        let item = TaskItem { id: id, task: task, due: due, status: status };
        proof {
            assert(rem.subrange(20, 20 + l as int) =~= input@.subrange(pos + 20, pos + 20 + l));
            assert(parse_record(rem) == Some((item@, rem.skip(80 + l as int))));
            assert(rem.skip(80 + l as int) =~= input@.skip(pos + 80 + l));
        }
        let ghost before = acc@;
        acc.push(item);
        proof {
            assert(views(acc@) =~= views(before).push(item@));
            let pr2 = parse_records(input@.skip(pos + 80 + l), (n - k - 1) as nat);
            if pr2 is Some {
                assert(views(before) + (seq![item@] + pr2->0) =~= views(acc@) + pr2->0);
            }
        }
        pos = pos + 80 + l;
        k = k + 1;
    }
    if pos != ilen {
        proof {
            assert(input@.skip(pos as int).len() != 0);
        }
        return None;
    }
    proof {
        assert(input@.skip(pos as int).len() == 0);
        assert(views(acc@) + Seq::<TaskModel>::empty() =~= views(acc@));
    }
    Some(acc)
}

} // verus!
