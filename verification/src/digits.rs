//! Fixed-width decimal numerals: rendering a number as a run of digit
//! characters of a given width and reading such a run back, with the
//! round-trip proved.

use vstd::prelude::*;

verus! {

/// The value of a decimal digit character, or -1 for any other character.
pub open spec fn digit_val(c: char) -> int {
    if c == '0' {
        0
    } else if c == '1' {
        1
    } else if c == '2' {
        2
    } else if c == '3' {
        3
    } else if c == '4' {
        4
    } else if c == '5' {
        5
    } else if c == '6' {
        6
    } else if c == '7' {
        7
    } else if c == '8' {
        8
    } else if c == '9' {
        9
    } else {
        -1
    }
}

pub open spec fn is_digit(c: char) -> bool {
    digit_val(c) >= 0
}

/// The digit character for a value in 0..10.
pub open spec fn digit_char(d: int) -> char {
    if d == 0 {
        '0'
    } else if d == 1 {
        '1'
    } else if d == 2 {
        '2'
    } else if d == 3 {
        '3'
    } else if d == 4 {
        '4'
    } else if d == 5 {
        '5'
    } else if d == 6 {
        '6'
    } else if d == 7 {
        '7'
    } else if d == 8 {
        '8'
    } else {
        '9'
    }
}

pub open spec fn pow10(w: nat) -> int
    decreases w,
{
    if w == 0 {
        1
    } else {
        10 * pow10((w - 1) as nat)
    }
}

/// The number `n` written as exactly `w` decimal digits, most significant
/// first (leading zeros where `n` is short).
pub open spec fn num_text(n: int, w: nat) -> Seq<char>
    decreases w,
{
    if w == 0 {
        Seq::empty()
    } else {
        num_text(n / 10, (w - 1) as nat).push(digit_char(n % 10))
    }
}

/// The number a run of digit characters denotes, most significant first.
pub open spec fn text_num(s: Seq<char>) -> int
    decreases s.len(),
{
    if s.len() == 0 {
        0
    } else {
        text_num(s.drop_last()) * 10 + digit_val(s.last())
    }
}

pub open spec fn all_digits(s: Seq<char>) -> bool {
    forall|i: int| 0 <= i < s.len() ==> is_digit(#[trigger] s[i])
}

pub proof fn lemma_pow10_pos(w: nat)
    ensures
        pow10(w) >= 1,
    decreases w,
{
    if w > 0 {
        lemma_pow10_pos((w - 1) as nat);
    }
}

pub proof fn lemma_pow10_mono(a: nat, b: nat)
    requires
        a <= b,
    ensures
        pow10(a) <= pow10(b),
    decreases b,
{
    if a < b {
        lemma_pow10_mono(a, (b - 1) as nat);
        lemma_pow10_pos((b - 1) as nat);
    }
}

pub proof fn lemma_pow10_20()
    ensures
        pow10(20) == 100_000_000_000_000_000_000,
{
    reveal_with_fuel(pow10, 21);
}

/// A run of digits denotes a value in `0 .. pow10(len)`.
pub proof fn lemma_text_num_bound(s: Seq<char>)
    requires
        all_digits(s),
    ensures
        0 <= text_num(s) < pow10(s.len()),
    decreases s.len(),
{
    if s.len() > 0 {
        assert(all_digits(s.drop_last())) by {
            assert(forall|i: int|
                0 <= i < s.len() - 1 ==> s.drop_last()[i] == #[trigger] s[i]);
        }
        lemma_text_num_bound(s.drop_last());
        assert(0 <= digit_val(s.last()) <= 9);
    }
}

/// Rendering then reading gives the number back, for numbers that fit
/// the width.
pub proof fn lemma_num_text_roundtrip(n: int, w: nat)
    requires
        0 <= n < pow10(w),
    ensures
        num_text(n, w).len() == w,
        all_digits(num_text(n, w)),
        text_num(num_text(n, w)) == n,
    decreases w,
{
    if w > 0 {
        assert(pow10(w) == 10 * pow10((w - 1) as nat));
        assert(n / 10 < pow10((w - 1) as nat)) by (nonlinear_arith)
            requires
                0 <= n,
                n < 10 * pow10((w - 1) as nat),
        {
        }
        lemma_num_text_roundtrip(n / 10, (w - 1) as nat);
        let t = num_text(n, w);
        assert(t.drop_last() =~= num_text(n / 10, (w - 1) as nat));
        assert(t.last() == digit_char(n % 10));
        assert(digit_val(digit_char(n % 10)) == n % 10);
        assert(all_digits(t)) by {
            let inner = num_text(n / 10, (w - 1) as nat);
            assert(forall|i: int| 0 <= i < t.len() - 1 ==> t[i] == #[trigger] inner[i]);
        }
        assert(text_num(t) == (n / 10) * 10 + n % 10);
    }
}

/// Reads `w` characters of `s` starting at `start` as a `w`-digit decimal
/// number; `None` where any of them is not a digit.
pub fn parse_num(s: &Vec<char>, start: usize, w: usize) -> (r: Option<u128>)
    requires
        start + w <= s@.len(),
        w <= 20,
    ensures
        all_digits(s@.subrange(start as int, start + w)) ==> r == Some(
            text_num(s@.subrange(start as int, start + w)) as u128,
        ),
        !all_digits(s@.subrange(start as int, start + w)) ==> r is None,
{
    let ghost whole = s@.subrange(start as int, start + w);
    let slen = s.len();
    let mut acc: u128 = 0;
    let mut i: usize = 0;
    proof {
        lemma_pow10_20();
    }
    while i < w
        invariant
            i <= w,
            w <= 20,
            start + w <= slen == s@.len(),
            whole == s@.subrange(start as int, start + w),
            all_digits(whole.take(i as int)),
            acc == text_num(whole.take(i as int)),
            acc < pow10(i as nat),
            pow10(20) == 100_000_000_000_000_000_000,
        decreases w - i,
    {
        let c = s[start + i];
        assert(c == whole[i as int]);
        let d: u128 = if c == '0' {
            0
        } else if c == '1' {
            1
        } else if c == '2' {
            2
        } else if c == '3' {
            3
        } else if c == '4' {
            4
        } else if c == '5' {
            5
        } else if c == '6' {
            6
        } else if c == '7' {
            7
        } else if c == '8' {
            8
        } else if c == '9' {
            9
        } else {
            assert(!is_digit(whole[i as int]));
            return None;
        };
        assert(d == digit_val(c));
        proof {
            lemma_pow10_mono((i + 1) as nat, 20);
            assert(pow10((i + 1) as nat) == 10 * pow10(i as nat));
        }
        let next = acc * 10 + d;
        proof {
            assert(whole.take(i + 1).drop_last() =~= whole.take(i as int));
            assert(whole.take(i + 1).last() == whole[i as int]);
            assert(forall|j: int|
                0 <= j < i + 1 ==> whole.take(i + 1)[j] == #[trigger] whole[j]);
        }
        acc = next;
        i = i + 1;
    }
    proof {
        assert(whole.take(w as int) =~= whole);
    }
    Some(acc)
}

/// Appends the `w` lowest decimal digits of `n` to `out`, most
/// significant first (exactly `n` where it fits the width).
pub fn push_num(out: &mut Vec<char>, n: u128, w: usize)
    ensures
        final(out)@ == old(out)@ + num_text(n as int, w as nat),
{
    let ghost target = num_text(n as int, w as nat);
    let mut tmp: Vec<char> = Vec::new();
    let mut m: u128 = n;
    let mut i: usize = 0;
    while i < w
        invariant
            i <= w,
            num_text(n as int, w as nat) == num_text(m as int, (w - i) as nat) + tmp@.reverse(),
            tmp@.len() == i,
        decreases w - i,
    {
        let d = (m % 10) as u8;
        let c: char = if d == 0 {
            '0'
        } else if d == 1 {
            '1'
        } else if d == 2 {
            '2'
        } else if d == 3 {
            '3'
        } else if d == 4 {
            '4'
        } else if d == 5 {
            '5'
        } else if d == 6 {
            '6'
        } else if d == 7 {
            '7'
        } else if d == 8 {
            '8'
        } else {
            '9'
        };
        assert(c == digit_char(m as int % 10));
        proof {
            let rest = (w - i - 1) as nat;
            assert(num_text(m as int, (w - i) as nat) == num_text(m as int / 10, rest).push(
                digit_char(m as int % 10),
            ));
            assert((num_text(m as int / 10, rest) + tmp@.push(c).reverse()) =~= (num_text(
                m as int,
                (w - i) as nat,
            ) + tmp@.reverse()));
        }
        tmp.push(c);
        m = m / 10;
        i = i + 1;
    }
    proof {
        assert(num_text(m as int, 0) =~= Seq::<char>::empty());
        assert(target =~= tmp@.reverse());
    }
    let mut j: usize = 0;
    while j < w
        invariant
            j <= w,
            tmp@.len() == w,
            target == tmp@.reverse(),
            target.len() == w,
            out@ == old(out)@ + target.take(j as int),
        decreases w - j,
    {
        let c = tmp[w - 1 - j];
        proof {
            assert(target[j as int] == tmp@[w - 1 - j]);
            assert((old(out)@ + target.take(j as int)).push(c) =~= old(out)@ + target.take(
                j + 1,
            ));
        }
        out.push(c);
        j = j + 1;
    }
    proof {
        assert(target.take(w as int) =~= target);
    }
}

} // verus!
