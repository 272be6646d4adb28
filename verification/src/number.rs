//! Reading and writing integers in decimal notation.

use vstd::prelude::*;
use crate::text::{push_char, starts_with_at};

verus! {

/// Whether a character is one of the ten decimal digits.
pub open spec fn is_digit(c: char) -> bool {
    '0' <= c <= '9'
}

/// The decimal digit of a number below 10.
pub open spec fn digit_char(d: int) -> char {
    (48 + d) as char
}

/// The decimal notation of a natural number, without leading zeros.
pub open spec fn digits(n: nat) -> Seq<char>
    decreases n,
{
    if n < 10 {
        seq![digit_char(n as int)]
    } else {
        digits(n / 10).push(digit_char((n % 10) as int))
    }
}

/// The decimal notation of an integer: a minus sign before the digits of a
/// negative one.
pub open spec fn decimal(v: int) -> Seq<char> {
    if v < 0 {
        seq!['-'] + digits((-v) as nat)
    } else {
        digits(v as nat)
    }
}

/// The number that a sequence of decimal digits stands for.
pub open spec fn value_of(ds: Seq<char>) -> nat
    decreases ds.len(),
{
    if ds.len() == 0 {
        0
    } else {
        (value_of(ds.drop_last()) * 10 + (ds.last() as int - 48)) as nat
    }
}

/// The longest run of decimal digits that begins at `pos`.
pub open spec fn digits_from(t: Seq<char>, pos: int) -> Seq<char>
    decreases t.len() - pos,
{
    if 0 <= pos < t.len() && is_digit(t[pos]) {
        seq![t[pos]] + digits_from(t, pos + 1)
    } else {
        Seq::empty()
    }
}

/// The power of ten with the exponent `k`.
pub open spec fn pow10(k: nat) -> nat
    decreases k,
{
    if k == 0 {
        1
    } else {
        10 * pow10((k - 1) as nat)
    }
}

/// The integer in decimal notation that begins at `pos`, and the index
/// behind its last digit: an optional minus sign and the longest run of
/// digits behind it. Nothing where there is no digit, where there are more
/// than ten, where a zero stands before another digit or behind the minus
/// sign alone, or where the number does not fit 32 bits with a sign.
pub open spec fn decimal_at(t: Seq<char>, pos: int) -> Option<(int, int)> {
    let negative = 0 <= pos < t.len() && t[pos] == '-';
    let start = if negative {
        pos + 1
    } else {
        pos
    };
    let run = digits_from(t, start);
    let v = if negative {
        -(value_of(run) as int)
    } else {
        value_of(run) as int
    };
    if pos < 0 || run.len() == 0 || run.len() > 10 || (run.len() > 1 && run[0] == '0') || (negative
        && v == 0) || v < i32::MIN || v > i32::MAX {
        None
    } else {
        Some((v, start + run.len()))
    }
}

/// The notation of a natural number consists of digits, at least one, with
/// no zero before another digit, and stands for that number.
pub proof fn lemma_digits(n: nat)
    ensures
        digits(n).len() >= 1,
        forall|i: int| 0 <= i < digits(n).len() ==> is_digit(#[trigger] digits(n)[i]),
        digits(n).len() > 1 ==> digits(n)[0] != '0',
        n > 0 ==> digits(n)[0] != '0',
        value_of(digits(n)) == n,
    decreases n,
{
    if n < 10 {
        let d = digits(n);
        assert(d.drop_last() =~= Seq::<char>::empty());
        assert(value_of(d.drop_last()) == 0);
        assert(d.last() == digit_char(n as int));
    } else {
        lemma_digits(n / 10);
        let d = digits(n);
        assert(d.drop_last() =~= digits(n / 10));
        assert(d.last() == digit_char((n % 10) as int));
        assert(d[0] == digits(n / 10)[0]);
        assert forall|i: int| 0 <= i < d.len() implies is_digit(#[trigger] d[i]) by {
            if i < d.len() - 1 {
                assert(d[i] == digits(n / 10)[i]);
            }
        }
    }
}

/// A natural number below the power of ten with the exponent `k` has at
/// most `k` digits.
pub proof fn lemma_digits_len(n: nat, k: nat)
    requires
        k >= 1,
        n < pow10(k),
    ensures
        digits(n).len() <= k,
    decreases k,
{
    if n >= 10 {
        assert(pow10(1) == 10) by {
            reveal_with_fuel(pow10, 3);
        }
        assert(k >= 2);
        assert(n / 10 < pow10((k - 1) as nat));
        lemma_digits_len(n / 10, (k - 1) as nat);
    }
}

/// Where `t` holds the digits `ds` from `pos` on and no digit behind them,
/// `ds` is the longest run of digits at `pos`.
pub proof fn lemma_digits_from(t: Seq<char>, pos: int, ds: Seq<char>)
    requires
        starts_with_at(t, pos, ds),
        forall|i: int| 0 <= i < ds.len() ==> is_digit(#[trigger] ds[i]),
        pos + ds.len() == t.len() || !is_digit(t[pos + ds.len()]),
    ensures
        digits_from(t, pos) == ds,
    decreases ds.len(),
{
    if ds.len() == 0 {
    } else {
        let tail = ds.drop_first();
        assert(t[pos + 0] == ds[0]);
        assert(starts_with_at(t, pos + 1, tail)) by {
            assert forall|i: int| 0 <= i < tail.len() implies t[pos + 1 + i]
                == #[trigger] tail[i] by {
                assert(ds[i + 1] == tail[i]);
                assert(t[pos + (i + 1)] == ds[i + 1]);
            }
        }
        assert forall|i: int| 0 <= i < tail.len() implies is_digit(#[trigger] tail[i]) by {
            assert(ds[i + 1] == tail[i]);
        }
        lemma_digits_from(t, pos + 1, tail);
        assert(seq![ds[0]] + tail =~= ds);
    }
}

/// Reading what was written gives the integer back: where `t` holds the
/// notation of `v` from `pos` on and no digit behind it, the integer read
/// there is `v`, and it ends behind that notation.
pub proof fn lemma_decimal_at(t: Seq<char>, pos: int, v: i32)
    requires
        starts_with_at(t, pos, decimal(v as int)),
        pos + decimal(v as int).len() == t.len() || !is_digit(t[pos + decimal(v as int).len()]),
    ensures
        decimal_at(t, pos) == Some((v as int, pos + decimal(v as int).len())),
{
    let text = decimal(v as int);
    let n: nat = if v < 0 {
        (-v) as nat
    } else {
        v as nat
    };
    let ds = digits(n);
    lemma_digits(n);
    assert(pow10(10) == 10000000000) by {
        reveal_with_fuel(pow10, 11);
    }
    lemma_digits_len(n, 10);
    if v < 0 {
        assert(text =~= seq!['-'] + ds);
        assert(text[0] == '-');
        assert(t[pos + 0] == text[0]);
        assert(starts_with_at(t, pos + 1, ds)) by {
            assert forall|i: int| 0 <= i < ds.len() implies t[pos + 1 + i] == #[trigger] ds[i] by {
                assert(text[i + 1] == ds[i]);
                assert(t[pos + (i + 1)] == text[i + 1]);
            }
        }
        lemma_digits_from(t, pos + 1, ds);
    } else {
        assert(text == ds);
        assert(is_digit(ds[0]));
        assert(t[pos + 0] == ds[0]);
        lemma_digits_from(t, pos, ds);
    }
}

/// The longest run of digits at `pos` stands in `t` from `pos` on and
/// consists of digits.
pub proof fn lemma_run(t: Seq<char>, pos: int)
    requires
        0 <= pos <= t.len(),
    ensures
        starts_with_at(t, pos, digits_from(t, pos)),
        forall|i: int|
            0 <= i < digits_from(t, pos).len() ==> is_digit(#[trigger] digits_from(t, pos)[i]),
    decreases t.len() - pos,
{
    let run = digits_from(t, pos);
    if pos < t.len() && is_digit(t[pos]) {
        lemma_run(t, pos + 1);
        let tail = digits_from(t, pos + 1);
        assert forall|i: int| 0 <= i < run.len() implies t[pos + i] == #[trigger] run[i]
            && is_digit(run[i]) by {
            if i > 0 {
                assert(run[i] == tail[i - 1]);
                assert(t[pos + 1 + (i - 1)] == tail[i - 1]);
            }
        }
    }
}

/// Digits with no zero before another digit are the notation of the number
/// that they stand for.
pub proof fn lemma_digits_of_value(run: Seq<char>)
    requires
        run.len() >= 1,
        forall|i: int| 0 <= i < run.len() ==> is_digit(#[trigger] run[i]),
        run.len() > 1 ==> run[0] != '0',
    ensures
        digits(value_of(run)) == run,
        run[0] != '0' ==> value_of(run) >= 1,
        run.len() > 1 ==> value_of(run) >= 10,
    decreases run.len(),
{
    let front = run.drop_last();
    let d = run.last() as int - 48;
    assert(is_digit(run[run.len() - 1]));
    lemma_digit_char(run.last());
    if front.len() == 0 {
        assert(value_of(front) == 0);
        assert(digits(value_of(run)) =~= run);
    } else {
        assert forall|i: int| 0 <= i < front.len() implies is_digit(#[trigger] front[i]) by {
            assert(front[i] == run[i]);
        }
        assert(front[0] == run[0]);
        lemma_digits_of_value(front);
        let v = value_of(run);
        assert(v == value_of(front) * 10 + d);
        assert(v / 10 == value_of(front) && v % 10 == d);
        assert(digits(v) =~= front.push(run.last()));
        assert(front.push(run.last()) =~= run);
    }
}

/// A decimal digit is the digit of the number it stands for.
pub proof fn lemma_digit_char(c: char)
    requires
        is_digit(c),
    ensures
        digit_char(c as int - 48) == c,
{
}

/// What is read was written: where an integer is read at `pos`, `t` holds
/// its notation from `pos` up to the index behind it.
pub proof fn lemma_decimal_read(t: Seq<char>, pos: int)
    requires
        decimal_at(t, pos) is Some,
    ensures
        ({
            let (v, end) = decimal_at(t, pos)->0;
            starts_with_at(t, pos, decimal(v)) && end == pos + decimal(v).len()
        }),
{
    let (v, end) = decimal_at(t, pos)->0;
    let negative = pos < t.len() && t[pos] == '-';
    assert(pos < t.len()) by {
        if pos >= t.len() {
            assert(digits_from(t, pos).len() == 0);
        }
    }
    let start = if negative {
        pos + 1
    } else {
        pos
    };
    let run = digits_from(t, start);
    lemma_run(t, start);
    lemma_digits_of_value(run);
    if negative {
        let text = decimal(v);
        assert(text =~= seq!['-'] + run);
        assert forall|i: int| 0 <= i < text.len() implies t[pos + i] == #[trigger] text[i] by {
            if i > 0 {
                assert(text[i] == run[i - 1]);
                assert(t[start + (i - 1)] == run[i - 1]);
            }
        }
    }
}

/// The powers of ten do not descend.
pub proof fn lemma_pow10_grows(a: nat, b: nat)
    requires
        a <= b,
    ensures
        pow10(a) <= pow10(b),
        pow10(a) >= 1,
    decreases b,
{
    if a < b {
        lemma_pow10_grows(a, (b - 1) as nat);
    } else if a > 0 {
        lemma_pow10_grows((a - 1) as nat, (a - 1) as nat);
    }
}

/// Appends the decimal notation of `n` to `out`.
fn push_digits(out: &mut String, n: u64)
    ensures
        final(out)@ == old(out)@ + digits(n as nat),
    decreases n,
{
    let ghost before = out@;
    if n >= 10 {
        push_digits(out, n / 10);
    }
    push_char(out, (48 + (n % 10) as u8) as char);
    assert(out@ =~= before + digits(n as nat));
}

/// Appends the decimal notation of `v` to `out`.
pub fn push_decimal(out: &mut String, v: i32)
    ensures
        final(out)@ == old(out)@ + decimal(v as int),
{
    let ghost before = out@;
    if v < 0 {
        push_char(out, '-');
        push_digits(out, (-(v as i64)) as u64);
    } else {
        push_digits(out, v as u64);
    }
    assert(out@ =~= before + decimal(v as int));
}

/// Reads the integer in decimal notation that begins at `pos`: the integer
/// and the index behind its last digit, as `decimal_at` gives them.
pub fn read_decimal(t: &Vec<char>, pos: usize) -> (read: Option<(i32, usize)>)
    ensures
        match (decimal_at(t@, pos as int), read) {
            (Some((v, end)), Some((number, stop))) => number == v && stop == end,
            (None, None) => true,
            _ => false,
        },
{
    if pos > t.len() {
        return None;
    }
    let negative = pos < t.len() && t[pos] == '-';
    let start: usize = if negative {
        pos + 1
    } else {
        pos
    };
    let mut cur: usize = start;
    let mut value: u64 = 0;
    assert(t@.subrange(start as int, cur as int) =~= Seq::<char>::empty());
    assert(pow10(0) == 1) by {
        reveal_with_fuel(pow10, 2);
    }
    while cur < t.len() && t[cur] >= '0' && t[cur] <= '9'
        invariant
            start <= cur <= t.len(),
            negative == (pos < t.len() && t@[pos as int] == '-'),
            start == if negative {
                pos + 1
            } else {
                pos as int
            },
            cur - start <= 10,
            digits_from(t@, start as int) == t@.subrange(start as int, cur as int) + digits_from(
                t@,
                cur as int,
            ),
            value == value_of(t@.subrange(start as int, cur as int)),
            value < pow10((cur - start) as nat),
        decreases t.len() - cur,
    {
        assert(is_digit(t@[cur as int]));
        if cur - start == 10 {
            assert(digits_from(t@, cur as int).len() >= 1);
            assert(digits_from(t@, start as int).len() > 10);
            return None;
        }
        let d = (t[cur] as u32 - 48) as u64;
        proof {
            let run = t@.subrange(start as int, cur as int);
            let next = t@.subrange(start as int, cur + 1);
            assert(next.drop_last() =~= run);
            assert(next.last() == t@[cur as int]);
            assert(run + (seq![t@[cur as int]] + digits_from(t@, cur + 1)) =~= next + digits_from(
                t@,
                cur + 1,
            ));
            assert(pow10(10) == 10000000000) by {
                reveal_with_fuel(pow10, 11);
            }
            lemma_pow10_grows((cur - start) as nat, 10);
            assert(pow10((cur - start + 1) as nat) == 10 * pow10((cur - start) as nat));
        }
        value = value * 10 + d;
        cur += 1;
    }
    proof {
        assert(digits_from(t@, cur as int) =~= Seq::<char>::empty());
        assert(digits_from(t@, start as int) =~= t@.subrange(start as int, cur as int));
    }
    if cur == start {
        return None;
    }
    if cur - start > 1 && t[start] == '0' {
        assert(t@.subrange(start as int, cur as int)[0] == t@[start as int]);
        return None;
    }
    assert(t@.subrange(start as int, cur as int)[0] == t@[start as int]);
    if negative {
        if value > 2147483648 || value == 0 {
            return None;
        }
        Some(((-(value as i64)) as i32, cur))
    } else {
        if value > 2147483647 {
            return None;
        }
        Some((value as i32, cur))
    }
}

} // verus!
