//! Reading and writing quoted texts: the characters of a text between two
//! quotation marks, with the quotation mark, the backslash and the control
//! characters written as escapes.

use vstd::prelude::*;

verus! {

/// The text `t` holds the characters of `p` from index `pos` on.
pub open spec fn starts_with_at(t: Seq<char>, pos: int, p: Seq<char>) -> bool {
    &&& 0 <= pos
    &&& pos + p.len() <= t.len()
    &&& forall|i: int| 0 <= i < p.len() ==> t[pos + i] == #[trigger] p[i]
}

/// The hexadecimal digit, in lower case, of a number below 16.
pub open spec fn hex_digit(v: int) -> char {
    if v < 10 {
        (48 + v) as char
    } else {
        (87 + v) as char
    }
}

/// The number that a hexadecimal digit in lower case stands for, and -1 for
/// any other character.
pub open spec fn hex_value(c: char) -> int {
    if '0' <= c <= '9' {
        c as int - 48
    } else if 'a' <= c <= 'f' {
        c as int - 87
    } else {
        -1
    }
}

/// How one character is written inside quotation marks: the quotation mark
/// and the backslash behind a backslash, a control character as `\u00` and
/// its two hexadecimal digits, any other character as itself.
pub open spec fn escape_char(c: char) -> Seq<char> {
    if c == '"' {
        seq!['\\', '"']
    } else if c == '\\' {
        seq!['\\', '\\']
    } else if (c as int) < 32 {
        seq!['\\', 'u', '0', '0', hex_digit(c as int / 16), hex_digit(c as int % 16)]
    } else {
        seq![c]
    }
}

/// The characters of `s`, each written as `escape_char` says.
pub open spec fn escaped(s: Seq<char>) -> Seq<char>
    decreases s.len(),
{
    if s.len() == 0 {
        Seq::empty()
    } else {
        escape_char(s[0]) + escaped(s.drop_first())
    }
}

/// The text `s` between quotation marks.
pub open spec fn quoted(s: Seq<char>) -> Seq<char> {
    seq!['"'] + (escaped(s) + seq!['"'])
}

/// The result `r` of reading on, with the characters `a` in front of the
/// text read.
pub open spec fn extend(a: Seq<char>, r: Option<(Seq<char>, int)>) -> Option<(Seq<char>, int)> {
    match r {
        Some((s, end)) => Some((a + s, end)),
        None => None,
    }
}

/// The text that stands in `t` from `pos` up to the next quotation mark that
/// is no part of an escape, and the index behind that mark; nothing where
/// `t` ends before such a mark, or holds before it an escape that
/// `escape_char` does not write or a control character as itself.
pub open spec fn unescape_from(t: Seq<char>, pos: int) -> Option<(Seq<char>, int)>
    decreases t.len() - pos,
{
    if pos < 0 || pos >= t.len() {
        None
    } else if t[pos] == '"' {
        Some((Seq::empty(), pos + 1))
    } else if t[pos] == '\\' {
        if pos + 1 < t.len() && (t[pos + 1] == '"' || t[pos + 1] == '\\') {
            extend(seq![t[pos + 1]], unescape_from(t, pos + 2))
        } else if pos + 5 < t.len() && t[pos + 1] == 'u' && t[pos + 2] == '0' && t[pos + 3] == '0'
            && 0 <= hex_value(t[pos + 4]) < 2 && 0 <= hex_value(t[pos + 5]) {
            extend(
                seq![(hex_value(t[pos + 4]) * 16 + hex_value(t[pos + 5])) as char],
                unescape_from(t, pos + 6),
            )
        } else {
            None
        }
    } else if (t[pos] as int) < 32 {
        None
    } else {
        extend(seq![t[pos]], unescape_from(t, pos + 1))
    }
}

/// The quoted text that begins at `pos`, and the index behind it.
pub open spec fn quoted_at(t: Seq<char>, pos: int) -> Option<(Seq<char>, int)> {
    if 0 <= pos < t.len() && t[pos] == '"' {
        unescape_from(t, pos + 1)
    } else {
        None
    }
}

/// Writing a text character by character writes its escapes one behind the
/// other.
pub proof fn lemma_escaped_push(s: Seq<char>, c: char)
    ensures
        escaped(s.push(c)) == escaped(s) + escape_char(c),
    decreases s.len(),
{
    if s.len() == 0 {
        assert(s.push(c).drop_first() =~= Seq::<char>::empty());
        assert(escaped(s.push(c).drop_first()) =~= Seq::<char>::empty());
        assert(escaped(s.push(c)) =~= escaped(s) + escape_char(c));
    } else {
        assert(s.push(c).drop_first() =~= s.drop_first().push(c));
        lemma_escaped_push(s.drop_first(), c);
        assert(escaped(s.push(c)) =~= escaped(s) + escape_char(c));
    }
}

/// A hexadecimal digit stands for the number it was written for.
pub proof fn lemma_hex_digit(v: int)
    requires
        0 <= v < 16,
    ensures
        hex_value(hex_digit(v)) == v,
{
}

/// The two hexadecimal digits of a control character give its code back.
pub proof fn lemma_control_code(c: char)
    requires
        (c as int) < 32,
    ensures
        0 <= hex_value(hex_digit(c as int / 16)) < 2,
        0 <= hex_value(hex_digit(c as int % 16)),
        (hex_value(hex_digit(c as int / 16)) * 16 + hex_value(hex_digit(c as int % 16))) as char
            == c,
{
    let code = c as int;
    assert(0 <= code < 32);
    lemma_hex_digit(code / 16);
    lemma_hex_digit(code % 16);
    assert((code / 16) * 16 + code % 16 == code);
    assert(code as char == c);
}

/// Reading what was written gives the text back: where `t` holds the
/// escapes of `s` and a quotation mark from `pos` on, the text read there
/// is `s`, and it ends behind that mark.
pub proof fn lemma_unescape_escaped(t: Seq<char>, pos: int, s: Seq<char>)
    requires
        starts_with_at(t, pos, escaped(s).push('"')),
    ensures
        unescape_from(t, pos) == Some((s, pos + escaped(s).len() + 1)),
    decreases s.len(),
{
    let whole = escaped(s).push('"');
    if s.len() == 0 {
        assert(whole[0] == '"');
        assert(t[pos + 0] == whole[0]);
    } else {
        let c = s[0];
        let e = escape_char(c);
        let tail = s.drop_first();
        let rest = escaped(tail).push('"');
        assert(whole =~= e + rest);
        assert forall|i: int| 0 <= i < e.len() implies t[pos + i] == e[i] by {
            assert(whole[i] == e[i]);
        }
        assert(starts_with_at(t, pos + e.len(), rest)) by {
            assert forall|i: int| 0 <= i < rest.len() implies t[pos + e.len() + i]
                == #[trigger] rest[i] by {
                assert(whole[e.len() + i] == rest[i]);
                assert(t[pos + (e.len() + i)] == whole[e.len() + i]);
            }
        }
        lemma_unescape_escaped(t, pos + e.len(), tail);
        assert(seq![c] + tail =~= s);
        assert(t[pos + 0] == e[0]);
        if c == '"' || c == '\\' {
            assert(t[pos + 1] == e[1]);
        } else if (c as int) < 32 {
            assert(t[pos + 1] == e[1]);
            assert(t[pos + 2] == e[2]);
            assert(t[pos + 3] == e[3]);
            assert(t[pos + 4] == e[4]);
            assert(t[pos + 5] == e[5]);
            lemma_control_code(c);
        } else {
        }
    }
}

/// A hexadecimal digit in lower case is the digit of the number it stands for.
pub proof fn lemma_hex_value(c: char)
    requires
        0 <= hex_value(c),
    ensures
        hex_value(c) < 16,
        hex_digit(hex_value(c)) == c,
{
}

/// What is read was written: where a text is read at `pos`, `t` holds its
/// escapes and a quotation mark from `pos` up to the index behind it.
pub proof fn lemma_escaped_unescape(t: Seq<char>, pos: int)
    requires
        unescape_from(t, pos) is Some,
    ensures
        ({
            let (s, end) = unescape_from(t, pos)->0;
            starts_with_at(t, pos, escaped(s).push('"')) && end == pos + escaped(s).len() + 1
        }),
    decreases t.len() - pos,
{
    let (s, end) = unescape_from(t, pos)->0;
    let whole = escaped(s).push('"');
    if t[pos] == '"' {
        assert(escaped(s) =~= Seq::<char>::empty());
        assert(whole =~= seq!['"']);
    } else {
        let step: int = if t[pos] != '\\' {
            1
        } else if t[pos + 1] == 'u' {
            6
        } else {
            2
        };
        lemma_escaped_unescape(t, pos + step);
        let (tail, tail_end) = unescape_from(t, pos + step)->0;
        let c = s[0];
        assert(s =~= seq![c] + tail);
        assert(s.drop_first() =~= tail);
        let e = escape_char(c);
        let rest = escaped(tail).push('"');
        if step == 6 {
            let high = hex_value(t[pos + 4]);
            let low = hex_value(t[pos + 5]);
            lemma_hex_value(t[pos + 4]);
            lemma_hex_value(t[pos + 5]);
            let code = high * 16 + low;
            assert(0 <= code < 32);
            assert(c == code as char);
            assert(c as int == code);
            assert(code / 16 == high && code % 16 == low);
            assert(e =~= seq!['\\', 'u', '0', '0', t[pos + 4], t[pos + 5]]);
        }
        assert(e.len() == step);
        assert(whole =~= e + rest);
        assert forall|i: int| 0 <= i < whole.len() implies t[pos + i] == #[trigger] whole[i] by {
            if i >= step {
                assert(rest[i - step] == whole[i]);
                assert(t[pos + step + (i - step)] == rest[i - step]);
            }
        }
    }
}

/// `String::push` of the standard library: the text grows by the one
/// character `c` at its end.
#[verifier::external_body]
pub(crate) fn push_char(s: &mut String, c: char)
    ensures
        final(s)@ == old(s)@.push(c),
{
    s.push(c);
}

/// The characters of a text, one by one.
pub fn chars_of(s: &str) -> (chars: Vec<char>)
    ensures
        chars@ == s@,
{
    let n = s.unicode_len();
    let mut out: Vec<char> = Vec::new();
    let mut i: usize = 0;
    while i < n
        invariant
            i <= n,
            n == s@.len(),
            out@ == s@.take(i as int),
        decreases n - i,
    {
        out.push(s.get_char(i));
        assert(s@.take(i + 1) =~= s@.take(i as int).push(s@[i as int]));
        i += 1;
    }
    assert(s@.take(n as int) =~= s@);
    out
}

/// Whether `t` holds the characters of `lit` from `pos` on; if so, the index
/// behind them.
pub fn expect(t: &Vec<char>, pos: usize, lit: &str) -> (end: Option<usize>)
    ensures
        end is Some <==> starts_with_at(t@, pos as int, lit@),
        end is Some ==> end->0 == pos + lit@.len(),
{
    let n = lit.unicode_len();
    if pos > t.len() || n > t.len() - pos {
        return None;
    }
    let mut i: usize = 0;
    while i < n
        invariant
            i <= n,
            n == lit@.len(),
            pos + n <= t.len(),
            forall|k: int| 0 <= k < i ==> t@[pos + k] == #[trigger] lit@[k],
        decreases n - i,
    {
        if t[pos + i] != lit.get_char(i) {
            return None;
        }
        i += 1;
    }
    Some(pos + n)
}

/// The hexadecimal digit of a number below 16.
fn hex_char(v: u8) -> (c: char)
    requires
        v < 16,
    ensures
        c == hex_digit(v as int),
{
    if v < 10 {
        (48 + v) as char
    } else {
        (87 + v) as char
    }
}

/// The number that a hexadecimal digit stands for, and -1 for any other
/// character.
fn hex_number(c: char) -> (v: i8)
    ensures
        v == hex_value(c),
{
    if c >= '0' && c <= '9' {
        (c as u32 - 48) as i8
    } else if c >= 'a' && c <= 'f' {
        (c as u32 - 87) as i8
    } else {
        -1
    }
}

/// Whether a character is a control character: one with a code below 32.
fn is_control(c: char) -> (control: bool)
    ensures
        control == ((c as int) < 32),
{
    (c as u32) < 32
}

/// Appends one character to `out` as `escape_char` says.
fn push_escaped(out: &mut String, c: char)
    ensures
        final(out)@ == old(out)@ + escape_char(c),
{
    let ghost before = out@;
    if c == '"' {
        push_char(out, '\\');
        push_char(out, '"');
    } else if c == '\\' {
        push_char(out, '\\');
        push_char(out, '\\');
    } else if is_control(c) {
        let code = c as u32 as u8;
        push_char(out, '\\');
        push_char(out, 'u');
        push_char(out, '0');
        push_char(out, '0');
        push_char(out, hex_char(code / 16));
        push_char(out, hex_char(code % 16));
    } else {
        push_char(out, c);
    }
    assert(out@ =~= before + escape_char(c));
}

/// Appends the text `s` between quotation marks to `out`.
pub fn push_quoted(out: &mut String, s: &str)
    ensures
        final(out)@ == old(out)@ + quoted(s@),
{
    let ghost before = out@;
    let n = s.unicode_len();
    push_char(out, '"');
    let mut i: usize = 0;
    assert(s@.take(0) =~= Seq::<char>::empty());
    assert(out@ =~= before + (seq!['"'] + escaped(s@.take(0))));
    while i < n
        invariant
            i <= n,
            n == s@.len(),
            out@ == before + (seq!['"'] + escaped(s@.take(i as int))),
        decreases n - i,
    {
        let ghost prior = out@;
        push_escaped(out, s.get_char(i));
        proof {
            lemma_escaped_push(s@.take(i as int), s@[i as int]);
            assert(s@.take(i + 1) =~= s@.take(i as int).push(s@[i as int]));
            assert(out@ =~= before + (seq!['"'] + escaped(s@.take(i + 1))));
        }
        i += 1;
    }
    push_char(out, '"');
    assert(s@.take(n as int) =~= s@);
    assert(out@ =~= before + quoted(s@));
}

/// Reads the quoted text that begins at `pos`: the text and the index
/// behind its closing quotation mark, as `quoted_at` gives them.
pub fn read_quoted(t: &Vec<char>, pos: usize) -> (read: Option<(String, usize)>)
    ensures
        match (quoted_at(t@, pos as int), read) {
            (Some((s, end)), Some((text, stop))) => text@ == s && stop == end,
            (None, None) => true,
            _ => false,
        },
{
    if pos >= t.len() || t[pos] != '"' {
        return None;
    }
    let mut acc = String::new();
    let mut cur: usize = pos + 1;
    assert(extend(acc@, unescape_from(t@, cur as int)) == unescape_from(t@, pos + 1)) by {
        match unescape_from(t@, cur as int) {
            Some((s, end)) => {
                assert(acc@ + s =~= s);
            },
            None => {},
        }
    }
    loop
        invariant
            cur <= t.len(),
            unescape_from(t@, pos + 1) == extend(acc@, unescape_from(t@, cur as int)),
            quoted_at(t@, pos as int) == unescape_from(t@, pos + 1),
        decreases t.len() - cur,
    {
        if cur >= t.len() {
            return None;
        }
        let c = t[cur];
        let ghost before = acc@;
        if c == '"' {
            assert(before + Seq::<char>::empty() =~= before);
            return Some((acc, cur + 1));
        }
        let step: usize;
        if c == '\\' {
            if t.len() - cur > 1 && (t[cur + 1] == '"' || t[cur + 1] == '\\') {
                push_char(&mut acc, t[cur + 1]);
                step = 2;
            } else if t.len() - cur > 5 && t[cur + 1] == 'u' && t[cur + 2] == '0' && t[cur + 3]
                == '0' {
                let high = hex_number(t[cur + 4]);
                let low = hex_number(t[cur + 5]);
                if 0 <= high && high < 2 && 0 <= low {
                    push_char(&mut acc, ((high * 16 + low) as u8) as char);
                    step = 6;
                } else {
                    return None;
                }
            } else {
                return None;
            }
        } else if is_control(c) {
            return None;
        } else {
            push_char(&mut acc, c);
            step = 1;
        }
        proof {
            let x = acc@.last();
            assert(acc@ == before.push(x));
            match unescape_from(t@, cur + step) {
                Some((s, end)) => {
                    assert(before + (seq![x] + s) =~= before.push(x) + s);
                },
                None => {},
            }
            assert(unescape_from(t@, cur as int) == extend(
                seq![x],
                unescape_from(t@, cur + step),
            ));
        }
        cur += step;
    }
}

} // verus!
