//! Scalar classification: the pure predicates that decide how a string
//! scalar is rendered (plain, double-quoted, or as a block literal), and the
//! escaping used by double-quoted scalars.

use vstd::prelude::*;
use crate::text::is_ws;
use crate::text::str_to_chars;

verus! {

/// Control characters that disqualify a string from block-literal rendering:
/// C0 controls other than tab, newline and carriage return; delete; and the
/// C1 range.
pub open spec fn disallowed_control(c: char) -> bool {
    let n: u32 = c as u32;
    (n < 0x20 && !(n == 0x09 || n == 0x0A || n == 0x0D)) || n == 0x7F || (0x80 <= n && n <= 0x9F)
}

/// Executable test for [`disallowed_control`].
pub fn is_disallowed_control(ch: char) -> (r: bool)
    ensures
        r == disallowed_control(ch),
{
    let n: u32 = ch as u32;
    (n < 0x20 && !(n == 0x09 || n == 0x0A || n == 0x0D)) || n == 0x7F || (0x80 <= n && n <= 0x9F)
}

/// `c` matches `l` (a lowercase ASCII letter, or any other character)
/// ignoring ASCII case.
pub open spec fn ci_eq(c: char, l: char) -> bool {
    c == l || ((('a' as u32) <= (l as u32) && (l as u32) <= ('z' as u32)) && (c as u32) + 32 == (
    l as u32))
}

/// Executable test for [`ci_eq`].
fn ci(c: char, l: char) -> (r: bool)
    ensures
        r == ci_eq(c, l),
{
    c == l || ((('a' as u32) <= (l as u32) && (l as u32) <= ('z' as u32)) && (c as u32) + 32 == (
    l as u32))
}

/// The reserved scalar words: strings equal, ignoring ASCII case, to one of
/// `true`, `false`, `null`, `~`, `yes`, `no`, `on`, `off`. Such strings are
/// always quoted, so that a re-parse cannot mistake them for another scalar
/// kind.
pub open spec fn is_reserved(s: Seq<char>) -> bool {
    ||| (s.len() == 4 && ci_eq(s[0], 't') && ci_eq(s[1], 'r') && ci_eq(s[2], 'u') && ci_eq(
        s[3],
        'e',
    ))
    ||| (s.len() == 5 && ci_eq(s[0], 'f') && ci_eq(s[1], 'a') && ci_eq(s[2], 'l') && ci_eq(s[3], 's')
        && ci_eq(s[4], 'e'))
    ||| (s.len() == 4 && ci_eq(s[0], 'n') && ci_eq(s[1], 'u') && ci_eq(s[2], 'l') && ci_eq(
        s[3],
        'l',
    ))
    ||| (s.len() == 1 && s[0] == '~')
    ||| (s.len() == 3 && ci_eq(s[0], 'y') && ci_eq(s[1], 'e') && ci_eq(s[2], 's'))
    ||| (s.len() == 2 && ci_eq(s[0], 'n') && ci_eq(s[1], 'o'))
    ||| (s.len() == 2 && ci_eq(s[0], 'o') && ci_eq(s[1], 'n'))
    ||| (s.len() == 3 && ci_eq(s[0], 'o') && ci_eq(s[1], 'f') && ci_eq(s[2], 'f'))
}

/// Executable test for [`is_reserved`] on a character vector.
pub fn reserved_chars(s: &Vec<char>) -> (r: bool)
    ensures
        r == is_reserved(s@),
{
    let n: usize = s.len();
    if n == 1 {
        s[0] == '~'
    } else if n == 2 {
        (ci(s[0], 'n') && ci(s[1], 'o')) || (ci(s[0], 'o') && ci(s[1], 'n'))
    } else if n == 3 {
        (ci(s[0], 'y') && ci(s[1], 'e') && ci(s[2], 's')) || (ci(s[0], 'o') && ci(s[1], 'f') && ci(
            s[2],
            'f',
        ))
    } else if n == 4 {
        (ci(s[0], 't') && ci(s[1], 'r') && ci(s[2], 'u') && ci(s[3], 'e')) || (ci(s[0], 'n') && ci(
            s[1],
            'u',
        ) && ci(s[2], 'l') && ci(s[3], 'l'))
    } else if n == 5 {
        ci(s[0], 'f') && ci(s[1], 'a') && ci(s[2], 'l') && ci(s[3], 's') && ci(s[4], 'e')
    } else {
        false
    }
}

/// Whether the string is, ignoring ASCII case, one of the reserved words.
pub fn is_reserved_keyword(text: &str) -> (r: bool)
    ensures
        r == is_reserved(text@),
{
    let cs = str_to_chars(text);
    reserved_chars(&cs)
}

/// An ASCII decimal digit.
pub open spec fn is_digit(c: char) -> bool {
    ('0' as u32) <= (c as u32) && (c as u32) <= ('9' as u32)
}

/// Executable test for [`is_digit`].
fn digit(c: char) -> (r: bool)
    ensures
        r == is_digit(c),
{
    ('0' as u32) <= (c as u32) && (c as u32) <= ('9' as u32)
}

/// The sequence with one leading `-` removed, when there is one.
pub open spec fn strip_dash(s: Seq<char>) -> Seq<char> {
    if s.len() > 0 && s[0] == '-' {
        s.drop_first()
    } else {
        s
    }
}

/// The scan that recognizes the numeric-literal shape, from position `i` of
/// `t` onward: digits set the pending-digit flag, a single `.` is allowed
/// before any exponent, a single `e`/`E` is allowed once digits have been
/// seen (and demands further digits), and a sign is allowed only directly
/// after the exponent marker. Any other character disqualifies the shape.
pub open spec fn number_scan(
    t: Seq<char>,
    i: int,
    has_decimal: bool,
    has_exp: bool,
    has_digits: bool,
) -> bool
    decreases t.len() - i,
{
    if i < 0 || i >= t.len() {
        has_digits
    } else if is_digit(t[i]) {
        number_scan(t, i + 1, has_decimal, has_exp, true)
    } else if t[i] == '.' && !has_decimal && !has_exp {
        number_scan(t, i + 1, true, has_exp, has_digits)
    } else if (t[i] == 'e' || t[i] == 'E') && !has_exp && has_digits {
        number_scan(t, i + 1, has_decimal, true, false)
    } else if (t[i] == '+' || t[i] == '-') && has_exp && i > 0 && (t[i - 1] == 'e' || t[i - 1]
        == 'E') {
        number_scan(t, i + 1, has_decimal, has_exp, has_digits)
    } else {
        false
    }
}

/// Whether the string has the shape of a numeric literal: at most one
/// leading `-`, then a body accepted by [`number_scan`]. Such strings are
/// always quoted, so that a re-parse cannot read them as numbers.
pub open spec fn number_like(s: Seq<char>) -> bool {
    s.len() > 0 && strip_dash(s).len() > 0 && number_scan(strip_dash(s), 0, false, false, false)
}

/// Executable test for [`number_like`] on a character vector.
pub fn number_like_chars(s: &Vec<char>) -> (r: bool)
    ensures
        r == number_like(s@),
{
    let n: usize = s.len();
    if n == 0 {
        return false;
    }
    let d: usize = if s[0] == '-' {
        1
    } else {
        0
    };
    proof {
        if s@[0] == '-' {
            assert(strip_dash(s@) =~= s@.subrange(1, n as int));
        } else {
            assert(strip_dash(s@) =~= s@.subrange(0, n as int));
        }
    }
    if d == n {
        return false;
    }
    let ghost t = s@.subrange(d as int, n as int);
    let mut i: usize = d;
    let mut has_decimal: bool = false;
    let mut has_exp: bool = false;
    let mut has_digits: bool = false;
    while i < n
        invariant
            0 <= d <= i <= n,
            n == s.len(),
            d < n,
            t == s@.subrange(d as int, n as int),
            strip_dash(s@) == t,
            number_scan(t, 0, false, false, false) == number_scan(
                t,
                i - d,
                has_decimal,
                has_exp,
                has_digits,
            ),
        decreases n - i,
    {
        let c = s[i];
        proof {
            assert(t[i - d] == s@[i as int]);
        }
        if digit(c) {
            has_digits = true;
        } else if c == '.' && !has_decimal && !has_exp {
            has_decimal = true;
        } else if (c == 'e' || c == 'E') && !has_exp && has_digits {
            has_exp = true;
            has_digits = false;
        } else if (c == '+' || c == '-') && has_exp && i > d && (s[i - 1] == 'e' || s[i - 1] == 'E')
        {
            proof {
                assert(t[i - d - 1] == s@[i - 1]);
            }
        } else {
            proof {
                assert(!number_scan(t, i - d, has_decimal, has_exp, has_digits));
            }
            return false;
        }
        i = i + 1;
    }
    has_digits
}

/// Whether the string has the shape of a numeric literal.
pub fn looks_like_number(text: &str) -> (r: bool)
    ensures
        r == number_like(text@),
{
    let cs = str_to_chars(text);
    number_like_chars(&cs)
}

/// Characters allowed in a plain (unquoted) scalar.
pub open spec fn plain_char(c: char) -> bool {
    let n: u32 = c as u32;
    (('a' as u32) <= n && n <= ('z' as u32)) || (('A' as u32) <= n && n <= ('Z' as u32)) || (('0'
        as u32) <= n && n <= ('9' as u32)) || c == '_' || c == '-' || c == '.' || c == '/'
}

/// Executable test for [`plain_char`].
fn plain_char_exec(c: char) -> (r: bool)
    ensures
        r == plain_char(c),
{
    let n: u32 = c as u32;
    (('a' as u32) <= n && n <= ('z' as u32)) || (('A' as u32) <= n && n <= ('Z' as u32)) || (('0'
        as u32) <= n && n <= ('9' as u32)) || c == '_' || c == '-' || c == '.' || c == '/'
}

/// Whether a string may be emitted unquoted: non-empty, no surrounding
/// whitespace, no leading dash, no newline, not a reserved word, not
/// number-shaped, and every character from the plain set.
pub open spec fn plain_string(s: Seq<char>) -> bool {
    &&& s.len() > 0
    &&& !is_ws(s[0])
    &&& !is_ws(s[s.len() - 1])
    &&& s[0] != '-'
    &&& (forall|i: int| 0 <= i < s.len() ==> #[trigger] s[i] != '\n')
    &&& !is_reserved(s)
    &&& !number_like(s)
    &&& (forall|i: int| 0 <= i < s.len() ==> plain_char(#[trigger] s[i]))
}

/// Executable test for [`plain_string`] on a character vector.
pub fn plain_chars(s: &Vec<char>) -> (r: bool)
    ensures
        r == plain_string(s@),
{
    let n: usize = s.len();
    if n == 0 {
        return false;
    }
    if crate::text::is_ws_char(s[0]) || crate::text::is_ws_char(s[n - 1]) || s[0] == '-' {
        return false;
    }
    let mut i: usize = 0;
    while i < n
        invariant
            0 <= i <= n,
            n == s.len(),
            forall|j: int| 0 <= j < i ==> #[trigger] s@[j] != '\n' && plain_char(s@[j]),
        decreases n - i,
    {
        let c = s[i];
        if c == '\n' || !plain_char_exec(c) {
            return false;
        }
        i = i + 1;
    }
    if reserved_chars(s) {
        return false;
    }
    if number_like_chars(s) {
        return false;
    }
    true
}

/// Whether a string value may be emitted unquoted.
pub fn is_plain_string(text: &str) -> (r: bool)
    ensures
        r == plain_string(text@),
{
    let cs = str_to_chars(text);
    plain_chars(&cs)
}

/// Whether a mapping key may be emitted unquoted; keys follow the same rule
/// as string values.
pub fn is_plain_key(text: &str) -> (r: bool)
    ensures
        r == plain_string(text@),
{
    is_plain_string(text)
}

/// Whether a string is rendered as a block literal (`|-`): it must contain a
/// newline, contain no disallowed control character, and neither start nor
/// end with whitespace.
pub open spec fn block_eligible(s: Seq<char>) -> bool {
    &&& (exists|i: int| 0 <= i < s.len() && s[i] == '\n')
    &&& (forall|i: int| 0 <= i < s.len() ==> !disallowed_control(#[trigger] s[i]))
    &&& !is_ws(s[0])
    &&& !is_ws(s[s.len() - 1])
}

/// Executable test for [`block_eligible`] on a character vector.
pub fn block_chars(s: &Vec<char>) -> (r: bool)
    ensures
        r == block_eligible(s@),
{
    let n: usize = s.len();
    if n == 0 {
        return false;
    }
    let mut i: usize = 0;
    let mut saw_newline: bool = false;
    while i < n
        invariant
            0 <= i <= n,
            n == s.len(),
            saw_newline == (exists|j: int| 0 <= j < i && s@[j] == '\n'),
            forall|j: int| 0 <= j < i ==> !disallowed_control(#[trigger] s@[j]),
        decreases n - i,
    {
        let c = s[i];
        if is_disallowed_control(c) {
            return false;
        }
        if c == '\n' {
            saw_newline = true;
        }
        i = i + 1;
    }
    if !saw_newline {
        return false;
    }
    !crate::text::is_ws_char(s[0]) && !crate::text::is_ws_char(s[n - 1])
}

/// Whether a string is rendered as a block literal.
pub fn should_use_literal_block(text: &str) -> (r: bool)
    ensures
        r == block_eligible(text@),
{
    let cs = str_to_chars(text);
    block_chars(&cs)
}

/// The lowercase hexadecimal digit for `n`.
pub open spec fn hex_char(n: int) -> char {
    if n == 0 {
        '0'
    } else if n == 1 {
        '1'
    } else if n == 2 {
        '2'
    } else if n == 3 {
        '3'
    } else if n == 4 {
        '4'
    } else if n == 5 {
        '5'
    } else if n == 6 {
        '6'
    } else if n == 7 {
        '7'
    } else if n == 8 {
        '8'
    } else if n == 9 {
        '9'
    } else if n == 10 {
        'a'
    } else if n == 11 {
        'b'
    } else if n == 12 {
        'c'
    } else if n == 13 {
        'd'
    } else if n == 14 {
        'e'
    } else {
        'f'
    }
}

/// The escape of one character inside a double-quoted scalar: quote,
/// backslash and the short control escapes get a backslash form, other
/// control characters a four-digit `\u` form, and everything else stands for
/// itself.
pub open spec fn esc(c: char) -> Seq<char> {
    if c == '"' {
        seq!['\\', '"']
    } else if c == '\\' {
        seq!['\\', '\\']
    } else if (c as u32) == 0x08 {
        seq!['\\', 'b']
    } else if (c as u32) == 0x0C {
        seq!['\\', 'f']
    } else if c == '\n' {
        seq!['\\', 'n']
    } else if c == '\r' {
        seq!['\\', 'r']
    } else if c == '\t' {
        seq!['\\', 't']
    } else if (c as u32) < 0x20 {
        seq!['\\', 'u', '0', '0', hex_char(((c as u32) / 16) as int), hex_char(
            ((c as u32) % 16) as int,
        )]
    } else {
        seq![c]
    }
}

/// The escape of a whole string, character by character.
pub open spec fn escaped(s: Seq<char>) -> Seq<char>
    decreases s.len(),
{
    if s.len() == 0 {
        Seq::empty()
    } else {
        escaped(s.drop_last()) + esc(s.last())
    }
}

/// The double-quoted rendering of a string.
pub open spec fn quoted(s: Seq<char>) -> Seq<char> {
    seq!['"'] + escaped(s) + seq!['"']
}

/// The executable hexadecimal digit.
fn hex_char_exec(n: u32) -> (c: char)
    requires
        n < 16,
    ensures
        c == hex_char(n as int),
{
    if n == 0 {
        '0'
    } else if n == 1 {
        '1'
    } else if n == 2 {
        '2'
    } else if n == 3 {
        '3'
    } else if n == 4 {
        '4'
    } else if n == 5 {
        '5'
    } else if n == 6 {
        '6'
    } else if n == 7 {
        '7'
    } else if n == 8 {
        '8'
    } else if n == 9 {
        '9'
    } else if n == 10 {
        'a'
    } else if n == 11 {
        'b'
    } else if n == 12 {
        'c'
    } else if n == 13 {
        'd'
    } else if n == 14 {
        'e'
    } else {
        'f'
    }
}

/// Appends the double-quoted rendering of `s` to `buf`.
pub fn push_quoted(buf: &mut Vec<char>, s: &Vec<char>)
    ensures
        final(buf)@ == old(buf)@ + quoted(s@),
{
    buf.push('"');
    let n: usize = s.len();
    let mut i: usize = 0;
    while i < n
        invariant
            0 <= i <= n,
            n == s.len(),
            buf@ == old(buf)@ + seq!['"'] + escaped(s@.subrange(0, i as int)),
        decreases n - i,
    {
        let c = s[i];
        let code: u32 = c as u32;
        if c == '"' {
            buf.push('\\');
            buf.push('"');
        } else if c == '\\' {
            buf.push('\\');
            buf.push('\\');
        } else if code == 0x08 {
            buf.push('\\');
            buf.push('b');
        } else if code == 0x0C {
            buf.push('\\');
            buf.push('f');
        } else if c == '\n' {
            buf.push('\\');
            buf.push('n');
        } else if c == '\r' {
            buf.push('\\');
            buf.push('r');
        } else if c == '\t' {
            buf.push('\\');
            buf.push('t');
        } else if code < 0x20 {
            buf.push('\\');
            buf.push('u');
            buf.push('0');
            buf.push('0');
            buf.push(hex_char_exec(code / 16));
            buf.push(hex_char_exec(code % 16));
        } else {
            buf.push(c);
        }
        proof {
            let pre = s@.subrange(0, i as int);
            let cur = s@.subrange(0, i + 1);
            assert(cur.drop_last() =~= pre);
            assert(cur.last() == s@[i as int]);
            assert(escaped(cur) == escaped(pre) + esc(s@[i as int]));
            assert(buf@ =~= old(buf)@ + seq!['"'] + escaped(cur));
        }
        i = i + 1;
    }
    proof {
        assert(s@.subrange(0, n as int) =~= s@);
    }
    buf.push('"');
    proof {
        assert(buf@ =~= old(buf)@ + quoted(s@));
    }
}

} // verus!
