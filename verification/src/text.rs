//! Character-level helpers shared by the classifier, the canonicalizer and
//! the emitter: whitespace tests, lexicographic ordering of character
//! sequences, and the two conversions between `&str`/`String` and `Vec<char>`.

use vstd::prelude::*;

verus! {

/// Whether `c` has the Unicode `White_Space` property, the set that
/// `char::is_whitespace` recognizes.
pub open spec fn is_ws(c: char) -> bool {
    let n: u32 = c as u32;
    n == 0x09 || n == 0x0A || n == 0x0B || n == 0x0C || n == 0x0D || n == 0x20 || n == 0x85
        || n == 0xA0 || n == 0x1680 || (0x2000 <= n && n <= 0x200A) || n == 0x2028 || n == 0x2029
        || n == 0x202F || n == 0x205F || n == 0x3000
}

/// Executable test for [`is_ws`].
pub fn is_ws_char(c: char) -> (r: bool)
    ensures
        r == is_ws(c),
{
    let n: u32 = c as u32;
    n == 0x09 || n == 0x0A || n == 0x0B || n == 0x0C || n == 0x0D || n == 0x20 || n == 0x85
        || n == 0xA0 || n == 0x1680 || (0x2000 <= n && n <= 0x200A) || n == 0x2028 || n == 0x2029
        || n == 0x202F || n == 0x205F || n == 0x3000
}

/// Lexicographic (code-point) order on character sequences: `a` is less than
/// or equal to `b`. This is the order mapping entries are sorted in.
pub open spec fn lex_le(a: Seq<char>, b: Seq<char>) -> bool
    decreases a.len(),
{
    if a.len() == 0 {
        true
    } else if b.len() == 0 {
        false
    } else if (a[0] as u32) < (b[0] as u32) {
        true
    } else if (a[0] as u32) > (b[0] as u32) {
        false
    } else {
        lex_le(a.drop_first(), b.drop_first())
    }
}

/// Two characters with the same code point are the same character.
pub proof fn lemma_char_eq(c1: char, c2: char)
    requires
        (c1 as u32) == (c2 as u32),
    ensures
        c1 == c2,
{
    vstd::utf8::char_u32_cast(c1, c1 as u32);
    vstd::utf8::char_u32_cast(c2, c2 as u32);
}

/// `lex_le` is reflexive.
pub proof fn lemma_lex_le_refl(a: Seq<char>)
    ensures
        lex_le(a, a),
    decreases a.len(),
{
    if a.len() > 0 {
        lemma_lex_le_refl(a.drop_first());
    }
}

/// `lex_le` is total: any two sequences compare one way or the other.
pub proof fn lemma_lex_le_total(a: Seq<char>, b: Seq<char>)
    ensures
        lex_le(a, b) || lex_le(b, a),
    decreases a.len(),
{
    if a.len() > 0 && b.len() > 0 && (a[0] as u32) == (b[0] as u32) {
        lemma_char_eq(a[0], b[0]);
        lemma_lex_le_total(a.drop_first(), b.drop_first());
    }
}

/// `lex_le` is transitive.
pub proof fn lemma_lex_le_trans(a: Seq<char>, b: Seq<char>, c: Seq<char>)
    requires
        lex_le(a, b),
        lex_le(b, c),
    ensures
        lex_le(a, c),
    decreases a.len(),
{
    if a.len() > 0 && b.len() > 0 && c.len() > 0 && (a[0] as u32) == (b[0] as u32) && (b[0] as u32)
        == (c[0] as u32) {
        lemma_char_eq(a[0], b[0]);
        lemma_char_eq(b[0], c[0]);
        lemma_lex_le_trans(a.drop_first(), b.drop_first(), c.drop_first());
    }
}

/// Executable lexicographic comparison of two character vectors.
pub fn lex_le_chars(a: &Vec<char>, b: &Vec<char>) -> (r: bool)
    ensures
        r == lex_le(a@, b@),
{
    let mut i: usize = 0;
    proof {
        assert(a@.subrange(0, a@.len() as int) =~= a@);
        assert(b@.subrange(0, b@.len() as int) =~= b@);
    }
    loop
        invariant
            0 <= i <= a.len(),
            i <= b.len(),
            forall|j: int| 0 <= j < i ==> a@[j] == b@[j],
            lex_le(a@, b@) == lex_le(a@.subrange(i as int, a@.len() as int), b@.subrange(
                i as int,
                b@.len() as int,
            )),
        decreases a@.len() - i,
    {
        proof {
            let sa = a@.subrange(i as int, a@.len() as int);
            let sb = b@.subrange(i as int, b@.len() as int);
            if i < a.len() && i < b.len() && a@[i as int] == b@[i as int] {
                assert(sa.drop_first() =~= a@.subrange(i + 1, a@.len() as int));
                assert(sb.drop_first() =~= b@.subrange(i + 1, b@.len() as int));
            }
        }
        if i >= a.len() {
            return true;
        }
        if i >= b.len() {
            return false;
        }
        let ca: u32 = a[i] as u32;
        let cb: u32 = b[i] as u32;
        if ca < cb {
            return true;
        }
        if ca > cb {
            return false;
        }
        proof {
            assert((a@[i as int] as u32) == (b@[i as int] as u32));
            lemma_char_eq(a@[i as int], b@[i as int]);
        }
        i = i + 1;
    }
}

/// Appends the characters of `s` to `buf`.
pub fn push_chars(buf: &mut Vec<char>, s: &Vec<char>)
    ensures
        final(buf)@ == old(buf)@ + s@,
{
    let n: usize = s.len();
    let mut i: usize = 0;
    while i < n
        invariant
            0 <= i <= n,
            n == s.len(),
            buf@ == old(buf)@ + s@.subrange(0, i as int),
        decreases n - i,
    {
        buf.push(s[i]);
        proof {
            assert(s@.subrange(0, i + 1) =~= s@.subrange(0, i as int).push(s@[i as int]));
        }
        i = i + 1;
    }
    proof {
        assert(s@.subrange(0, n as int) =~= s@);
    }
}

/// Whether two character vectors hold the same characters.
pub fn eq_chars(a: &Vec<char>, b: &Vec<char>) -> (r: bool)
    ensures
        r == (a@ == b@),
{
    let n: usize = a.len();
    if n != b.len() {
        return false;
    }
    let mut i: usize = 0;
    while i < n
        invariant
            0 <= i <= n,
            n == a.len(),
            n == b.len(),
            forall|j: int| 0 <= j < i ==> a@[j] == b@[j],
        decreases n - i,
    {
        if a[i] != b[i] {
            return false;
        }
        i = i + 1;
    }
    proof {
        assert(a@ =~= b@);
    }
    true
}

/// A copy of a character vector.
pub fn clone_chars(v: &Vec<char>) -> (r: Vec<char>)
    ensures
        r@ == v@,
{
    let mut r: Vec<char> = Vec::new();
    push_chars(&mut r, v);
    r
}

/// The sequence with every newline replaced by a single space.
pub open spec fn replace_nl(t: Seq<char>) -> Seq<char> {
    t.map_values(|c: char| if c == '\n' { ' ' } else { c })
}

/// The sequence with leading whitespace removed.
pub open spec fn trim_front(t: Seq<char>) -> Seq<char>
    decreases t.len(),
{
    if t.len() > 0 && is_ws(t[0]) {
        trim_front(t.drop_first())
    } else {
        t
    }
}

/// The sequence with trailing whitespace removed.
pub open spec fn trim_back(t: Seq<char>) -> Seq<char>
    decreases t.len(),
{
    if t.len() > 0 && is_ws(t.last()) {
        trim_back(t.drop_last())
    } else {
        t
    }
}

/// The single-line form of a text: newlines become spaces, and surrounding
/// whitespace is trimmed.
pub open spec fn single_line(t: Seq<char>) -> Seq<char> {
    trim_back(trim_front(replace_nl(t)))
}

/// Builds the single-line form of `v`.
pub fn single_line_chars(v: &Vec<char>) -> (r: Vec<char>)
    ensures
        r@ == single_line(v@),
{
    let n: usize = v.len();
    let mut rep: Vec<char> = Vec::new();
    let mut i: usize = 0;
    while i < n
        invariant
            0 <= i <= n,
            n == v.len(),
            rep@ == replace_nl(v@.subrange(0, i as int)),
        decreases n - i,
    {
        let c = v[i];
        if c == '\n' {
            rep.push(' ');
        } else {
            rep.push(c);
        }
        proof {
            assert(replace_nl(v@.subrange(0, i + 1)) =~= replace_nl(
                v@.subrange(0, i as int),
            ).push(if v@[i as int] == '\n' { ' ' } else { v@[i as int] }));
        }
        i = i + 1;
    }
    proof {
        assert(v@.subrange(0, n as int) =~= v@);
    }
    let ghost whole = replace_nl(v@);
    let mut lo: usize = 0;
    proof {
        assert(rep@.subrange(0, n as int) =~= rep@);
    }
    while lo < n && is_ws_char(rep[lo])
        invariant
            0 <= lo <= n,
            n == rep.len(),
            rep@ == whole,
            trim_front(whole) == trim_front(rep@.subrange(lo as int, n as int)),
        decreases n - lo,
    {
        proof {
            let cur = rep@.subrange(lo as int, n as int);
            assert(cur.drop_first() =~= rep@.subrange(lo + 1, n as int));
        }
        lo = lo + 1;
    }
    proof {
        let cur = rep@.subrange(lo as int, n as int);
        assert(trim_front(cur) == cur);
    }
    let mut hi: usize = n;
    while hi > lo && is_ws_char(rep[hi - 1])
        invariant
            lo <= hi <= n,
            n == rep.len(),
            rep@ == whole,
            trim_front(whole) == rep@.subrange(lo as int, n as int),
            trim_back(rep@.subrange(lo as int, n as int)) == trim_back(
                rep@.subrange(lo as int, hi as int),
            ),
        decreases hi,
    {
        proof {
            let cur = rep@.subrange(lo as int, hi as int);
            assert(cur.drop_last() =~= rep@.subrange(lo as int, hi - 1));
        }
        hi = hi - 1;
    }
    proof {
        let cur = rep@.subrange(lo as int, hi as int);
        assert(trim_back(cur) == cur);
    }
    let mut r: Vec<char> = Vec::new();
    let mut j: usize = lo;
    while j < hi
        invariant
            lo <= j <= hi <= n,
            n == rep.len(),
            r@ == rep@.subrange(lo as int, j as int),
        decreases hi - j,
    {
        r.push(rep[j]);
        proof {
            assert(rep@.subrange(lo as int, j + 1) =~= rep@.subrange(lo as int, j as int).push(
                rep@[j as int],
            ));
        }
        j = j + 1;
    }
    r
}

/// The characters of a string slice, as a vector.
///
/// Relies on `str::chars` and `Iterator::collect`: the resulting vector holds
/// exactly the characters of the slice, in order.
#[verifier::external_body]
pub fn str_to_chars(s: &str) -> (r: Vec<char>)
    ensures
        r@ == s@,
{
    s.chars().collect()
}

/// A `String` built from a vector of characters.
///
/// Relies on `String::from_iter`: the resulting string holds exactly the
/// given characters, in order.
#[verifier::external_body]
pub fn chars_to_string(v: &Vec<char>) -> (r: String)
    ensures
        r@ == v@,
{
    v.iter().collect()
}

} // verus!
