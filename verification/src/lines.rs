//! Line-level comparison of two texts: the count of line positions at which
//! they differ, used by callers to report how much a rewrite changed.

use vstd::prelude::*;

verus! {

/// Position of the first newline in `s`, or `s.len()` when there is none.
pub open spec fn first_nl(s: Seq<char>) -> int
    decreases s.len(),
{
    if s.len() == 0 {
        0
    } else if s[0] == '\n' {
        0
    } else {
        1 + first_nl(s.drop_first())
    }
}

/// `first_nl` is the unique position with no newline before it that is
/// either the end or a newline.
pub proof fn lemma_first_nl_is(s: Seq<char>, k: int)
    requires
        0 <= k <= s.len(),
        forall|j: int| 0 <= j < k ==> s[j] != '\n',
        k < s.len() ==> s[k] == '\n',
    ensures
        first_nl(s) == k,
    decreases s.len(),
{
    if k == 0 {
    } else {
        assert(s[0] != '\n');
        assert forall|j: int| 0 <= j < k - 1 implies s.drop_first()[j] != '\n' by {
            assert(s.drop_first()[j] == s[j + 1]);
        }
        if k - 1 < s.drop_first().len() {
            assert(s.drop_first()[k - 1] == s[k]);
        }
        lemma_first_nl_is(s.drop_first(), k - 1);
    }
}

/// A line with its trailing carriage return removed.
pub open spec fn strip_cr(t: Seq<char>) -> Seq<char> {
    if t.len() > 0 && t.last() == '\r' {
        t.drop_last()
    } else {
        t
    }
}

/// The lines of a text, as the standard line iterator yields them: pieces
/// between newlines, each with a trailing carriage return removed, and no
/// empty final piece after a trailing newline.
pub open spec fn line_split(s: Seq<char>) -> Seq<Seq<char>>
    decreases s.len(),
{
    if s.len() == 0 {
        Seq::empty()
    } else {
        let raw = first_nl(s);
        let i = if raw < 0 {
            0
        } else if raw > s.len() {
            s.len() as int
        } else {
            raw
        };
        if i == s.len() {
            seq![strip_cr(s)]
        } else {
            seq![strip_cr(s.subrange(0, i))] + line_split(s.subrange(i + 1, s.len() as int))
        }
    }
}

/// The line at position `i`, or the empty line past the end.
pub open spec fn line_at(ls: Seq<Seq<char>>, i: int) -> Seq<char> {
    if 0 <= i < ls.len() {
        ls[i]
    } else {
        Seq::empty()
    }
}

/// How many of the first `n` line positions differ between the two line
/// lists, the shorter one padded with empty lines.
pub open spec fn diff_count(a: Seq<Seq<char>>, b: Seq<Seq<char>>, n: int) -> int
    decreases n,
{
    if n <= 0 {
        0
    } else {
        diff_count(a, b, n - 1) + (if line_at(a, n - 1) == line_at(b, n - 1) {
            0int
        } else {
            1int
        })
    }
}

/// The number of differing line positions between two texts.
pub open spec fn changed_lines(o: Seq<char>, f: Seq<char>) -> int {
    let a = line_split(o);
    let b = line_split(f);
    diff_count(a, b, if a.len() >= b.len() {
        a.len() as int
    } else {
        b.len() as int
    })
}

/// The view of a vector of lines.
pub open spec fn vls(ls: Seq<Vec<char>>) -> Seq<Seq<char>>
    decreases ls.len(),
{
    if ls.len() == 0 {
        Seq::empty()
    } else {
        vls(ls.drop_last()).push(ls.last()@)
    }
}

/// `vls` maps the view elementwise.
proof fn lemma_vls(ls: Seq<Vec<char>>)
    ensures
        vls(ls).len() == ls.len(),
        forall|i: int| 0 <= i < ls.len() ==> vls(ls)[i] == (#[trigger] ls[i])@,
    decreases ls,
{
    if ls.len() > 0 {
        lemma_vls(ls.drop_last());
        assert forall|i: int| 0 <= i < ls.len() implies vls(ls)[i] == (#[trigger] ls[i])@ by {
            if i < ls.len() - 1 {
                assert(ls.drop_last()[i] == ls[i]);
                assert(vls(ls.drop_last())[i] == ls.drop_last()[i]@);
            }
        }
    }
}

/// Splits a text into its lines.
fn split_lines(cs: &Vec<char>) -> (r: Vec<Vec<char>>)
    ensures
        r@.len() == line_split(cs@).len(),
        forall|i: int| 0 <= i < r@.len() ==> (#[trigger] r@[i])@ == line_split(cs@)[i],
{
    let n: usize = cs.len();
    let mut lines: Vec<Vec<char>> = Vec::new();
    let mut pos: usize = 0;
    proof {
        assert(cs@.subrange(0, n as int) =~= cs@);
    }
    while pos < n
        invariant
            0 <= pos <= n,
            n == cs.len(),
            line_split(cs@) == vls(lines@) + line_split(cs@.subrange(pos as int, n as int)),
        decreases n - pos,
    {
        let ghost rest = cs@.subrange(pos as int, n as int);
        let mut e: usize = pos;
        while e < n && cs[e] != '\n'
            invariant
                pos <= e <= n,
                n == cs.len(),
                forall|m: int| pos <= m < e ==> cs@[m] != '\n',
            decreases n - e,
        {
            e = e + 1;
        }
        proof {
            assert forall|j: int| 0 <= j < e - pos implies rest[j] != '\n' by {
                assert(rest[j] == cs@[pos + j]);
            }
            if e < n {
                assert(rest[e - pos] == cs@[e as int]);
            }
            lemma_first_nl_is(rest, e - pos);
        }
        let mut line: Vec<char> = Vec::new();
        let mut q: usize = pos;
        while q < e
            invariant
                pos <= q <= e <= n,
                n == cs.len(),
                line@ == cs@.subrange(pos as int, q as int),
            decreases e - q,
        {
            line.push(cs[q]);
            proof {
                assert(cs@.subrange(pos as int, q + 1) =~= cs@.subrange(pos as int, q as int).push(
                    cs@[q as int],
                ));
            }
            q = q + 1;
        }
        if line.len() > 0 && line[line.len() - 1] == '\r' {
            line.pop();
        }
        proof {
            assert(line@ == strip_cr(cs@.subrange(pos as int, e as int)));
        }
        let ghost lbefore = lines@;
        lines.push(line);
        proof {
            lemma_vls(lbefore);
            lemma_vls(lines@);
            assert(lines@.drop_last() =~= lbefore);
            assert(vls(lines@) == vls(lbefore).push(line@));
            if e == n {
                assert(cs@.subrange(pos as int, e as int) =~= rest);
                assert(line_split(rest) == seq![strip_cr(rest)]);
                assert(vls(lines@) + line_split(cs@.subrange(n as int, n as int)) =~= vls(lbefore)
                    + line_split(rest));
            } else {
                assert(rest.subrange(0, e - pos) =~= cs@.subrange(pos as int, e as int));
                assert(rest.subrange(e - pos + 1, rest.len() as int) =~= cs@.subrange(
                    e + 1,
                    n as int,
                ));
                assert(line_split(rest) == seq![strip_cr(rest.subrange(0, e - pos))] + line_split(
                    rest.subrange(e - pos + 1, rest.len() as int),
                ));
                assert(vls(lines@) + line_split(cs@.subrange(e + 1, n as int)) =~= vls(lbefore)
                    + line_split(rest));
            }
        }
        if e == n {
            pos = n;
        } else {
            pos = e + 1;
        }
    }
    proof {
        assert(line_split(cs@.subrange(n as int, n as int)) =~= Seq::<Seq<char>>::empty());
        assert(line_split(cs@) =~= vls(lines@));
        lemma_vls(lines@);
    }
    lines
}

/// Counts the line positions at which the original and the formatted text
/// differ, the shorter text padded with empty lines.
pub fn count_changed_lines(original: &str, formatted: &str) -> (r: usize)
    ensures
        r == changed_lines(original@, formatted@),
{
    let co = crate::text::str_to_chars(original);
    let cf = crate::text::str_to_chars(formatted);
    let a = split_lines(&co);
    let b = split_lines(&cf);
    let ghost la = line_split(original@);
    let ghost lb = line_split(formatted@);
    let max_len: usize = if a.len() >= b.len() {
        a.len()
    } else {
        b.len()
    };
    let mut diff: usize = 0;
    let mut idx: usize = 0;
    while idx < max_len
        invariant
            0 <= idx <= max_len,
            a@.len() == la.len(),
            forall|i: int| 0 <= i < a@.len() ==> (#[trigger] a@[i])@ == la[i],
            b@.len() == lb.len(),
            forall|i: int| 0 <= i < b@.len() ==> (#[trigger] b@[i])@ == lb[i],
            max_len == (if la.len() >= lb.len() {
                la.len()
            } else {
                lb.len()
            }),
            diff == diff_count(la, lb, idx as int),
            diff <= idx,
        decreases max_len - idx,
    {
        let same: bool = if idx < a.len() && idx < b.len() {
            crate::text::eq_chars(&a[idx], &b[idx])
        } else if idx < a.len() {
            a[idx].len() == 0
        } else {
            b[idx].len() == 0
        };
        proof {
            if idx < a.len() && idx < b.len() {
                assert(same == (line_at(la, idx as int) == line_at(lb, idx as int)));
            } else if idx < a.len() {
                assert(line_at(lb, idx as int) == Seq::<char>::empty());
                assert(same == (a@[idx as int]@ =~= Seq::<char>::empty()));
                assert(same == (line_at(la, idx as int) == line_at(lb, idx as int)));
            } else {
                assert(line_at(la, idx as int) == Seq::<char>::empty());
                assert(same == (b@[idx as int]@ =~= Seq::<char>::empty()));
                assert(same == (line_at(la, idx as int) == line_at(lb, idx as int)));
            }
        }
        if !same {
            diff = diff + 1;
        }
        idx = idx + 1;
    }
    diff
}

} // verus!
