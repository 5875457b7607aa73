//! The laws the canonicalizer and the classifier obey, proved once and for
//! all: sort correctness and stability, sequence-order preservation, entry
//! preservation up to order, idempotence, and literal-word safety.

use vstd::prelude::*;
use crate::canon::canon;
use crate::canon::canon_entries;
use crate::canon::canon_seq;
use crate::canon::ekey;
use crate::canon::insert_entry;
use crate::canon::lemma_canon_entries;
use crate::canon::lemma_canon_seq;
use crate::canon::sort_entries;
use crate::emit::quoted_scalar_everywhere;
use crate::scalar::block_eligible;
use crate::scalar::is_reserved;
use crate::scalar::number_like;
use crate::scalar::number_scan;
use crate::scalar::plain_string;
use crate::scalar::strip_dash;
use crate::text::lemma_lex_le_refl;
use crate::text::lemma_lex_le_total;
use crate::text::lemma_lex_le_trans;
use crate::text::lex_le;
use crate::value::Node;

verus! {

broadcast use vstd::seq_lib::group_to_multiset_ensures;

/// Entries stand in ascending order of their derived keys.
pub open spec fn entries_sorted(s: Seq<(Node, Node)>) -> bool {
    forall|i: int, j: int|
        0 <= i < j < s.len() ==> lex_le(ekey(#[trigger] s[i]), ekey(#[trigger] s[j]))
}

/// Inserting adds one entry.
proof fn lemma_insert_len(e: (Node, Node), s: Seq<(Node, Node)>)
    ensures
        insert_entry(e, s).len() == s.len() + 1,
    decreases s.len(),
{
    if s.len() > 0 && !lex_le(ekey(s.last()), ekey(e)) {
        lemma_insert_len(e, s.drop_last());
    }
}

/// Sorting keeps the number of entries.
pub proof fn lemma_sort_len(s: Seq<(Node, Node)>)
    ensures
        sort_entries(s).len() == s.len(),
    decreases s.len(),
{
    if s.len() > 0 {
        lemma_sort_len(s.drop_last());
        lemma_insert_len(s.last(), sort_entries(s.drop_last()));
    }
}

/// A key bound on every entry and on the inserted one bounds the result.
proof fn lemma_all_keys_le(e: (Node, Node), s: Seq<(Node, Node)>, bound: Seq<char>)
    requires
        forall|m: int| 0 <= m < s.len() ==> lex_le(ekey(#[trigger] s[m]), bound),
        lex_le(ekey(e), bound),
    ensures
        forall|m: int| 0 <= m < insert_entry(e, s).len() ==> lex_le(
            ekey(#[trigger] insert_entry(e, s)[m]),
            bound,
        ),
    decreases s.len(),
{
    lemma_insert_len(e, s);
    if s.len() == 0 {
        assert(insert_entry(e, s)[0] == e);
    } else if lex_le(ekey(s.last()), ekey(e)) {
        assert forall|m: int| 0 <= m < insert_entry(e, s).len() implies lex_le(
            ekey(#[trigger] insert_entry(e, s)[m]),
            bound,
        ) by {
            if m < s.len() {
                assert(insert_entry(e, s)[m] == s[m]);
            } else {
                assert(insert_entry(e, s)[m] == e);
            }
        }
    } else {
        let dl = s.drop_last();
        assert forall|m: int| 0 <= m < dl.len() implies lex_le(ekey(#[trigger] dl[m]), bound) by {
            assert(dl[m] == s[m]);
        }
        lemma_all_keys_le(e, dl, bound);
        lemma_insert_len(e, dl);
        assert forall|m: int| 0 <= m < insert_entry(e, s).len() implies lex_le(
            ekey(#[trigger] insert_entry(e, s)[m]),
            bound,
        ) by {
            if m < insert_entry(e, dl).len() {
                assert(insert_entry(e, s)[m] == insert_entry(e, dl)[m]);
            } else {
                assert(insert_entry(e, s)[m] == s.last());
                assert(lex_le(ekey(s[s.len() - 1]), bound));
            }
        }
    }
}

/// Inserting into a sorted entry list keeps it sorted.
proof fn lemma_insert_sorted(e: (Node, Node), s: Seq<(Node, Node)>)
    requires
        entries_sorted(s),
    ensures
        entries_sorted(insert_entry(e, s)),
    decreases s.len(),
{
    lemma_insert_len(e, s);
    if s.len() == 0 {
    } else if lex_le(ekey(s.last()), ekey(e)) {
        let r = insert_entry(e, s);
        assert(r == s.push(e));
        assert forall|i: int, j: int| 0 <= i < j < r.len() implies lex_le(
            ekey(#[trigger] r[i]),
            ekey(#[trigger] r[j]),
        ) by {
            if j < s.len() {
                assert(r[i] == s[i] && r[j] == s[j]);
            } else {
                assert(r[i] == s[i] && r[j] == e);
                if i < s.len() - 1 {
                    assert(lex_le(ekey(s[i]), ekey(s[s.len() - 1])));
                    lemma_lex_le_trans(ekey(s[i]), ekey(s.last()), ekey(e));
                } else {
                    assert(s[i] == s.last());
                }
            }
        }
    } else {
        let dl = s.drop_last();
        assert forall|i: int, j: int| 0 <= i < j < dl.len() implies lex_le(
            ekey(#[trigger] dl[i]),
            ekey(#[trigger] dl[j]),
        ) by {
            assert(dl[i] == s[i] && dl[j] == s[j]);
        }
        lemma_insert_sorted(e, dl);
        lemma_insert_len(e, dl);
        lemma_lex_le_total(ekey(s.last()), ekey(e));
        assert forall|m: int| 0 <= m < dl.len() implies lex_le(
            ekey(#[trigger] dl[m]),
            ekey(s.last()),
        ) by {
            assert(dl[m] == s[m]);
            assert(lex_le(ekey(s[m]), ekey(s[s.len() - 1])));
        }
        lemma_all_keys_le(e, dl, ekey(s.last()));
        let r = insert_entry(e, s);
        let ri = insert_entry(e, dl);
        assert(r == ri.push(s.last()));
        assert forall|i: int, j: int| 0 <= i < j < r.len() implies lex_le(
            ekey(#[trigger] r[i]),
            ekey(#[trigger] r[j]),
        ) by {
            if j < ri.len() {
                assert(r[i] == ri[i] && r[j] == ri[j]);
            } else {
                assert(r[i] == ri[i] && r[j] == s.last());
                assert(lex_le(ekey(ri[i]), ekey(s.last())));
            }
        }
    }
}

/// The sorted entry list is sorted.
proof fn lemma_sort_sorted_aux(s: Seq<(Node, Node)>)
    ensures
        entries_sorted(sort_entries(s)),
    decreases s.len(),
{
    if s.len() > 0 {
        lemma_sort_sorted_aux(s.drop_last());
        lemma_insert_sorted(s.last(), sort_entries(s.drop_last()));
    }
}

/// Sort correctness: canonicalizing a mapping yields its entries (with
/// canonicalized values) in ascending lexicographic order of the derived
/// sort key.
pub proof fn lemma_canon_mapping_sorted(es: Seq<(Node, Node)>)
    ensures
        canon(Node::Mapping(es)) == Node::Mapping(sort_entries(canon_entries(es))),
        entries_sorted(sort_entries(canon_entries(es))),
        sort_entries(canon_entries(es)).len() == es.len(),
{
    lemma_sort_sorted_aux(canon_entries(es));
    lemma_sort_len(canon_entries(es));
    lemma_canon_entries(es);
}

/// The entries whose derived key equals `kk`, in order.
pub open spec fn filter_key(s: Seq<(Node, Node)>, kk: Seq<char>) -> Seq<(Node, Node)>
    decreases s.len(),
{
    if s.len() == 0 {
        Seq::empty()
    } else {
        filter_key(s.drop_last(), kk) + (if ekey(s.last()) == kk {
            seq![s.last()]
        } else {
            Seq::empty()
        })
    }
}

/// Inserting an entry leaves each key's subsequence as if the entry had
/// been appended at the end.
proof fn lemma_insert_filter(e: (Node, Node), s: Seq<(Node, Node)>, kk: Seq<char>)
    ensures
        filter_key(insert_entry(e, s), kk) == filter_key(s.push(e), kk),
    decreases s.len(),
{
    if s.len() == 0 {
        assert(insert_entry(e, s) =~= s.push(e));
    } else if lex_le(ekey(s.last()), ekey(e)) {
        assert(insert_entry(e, s) == s.push(e));
    } else {
        let dl = s.drop_last();
        lemma_insert_filter(e, dl, kk);
        let r = insert_entry(e, s);
        let ri = insert_entry(e, dl);
        assert(r == ri.push(s.last()));
        assert(r.drop_last() =~= ri);
        assert(r.last() == s.last());
        assert(filter_key(r, kk) == filter_key(ri, kk) + (if ekey(s.last()) == kk {
            seq![s.last()]
        } else {
            Seq::<(Node, Node)>::empty()
        }));
        assert(dl.push(e).drop_last() =~= dl);
        assert(filter_key(dl.push(e), kk) == filter_key(dl, kk) + (if ekey(e) == kk {
            seq![e]
        } else {
            Seq::<(Node, Node)>::empty()
        }));
        assert(s.push(e).drop_last() =~= s);
        assert(filter_key(s.push(e), kk) == filter_key(s, kk) + (if ekey(e) == kk {
            seq![e]
        } else {
            Seq::<(Node, Node)>::empty()
        }));
        if ekey(e) == kk && ekey(s.last()) == kk {
            lemma_lex_le_refl(kk);
            assert(false);
        }
        assert(filter_key(r, kk) =~= filter_key(s.push(e), kk));
    }
}

/// Sorting leaves each key's subsequence in input order.
proof fn lemma_sort_filter_aux(s: Seq<(Node, Node)>, kk: Seq<char>)
    ensures
        filter_key(sort_entries(s), kk) == filter_key(s, kk),
    decreases s.len(),
{
    if s.len() > 0 {
        let dl = s.drop_last();
        lemma_sort_filter_aux(dl, kk);
        lemma_insert_filter(s.last(), sort_entries(dl), kk);
        assert(sort_entries(dl).push(s.last()).drop_last() =~= sort_entries(dl));
        assert(filter_key(sort_entries(dl).push(s.last()), kk) == filter_key(sort_entries(dl), kk)
            + (if ekey(s.last()) == kk {
            seq![s.last()]
        } else {
            Seq::<(Node, Node)>::empty()
        }));
        assert(filter_key(sort_entries(s), kk) =~= filter_key(s, kk));
    }
}

/// Sort stability: among entries whose derived keys are equal, the
/// canonicalized mapping keeps the input order — for every key `kk`, the
/// subsequence of sorted entries carrying `kk` equals the subsequence of
/// input entries (with canonicalized values) carrying `kk`. Keys themselves
/// are never rewritten.
pub proof fn lemma_canon_mapping_stable(es: Seq<(Node, Node)>, kk: Seq<char>)
    ensures
        filter_key(sort_entries(canon_entries(es)), kk) == filter_key(canon_entries(es), kk),
        canon_entries(es).len() == es.len(),
        forall|i: int| 0 <= i < es.len() ==> ekey(#[trigger] canon_entries(es)[i]) == ekey(es[i]),
{
    lemma_sort_filter_aux(canon_entries(es), kk);
    lemma_canon_entries(es);
}

/// Inserting an entry adds it to the multiset of entries.
proof fn lemma_insert_multiset(e: (Node, Node), s: Seq<(Node, Node)>)
    ensures
        insert_entry(e, s).to_multiset() == s.to_multiset().insert(e),
    decreases s.len(),
{
    if s.len() == 0 {
        assert(insert_entry(e, s) =~= s.push(e));
        assert(s.push(e).to_multiset() =~= s.to_multiset().insert(e));
    } else if lex_le(ekey(s.last()), ekey(e)) {
        assert(insert_entry(e, s) == s.push(e));
        assert(s.push(e).to_multiset() =~= s.to_multiset().insert(e));
    } else {
        let dl = s.drop_last();
        lemma_insert_multiset(e, dl);
        let ri = insert_entry(e, dl);
        assert(insert_entry(e, s) == ri.push(s.last()));
        assert(ri.push(s.last()).to_multiset() =~= ri.to_multiset().insert(s.last()));
        assert(dl.push(s.last()) =~= s);
        assert(dl.push(s.last()).to_multiset() =~= dl.to_multiset().insert(s.last()));
        assert(ri.to_multiset().insert(s.last()) =~= dl.to_multiset().insert(e).insert(s.last()));
        assert(dl.to_multiset().insert(e).insert(s.last()) =~= dl.to_multiset().insert(
            s.last(),
        ).insert(e));
        assert(insert_entry(e, s).to_multiset() =~= s.to_multiset().insert(e));
    }
}

/// Sorting permutes the entries: the multiset of entries is unchanged.
proof fn lemma_sort_multiset_aux(s: Seq<(Node, Node)>)
    ensures
        sort_entries(s).to_multiset() == s.to_multiset(),
    decreases s.len(),
{
    if s.len() > 0 {
        let dl = s.drop_last();
        lemma_sort_multiset_aux(dl);
        lemma_insert_multiset(s.last(), sort_entries(dl));
        assert(dl.push(s.last()) =~= s);
        assert(dl.push(s.last()).to_multiset() =~= dl.to_multiset().insert(s.last()));
        assert(sort_entries(s).to_multiset() =~= s.to_multiset());
    }
}

/// Entry preservation: canonicalizing a mapping only reorders its entries —
/// the multiset of entries (keys unchanged, values canonicalized) is exactly
/// the multiset of input entries with canonicalized values.
pub proof fn lemma_canon_mapping_permutation(es: Seq<(Node, Node)>)
    ensures
        canon(Node::Mapping(es)) == Node::Mapping(sort_entries(canon_entries(es))),
        sort_entries(canon_entries(es)).to_multiset() == canon_entries(es).to_multiset(),
        canon_entries(es).len() == es.len(),
        forall|i: int| 0 <= i < es.len() ==> #[trigger] canon_entries(es)[i] == (
            es[i].0,
            canon(es[i].1),
        ),
{
    lemma_sort_multiset_aux(canon_entries(es));
    lemma_canon_entries(es);
}

/// Sequence order preservation: canonicalizing a sequence keeps its length
/// and element order; each element is canonicalized in place.
pub proof fn lemma_canon_sequence_order(items: Seq<Node>)
    ensures
        canon(Node::Sequence(items)) == Node::Sequence(canon_seq(items)),
        canon_seq(items).len() == items.len(),
        forall|i: int| 0 <= i < items.len() ==> canon_seq(items)[i] == canon(#[trigger] items[i]),
{
    lemma_canon_seq(items);
}

/// Sorting an already sorted entry list changes nothing.
proof fn lemma_sort_of_sorted(s: Seq<(Node, Node)>)
    requires
        entries_sorted(s),
    ensures
        sort_entries(s) == s,
    decreases s.len(),
{
    if s.len() > 0 {
        let dl = s.drop_last();
        assert forall|i: int, j: int| 0 <= i < j < dl.len() implies lex_le(
            ekey(#[trigger] dl[i]),
            ekey(#[trigger] dl[j]),
        ) by {
            assert(dl[i] == s[i] && dl[j] == s[j]);
        }
        lemma_sort_of_sorted(dl);
        if dl.len() == 0 {
            assert(insert_entry(s.last(), dl) =~= s);
        } else {
            assert(dl.last() == s[s.len() - 2]);
            assert(lex_le(ekey(s[s.len() - 2]), ekey(s[s.len() - 1])));
            assert(insert_entry(s.last(), dl) == dl.push(s.last()));
            assert(dl.push(s.last()) =~= s);
        }
    }
}

/// Idempotence: canonicalizing twice is the same as canonicalizing once —
/// formatting a formatted document changes nothing.
pub proof fn lemma_canon_idempotent(n: Node)
    ensures
        canon(canon(n)) == canon(n),
    decreases n,
{
    broadcast use vstd::seq_lib::group_to_multiset_ensures;

    match n {
        Node::Sequence(items) => {
            assert forall|i: int| 0 <= i < items.len() implies canon(canon(#[trigger] items[i]))
                == canon(items[i]) by {
                lemma_canon_idempotent(items[i]);
            }
            lemma_canon_seq(items);
            lemma_canon_seq(canon_seq(items));
            assert forall|i: int| 0 <= i < items.len() implies canon_seq(canon_seq(items))[i]
                == canon_seq(items)[i] by {
                assert(canon_seq(canon_seq(items))[i] == canon(canon_seq(items)[i]));
                assert(canon_seq(items)[i] == canon(items[i]));
            }
            assert(canon_seq(canon_seq(items)) =~= canon_seq(items));
        },
        Node::Mapping(es) => {
            let ce = canon_entries(es);
            let t = sort_entries(ce);
            lemma_canon_entries(es);
            assert forall|i: int| 0 <= i < ce.len() implies canon(#[trigger] ce[i].1) == ce[i].1 by {
                assert(ce[i] == (es[i].0, canon(es[i].1)));
                lemma_canon_idempotent(es[i].1);
            }
            lemma_sort_multiset_aux(ce);
            lemma_sort_len(ce);
            assert forall|m: int| 0 <= m < t.len() implies canon(#[trigger] t[m].1) == t[m].1 by {
                assert(t[m] == t[m]);
                assert(t.contains(t[m]));
                assert(t.to_multiset().count(t[m]) > 0);
                assert(ce.to_multiset().count(t[m]) > 0);
                assert(ce.contains(t[m]));
                let j = choose|j: int| 0 <= j < ce.len() && ce[j] == t[m];
                assert(canon(ce[j].1) == ce[j].1);
            }
            lemma_canon_entries(t);
            assert(canon_entries(t) =~= t) by {
                assert forall|m: int| 0 <= m < t.len() implies canon_entries(t)[m] == t[m] by {
                    assert(canon_entries(t)[m] == (t[m].0, canon(t[m].1)));
                }
            }
            lemma_sort_sorted_aux(ce);
            lemma_sort_of_sorted(t);
            assert(canon(canon(n)) == Node::Mapping(sort_entries(canon_entries(t))));
        },
        _ => {},
    }
}

/// Idempotence of formatting, given the parser: a formatted document is
/// the rendering of a canonicalized tree, so when re-parsing it yields that
/// same tree back (which the round-trip tests check against the real
/// parser), formatting it again produces the same text.
pub proof fn lemma_emit_canon_idempotent(n: Node, reparsed: Node)
    requires
        reparsed == canon(n),
    ensures
        crate::emit::rendered(canon(reparsed)) == crate::emit::rendered(canon(n)),
{
    lemma_canon_idempotent(n);
}

/// Characters accepted by the numeric scan are never newlines.
proof fn lemma_scan_chars(t: Seq<char>, i: int, hd: bool, he: bool, hg: bool)
    requires
        0 <= i,
        number_scan(t, i, hd, he, hg),
    ensures
        forall|j: int| i <= j < t.len() ==> #[trigger] t[j] != '\n',
    decreases t.len() - i,
{
    if 0 <= i < t.len() {
        if crate::scalar::is_digit(t[i]) {
            lemma_scan_chars(t, i + 1, hd, he, true);
        } else if t[i] == '.' && !hd && !he {
            lemma_scan_chars(t, i + 1, true, he, hg);
        } else if (t[i] == 'e' || t[i] == 'E') && !he && hg {
            lemma_scan_chars(t, i + 1, hd, true, false);
        } else {
            lemma_scan_chars(t, i + 1, hd, he, hg);
        }
    }
}

/// A number-shaped string contains no newline.
proof fn lemma_number_no_newline(s: Seq<char>)
    requires
        number_like(s),
    ensures
        forall|j: int| 0 <= j < s.len() ==> #[trigger] s[j] != '\n',
{
    if s[0] == '-' {
        let t = s.drop_first();
        assert(strip_dash(s) == t);
        lemma_scan_chars(t, 0, false, false, false);
        assert forall|j: int| 0 <= j < s.len() implies #[trigger] s[j] != '\n' by {
            if j > 0 {
                assert(t[j - 1] == s[j]);
            }
        }
    } else {
        assert(strip_dash(s) == s);
        lemma_scan_chars(s, 0, false, false, false);
    }
}

/// A character that matches a lowercase letter ignoring case is never a
/// newline.
proof fn lemma_ci_not_nl(c: char, l: char)
    requires
        crate::scalar::ci_eq(c, l),
        ('a' as u32) <= (l as u32) && (l as u32) <= ('z' as u32),
    ensures
        c != '\n',
{
}

/// A reserved word contains no newline.
proof fn lemma_reserved_no_newline(s: Seq<char>)
    requires
        is_reserved(s),
    ensures
        forall|j: int| 0 <= j < s.len() ==> #[trigger] s[j] != '\n',
{
    assert forall|j: int| 0 <= j < s.len() implies #[trigger] s[j] != '\n' by {
        if s.len() == 1 {
            assert(s[0] == '~');
        } else if s.len() == 2 {
            if crate::scalar::ci_eq(s[0], 'n') && crate::scalar::ci_eq(s[1], 'o') {
                lemma_ci_not_nl(s[0], 'n');
                lemma_ci_not_nl(s[1], 'o');
            } else {
                lemma_ci_not_nl(s[0], 'o');
                lemma_ci_not_nl(s[1], 'n');
            }
        } else if s.len() == 3 {
            if crate::scalar::ci_eq(s[0], 'y') && crate::scalar::ci_eq(s[1], 'e')
                && crate::scalar::ci_eq(s[2], 's') {
                lemma_ci_not_nl(s[0], 'y');
                lemma_ci_not_nl(s[1], 'e');
                lemma_ci_not_nl(s[2], 's');
            } else {
                lemma_ci_not_nl(s[0], 'o');
                lemma_ci_not_nl(s[1], 'f');
                lemma_ci_not_nl(s[2], 'f');
            }
        } else if s.len() == 4 {
            if crate::scalar::ci_eq(s[0], 't') && crate::scalar::ci_eq(s[1], 'r')
                && crate::scalar::ci_eq(s[2], 'u') && crate::scalar::ci_eq(s[3], 'e') {
                lemma_ci_not_nl(s[0], 't');
                lemma_ci_not_nl(s[1], 'r');
                lemma_ci_not_nl(s[2], 'u');
                lemma_ci_not_nl(s[3], 'e');
            } else {
                lemma_ci_not_nl(s[0], 'n');
                lemma_ci_not_nl(s[1], 'u');
                lemma_ci_not_nl(s[2], 'l');
                lemma_ci_not_nl(s[3], 'l');
            }
        } else {
            lemma_ci_not_nl(s[0], 'f');
            lemma_ci_not_nl(s[1], 'a');
            lemma_ci_not_nl(s[2], 'l');
            lemma_ci_not_nl(s[3], 's');
            lemma_ci_not_nl(s[4], 'e');
        }
    }
}

/// Literal-word safety: a string that is, ignoring case, one of the
/// reserved words, or that has a numeric shape, is never emitted plain —
/// in every position the emitter renders it double-quoted.
pub proof fn lemma_literal_word_quoted(s: Seq<char>)
    requires
        is_reserved(s) || number_like(s),
    ensures
        !plain_string(s),
        !block_eligible(s),
        quoted_scalar_everywhere(s),
{
    if is_reserved(s) {
        lemma_reserved_no_newline(s);
    } else {
        lemma_number_no_newline(s);
    }
    crate::emit::lemma_quoted_scalar_everywhere(s);
}

} // verus!
