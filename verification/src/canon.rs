//! The canonicalizer: a depth-first rewrite of the document tree that sorts
//! every mapping's entries by a derived textual key, recursing into nested
//! mapping and sequence values. Sequence order is never changed, and the
//! sort is stable: entries with equal derived keys keep their input order.

use vstd::prelude::*;
use crate::emit::spec_root;
use crate::emit::Formatter;
use crate::text::clone_chars;
use crate::text::lex_le;
use crate::text::lex_le_chars;
use crate::text::push_chars;
use crate::text::single_line;
use crate::text::single_line_chars;
use crate::value::depth;
use crate::value::depth_entries;
use crate::value::depth_seq;
use crate::value::dv_entries;
use crate::value::dv_seq;
use crate::value::lemma_depth_entries_le;
use crate::value::lemma_depth_seq_le;
use crate::value::lemma_dv_entries;
use crate::value::lemma_dv_seq;
use crate::value::nat_max;
use crate::value::Node;
use crate::value::Tree;

verus! {

/// The sort key derived from a mapping key: scalars use their literal text,
/// strings stand for themselves, a tagged key is its tag, a colon, and the
/// inner key's own sort key, and a collection key is its canonical emission
/// collapsed to one line.
pub open spec fn key_string(k: Node) -> Seq<char>
    decreases k,
{
    match k {
        Node::Null => seq!['n', 'u', 'l', 'l'],
        Node::Bool(b) => if b {
            seq!['t', 'r', 'u', 'e']
        } else {
            seq!['f', 'a', 'l', 's', 'e']
        },
        Node::Number(t) => t,
        Node::Str(s) => s,
        Node::Tagged(tag, inner) => tag + seq![':'] + key_string(*inner),
        _ => single_line(spec_root(k)),
    }
}

/// The sort key of a mapping entry: derived from its key.
pub open spec fn ekey(e: (Node, Node)) -> Seq<char> {
    key_string(e.0)
}

/// Inserts `e` after every entry whose key is less than or equal to its own:
/// the insertion that keeps a sort stable.
pub open spec fn insert_entry(e: (Node, Node), s: Seq<(Node, Node)>) -> Seq<(Node, Node)>
    decreases s.len(),
{
    if s.len() == 0 {
        seq![e]
    } else if lex_le(ekey(s.last()), ekey(e)) {
        s.push(e)
    } else {
        insert_entry(e, s.drop_last()).push(s.last())
    }
}

/// Stable insertion sort of mapping entries by their derived keys.
pub open spec fn sort_entries(s: Seq<(Node, Node)>) -> Seq<(Node, Node)>
    decreases s.len(),
{
    if s.len() == 0 {
        Seq::empty()
    } else {
        insert_entry(s.last(), sort_entries(s.drop_last()))
    }
}

/// Canonicalization: mappings get their entries stably sorted by derived key
/// with each entry value canonicalized; sequences keep their order with each
/// element canonicalized; everything else passes through unchanged.
pub open spec fn canon(n: Node) -> Node
    decreases n,
{
    match n {
        Node::Sequence(items) => Node::Sequence(canon_seq(items)),
        Node::Mapping(es) => Node::Mapping(sort_entries(canon_entries(es))),
        _ => n,
    }
}

/// Elementwise canonicalization of a sequence's elements.
pub open spec fn canon_seq(items: Seq<Node>) -> Seq<Node>
    decreases items,
{
    if items.len() == 0 {
        Seq::empty()
    } else {
        canon_seq(items.drop_last()).push(canon(items.last()))
    }
}

/// Canonicalization of each entry's value; keys are left as they are.
pub open spec fn canon_entries(es: Seq<(Node, Node)>) -> Seq<(Node, Node)>
    decreases es,
{
    if es.len() == 0 {
        Seq::empty()
    } else {
        canon_entries(es.drop_last()).push((es.last().0, canon(es.last().1)))
    }
}

/// `canon_seq` maps `canon` elementwise.
pub proof fn lemma_canon_seq(items: Seq<Node>)
    ensures
        canon_seq(items).len() == items.len(),
        forall|i: int| 0 <= i < items.len() ==> canon_seq(items)[i] == canon(#[trigger] items[i]),
    decreases items,
{
    if items.len() > 0 {
        lemma_canon_seq(items.drop_last());
        assert forall|i: int| 0 <= i < items.len() implies canon_seq(items)[i] == canon(
            #[trigger] items[i],
        ) by {
            if i < items.len() - 1 {
                assert(items.drop_last()[i] == items[i]);
                assert(canon_seq(items.drop_last())[i] == canon(items.drop_last()[i]));
            }
        }
    }
}

/// `canon_entries` keeps keys and maps `canon` over values, elementwise.
pub proof fn lemma_canon_entries(es: Seq<(Node, Node)>)
    ensures
        canon_entries(es).len() == es.len(),
        forall|i: int| 0 <= i < es.len() ==> #[trigger] canon_entries(es)[i] == (
            es[i].0,
            canon(es[i].1),
        ),
    decreases es,
{
    if es.len() > 0 {
        lemma_canon_entries(es.drop_last());
        assert forall|i: int| 0 <= i < es.len() implies #[trigger] canon_entries(es)[i] == (
            es[i].0,
            canon(es[i].1),
        ) by {
            if i < es.len() - 1 {
                assert(es.drop_last()[i] == es[i]);
                assert(canon_entries(es.drop_last())[i] == (
                    es.drop_last()[i].0,
                    canon(es.drop_last()[i].1),
                ));
            }
        }
    }
}

/// Splicing characterization of [`insert_entry`]: if every entry from
/// position `j` on has a key strictly greater than `e`'s, and the entry just
/// before `j` (when there is one) has a key less than or equal to `e`'s,
/// then inserting `e` splices it in at position `j`.
pub proof fn lemma_insert_at(s: Seq<(Node, Node)>, e: (Node, Node), j: int)
    requires
        0 <= j <= s.len(),
        forall|m: int| j <= m < s.len() ==> !lex_le(ekey(#[trigger] s[m]), ekey(e)),
        j > 0 ==> lex_le(ekey(s[j - 1]), ekey(e)),
    ensures
        insert_entry(e, s) == s.subrange(0, j) + seq![e] + s.subrange(j, s.len() as int),
    decreases s.len() - j,
{
    if j == s.len() {
        if s.len() == 0 {
            assert(insert_entry(e, s) =~= s.subrange(0, j) + seq![e] + s.subrange(
                j,
                s.len() as int,
            ));
        } else {
            assert(lex_le(ekey(s.last()), ekey(e)));
            assert(insert_entry(e, s) == s.push(e));
            assert(s.push(e) =~= s.subrange(0, j) + seq![e] + s.subrange(j, s.len() as int));
        }
    } else {
        assert(!lex_le(ekey(s[s.len() - 1]), ekey(e)));
        let dl = s.drop_last();
        assert forall|m: int| j <= m < dl.len() implies !lex_le(ekey(#[trigger] dl[m]), ekey(e)) by {
            assert(dl[m] == s[m]);
        }
        if j > 0 {
            assert(dl[j - 1] == s[j - 1]);
        }
        lemma_insert_at(dl, e, j);
        assert(insert_entry(e, s) == insert_entry(e, dl).push(s.last()));
        assert(insert_entry(e, dl).push(s.last()) =~= s.subrange(0, j) + seq![e] + s.subrange(
            j,
            s.len() as int,
        ));
    }
}

/// Inserting an entry joins its depth into the list's depth.
proof fn lemma_insert_depth(e: (Node, Node), s: Seq<(Node, Node)>)
    ensures
        depth_entries(insert_entry(e, s)) == nat_max(
            depth_entries(s),
            nat_max(depth(e.0), depth(e.1)),
        ),
    decreases s.len(),
{
    let me = nat_max(depth(e.0), depth(e.1));
    if s.len() == 0 {
        assert(insert_entry(e, s) == seq![e]);
        assert(seq![e].drop_last() =~= Seq::<(Node, Node)>::empty());
        assert(seq![e].last() == e);
        assert(depth_entries(Seq::<(Node, Node)>::empty()) == 0);
        assert(depth_entries(seq![e]) == nat_max(0, me));
    } else if lex_le(ekey(s.last()), ekey(e)) {
        assert(insert_entry(e, s) == s.push(e));
        assert(s.push(e).drop_last() =~= s);
        assert(s.push(e).last() == e);
        assert(depth_entries(s.push(e)) == nat_max(depth_entries(s), me));
    } else {
        lemma_insert_depth(e, s.drop_last());
        let t = insert_entry(e, s.drop_last()).push(s.last());
        let ml = nat_max(depth(s.last().0), depth(s.last().1));
        assert(insert_entry(e, s) == t);
        assert(t.drop_last() =~= insert_entry(e, s.drop_last()));
        assert(t.last() == s.last());
        assert(depth_entries(t) == nat_max(depth_entries(insert_entry(e, s.drop_last())), ml));
        assert(depth_entries(s) == nat_max(depth_entries(s.drop_last()), ml));
    }
}

/// Sorting does not change the depth of an entry list.
proof fn lemma_sort_depth(s: Seq<(Node, Node)>)
    ensures
        depth_entries(sort_entries(s)) == depth_entries(s),
    decreases s.len(),
{
    if s.len() > 0 {
        lemma_sort_depth(s.drop_last());
        lemma_insert_depth(s.last(), sort_entries(s.drop_last()));
    }
}

/// Canonicalization does not change a tree's depth: it only reorders
/// mapping entries.
pub proof fn lemma_canon_depth(n: Node)
    ensures
        depth(canon(n)) == depth(n),
    decreases n,
{
    match n {
        Node::Sequence(items) => {
            lemma_canon_seq_depth(items);
        },
        Node::Mapping(es) => {
            lemma_canon_entries_depth(es);
            lemma_sort_depth(canon_entries(es));
        },
        _ => {},
    }
}

/// Elementwise canonicalization does not change a node list's depth.
proof fn lemma_canon_seq_depth(items: Seq<Node>)
    ensures
        depth_seq(canon_seq(items)) == depth_seq(items),
    decreases items,
{
    if items.len() > 0 {
        lemma_canon_seq_depth(items.drop_last());
        lemma_canon_depth(items.last());
        assert(canon_seq(items).drop_last() =~= canon_seq(items.drop_last()));
        assert(canon_seq(items).last() == canon(items.last()));
    }
}

/// Canonicalizing entry values does not change an entry list's depth.
proof fn lemma_canon_entries_depth(es: Seq<(Node, Node)>)
    ensures
        depth_entries(canon_entries(es)) == depth_entries(es),
    decreases es,
{
    if es.len() > 0 {
        lemma_canon_entries_depth(es.drop_last());
        lemma_canon_depth(es.last().1);
        assert(canon_entries(es).drop_last() =~= canon_entries(es.drop_last()));
        assert(canon_entries(es).last() == (es.last().0, canon(es.last().1)));
    }
}

/// The model of the keyed triples the sorting pass works on.
pub open spec fn tview(ts: Seq<(Vec<char>, Tree, Tree)>) -> Seq<(Node, Node)>
    decreases ts.len(),
{
    if ts.len() == 0 {
        Seq::empty()
    } else {
        tview(ts.drop_last()).push((ts.last().1.dv(), ts.last().2.dv()))
    }
}

/// `tview` maps the view elementwise.
proof fn lemma_tview(ts: Seq<(Vec<char>, Tree, Tree)>)
    ensures
        tview(ts).len() == ts.len(),
        forall|i: int| 0 <= i < ts.len() ==> #[trigger] tview(ts)[i] == (
            ts[i].1.dv(),
            ts[i].2.dv(),
        ),
    decreases ts,
{
    if ts.len() > 0 {
        lemma_tview(ts.drop_last());
        assert forall|i: int| 0 <= i < ts.len() implies #[trigger] tview(ts)[i] == (
            ts[i].1.dv(),
            ts[i].2.dv(),
        ) by {
            if i < ts.len() - 1 {
                assert(ts.drop_last()[i] == ts[i]);
                assert(tview(ts.drop_last())[i] == (
                    ts.drop_last()[i].1.dv(),
                    ts.drop_last()[i].2.dv(),
                ));
            }
        }
    }
}

/// The sort key a mapping key is ordered by.
pub fn key_sort_key(key: &Tree) -> (r: Vec<char>)
    requires
        2 * depth(key.dv()) <= usize::MAX,
    ensures
        r@ == key_string(key.dv()),
    decreases key,
{
    match key {
        Tree::Null => {
            let mut r: Vec<char> = Vec::new();
            r.push('n');
            r.push('u');
            r.push('l');
            r.push('l');
            proof {
                assert(r@ =~= seq!['n', 'u', 'l', 'l']);
            }
            r
        },
        Tree::Bool(b) => {
            let mut r: Vec<char> = Vec::new();
            if *b {
                r.push('t');
                r.push('r');
                r.push('u');
                r.push('e');
                proof {
                    assert(r@ =~= seq!['t', 'r', 'u', 'e']);
                }
            } else {
                r.push('f');
                r.push('a');
                r.push('l');
                r.push('s');
                r.push('e');
                proof {
                    assert(r@ =~= seq!['f', 'a', 'l', 's', 'e']);
                }
            }
            r
        },
        Tree::Number(t) => clone_chars(t),
        Tree::Str(t) => clone_chars(t),
        Tree::Tagged(tag, inner) => {
            let mut r = clone_chars(tag);
            r.push(':');
            let rest = key_sort_key(inner);
            push_chars(&mut r, &rest);
            proof {
                assert(r@ =~= key_string(key.dv()));
            }
            r
        },
        _ => {
            let mut tmp = Formatter::new();
            tmp.write_root(key);
            let line = tmp.into_chars();
            single_line_chars(&line)
        },
    }
}

/// Canonicalizes a document tree: returns a fresh tree whose mappings are
/// stably sorted by derived key and whose sequences keep their length and
/// order, each element canonicalized.
pub fn sort_value(value: Tree) -> (r: Tree)
    requires
        2 * depth(value.dv()) <= usize::MAX,
    ensures
        r.dv() == canon(value.dv()),
    decreases value,
{
    let ghost gv = value;
    match value {
        Tree::Mapping(mut entries) => {
            let ghost gentries = entries;
            let ghost orig = entries@;
            let ghost target = sort_entries(canon_entries(dv_entries(orig)));
            proof {
                assert(dv_entries(orig.subrange(0, 0)) =~= Seq::<(Node, Node)>::empty());
            }
            let mut triples: Vec<(Vec<char>, Tree, Tree)> = Vec::new();
            while entries.len() > 0
                invariant
                    gv == value,
                    gv == Tree::Mapping(gentries),
                    gentries@ == orig,
                    gv.dv() == Node::Mapping(dv_entries(orig)),
                    2 * depth(gv.dv()) <= usize::MAX,
                    entries@.len() <= orig.len(),
                    entries@ == orig.subrange(
                        orig.len() - entries@.len(),
                        orig.len() as int,
                    ),
                    forall|m: int| 0 <= m < triples@.len() ==> #[trigger] triples@[m].0@
                        == ekey(tview(triples@)[m]),
                    tview(triples@) == sort_entries(
                        canon_entries(
                            dv_entries(orig.subrange(0, orig.len() - entries@.len())),
                        ),
                    ),
                decreases entries@.len(),
            {
                let ghost done = orig.len() - entries@.len();
                proof {
                    lemma_dv_entries(orig);
                    lemma_depth_entries_le(dv_entries(orig), depth_entries(dv_entries(orig)));
                    assert(entries@[0] == orig[done]);
                    assert(dv_entries(orig)[done] == (orig[done].0.dv(), orig[done].1.dv()));
                    assert(depth(dv_entries(orig)[done].0) <= depth_entries(dv_entries(orig)));
                    assert(depth(dv_entries(orig)[done].1) <= depth_entries(dv_entries(orig)));
                    assert(decreases_to!(gv => gv->Mapping_0));
                    assert(gv->Mapping_0 == gentries);
                    assert(decreases_to!(gentries => orig[done]));
                }
                let (k, v) = entries.remove(0);
                let kk = key_sort_key(&k);
                let sv = sort_value(v);
                let ghost e = (k.dv(), sv.dv());
                let ghost before = triples@;
                let mut j: usize = triples.len();
                proof {
                    lemma_tview(before);
                }
                while j > 0 && !lex_le_chars(&triples[j - 1].0, &kk)
                    invariant
                        0 <= j <= triples@.len(),
                        triples@ == before,
                        kk@ == ekey(e),
                        forall|m: int| 0 <= m < triples@.len() ==> #[trigger] triples@[m].0@
                            == ekey(tview(triples@)[m]),
                        forall|m: int| j <= m < tview(before).len() ==> !lex_le(
                            ekey(#[trigger] tview(before)[m]),
                            ekey(e),
                        ),
                    decreases j,
                {
                    proof {
                        lemma_tview(before);
                        assert(triples@[j - 1].0@ == ekey(tview(before)[j - 1]));
                    }
                    j = j - 1;
                }
                proof {
                    lemma_tview(before);
                    if j > 0 {
                        assert(triples@[j - 1].0@ == ekey(tview(before)[j - 1]));
                        assert(lex_le(ekey(tview(before)[j - 1]), ekey(e)));
                    }
                    lemma_insert_at(tview(before), e, j as int);
                }
                triples.insert(j, (kk, k, sv));
                proof {
                    lemma_tview(before);
                    lemma_tview(triples@);
                    assert(triples@ == before.insert(j as int, (kk, k, sv)));
                    assert(tview(triples@) =~= tview(before).subrange(0, j as int) + seq![e]
                        + tview(before).subrange(j as int, tview(before).len() as int)) by {
                        assert forall|m: int| 0 <= m < triples@.len() implies #[trigger] tview(
                            triples@,
                        )[m] == (tview(before).subrange(0, j as int) + seq![e]
                            + tview(before).subrange(j as int, tview(before).len() as int))[m] by {
                            if m < j {
                                assert(triples@[m] == before[m]);
                            } else if m > j {
                                assert(triples@[m] == before[m - 1]);
                            }
                        }
                    }
                    assert(tview(triples@) == insert_entry(e, tview(before)));
                    let pre = orig.subrange(0, done);
                    let cur = orig.subrange(0, done + 1);
                    assert(cur.drop_last() =~= pre);
                    assert(cur.last() == orig[done]);
                    assert(dv_entries(cur).drop_last() =~= dv_entries(pre)) by {
                        assert(dv_entries(cur) == dv_entries(pre).push(
                            (orig[done].0.dv(), orig[done].1.dv()),
                        ));
                    }
                    assert(canon_entries(dv_entries(cur)) == canon_entries(dv_entries(pre)).push(
                        (orig[done].0.dv(), canon(orig[done].1.dv())),
                    )) by {
                        assert(dv_entries(cur) == dv_entries(pre).push(
                            (orig[done].0.dv(), orig[done].1.dv()),
                        ));
                        assert(dv_entries(cur).drop_last() =~= dv_entries(pre));
                    }
                    assert(sort_entries(canon_entries(dv_entries(cur))) == insert_entry(
                        (orig[done].0.dv(), canon(orig[done].1.dv())),
                        sort_entries(canon_entries(dv_entries(pre))),
                    )) by {
                        assert(canon_entries(dv_entries(cur)).drop_last() =~= canon_entries(
                            dv_entries(pre),
                        ));
                    }
                    assert(e == (orig[done].0.dv(), canon(orig[done].1.dv())));
                    assert(entries@ =~= orig.subrange(orig.len() - entries@.len(), orig.len() as int));
                }
            }
            proof {
                assert(orig.subrange(0, orig.len() as int) =~= orig);
            }
            let mut out: Vec<(Tree, Tree)> = Vec::new();
            while triples.len() > 0
                invariant
                    dv_entries(out@) + tview(triples@) == target,
                decreases triples@.len(),
            {
                let ghost tbefore = triples@;
                let ghost obefore = out@;
                let t = triples.remove(0);
                out.push((t.1, t.2));
                proof {
                    lemma_tview(tbefore);
                    lemma_tview(triples@);
                    lemma_dv_entries(obefore);
                    lemma_dv_entries(out@);
                    assert(out@ == obefore.push((t.1, t.2)));
                    assert(out@.drop_last() =~= obefore);
                    assert(dv_entries(out@) == dv_entries(obefore).push((t.1.dv(), t.2.dv())));
                    assert(triples@ =~= tbefore.drop_first());
                    assert(tview(triples@) =~= tview(tbefore).drop_first()) by {
                        assert forall|m: int| 0 <= m < tview(triples@).len() implies #[trigger]
                            tview(triples@)[m] == tview(tbefore).drop_first()[m] by {
                            assert(triples@[m] == tbefore[m + 1]);
                        }
                    }
                    assert(tview(tbefore)[0] == (t.1.dv(), t.2.dv()));
                    assert(dv_entries(out@) + tview(triples@) =~= dv_entries(obefore) + tview(
                        tbefore,
                    ));
                }
            }
            proof {
                assert(tview(triples@).len() == 0) by {
                    lemma_tview(triples@);
                }
                assert(dv_entries(out@) + tview(triples@) =~= dv_entries(out@));
                assert(dv_entries(out@) == target);
            }
            Tree::Mapping(out)
        },
        Tree::Sequence(mut items) => {
            let ghost gitems = items;
            let ghost orig = items@;
            proof {
                assert(dv_seq(orig.subrange(0, 0)) =~= Seq::<Node>::empty());
                assert(canon_seq(dv_seq(orig.subrange(0, 0))) =~= Seq::<Node>::empty());
            }
            let mut out: Vec<Tree> = Vec::new();
            while items.len() > 0
                invariant
                    gv == value,
                    gv == Tree::Sequence(gitems),
                    gitems@ == orig,
                    gv.dv() == Node::Sequence(dv_seq(orig)),
                    2 * depth(gv.dv()) <= usize::MAX,
                    items@.len() <= orig.len(),
                    items@ == orig.subrange(orig.len() - items@.len(), orig.len() as int),
                    dv_seq(out@) == canon_seq(
                        dv_seq(orig.subrange(0, orig.len() - items@.len())),
                    ),
                decreases items@.len(),
            {
                let ghost done = orig.len() - items@.len();
                proof {
                    lemma_dv_seq(orig);
                    lemma_depth_seq_le(dv_seq(orig), depth_seq(dv_seq(orig)));
                    assert(items@[0] == orig[done]);
                    assert(dv_seq(orig)[done] == orig[done].dv());
                    assert(depth(dv_seq(orig)[done]) <= depth_seq(dv_seq(orig)));
                    assert(decreases_to!(gv => gv->Sequence_0));
                    assert(gv->Sequence_0 == gitems);
                    assert(decreases_to!(gitems => orig[done]));
                }
                let ghost obefore = out@;
                let v = items.remove(0);
                let sv = sort_value(v);
                out.push(sv);
                proof {
                    lemma_dv_seq(obefore);
                    lemma_dv_seq(out@);
                    assert(out@.drop_last() =~= obefore);
                    assert(dv_seq(out@) == dv_seq(obefore).push(canon(orig[done].dv())));
                    let pre = orig.subrange(0, done);
                    let cur = orig.subrange(0, done + 1);
                    assert(cur.drop_last() =~= pre);
                    assert(cur.last() == orig[done]);
                    assert(dv_seq(cur) == dv_seq(pre).push(orig[done].dv()));
                    assert(canon_seq(dv_seq(cur)) == canon_seq(dv_seq(pre)).push(
                        canon(orig[done].dv()),
                    )) by {
                        assert(dv_seq(cur).drop_last() =~= dv_seq(pre));
                    }
                }
            }
            proof {
                assert(orig.subrange(0, orig.len() as int) =~= orig);
            }
            Tree::Sequence(out)
        },
        other => other,
    }
}

} // verus!
