//! The document tree manipulated by the canonicalizer and the emitter.
//!
//! `Tree` is the executable tree; `Node` is its mathematical model, used by
//! every contract in the crate. `Tree::dv` (the deep view) maps one onto the
//! other.

use vstd::prelude::*;

verus! {

/// A parsed document value: the sole data structure the core works on.
///
/// Numbers carry their canonical decimal text, so that formatting preserves
/// the exact textual magnitude and sign of the source scalar. Text is held as
/// a vector of characters.
#[derive(Debug)]
pub enum Tree {
    Null,
    Bool(bool),
    /// Canonical decimal text of a number. Callers building a tree by hand
    /// must put a number's canonical decimal rendering here (as a parser's
    /// scalar-text encoder produces it): the emitter writes this text as the
    /// scalar, so text that is empty or holds a newline would corrupt the
    /// output's shape.
    Number(Vec<char>),
    /// An arbitrary string scalar.
    Str(Vec<char>),
    /// An ordered list of values; order is never changed by the core.
    Sequence(Vec<Tree>),
    /// Ordered key/value pairs; keys are pairwise distinct in well-formed
    /// documents, and entry order is rewritten by canonicalization.
    Mapping(Vec<(Tree, Tree)>),
    /// A tag (its rendered text) applied to an inner value.
    Tagged(Vec<char>, Box<Tree>),
}

/// The mathematical model of a document tree.
pub enum Node {
    Null,
    Bool(bool),
    Number(Seq<char>),
    Str(Seq<char>),
    Sequence(Seq<Node>),
    Mapping(Seq<(Node, Node)>),
    Tagged(Seq<char>, Box<Node>),
}

impl Tree {
    /// The deep view: the model of this tree.
    pub open spec fn dv(self) -> Node
        decreases self,
    {
        match self {
            Tree::Null => Node::Null,
            Tree::Bool(b) => Node::Bool(b),
            Tree::Number(t) => Node::Number(t@),
            Tree::Str(t) => Node::Str(t@),
            Tree::Sequence(items) => Node::Sequence(dv_seq(items@)),
            Tree::Mapping(entries) => Node::Mapping(dv_entries(entries@)),
            Tree::Tagged(tag, inner) => Node::Tagged(tag@, Box::new((*inner).dv())),
        }
    }
}

/// Deep view of a list of values.
pub open spec fn dv_seq(items: Seq<Tree>) -> Seq<Node>
    decreases items,
{
    if items.len() == 0 {
        Seq::empty()
    } else {
        dv_seq(items.drop_last()).push(items.last().dv())
    }
}

/// Deep view of a list of mapping entries.
pub open spec fn dv_entries(entries: Seq<(Tree, Tree)>) -> Seq<(Node, Node)>
    decreases entries,
{
    if entries.len() == 0 {
        Seq::empty()
    } else {
        dv_entries(entries.drop_last()).push(
            (entries.last().0.dv(), entries.last().1.dv()),
        )
    }
}

/// `dv_seq` maps the view elementwise.
pub proof fn lemma_dv_seq(items: Seq<Tree>)
    ensures
        dv_seq(items).len() == items.len(),
        forall|i: int| 0 <= i < items.len() ==> dv_seq(items)[i] == #[trigger] items[i].dv(),
    decreases items,
{
    if items.len() > 0 {
        lemma_dv_seq(items.drop_last());
        assert forall|i: int| 0 <= i < items.len() implies dv_seq(items)[i]
            == #[trigger] items[i].dv() by {
            if i < items.len() - 1 {
                assert(items.drop_last()[i] == items[i]);
                assert(dv_seq(items.drop_last())[i] == items.drop_last()[i].dv());
            }
        }
    }
}

/// `dv_entries` maps the view elementwise.
pub proof fn lemma_dv_entries(entries: Seq<(Tree, Tree)>)
    ensures
        dv_entries(entries).len() == entries.len(),
        forall|i: int| 0 <= i < entries.len() ==> #[trigger] dv_entries(entries)[i]
            == (entries[i].0.dv(), entries[i].1.dv()),
    decreases entries,
{
    if entries.len() > 0 {
        lemma_dv_entries(entries.drop_last());
        assert forall|i: int| 0 <= i < entries.len() implies #[trigger] dv_entries(entries)[i]
            == (entries[i].0.dv(), entries[i].1.dv()) by {
            if i < entries.len() - 1 {
                assert(entries.drop_last()[i] == entries[i]);
                assert(dv_entries(entries.drop_last())[i]
                    == (entries.drop_last()[i].0.dv(), entries.drop_last()[i].1.dv()));
            }
        }
    }
}

/// The larger of two naturals.
pub open spec fn nat_max(a: nat, b: nat) -> nat {
    if a >= b {
        a
    } else {
        b
    }
}

/// Nesting depth of a tree: every node counts one level, and each level of
/// nesting adds one. The emitter's indentation at any point is bounded by
/// twice the depth, which is what its overflow arguments rest on.
pub open spec fn depth(n: Node) -> nat
    decreases n,
{
    match n {
        Node::Null => 1,
        Node::Bool(_) => 1,
        Node::Number(_) => 1,
        Node::Str(_) => 1,
        Node::Sequence(items) => 1 + depth_seq(items),
        Node::Mapping(entries) => 1 + depth_entries(entries),
        Node::Tagged(_, inner) => 1 + depth(*inner),
    }
}

/// Largest depth among a list of nodes (zero when empty).
pub open spec fn depth_seq(items: Seq<Node>) -> nat
    decreases items,
{
    if items.len() == 0 {
        0
    } else {
        nat_max(depth_seq(items.drop_last()), depth(items.last()))
    }
}

/// Largest depth among the keys and values of a list of entries.
pub open spec fn depth_entries(entries: Seq<(Node, Node)>) -> nat
    decreases entries,
{
    if entries.len() == 0 {
        0
    } else {
        nat_max(
            depth_entries(entries.drop_last()),
            nat_max(depth(entries.last().0), depth(entries.last().1)),
        )
    }
}

/// A list's depth bounds each element's depth, and is reached by one of them.
pub proof fn lemma_depth_seq_le(items: Seq<Node>, bound: nat)
    ensures
        depth_seq(items) <= bound <==> (forall|i: int|
            0 <= i < items.len() ==> depth(#[trigger] items[i]) <= bound),
    decreases items,
{
    if items.len() > 0 {
        lemma_depth_seq_le(items.drop_last(), bound);
        assert(forall|i: int| 0 <= i < items.len() - 1 ==> items.drop_last()[i] == #[trigger] items[i]);
    }
}

/// An entry list's depth bounds each key's and value's depth.
pub proof fn lemma_depth_entries_le(entries: Seq<(Node, Node)>, bound: nat)
    ensures
        depth_entries(entries) <= bound <==> (forall|i: int|
            0 <= i < entries.len() ==> depth(#[trigger] entries[i].0) <= bound
                && depth(entries[i].1) <= bound),
    decreases entries,
{
    if entries.len() > 0 {
        lemma_depth_entries_le(entries.drop_last(), bound);
        assert(forall|i: int| 0 <= i < entries.len() - 1 ==> entries.drop_last()[i]
            == #[trigger] entries[i]);
    }
}

/// Decides whether a tree's depth stays within `budget`, as `depth` counts it.
pub fn depth_le(v: &Tree, budget: usize) -> (r: bool)
    ensures
        r == (depth(v.dv()) <= budget),
    decreases v,
{
    match v {
        Tree::Null => budget >= 1,
        Tree::Bool(_) => budget >= 1,
        Tree::Number(_) => budget >= 1,
        Tree::Str(_) => budget >= 1,
        Tree::Sequence(items) => {
            if budget == 0 {
                false
            } else {
                proof {
                    lemma_dv_seq(items@);
                }
                let mut i: usize = 0;
                let mut ok: bool = true;
                while i < items.len()
                    invariant
                        0 <= i <= items.len(),
                        budget >= 1,
                        *v == Tree::Sequence(*items),
                        ok == (forall|j: int| 0 <= j < i ==> depth(
                            #[trigger] dv_seq(items@)[j],
                        ) <= budget - 1),
                    decreases items.len() - i,
                {
                    proof {
                        assert(decreases_to!(*v => v->Sequence_0));
                        assert(v->Sequence_0 == *items);
                        assert(decreases_to!(items => items@[i as int]));
                        lemma_dv_seq(items@);
                    }
                    let child_ok = depth_le(&items[i], budget - 1);
                    ok = ok && child_ok;
                    i = i + 1;
                }
                proof {
                    lemma_depth_seq_le(dv_seq(items@), (budget - 1) as nat);
                }
                ok
            }
        },
        Tree::Mapping(entries) => {
            if budget == 0 {
                false
            } else {
                proof {
                    lemma_dv_entries(entries@);
                }
                let mut i: usize = 0;
                let mut ok: bool = true;
                while i < entries.len()
                    invariant
                        0 <= i <= entries.len(),
                        budget >= 1,
                        *v == Tree::Mapping(*entries),
                        ok == (forall|j: int| 0 <= j < i ==> depth(
                            #[trigger] dv_entries(entries@)[j].0,
                        ) <= budget - 1 && depth(dv_entries(entries@)[j].1) <= budget - 1),
                    decreases entries.len() - i,
                {
                    proof {
                        assert(decreases_to!(*v => v->Mapping_0));
                        assert(v->Mapping_0 == *entries);
                        assert(decreases_to!(entries => entries@[i as int]));
                        lemma_dv_entries(entries@);
                    }
                    let key_ok = depth_le(&entries[i].0, budget - 1);
                    let val_ok = depth_le(&entries[i].1, budget - 1);
                    proof {
                        assert(dv_entries(entries@)[i as int].0 == entries@[i as int].0.dv());
                        assert(dv_entries(entries@)[i as int].1 == entries@[i as int].1.dv());
                    }
                    ok = ok && key_ok && val_ok;
                    i = i + 1;
                }
                proof {
                    lemma_depth_entries_le(dv_entries(entries@), (budget - 1) as nat);
                }
                ok
            }
        },
        Tree::Tagged(_, inner) => {
            if budget == 0 {
                false
            } else {
                depth_le(inner, budget - 1)
            }
        },
    }
}

} // verus!
