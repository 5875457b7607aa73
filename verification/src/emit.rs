//! The emitter: renders a canonicalized tree as text.
//!
//! The spec functions in this module state, character for character, what the
//! emitter produces for every tree shape; the `Formatter` methods implement
//! them. Layout rules: two spaces per nesting level, `{}`/`[]` for empty
//! collections, block literals (`|-`) for safe multi-line strings, mappings
//! under a key on their own lines, mappings under a sequence dash inline.

use vstd::prelude::*;
use crate::scalar::block_eligible;
use crate::scalar::plain_string;
use crate::scalar::quoted;
use crate::text::clone_chars;
use crate::text::single_line;
use crate::value::depth;
use crate::value::depth_entries;
use crate::value::depth_seq;
use crate::value::dv_entries;
use crate::value::dv_seq;
use crate::value::lemma_depth_entries_le;
use crate::value::lemma_depth_seq_le;
use crate::value::lemma_dv_entries;
use crate::value::lemma_dv_seq;
use crate::value::Node;
use crate::value::Tree;

verus! {

/// Where a value stands when the emitter renders it: at the document root,
/// or inline after a tag.
#[derive(Clone, Copy)]
pub enum Position {
    Root,
    Inline,
}

/// `n` spaces.
pub open spec fn spec_spaces(n: nat) -> Seq<char> {
    Seq::new(n, |i: int| ' ')
}

/// The finished document: non-empty output ends with exactly one newline.
pub open spec fn spec_finish(t: Seq<char>) -> Seq<char> {
    if t.len() > 0 && t.last() != '\n' {
        t.push('\n')
    } else {
        t
    }
}

/// An inline string scalar: plain when allowed, double-quoted otherwise.
pub open spec fn spec_inline_str(s: Seq<char>) -> Seq<char> {
    if plain_string(s) {
        s
    } else {
        quoted(s)
    }
}

/// The body of a block literal: the text with every newline followed by the
/// indentation of the next line.
pub open spec fn block_body(text: Seq<char>, ind: nat) -> Seq<char>
    decreases text.len(),
{
    if text.len() == 0 {
        Seq::empty()
    } else {
        block_body(text.drop_last(), ind) + (if text.last() == '\n' {
            seq!['\n'] + spec_spaces(ind)
        } else {
            seq![text.last()]
        })
    }
}

/// A block literal: every line of the text at indentation `ind`.
pub open spec fn spec_block(text: Seq<char>, ind: nat) -> Seq<char> {
    spec_spaces(ind) + block_body(text, ind)
}

/// The literal text of a non-string scalar.
pub open spec fn spec_scalar(n: Node) -> Seq<char> {
    match n {
        Node::Null => seq!['n', 'u', 'l', 'l'],
        Node::Bool(b) => if b {
            seq!['t', 'r', 'u', 'e']
        } else {
            seq!['f', 'a', 'l', 's', 'e']
        },
        Node::Number(t) => t,
        _ => Seq::empty(),
    }
}

/// The entries of a non-empty mapping, each as `<indent><key>:<value>`,
/// separated by newlines.
pub open spec fn spec_mapping_body(es: Seq<(Node, Node)>, ind: nat) -> Seq<char>
    decreases es, 0int,
{
    if es.len() == 0 {
        Seq::empty()
    } else {
        spec_mapping_body(es.drop_last(), ind) + (if es.len() > 1 {
            seq!['\n']
        } else {
            Seq::empty()
        }) + spec_spaces(ind) + spec_key(es.last().0) + seq![':'] + spec_after_colon(
            es.last().1,
            ind,
        )
    }
}

/// A mapping at indentation `ind`: `{}` when empty.
pub open spec fn spec_mapping(es: Seq<(Node, Node)>, ind: nat) -> Seq<char>
    decreases es, 1int,
{
    if es.len() == 0 {
        seq!['{', '}']
    } else {
        spec_mapping_body(es, ind)
    }
}

/// The entries of a mapping rendered inline after a sequence dash: the first
/// entry continues the dash's line, later entries are indented past it.
pub open spec fn spec_inline_body(es: Seq<(Node, Node)>, ind: nat) -> Seq<char>
    decreases es, 0int,
{
    if es.len() == 0 {
        Seq::empty()
    } else if es.len() == 1 {
        spec_key(es.last().0) + seq![':'] + spec_after_colon(es.last().1, ind)
    } else {
        spec_inline_body(es.drop_last(), ind) + seq!['\n'] + spec_spaces(ind) + spec_key(
            es.last().0,
        ) + seq![':'] + spec_after_colon(es.last().1, ind)
    }
}

/// A mapping rendered inline after a sequence dash: `{}` when empty.
pub open spec fn spec_inline_mapping(es: Seq<(Node, Node)>, ind: nat) -> Seq<char>
    decreases es, 1int,
{
    if es.len() == 0 {
        seq!['{', '}']
    } else {
        spec_inline_body(es, ind)
    }
}

/// The elements of a non-empty sequence, each as `<indent>-<item>`,
/// separated by newlines.
pub open spec fn spec_seq_body(items: Seq<Node>, ind: nat) -> Seq<char>
    decreases items, 0int,
{
    if items.len() == 0 {
        Seq::empty()
    } else {
        spec_seq_body(items.drop_last(), ind) + (if items.len() > 1 {
            seq!['\n']
        } else {
            Seq::empty()
        }) + spec_spaces(ind) + seq!['-'] + spec_seq_item(items.last(), ind)
    }
}

/// A sequence at indentation `ind`: `[]` when empty.
pub open spec fn spec_sequence(items: Seq<Node>, ind: nat) -> Seq<char>
    decreases items, 1int,
{
    if items.len() == 0 {
        seq!['[', ']']
    } else {
        spec_seq_body(items, ind)
    }
}

/// What follows a sequence dash for one element.
pub open spec fn spec_seq_item(v: Node, ind: nat) -> Seq<char>
    decreases v, 2int,
{
    match v {
        Node::Mapping(es) => if es.len() == 0 {
            seq![' ', '{', '}']
        } else {
            seq![' '] + spec_inline_mapping(es, ind + 2)
        },
        Node::Sequence(items) => if items.len() == 0 {
            seq![' ', '[', ']']
        } else {
            seq!['\n'] + spec_sequence(items, ind + 2)
        },
        Node::Str(s) => if block_eligible(s) {
            seq![' ', '|', '-', '\n'] + spec_block(s, ind + 2)
        } else {
            seq![' '] + spec_inline_str(s)
        },
        Node::Tagged(tag, inner) => seq![' '] + tag + seq![' '] + spec_value(
            *inner,
            ind + 2,
            Position::Inline,
        ),
        _ => seq![' '] + spec_scalar(v),
    }
}

/// What follows a mapping key's colon for one value.
pub open spec fn spec_after_colon(v: Node, ind: nat) -> Seq<char>
    decreases v, 2int,
{
    match v {
        Node::Mapping(es) => if es.len() == 0 {
            seq![' ', '{', '}']
        } else {
            seq!['\n'] + spec_mapping(es, ind + 2)
        },
        Node::Sequence(items) => if items.len() == 0 {
            seq![' ', '[', ']']
        } else {
            seq!['\n'] + spec_sequence(items, ind + 2)
        },
        Node::Str(s) => if block_eligible(s) {
            seq![' ', '|', '-', '\n'] + spec_block(s, ind + 2)
        } else {
            seq![' '] + spec_inline_str(s)
        },
        Node::Tagged(tag, inner) => seq![' '] + tag + seq![' '] + spec_value(
            *inner,
            ind + 2,
            Position::Inline,
        ),
        _ => seq![' '] + spec_scalar(v),
    }
}

/// A value rendered at the root or inline after a tag.
pub open spec fn spec_value(v: Node, ind: nat, pos: Position) -> Seq<char>
    decreases v, 3int,
{
    match v {
        Node::Mapping(es) => match pos {
            Position::Root => spec_mapping(es, ind),
            Position::Inline => spec_mapping(es, ind + 2),
        },
        Node::Sequence(items) => spec_sequence(items, ind + 2),
        Node::Str(s) => if block_eligible(s) {
            spec_block(s, ind + 2)
        } else {
            spec_inline_str(s)
        },
        Node::Tagged(tag, inner) => tag + seq![' '] + spec_value(*inner, ind + 2, Position::Inline),
        _ => spec_scalar(v),
    }
}

/// A whole document: a mapping root is emitted directly, anything else goes
/// through [`spec_value`] at the root position.
pub open spec fn spec_root(n: Node) -> Seq<char>
    decreases n, 4int,
{
    match n {
        Node::Mapping(es) => spec_mapping(es, 0),
        _ => spec_value(n, 0, Position::Root),
    }
}

/// A mapping key: strings are plain or quoted, scalars use their literal
/// text, a tagged key is its tag followed by the inline text of its inner
/// value, and a collection key is its own emission collapsed to one line.
pub open spec fn spec_key(k: Node) -> Seq<char>
    decreases k, 5int,
{
    match k {
        Node::Str(s) => spec_inline_str(s),
        Node::Null => seq!['n', 'u', 'l', 'l'],
        Node::Bool(b) => if b {
            seq!['t', 'r', 'u', 'e']
        } else {
            seq!['f', 'a', 'l', 's', 'e']
        },
        Node::Number(t) => t,
        Node::Tagged(tag, inner) => tag + seq![' '] + spec_inline_str(inline_text(*inner)),
        _ => single_line(spec_root(k)),
    }
}

/// The one-line text a value contributes inside a tagged key: strings stand
/// for themselves, scalars use their literal text, collections collapse
/// their emission to one line.
pub open spec fn inline_text(v: Node) -> Seq<char>
    decreases v, 5int,
{
    match v {
        Node::Str(s) => s,
        Node::Null => seq!['n', 'u', 'l', 'l'],
        Node::Bool(b) => if b {
            seq!['t', 'r', 'u', 'e']
        } else {
            seq!['f', 'a', 'l', 's', 'e']
        },
        Node::Number(t) => t,
        Node::Tagged(tag, inner) => tag + seq![' '] + inline_text(*inner),
        _ => single_line(spec_root(v)),
    }
}

/// The full rendering of a document tree.
pub open spec fn rendered(n: Node) -> Seq<char> {
    spec_finish(spec_root(n))
}

/// The emitter renders the string double-quoted wherever it stands: as an
/// inline scalar, after a key's colon, after a sequence dash, and as a key.
pub open spec fn quoted_scalar_everywhere(s: Seq<char>) -> bool {
    &&& spec_inline_str(s) == quoted(s)
    &&& (forall|ind: nat| #[trigger] spec_after_colon(Node::Str(s), ind) == seq![' '] + quoted(s))
    &&& (forall|ind: nat| #[trigger] spec_seq_item(Node::Str(s), ind) == seq![' '] + quoted(s))
    &&& spec_key(Node::Str(s)) == quoted(s)
}

/// A string that may be neither plain nor a block literal is rendered
/// double-quoted in every position.
pub proof fn lemma_quoted_scalar_everywhere(s: Seq<char>)
    requires
        !plain_string(s),
        !block_eligible(s),
    ensures
        quoted_scalar_everywhere(s),
{
}

/// A vector of `count` spaces.
pub fn spaces(count: usize) -> (r: Vec<char>)
    ensures
        r@ == spec_spaces(count as nat),
{
    let mut r: Vec<char> = Vec::new();
    let mut i: usize = 0;
    while i < count
        invariant
            0 <= i <= count,
            r@ == spec_spaces(i as nat),
        decreases count - i,
    {
        r.push(' ');
        proof {
            assert(spec_spaces((i + 1) as nat) =~= spec_spaces(i as nat).push(' '));
        }
        i = i + 1;
    }
    r
}

/// The emitter's output buffer. Its view is the text written so far.
pub struct Formatter {
    buf: Vec<char>,
}

impl View for Formatter {
    type V = Seq<char>;

    closed spec fn view(&self) -> Seq<char> {
        self.buf@
    }
}

impl Formatter {
    /// A fresh, empty formatter.
    pub fn new() -> (f: Formatter)
        ensures
            f@ == Seq::<char>::empty(),
    {
        Formatter { buf: Vec::new() }
    }

    /// The text written so far, as a character vector.
    pub fn into_chars(self) -> (r: Vec<char>)
        ensures
            r@ == self@,
    {
        self.buf
    }

    /// The finished document text: non-empty output is closed with exactly
    /// one trailing newline.
    pub fn finish(self) -> (r: String)
        ensures
            r@ == spec_finish(self@),
    {
        let mut buf = self.buf;
        let n: usize = buf.len();
        if n > 0 && buf[n - 1] != '\n' {
            buf.push('\n');
        }
        crate::text::chars_to_string(&buf)
    }

    /// Appends `indent` spaces.
    pub fn write_indentation(&mut self, indent: usize)
        ensures
            final(self)@ == old(self)@ + spec_spaces(indent as nat),
    {
        let ghost start = self.buf@;
        let mut i: usize = 0;
        while i < indent
            invariant
                0 <= i <= indent,
                self.buf@ == start + spec_spaces(i as nat),
            decreases indent - i,
        {
            self.buf.push(' ');
            proof {
                assert(spec_spaces((i + 1) as nat) =~= spec_spaces(i as nat).push(' '));
                assert(self.buf@ =~= start + spec_spaces((i + 1) as nat));
            }
            i = i + 1;
        }
    }

    /// Appends the block-literal body of `text`: every line at indentation
    /// `indent`.
    pub fn write_literal_block(&mut self, text: &Vec<char>, indent: usize)
        ensures
            final(self)@ == old(self)@ + spec_block(text@, indent as nat),
    {
        let ghost start = self.buf@;
        self.write_indentation(indent);
        let n: usize = text.len();
        let mut i: usize = 0;
        while i < n
            invariant
                0 <= i <= n,
                n == text.len(),
                self.buf@ == start + spec_spaces(indent as nat) + block_body(
                    text@.subrange(0, i as int),
                    indent as nat,
                ),
            decreases n - i,
        {
            let c = text[i];
            if c == '\n' {
                self.buf.push('\n');
                self.write_indentation(indent);
            } else {
                self.buf.push(c);
            }
            proof {
                let pre = text@.subrange(0, i as int);
                let cur = text@.subrange(0, i + 1);
                assert(cur.drop_last() =~= pre);
                assert(cur.last() == text@[i as int]);
                assert(self.buf@ =~= start + spec_spaces(indent as nat) + block_body(
                    cur,
                    indent as nat,
                ));
            }
            i = i + 1;
        }
        proof {
            assert(text@.subrange(0, n as int) =~= text@);
        }
    }

    /// Appends an inline string scalar: plain when allowed, quoted
    /// otherwise.
    fn write_inline_string(&mut self, text: &Vec<char>)
        ensures
            final(self)@ == old(self)@ + spec_inline_str(text@),
    {
        if crate::scalar::plain_chars(text) {
            crate::text::push_chars(&mut self.buf, text);
        } else {
            crate::scalar::push_quoted(&mut self.buf, text);
        }
    }

    /// Appends `null`.
    fn push_null(&mut self)
        ensures
            final(self)@ == old(self)@ + seq!['n', 'u', 'l', 'l'],
    {
        let ghost start = self.buf@;
        self.buf.push('n');
        self.buf.push('u');
        self.buf.push('l');
        self.buf.push('l');
        proof {
            assert(self.buf@ =~= start + seq!['n', 'u', 'l', 'l']);
        }
    }

    /// Appends `true` or `false`.
    fn push_bool(&mut self, b: bool)
        ensures
            final(self)@ == old(self)@ + (if b {
                seq!['t', 'r', 'u', 'e']
            } else {
                seq!['f', 'a', 'l', 's', 'e']
            }),
    {
        let ghost start = self.buf@;
        if b {
            self.buf.push('t');
            self.buf.push('r');
            self.buf.push('u');
            self.buf.push('e');
            proof {
                assert(self.buf@ =~= start + seq!['t', 'r', 'u', 'e']);
            }
        } else {
            self.buf.push('f');
            self.buf.push('a');
            self.buf.push('l');
            self.buf.push('s');
            self.buf.push('e');
            proof {
                assert(self.buf@ =~= start + seq!['f', 'a', 'l', 's', 'e']);
            }
        }
    }

    /// Emits a whole document tree into this formatter.
    pub fn write_root(&mut self, value: &Tree)
        requires
            2 * depth(value.dv()) <= usize::MAX,
        ensures
            final(self)@ == old(self)@ + spec_root(value.dv()),
        decreases value, 4int,
    {
        match value {
            Tree::Mapping(entries) => self.write_mapping(entries, 0),
            _ => self.write_value(value, 0, Position::Root),
        }
    }

    /// Emits a value at the root position or inline after a tag.
    fn write_value(&mut self, value: &Tree, indent: usize, pos: Position)
        requires
            indent + 2 * depth(value.dv()) <= usize::MAX,
        ensures
            final(self)@ == old(self)@ + spec_value(value.dv(), indent as nat, pos),
        decreases value, 3int,
    {
        let ghost start = self.buf@;
        match value {
            Tree::Mapping(entries) => {
                match pos {
                    Position::Root => self.write_mapping(entries, indent),
                    Position::Inline => self.write_mapping(entries, indent + 2),
                }
            },
            Tree::Sequence(items) => self.write_sequence(items, indent + 2),
            Tree::Str(t) => {
                if crate::scalar::block_chars(t) {
                    self.write_literal_block(t, indent + 2);
                } else {
                    self.write_inline_string(t);
                }
            },
            Tree::Tagged(tag, inner) => {
                crate::text::push_chars(&mut self.buf, tag);
                self.buf.push(' ');
                self.write_value(inner, indent + 2, Position::Inline);
                proof {
                    assert(self.buf@ =~= start + spec_value(value.dv(), indent as nat, pos));
                }
            },
            Tree::Null => self.push_null(),
            Tree::Bool(b) => self.push_bool(*b),
            Tree::Number(t) => crate::text::push_chars(&mut self.buf, t),
        }
    }

    /// Emits a mapping: each entry as `<indent><key>:<value>` on its own
    /// line, or `{}` when empty.
    fn write_mapping(&mut self, entries: &Vec<(Tree, Tree)>, indent: usize)
        requires
            indent + 2 * depth_entries(dv_entries(entries@)) <= usize::MAX,
        ensures
            final(self)@ == old(self)@ + spec_mapping(dv_entries(entries@), indent as nat),
        decreases entries, 1int,
    {
        let ghost start = self.buf@;
        let ghost es = dv_entries(entries@);
        let n: usize = entries.len();
        proof {
            lemma_dv_entries(entries@);
        }
        if n == 0 {
            self.buf.push('{');
            self.buf.push('}');
            proof {
                assert(self.buf@ =~= start + spec_mapping(es, indent as nat));
            }
            return;
        }
        proof {
            assert(es.subrange(0, 0) =~= Seq::<(Node, Node)>::empty());
        }
        let mut i: usize = 0;
        while i < n
            invariant
                0 <= i <= n,
                n == entries.len(),
                es == dv_entries(entries@),
                indent + 2 * depth_entries(es) <= usize::MAX,
                self.buf@ == start + spec_mapping_body(es.subrange(0, i as int), indent as nat),
            decreases n - i,
        {
            proof {
                lemma_dv_entries(entries@);
                lemma_depth_entries_le(es, depth_entries(es));
                assert(decreases_to!(entries => entries@[i as int]));
                assert(es[i as int].0 == entries@[i as int].0.dv());
                assert(es[i as int].1 == entries@[i as int].1.dv());
                assert(depth(es[i as int].0) <= depth_entries(es));
                assert(depth(es[i as int].1) <= depth_entries(es));
            }
            if i > 0 {
                self.buf.push('\n');
            }
            self.write_indentation(indent);
            self.write_key(&entries[i].0);
            self.buf.push(':');
            self.write_value_after_colon(&entries[i].1, indent);
            proof {
                let pre = es.subrange(0, i as int);
                let cur = es.subrange(0, i + 1);
                assert(cur.drop_last() =~= pre);
                assert(cur.last() == es[i as int]);
                assert(self.buf@ =~= start + spec_mapping_body(cur, indent as nat));
            }
            i = i + 1;
        }
        proof {
            assert(es.subrange(0, n as int) =~= es);
        }
    }

    /// Emits a mapping inline after a sequence dash: the first entry on the
    /// dash's own line, later entries indented past it.
    fn write_inline_mapping(&mut self, entries: &Vec<(Tree, Tree)>, indent: usize)
        requires
            indent + 2 * depth_entries(dv_entries(entries@)) <= usize::MAX,
        ensures
            final(self)@ == old(self)@ + spec_inline_mapping(dv_entries(entries@), indent as nat),
        decreases entries, 1int,
    {
        let ghost start = self.buf@;
        let ghost es = dv_entries(entries@);
        let n: usize = entries.len();
        proof {
            lemma_dv_entries(entries@);
        }
        if n == 0 {
            self.buf.push('{');
            self.buf.push('}');
            proof {
                assert(self.buf@ =~= start + spec_inline_mapping(es, indent as nat));
            }
            return;
        }
        proof {
            assert(es.subrange(0, 0) =~= Seq::<(Node, Node)>::empty());
        }
        let mut i: usize = 0;
        while i < n
            invariant
                0 <= i <= n,
                n == entries.len(),
                es == dv_entries(entries@),
                indent + 2 * depth_entries(es) <= usize::MAX,
                self.buf@ == start + spec_inline_body(es.subrange(0, i as int), indent as nat),
            decreases n - i,
        {
            proof {
                lemma_dv_entries(entries@);
                lemma_depth_entries_le(es, depth_entries(es));
                assert(decreases_to!(entries => entries@[i as int]));
                assert(es[i as int].0 == entries@[i as int].0.dv());
                assert(es[i as int].1 == entries@[i as int].1.dv());
                assert(depth(es[i as int].0) <= depth_entries(es));
                assert(depth(es[i as int].1) <= depth_entries(es));
            }
            if i > 0 {
                self.buf.push('\n');
                self.write_indentation(indent);
            }
            self.write_key(&entries[i].0);
            self.buf.push(':');
            self.write_value_after_colon(&entries[i].1, indent);
            proof {
                let pre = es.subrange(0, i as int);
                let cur = es.subrange(0, i + 1);
                assert(cur.drop_last() =~= pre);
                assert(cur.last() == es[i as int]);
                assert(self.buf@ =~= start + spec_inline_body(cur, indent as nat));
            }
            i = i + 1;
        }
        proof {
            assert(es.subrange(0, n as int) =~= es);
        }
    }

    /// Emits a sequence: each element as `<indent>-<item>` on its own line,
    /// or `[]` when empty.
    fn write_sequence(&mut self, items: &Vec<Tree>, indent: usize)
        requires
            indent + 2 * depth_seq(dv_seq(items@)) <= usize::MAX,
        ensures
            final(self)@ == old(self)@ + spec_sequence(dv_seq(items@), indent as nat),
        decreases items, 1int,
    {
        let ghost start = self.buf@;
        let ghost vs = dv_seq(items@);
        let n: usize = items.len();
        proof {
            lemma_dv_seq(items@);
        }
        if n == 0 {
            self.buf.push('[');
            self.buf.push(']');
            proof {
                assert(self.buf@ =~= start + spec_sequence(vs, indent as nat));
            }
            return;
        }
        proof {
            assert(vs.subrange(0, 0) =~= Seq::<Node>::empty());
        }
        let mut i: usize = 0;
        while i < n
            invariant
                0 <= i <= n,
                n == items.len(),
                vs == dv_seq(items@),
                indent + 2 * depth_seq(vs) <= usize::MAX,
                self.buf@ == start + spec_seq_body(vs.subrange(0, i as int), indent as nat),
            decreases n - i,
        {
            proof {
                lemma_dv_seq(items@);
                lemma_depth_seq_le(vs, depth_seq(vs));
                assert(decreases_to!(items => items@[i as int]));
                assert(vs[i as int] == items@[i as int].dv());
                assert(depth(vs[i as int]) <= depth_seq(vs));
            }
            if i > 0 {
                self.buf.push('\n');
            }
            self.write_indentation(indent);
            self.buf.push('-');
            self.write_sequence_item(&items[i], indent);
            proof {
                let pre = vs.subrange(0, i as int);
                let cur = vs.subrange(0, i + 1);
                assert(cur.drop_last() =~= pre);
                assert(cur.last() == vs[i as int]);
                assert(self.buf@ =~= start + spec_seq_body(cur, indent as nat));
            }
            i = i + 1;
        }
        proof {
            assert(vs.subrange(0, n as int) =~= vs);
        }
    }

    /// Emits what follows a sequence dash for one element.
    fn write_sequence_item(&mut self, value: &Tree, indent: usize)
        requires
            indent + 2 * depth(value.dv()) <= usize::MAX,
        ensures
            final(self)@ == old(self)@ + spec_seq_item(value.dv(), indent as nat),
        decreases value, 2int,
    {
        let ghost start = self.buf@;
        match value {
            Tree::Mapping(entries) => {
                if entries.len() == 0 {
                    self.buf.push(' ');
                    self.buf.push('{');
                    self.buf.push('}');
                    proof {
                        lemma_dv_entries(entries@);
                        assert(self.buf@ =~= start + spec_seq_item(value.dv(), indent as nat));
                    }
                } else {
                    self.buf.push(' ');
                    self.write_inline_mapping(entries, indent + 2);
                    proof {
                        lemma_dv_entries(entries@);
                        assert(self.buf@ =~= start + spec_seq_item(value.dv(), indent as nat));
                    }
                }
            },
            Tree::Sequence(items) => {
                if items.len() == 0 {
                    self.buf.push(' ');
                    self.buf.push('[');
                    self.buf.push(']');
                    proof {
                        lemma_dv_seq(items@);
                        assert(self.buf@ =~= start + spec_seq_item(value.dv(), indent as nat));
                    }
                } else {
                    self.buf.push('\n');
                    self.write_sequence(items, indent + 2);
                    proof {
                        lemma_dv_seq(items@);
                        assert(self.buf@ =~= start + spec_seq_item(value.dv(), indent as nat));
                    }
                }
            },
            Tree::Str(t) => {
                if crate::scalar::block_chars(t) {
                    self.buf.push(' ');
                    self.buf.push('|');
                    self.buf.push('-');
                    self.buf.push('\n');
                    self.write_literal_block(t, indent + 2);
                    proof {
                        assert(self.buf@ =~= start + spec_seq_item(value.dv(), indent as nat));
                    }
                } else {
                    self.buf.push(' ');
                    self.write_inline_string(t);
                    proof {
                        assert(self.buf@ =~= start + spec_seq_item(value.dv(), indent as nat));
                    }
                }
            },
            Tree::Tagged(tag, inner) => {
                self.buf.push(' ');
                crate::text::push_chars(&mut self.buf, tag);
                self.buf.push(' ');
                self.write_value(inner, indent + 2, Position::Inline);
                proof {
                    assert(self.buf@ =~= start + spec_seq_item(value.dv(), indent as nat));
                }
            },
            Tree::Null => {
                self.buf.push(' ');
                self.push_null();
                proof {
                    assert(self.buf@ =~= start + spec_seq_item(value.dv(), indent as nat));
                }
            },
            Tree::Bool(b) => {
                self.buf.push(' ');
                self.push_bool(*b);
                proof {
                    assert(self.buf@ =~= start + spec_seq_item(value.dv(), indent as nat));
                }
            },
            Tree::Number(t) => {
                self.buf.push(' ');
                crate::text::push_chars(&mut self.buf, t);
                proof {
                    assert(self.buf@ =~= start + spec_seq_item(value.dv(), indent as nat));
                }
            },
        }
    }

    /// Emits what follows a mapping key's colon for one value.
    fn write_value_after_colon(&mut self, value: &Tree, indent: usize)
        requires
            indent + 2 * depth(value.dv()) <= usize::MAX,
        ensures
            final(self)@ == old(self)@ + spec_after_colon(value.dv(), indent as nat),
        decreases value, 2int,
    {
        let ghost start = self.buf@;
        match value {
            Tree::Mapping(entries) => {
                if entries.len() == 0 {
                    self.buf.push(' ');
                    self.buf.push('{');
                    self.buf.push('}');
                    proof {
                        lemma_dv_entries(entries@);
                        assert(self.buf@ =~= start + spec_after_colon(value.dv(), indent as nat));
                    }
                } else {
                    self.buf.push('\n');
                    self.write_mapping(entries, indent + 2);
                    proof {
                        lemma_dv_entries(entries@);
                        assert(self.buf@ =~= start + spec_after_colon(value.dv(), indent as nat));
                    }
                }
            },
            Tree::Sequence(items) => {
                if items.len() == 0 {
                    self.buf.push(' ');
                    self.buf.push('[');
                    self.buf.push(']');
                    proof {
                        lemma_dv_seq(items@);
                        assert(self.buf@ =~= start + spec_after_colon(value.dv(), indent as nat));
                    }
                } else {
                    self.buf.push('\n');
                    self.write_sequence(items, indent + 2);
                    proof {
                        lemma_dv_seq(items@);
                        assert(self.buf@ =~= start + spec_after_colon(value.dv(), indent as nat));
                    }
                }
            },
            Tree::Str(t) => {
                if crate::scalar::block_chars(t) {
                    self.buf.push(' ');
                    self.buf.push('|');
                    self.buf.push('-');
                    self.buf.push('\n');
                    self.write_literal_block(t, indent + 2);
                    proof {
                        assert(self.buf@ =~= start + spec_after_colon(value.dv(), indent as nat));
                    }
                } else {
                    self.buf.push(' ');
                    self.write_inline_string(t);
                    proof {
                        assert(self.buf@ =~= start + spec_after_colon(value.dv(), indent as nat));
                    }
                }
            },
            Tree::Tagged(tag, inner) => {
                self.buf.push(' ');
                crate::text::push_chars(&mut self.buf, tag);
                self.buf.push(' ');
                self.write_value(inner, indent + 2, Position::Inline);
                proof {
                    assert(self.buf@ =~= start + spec_after_colon(value.dv(), indent as nat));
                }
            },
            Tree::Null => {
                self.buf.push(' ');
                self.push_null();
                proof {
                    assert(self.buf@ =~= start + spec_after_colon(value.dv(), indent as nat));
                }
            },
            Tree::Bool(b) => {
                self.buf.push(' ');
                self.push_bool(*b);
                proof {
                    assert(self.buf@ =~= start + spec_after_colon(value.dv(), indent as nat));
                }
            },
            Tree::Number(t) => {
                self.buf.push(' ');
                crate::text::push_chars(&mut self.buf, t);
                proof {
                    assert(self.buf@ =~= start + spec_after_colon(value.dv(), indent as nat));
                }
            },
        }
    }

    /// Emits a mapping key.
    fn write_key(&mut self, key: &Tree)
        requires
            2 * depth(key.dv()) <= usize::MAX,
        ensures
            final(self)@ == old(self)@ + spec_key(key.dv()),
        decreases key, 5int,
    {
        let ghost start = self.buf@;
        match key {
            Tree::Str(t) => self.write_inline_string(t),
            Tree::Null => self.push_null(),
            Tree::Bool(b) => self.push_bool(*b),
            Tree::Number(t) => crate::text::push_chars(&mut self.buf, t),
            Tree::Tagged(tag, inner) => {
                crate::text::push_chars(&mut self.buf, tag);
                self.buf.push(' ');
                let it = inline_text_of(inner);
                self.write_inline_string(&it);
                proof {
                    assert(self.buf@ =~= start + spec_key(key.dv()));
                }
            },
            _ => {
                let mut tmp = Formatter::new();
                tmp.write_root(key);
                let line = crate::text::single_line_chars(&tmp.buf);
                crate::text::push_chars(&mut self.buf, &line);
                proof {
                    assert(self.buf@ =~= start + spec_key(key.dv()));
                }
            },
        }
    }
}

/// The one-line text a value contributes inside a tagged key.
fn inline_text_of(value: &Tree) -> (r: Vec<char>)
    requires
        2 * depth(value.dv()) <= usize::MAX,
    ensures
        r@ == inline_text(value.dv()),
    decreases value, 5int,
{
    match value {
        Tree::Str(t) => clone_chars(t),
        Tree::Number(t) => clone_chars(t),
        Tree::Null => {
            let mut r: Vec<char> = Vec::new();
            r.push('n');
            r.push('u');
            r.push('l');
            r.push('l');
            proof {
                assert(r@ =~= seq!['n', 'u', 'l', 'l']);
            }
            r
        },
        Tree::Bool(b) => {
            let mut r: Vec<char> = Vec::new();
            if *b {
                r.push('t');
                r.push('r');
                r.push('u');
                r.push('e');
                proof {
                    assert(r@ =~= seq!['t', 'r', 'u', 'e']);
                }
            } else {
                r.push('f');
                r.push('a');
                r.push('l');
                r.push('s');
                r.push('e');
                proof {
                    assert(r@ =~= seq!['f', 'a', 'l', 's', 'e']);
                }
            }
            r
        },
        Tree::Tagged(tag, inner) => {
            let mut r = clone_chars(tag);
            r.push(' ');
            let rest = inline_text_of(inner);
            crate::text::push_chars(&mut r, &rest);
            proof {
                assert(r@ =~= inline_text(value.dv()));
            }
            r
        },
        _ => {
            let mut tmp = Formatter::new();
            tmp.write_root(value);
            crate::text::single_line_chars(&tmp.buf)
        },
    }
}

} // verus!
