//! The top-level entry points: parse a document through the outside parser,
//! canonicalize it, and emit it; plus the error type and the batch
//! aggregation over many per-file outcomes.

use vstd::prelude::*;
use crate::canon::canon;
use crate::canon::sort_value;
use crate::emit::rendered;
use crate::emit::Formatter;
use crate::text::trim_front;
use crate::value::depth;
use crate::value::depth_le;
use crate::value::Node;
use crate::value::Tree;
use serde_yaml::Value as Yv;
use vstd::string::StrSliceExecFns;
use vstd::string::StringExecFns;

verus! {

/// Error kind reported by the formatter.
#[derive(Debug)]
pub enum YamlFormatError {
    /// The document could not be parsed or rendered; carries the reason.
    Format(String),
    /// The document's root is a sequence, which the formatter rejects.
    TopLevelList,
    /// The named file does not exist.
    MissingFile(String),
    /// The named file could not be read; carries the reason.
    ReadFailure(String, String),
    /// The named file could not be written; carries the reason.
    WriteFailure(String, String),
}

/// Alias kept for callers that write the fully capitalized name.
pub type YAMLFormatError = YamlFormatError;

/// The message text of an error, as `message` renders it.
pub open spec fn error_text(e: YamlFormatError) -> Seq<char> {
    match e {
        YamlFormatError::Format(m) => "Error formatting YAML: "@ + m@,
        YamlFormatError::TopLevelList => topleveltext(),
        YamlFormatError::MissingFile(p) => "File not found: "@ + p@,
        YamlFormatError::ReadFailure(p, d) => "Failed to read "@ + p@ + ": "@ + d@,
        YamlFormatError::WriteFailure(p, d) => "Failed to write "@ + p@ + ": "@ + d@,
    }
}

/// The fixed message that rejects a sequence root.
pub open spec fn topleveltext() -> Seq<char> {
    "Top-level lists are not supported by the YAML formatter. UMF files should always have a dictionary at the root level with 'column:' and 'validations:' keys. If you're seeing this error, your YAML file may be structured incorrectly."@
}

impl YamlFormatError {
    /// The human-readable message for this error.
    pub fn message(&self) -> (r: String)
        ensures
            r@ == error_text(*self),
    {
        match self {
            YamlFormatError::Format(m) => {
                let mut s = String::new();
                s.append("Error formatting YAML: ");
                s.append(m.as_str());
                s
            },
            YamlFormatError::TopLevelList => {
                let mut s = String::new();
                s.append(
                    "Top-level lists are not supported by the YAML formatter. UMF files should always have a dictionary at the root level with 'column:' and 'validations:' keys. If you're seeing this error, your YAML file may be structured incorrectly.",
                );
                s
            },
            YamlFormatError::MissingFile(p) => {
                let mut s = String::new();
                s.append("File not found: ");
                s.append(p.as_str());
                s
            },
            YamlFormatError::ReadFailure(p, d) => {
                let mut s = String::new();
                s.append("Failed to read ");
                s.append(p.as_str());
                s.append(": ");
                s.append(d.as_str());
                s
            },
            YamlFormatError::WriteFailure(p, d) => {
                let mut s = String::new();
                s.append("Failed to write ");
                s.append(p.as_str());
                s.append(": ");
                s.append(d.as_str());
                s
            },
        }
    }
}

/// The word naming a value's kind in the mapping-expected error.
pub open spec fn kind_text(n: Node) -> Seq<char> {
    match n {
        Node::Null => "null"@,
        Node::Bool(_) => "bool"@,
        Node::Number(_) => "number"@,
        Node::Str(_) => "string"@,
        Node::Sequence(_) => "list"@,
        Node::Mapping(_) => "dict"@,
        Node::Tagged(_, _) => "tagged"@,
    }
}

/// The word naming a value's kind.
fn describe_value(value: &Tree) -> (r: &'static str)
    ensures
        r@ == kind_text(value.dv()),
{
    match value {
        Tree::Null => "null",
        Tree::Bool(_) => "bool",
        Tree::Number(_) => "number",
        Tree::Str(_) => "string",
        Tree::Sequence(_) => "list",
        Tree::Mapping(_) => "dict",
        Tree::Tagged(_, _) => "tagged",
    }
}

#[verifier::external_type_specification]
#[verifier::external_body]
pub struct ExYamlValue(serde_yaml::Value);

/// What the outside parser yields for a given text: the document tree, or
/// the parser's error message. The outcome depends on the text alone.
pub uninterp spec fn yaml_doc(s: Seq<char>) -> Result<Node, Seq<char>>;

/// The tree a parsed outside value stands for.
pub uninterp spec fn tree_model(v: serde_yaml::Value) -> Node;

/// Relies on `serde_yaml::from_str`: parses a document into the parser's
/// own value tree, or reports a parse error; the outcome is a function of
/// the text alone.
#[verifier::external_body]
fn parse_str(s: &str) -> (r: Result<serde_yaml::Value, String>)
    ensures
        yaml_doc(s@) is Ok <==> r is Ok,
        yaml_doc(s@) is Ok ==> tree_model(r->Ok_0) == yaml_doc(s@)->Ok_0,
        yaml_doc(s@) is Err ==> (r->Err_0)@ == yaml_doc(s@)->Err_0,
{
    serde_yaml::from_str::<serde_yaml::Value>(s).map_err(|e| e.to_string())
}

/// Relies on the `serde_yaml::Value` variants: rebuilds a parsed value as
/// the library's own tree, one arm per variant, keeping each number's and
/// tag's rendered text.
#[verifier::external_body]
fn tree_of(v: serde_yaml::Value) -> (r: Tree)
    ensures
        r.dv() == tree_model(v),
{
    match v {
        Yv::Null => Tree::Null,
        Yv::Bool(b) => Tree::Bool(b),
        Yv::Number(n) => Tree::Number(n.to_string().chars().collect()),
        Yv::String(s) => Tree::Str(s.chars().collect()),
        Yv::Sequence(xs) => Tree::Sequence(xs.into_iter().map(tree_of).collect()),
        Yv::Mapping(m) => Tree::Mapping(m.into_iter().map(|(k, w)| (tree_of(k), tree_of(w))).collect()),
        Yv::Tagged(t) => Tree::Tagged(t.tag.to_string().chars().collect(), Box::new(tree_of(t.value))),
    }
}

/// Parses a document into the library's tree, or reports the parser's
/// message.
fn parse_document(s: &str) -> (r: Result<Tree, String>)
    ensures
        yaml_doc(s@) is Ok <==> r is Ok,
        yaml_doc(s@) is Ok ==> (r->Ok_0).dv() == yaml_doc(s@)->Ok_0,
        yaml_doc(s@) is Err ==> (r->Err_0)@ == yaml_doc(s@)->Err_0,
{
    match parse_str(s) {
        Ok(v) => Ok(tree_of(v)),
        Err(e) => Err(e),
    }
}

/// Whether a tree is shallow enough for the emitter's indentation
/// arithmetic; no document of realistic nesting fails this.
pub open spec fn fits(n: Node) -> bool {
    depth(n) <= usize::MAX as int / 2
}

/// The message reported when a document nests too deeply to render.
pub open spec fn deep_text() -> Seq<char> {
    "document nesting is too deep"@
}

/// The text the leading-marker strip leaves: leading whitespace removed,
/// then one `---` marker (with or without its newline) removed.
pub open spec fn strip_marker(s: Seq<char>) -> Seq<char> {
    let t = trim_front(s);
    if t.len() >= 4 && t[0] == '-' && t[1] == '-' && t[2] == '-' && t[3] == '\n' {
        t.subrange(4, t.len() as int)
    } else if t.len() >= 3 && t[0] == '-' && t[1] == '-' && t[2] == '-' {
        t.subrange(3, t.len() as int)
    } else {
        t
    }
}

/// Removes leading whitespace and one leading `---` document marker.
pub fn strip_leading_marker<'a>(input: &'a str) -> (r: &'a str)
    ensures
        r@ == strip_marker(input@),
{
    let cs = crate::text::str_to_chars(input);
    let n: usize = cs.len();
    proof {
        assert(cs@.subrange(0, n as int) =~= cs@);
    }
    let mut lo: usize = 0;
    while lo < n && crate::text::is_ws_char(cs[lo])
        invariant
            0 <= lo <= n,
            n == cs.len(),
            cs@ == input@,
            trim_front(input@) == trim_front(cs@.subrange(lo as int, n as int)),
        decreases n - lo,
    {
        proof {
            let cur = cs@.subrange(lo as int, n as int);
            assert(cur.drop_first() =~= cs@.subrange(lo + 1, n as int));
        }
        lo = lo + 1;
    }
    proof {
        let cur = cs@.subrange(lo as int, n as int);
        assert(trim_front(cur) == cur);
    }
    let ghost t = trim_front(input@);
    let start: usize = if n - lo >= 4 && cs[lo] == '-' && cs[lo + 1] == '-' && cs[lo + 2] == '-'
        && cs[lo + 3] == '\n' {
        lo + 4
    } else if n - lo >= 3 && cs[lo] == '-' && cs[lo + 1] == '-' && cs[lo + 2] == '-' {
        lo + 3
    } else {
        lo
    };
    proof {
        assert(t == cs@.subrange(lo as int, n as int));
        assert(forall|m: int| lo <= m < n ==> t[m - lo] == cs@[m]);
        assert(strip_marker(input@) =~= cs@.subrange(start as int, n as int));
    }
    let r = input.substring_char(start, n);
    proof {
        assert(r@ =~= strip_marker(input@));
    }
    r
}

/// Renders an already canonicalized tree, closing the text with one
/// trailing newline; fails only on a tree too deep to indent.
fn emit_yaml(value: &Tree) -> (r: Result<String, YamlFormatError>)
    ensures
        fits(value.dv()) ==> r is Ok && (r->Ok_0)@ == rendered(value.dv()),
        !fits(value.dv()) ==> r is Err && r->Err_0 is Format && ((r->Err_0)->Format_0)@
            == deep_text(),
{
    if !depth_le(value, usize::MAX / 2) {
        let mut m = String::new();
        m.append("document nesting is too deep");
        return Err(YamlFormatError::Format(m));
    }
    let mut f = Formatter::new();
    f.write_root(value);
    Ok(f.finish())
}

/// Canonicalizes a tree and renders it: the composition of the sorting
/// rewrite and the emitter. Fails only on a tree too deep to indent.
pub fn canonicalize_and_emit(value: Tree) -> (r: Result<String, YamlFormatError>)
    ensures
        fits(value.dv()) ==> r is Ok && (r->Ok_0)@ == rendered(canon(value.dv())),
        !fits(value.dv()) ==> r is Err && r->Err_0 is Format && ((r->Err_0)->Format_0)@
            == deep_text(),
{
    if !depth_le(&value, usize::MAX / 2) {
        let mut m = String::new();
        m.append("document nesting is too deep");
        return Err(YamlFormatError::Format(m));
    }
    proof {
        crate::canon::lemma_canon_depth(value.dv());
    }
    let sorted = sort_value(value);
    emit_yaml(&sorted)
}

/// Formats a document text: parses it (after stripping a leading `---`
/// marker), returns the input unchanged for a null document, rejects a
/// sequence root, and otherwise emits the canonicalized tree.
pub fn format_yaml_string(input: &str) -> (r: Result<String, YamlFormatError>)
    ensures
        ({
            let doc = yaml_doc(strip_marker(input@));
            &&& doc is Err ==> r is Err && r->Err_0 is Format && ((r->Err_0)->Format_0)@
                == doc->Err_0
            &&& doc is Ok && doc->Ok_0 is Null ==> r is Ok && (r->Ok_0)@ == input@
            &&& doc is Ok && doc->Ok_0 is Sequence ==> r is Err && r->Err_0 is TopLevelList
            &&& doc is Ok && !(doc->Ok_0 is Null) && !(doc->Ok_0 is Sequence) && fits(doc->Ok_0)
                ==> r is Ok && (r->Ok_0)@ == rendered(canon(doc->Ok_0))
            &&& doc is Ok && !(doc->Ok_0 is Null) && !(doc->Ok_0 is Sequence) && !fits(doc->Ok_0)
                ==> r is Err && r->Err_0 is Format && ((r->Err_0)->Format_0)@ == deep_text()
        }),
{
    let to_parse = strip_leading_marker(input);
    match parse_document(to_parse) {
        Err(e) => Err(YamlFormatError::Format(e)),
        Ok(v) => {
            let ghost n = v.dv();
            match v {
                Tree::Null => Ok(input.to_owned()),
                Tree::Sequence(_) => Err(YamlFormatError::TopLevelList),
                other => {
                    proof {
                        match other {
                            Tree::Bool(_) => {},
                            Tree::Number(_) => {},
                            Tree::Str(_) => {},
                            Tree::Mapping(_) => {},
                            Tree::Tagged(_, _) => {},
                            Tree::Null => {},
                            Tree::Sequence(_) => {},
                        }
                        assert(!(n is Null) && !(n is Sequence));
                    }
                    canonicalize_and_emit(other)
                },
            }
        },
    }
}

/// Formats a tree whose root must be a mapping: a mapping is canonicalized
/// and emitted, a null root yields the empty string, a sequence root is
/// rejected, and any other root reports the kind that was found instead.
pub fn format_yaml_dict(data: Tree) -> (r: Result<String, YamlFormatError>)
    ensures
        ({
            let n = data.dv();
            &&& n is Mapping && fits(n) ==> r is Ok && (r->Ok_0)@ == rendered(canon(n))
            &&& n is Mapping && !fits(n) ==> r is Err && r->Err_0 is Format && ((
            r->Err_0)->Format_0)@ == deep_text()
            &&& n is Null ==> r is Ok && (r->Ok_0)@ == Seq::<char>::empty()
            &&& n is Sequence ==> r is Err && r->Err_0 is TopLevelList
            &&& !(n is Mapping) && !(n is Null) && !(n is Sequence) ==> r is Err && r->Err_0
                is Format && ((r->Err_0)->Format_0)@ == "Expected dict, got "@ + kind_text(n)
        }),
{
    let ghost n = data.dv();
    match data {
        Tree::Mapping(entries) => canonicalize_and_emit(Tree::Mapping(entries)),
        Tree::Null => Ok(String::new()),
        Tree::Sequence(_) => Err(YamlFormatError::TopLevelList),
        other => {
            proof {
                match other {
                    Tree::Bool(_) => {},
                    Tree::Number(_) => {},
                    Tree::Str(_) => {},
                    Tree::Tagged(_, _) => {},
                    Tree::Null => {},
                    Tree::Sequence(_) => {},
                    Tree::Mapping(_) => {},
                }
                assert(!(n is Mapping) && !(n is Null) && !(n is Sequence));
            }
            let kind = describe_value(&other);
            let mut m = String::new();
            m.append("Expected dict, got ");
            m.append(kind);
            Err(YamlFormatError::Format(m))
        },
    }
}

/// How many of the outcomes changed their file.
pub open spec fn count_changed(s: Seq<Result<bool, YamlFormatError>>) -> int
    decreases s.len(),
{
    if s.len() == 0 {
        0
    } else {
        count_changed(s.drop_last()) + (if s.last() == Result::<bool, YamlFormatError>::Ok(true) {
            1int
        } else {
            0int
        })
    }
}

/// The messages of the failed outcomes, in order.
pub open spec fn error_messages(s: Seq<Result<bool, YamlFormatError>>) -> Seq<Seq<char>>
    decreases s.len(),
{
    if s.len() == 0 {
        Seq::empty()
    } else if s.last() is Err {
        error_messages(s.drop_last()).push(error_text(s.last()->Err_0))
    } else {
        error_messages(s.drop_last())
    }
}

/// Aggregates per-file formatting outcomes: how many files changed, how
/// many failed, and the failures' messages in order.
pub fn format_yaml_files(outcomes: Vec<Result<bool, YamlFormatError>>) -> (r: (
    usize,
    usize,
    Vec<String>,
))
    ensures
        r.0 == count_changed(outcomes@),
        r.1 == error_messages(outcomes@).len(),
        r.2@.len() == error_messages(outcomes@).len(),
        forall|i: int| 0 <= i < r.2@.len() ==> (#[trigger] r.2@[i])@ == error_messages(outcomes@)[i],
{
    let n: usize = outcomes.len();
    let mut changed: usize = 0;
    let mut errors: usize = 0;
    let mut messages: Vec<String> = Vec::new();
    let mut i: usize = 0;
    proof {
        assert(outcomes@.subrange(0, 0) =~= Seq::<Result<bool, YamlFormatError>>::empty());
    }
    while i < n
        invariant
            0 <= i <= n,
            n == outcomes.len(),
            changed == count_changed(outcomes@.subrange(0, i as int)),
            changed <= i,
            errors == error_messages(outcomes@.subrange(0, i as int)).len(),
            errors <= i,
            messages@.len() == errors,
            forall|m: int| 0 <= m < messages@.len() ==> (#[trigger] messages@[m])@
                == error_messages(outcomes@.subrange(0, i as int))[m],
        decreases n - i,
    {
        let ghost pre = outcomes@.subrange(0, i as int);
        let ghost cur = outcomes@.subrange(0, i + 1);
        proof {
            assert(cur.drop_last() =~= pre);
            assert(cur.last() == outcomes@[i as int]);
        }
        match &outcomes[i] {
            Ok(flag) => {
                if *flag {
                    changed = changed + 1;
                }
            },
            Err(e) => {
                errors = errors + 1;
                messages.push(e.message());
            },
        }
        i = i + 1;
    }
    proof {
        assert(outcomes@.subrange(0, n as int) =~= outcomes@);
    }
    (changed, errors, messages)
}

} // verus!
