//! Documents as text: what serde_json reads in bytes and in lines.
use crate::double::Double;
use crate::json;
use crate::json::Number::{Float, Negative, Positive};
use crate::json::{Json, JsonView};
use crate::text;
use serde::Deserialize;
use serde_json::Value as Tree;
use vstd::prelude::*;

verus! {

// ---------------------------------------------------------------------
// The parser
// ---------------------------------------------------------------------

/// What serde_json makes of a text, a `serde_json::Value`.
#[verifier::external_type_specification]
#[verifier::external_body]
pub struct ExTree(Tree);

/// The document that a `serde_json::Value` holds.
pub uninterp spec fn contents(tree: Tree) -> JsonView;

/// The variants of `serde_json::Value`, and the accessors of its numbers and
/// containers: the document that the value holds, kind by kind and part by
/// part. The members of an object come in the order of their names, in which
/// `serde_json::Map` keeps them.
#[verifier::external_body]
fn converted(tree: &Tree) -> (j: Json)
    ensures
        j@ == contents(*tree),
{
    match tree {
        Tree::Null => Json::Null,
        Tree::Bool(b) => Json::Bool(*b),
        Tree::Number(n) => Json::Number(match (n.as_u64(), n.as_i64()) {
            (Some(u), _) => Positive(u),
            (_, Some(i)) => Negative(i),
            _ => Float(Double { bits: n.as_f64().unwrap().to_bits() }),
        }),
        Tree::String(s) => Json::Text(s.clone()),
        Tree::Array(v) => Json::Array(v.iter().map(converted).collect()),
        Tree::Object(m) => Json::Object(
            m.iter().map(|(k, v)| (k.clone(), converted(v))).collect(),
        ),
    }
}

/// The document that bytes spell, by `serde_json::from_slice`.
pub uninterp spec fn parsed(text: Seq<u8>) -> Option<JsonView>;

/// `serde_json::from_slice`, to a `serde_json::Value`. Whether the bytes are a
/// document, and which, depends on them alone; nesting of 128 levels or more is
/// an error of the parser.
#[verifier::external_body]
fn from_slice(text: &[u8]) -> (r: Option<Tree>)
    ensures
        match r {
            Some(tree) => parsed(text@) == Some(contents(tree)),
            None => parsed(text@) is None,
        },
{
    serde_json::from_slice(text).ok()
}

/// The document that a text spells, or the message of the parser, by
/// `serde_json::from_str`.
pub uninterp spec fn read(text: Seq<char>) -> Result<JsonView, Seq<char>>;

/// `serde_json::from_str`, to a `serde_json::Value`. The document, and the
/// message of an error, depend on the text alone; nesting of 128 levels or more
/// is an error of the parser.
#[verifier::external_body]
fn from_str(text: &str) -> (r: Result<Tree, String>)
    ensures
        match r {
            Ok(tree) => read(text@) == Ok::<JsonView, Seq<char>>(contents(tree)),
            Err(e) => read(text@) == Err::<JsonView, Seq<char>>(e@),
        },
{
    serde_json::from_str(text).map_err(|e| e.to_string())
}

/// The document that a line starts with, or the message of the parser, by a
/// `serde_json::Deserializer` whose recursion limit is disabled.
pub uninterp spec fn decoded(line: Seq<char>) -> Result<JsonView, Seq<char>>;

/// `serde_json::Deserializer::from_str` with `disable_recursion_limit`, and
/// `Value::deserialize` on it. The document, and the message of an error, depend
/// on the text alone. The parser descends once for each level of nesting, so the
/// nesting is bounded by what a stack of two megabytes holds.
#[verifier::external_body]
fn deserialize(line: &str) -> (r: Result<Tree, String>)
    requires
        nesting(line@) <= DEEPEST_LINE,
    ensures
        match r {
            Ok(tree) => decoded(line@) == Ok::<JsonView, Seq<char>>(contents(tree)),
            Err(e) => decoded(line@) == Err::<JsonView, Seq<char>>(e@),
        },
{
    let mut de = serde_json::Deserializer::from_str(line);
    de.disable_recursion_limit();
    Tree::deserialize(&mut de).map_err(|e| e.to_string())
}

// ---------------------------------------------------------------------
// Nesting
// ---------------------------------------------------------------------

/// The deepest nesting of a line that is decoded.
pub const DEEPEST_LINE: u64 = 1000;

/// Where a text stands in its brackets and quotes.
pub struct Nest {
    pub depth: int,
    pub deepest: int,
    pub quoted: bool,
    pub escaped: bool,
}

impl Nest {
    pub open spec fn step(self, c: char) -> Nest {
        if self.quoted {
            if self.escaped {
                Nest { escaped: false, ..self }
            } else {
                Nest { escaped: c == '\\', quoted: c != '"', ..self }
            }
        } else if c == '"' {
            Nest { quoted: true, ..self }
        } else if c == '[' || c == '{' {
            Nest {
                depth: self.depth + 1,
                deepest: if self.depth + 1 > self.deepest {
                    self.depth + 1
                } else {
                    self.deepest
                },
                ..self
            }
        } else if c == ']' || c == '}' {
            Nest { depth: self.depth - 1, ..self }
        } else {
            self
        }
    }
}

pub open spec fn nest(s: Seq<char>) -> Nest
    decreases s.len(),
{
    if s.len() == 0 {
        Nest { depth: 0, deepest: 0, quoted: false, escaped: false }
    } else {
        nest(s.drop_last()).step(s.last())
    }
}

/// How many brackets are open at once, at most, outside of quotes.
pub open spec fn nesting(s: Seq<char>) -> int {
    nest(s).deepest
}

/// Whether a line is nested no deeper than the decoder goes.
pub fn is_shallow(line: &str) -> (b: bool)
    ensures
        b == (nesting(line@) <= DEEPEST_LINE),
{
    let v = text::chars_of(line);
    let mut depth: i128 = 0;
    let mut deepest: i128 = 0;
    let mut quoted: bool = false;
    let mut escaped: bool = false;
    let mut i: usize = 0;
    assert(v@.take(0) =~= Seq::empty());
    while i < v.len()
        invariant
            i <= v@.len(),
            -i <= depth <= i,
            0 <= deepest <= i,
            nest(v@.take(i as int)) == (Nest {
                depth: depth as int,
                deepest: deepest as int,
                quoted,
                escaped,
            }),
        decreases v@.len() - i,
    {
        assert(v@.take(i + 1).drop_last() =~= v@.take(i as int));
        let c: char = v[i];
        if quoted {
            if escaped {
                escaped = false;
            } else {
                escaped = c == '\\';
                quoted = c != '"';
            }
        } else if c == '"' {
            quoted = true;
        } else if c == '[' || c == '{' {
            depth += 1;
            if depth > deepest {
                deepest = depth;
            }
        } else if c == ']' || c == '}' {
            depth -= 1;
        }
        i += 1;
    }
    assert(v@.take(i as int) =~= v@);
    deepest <= DEEPEST_LINE as i128
}

// ---------------------------------------------------------------------
// Documents
// ---------------------------------------------------------------------

/// The document that bytes spell, if they do.
pub fn parse_json(text: &[u8]) -> (r: Option<Json>)
    ensures
        match r {
            Some(j) => parsed(text@) == Some(j@),
            None => parsed(text@) is None,
        },
{
    match from_slice(text) {
        Some(tree) => Some(converted(&tree)),
        None => None,
    }
}

/// The document that a text spells, or why it spells none.
pub fn read_json(text: &str) -> (r: Result<Json, String>)
    ensures
        match r {
            Ok(j) => read(text@) == Ok::<JsonView, Seq<char>>(j@),
            Err(e) => read(text@) == Err::<JsonView, Seq<char>>(e@),
        },
{
    match from_str(text) {
        Ok(tree) => Ok(converted(&tree)),
        Err(e) => Err(e),
    }
}

/// The document that a line starts with, or why it starts with none. The
/// nesting is not limited by the parser.
pub fn decode_json(line: &str) -> (r: Result<Json, String>)
    requires
        nesting(line@) <= DEEPEST_LINE,
    ensures
        match r {
            Ok(j) => decoded(line@) == Ok::<JsonView, Seq<char>>(j@),
            Err(e) => decoded(line@) == Err::<JsonView, Seq<char>>(e@),
        },
{
    match deserialize(line) {
        Ok(tree) => Ok(converted(&tree)),
        Err(e) => Err(e),
    }
}

/// The documents of the records that spell one, in order.
pub open spec fn told(records: Seq<Seq<u8>>) -> Seq<JsonView>
    decreases records.len(),
{
    if records.len() == 0 {
        Seq::empty()
    } else {
        let front = told(records.drop_last());
        match parsed(records.last()) {
            Some(j) => front.push(j),
            None => front,
        }
    }
}

/// The documents of the records that spell one, in order.
pub fn parse_records(records: &Vec<Vec<u8>>) -> (r: Vec<Json>)
    ensures
        json::items_view(r@) == told(records@.map_values(|l: Vec<u8>| l@)),
{
    let ghost all = records@.map_values(|l: Vec<u8>| l@);
    let mut out: Vec<Json> = Vec::new();
    let mut i: usize = 0;
    assert(all.take(0) =~= Seq::empty());
    while i < records.len()
        invariant
            i <= records@.len(),
            all == records@.map_values(|l: Vec<u8>| l@),
            json::items_view(out@) == told(all.take(i as int)),
        decreases records@.len() - i,
    {
        assert(all.take(i + 1).drop_last() =~= all.take(i as int));
        if let Some(j) = parse_json(records[i].as_slice()) {
            let ghost before = out@;
            out.push(j);
            assert(out@.drop_last() =~= before);
        }
        i += 1;
    }
    assert(all.take(i as int) =~= all);
    out
}

/// No bracket and no quote.
pub open spec fn flat_text(s: Seq<char>) -> bool {
    forall|i: int|
        0 <= i < s.len() ==> {
            let c = #[trigger] s[i];
            c != '[' && c != ']' && c != '{' && c != '}' && c != '"' && c != '\\'
        }
}

proof fn lemma_flat_text(before: Seq<char>, s: Seq<char>)
    requires
        flat_text(s),
    ensures
        nest(before + s).depth == nest(before).depth,
        nest(before + s).deepest == nest(before).deepest,
        nest(before + s).quoted == nest(before).quoted,
        s.len() > 0 ==> !nest(before + s).escaped || !nest(before).quoted,
        !nest(before).escaped ==> !nest(before + s).escaped,
    decreases s.len(),
{
    if s.len() == 0 {
        assert(before + s =~= before);
    } else {
        let front = s.drop_last();
        assert forall|i: int| 0 <= i < front.len() implies {
            let c = #[trigger] front[i];
            c != '[' && c != ']' && c != '{' && c != '}' && c != '"' && c != '\\'
        } by {
            assert(front[i] == s[i]);
        }
        lemma_flat_text(before, front);
        assert((before + s).drop_last() =~= before + front);
        assert((before + s).last() == s[s.len() - 1]);
    }
}

/// So many opening brackets, one behind the other.
pub open spec fn opened(n: nat, bracket: char) -> Seq<char> {
    Seq::new(n, |i: int| bracket)
}

proof fn lemma_opened(n: nat, bracket: char)
    requires
        bracket == '[' || bracket == '{',
    ensures
        nest(opened(n, bracket)) == (Nest {
            depth: n as int,
            deepest: n as int,
            quoted: false,
            escaped: false,
        }),
    decreases n,
{
    if n > 0 {
        let s = opened(n, bracket);
        lemma_opened((n - 1) as nat, bracket);
        assert(s.drop_last() =~= opened((n - 1) as nat, bracket));
        assert(s.last() == bracket);
    }
}

/// Brackets that open one behind the other nest as deep as they are many,
/// whatever other text follows them; and between quotes nothing nests.
pub proof fn law_open_brackets_nest(n: nat, bracket: char, more: Seq<char>)
    requires
        bracket == '[' || bracket == '{',
        flat_text(more),
    ensures
        nesting(opened(n, bracket)) == n,
        nesting(opened(n, bracket) + more) == n,
        nesting(seq!['"'] + opened(n, bracket) + seq!['"']) == 0,
{
    lemma_opened(n, bracket);
    lemma_flat_text(opened(n, bracket), more);
    lemma_quoted(n, bracket);
    let s = seq!['"'] + opened(n, bracket);
    assert((s + seq!['"']).drop_last() =~= s);
}

proof fn lemma_quoted(n: nat, bracket: char)
    requires
        bracket == '[' || bracket == '{',
    ensures
        nest(seq!['"'] + opened(n, bracket)) == (Nest {
            depth: 0,
            deepest: 0,
            quoted: true,
            escaped: false,
        }),
    decreases n,
{
    let s = seq!['"'] + opened(n, bracket);
    if n == 0 {
        assert(s =~= seq!['"']);
        assert(s.drop_last() =~= Seq::empty());
        assert(nest(s.drop_last()).quoted == false);
    } else {
        lemma_quoted((n - 1) as nat, bracket);
        assert(s.drop_last() =~= seq!['"'] + opened((n - 1) as nat, bracket));
        assert(s.last() == bracket);
    }
}

} // verus!
