//! JSON values: a document with a place in it.

#[allow(unused_imports)]
use crate::number::Bits;
#[allow(unused_imports)]
use crate::text;
use vstd::prelude::*;

verus! {

/// A value of a JSON document: the one at `pointer` (RFC 6901) in `text`. The
/// empty pointer stands for the whole document.
#[derive(Debug)]
pub struct Json {
    pub text: String,
    pub pointer: String,
}

pub struct SpecJson {
    pub text: Seq<char>,
    pub pointer: Seq<char>,
}

impl View for Json {
    type V = SpecJson;

    open spec fn view(&self) -> SpecJson {
        SpecJson { text: self.text@, pointer: self.pointer@ }
    }
}

impl Clone for Json {
    fn clone(&self) -> (r: Json)
        ensures
            r@ == self@,
    {
        Json { text: self.text.clone(), pointer: self.pointer.clone() }
    }
}

/// What stands at a place in a document.
#[derive(Debug)]
pub enum JsonNode {
    /// Nothing: the text is no JSON, or has no such place.
    Absent,
    /// A number, where it has a double that stands for it.
    Number(Option<Bits>),
    Text(String),
    Object,
    /// `null`, a boolean or an array.
    Other,
}

pub enum SpecJsonNode {
    Absent,
    Number(Option<Bits>),
    Text(Seq<char>),
    Object,
    Other,
}

impl View for JsonNode {
    type V = SpecJsonNode;

    open spec fn view(&self) -> SpecJsonNode {
        match *self {
            JsonNode::Absent => SpecJsonNode::Absent,
            JsonNode::Number(n) => SpecJsonNode::Number(n),
            JsonNode::Text(s) => SpecJsonNode::Text(s@),
            JsonNode::Object => SpecJsonNode::Object,
            JsonNode::Other => SpecJsonNode::Other,
        }
    }
}

/// What is wrong with `text` as JSON, if anything.
pub uninterp spec fn json_fault(text: Seq<char>) -> Option<Seq<char>>;

/// What stands at `pointer` in `text`.
pub uninterp spec fn json_node(text: Seq<char>, pointer: Seq<char>) -> SpecJsonNode;

/// The value at `pointer` in `text`, indented over several lines.
pub uninterp spec fn json_pretty(text: Seq<char>, pointer: Seq<char>) -> Option<Seq<char>>;

/// `serde_json::from_str` into a `serde_json::Value`: the error that it gives,
/// as text, where it gives one. The contract says no more than that this
/// depends on the text alone.
#[verifier::external_body]
pub(crate) fn find_json_fault(text: &str) -> (r: Option<String>)
    ensures
        json_fault(text@) == (match r {
            Some(e) => Some(e@),
            None => None,
        }),
{
    serde_json::from_str::<serde_json::Value>(text).err().map(|e| e.to_string())
}

/// `serde_json::Value::pointer` on the value that `serde_json::from_str` reads
/// from `text`: which kind of value it finds, with what a number or a string
/// holds. The contract says no more than that this depends on the text and the
/// pointer alone.
#[verifier::external_body]
pub(crate) fn find_json_node(text: &str, pointer: &str) -> (r: JsonNode)
    ensures
        r@ == json_node(text@, pointer@),
{
    match serde_json::from_str::<serde_json::Value>(text) {
        Ok(root) => match root.pointer(pointer) {
            None => JsonNode::Absent,
            Some(serde_json::Value::Number(n)) => JsonNode::Number(n.as_f64().map(|x| x.to_bits())),
            Some(serde_json::Value::String(s)) => JsonNode::Text(s.clone()),
            Some(serde_json::Value::Object(_)) => JsonNode::Object,
            Some(_) => JsonNode::Other,
        },
        Err(_) => JsonNode::Absent,
    }
}

/// `serde_json::to_string_pretty` of what `serde_json::Value::pointer` finds:
/// nothing where it finds nothing. The contract says no more than that this
/// depends on the text and the pointer alone.
#[verifier::external_body]
pub(crate) fn find_json_pretty(text: &str, pointer: &str) -> (r: Option<String>)
    ensures
        json_pretty(text@, pointer@) == (match r {
            Some(s) => Some(s@),
            None => None,
        }),
{
    match serde_json::from_str::<serde_json::Value>(text) {
        Ok(root) => root.pointer(pointer).and_then(|v| serde_json::to_string_pretty(v).ok()),
        Err(_) => None,
    }
}

/// A character of a key as it stands in a pointer.
pub open spec fn escaped_char(c: char) -> Seq<char> {
    if c == '~' {
        "~0"@
    } else if c == '/' {
        "~1"@
    } else {
        seq![c]
    }
}

/// The first `n` characters of a key as they stand in a pointer.
pub open spec fn escaped(key: Seq<char>, n: int) -> Seq<char>
    decreases n,
{
    if n <= 0 || n > key.len() {
        Seq::empty()
    } else {
        escaped(key, n - 1) + escaped_char(key[n - 1])
    }
}

/// The member `key` of an object.
pub open spec fn member(j: SpecJson, key: Seq<char>) -> SpecJson {
    SpecJson { text: j.text, pointer: j.pointer + "/"@ + escaped(key, key.len() as int) }
}

fn escape_key(key: &str) -> (r: String)
    ensures
        r@ == escaped(key@, key@.len() as int),
{
    let cs = text::chars_of(key);
    let mut out = String::new();
    let mut i: usize = 0;
    while i < cs.len()
        invariant
            cs@ == key@,
            i <= cs@.len(),
            out@ == escaped(key@, i as int),
        decreases cs@.len() - i,
    {
        let c = cs[i];
        let ghost before = out@;
        if c == '~' {
            out.append("~0");
        } else if c == '/' {
            out.append("~1");
        } else {
            out.push(c);
            proof {
                assert(out@ =~= before + seq![c]);
            }
        }
        i = i + 1;
    }
    out
}

impl Json {
    /// The whole of a document.
    pub fn document(text: &str) -> (r: Json)
        ensures
            r@ == (SpecJson { text: text@, pointer: Seq::empty() }),
    {
        let r = Json { text: text.to_owned(), pointer: String::new() };
        proof {
            assert(r@.pointer =~= Seq::<char>::empty());
        }
        r
    }

    /// The member `key`, where this is an object that has it.
    pub fn member(&self, key: &str) -> (r: Json)
        ensures
            r@ == member(self@, key@),
    {
        let mut pointer = self.pointer.clone();
        pointer.append("/");
        pointer.append(escape_key(key).as_str());
        Json { text: self.text.clone(), pointer }
    }

    /// What this is.
    pub fn node(&self) -> (r: JsonNode)
        ensures
            r@ == json_node(self@.text, self@.pointer),
    {
        find_json_node(self.text.as_str(), self.pointer.as_str())
    }
}

} // verus!
