//! Values of a running program, and what goes wrong with them.

#[allow(unused_imports)]
use crate::json::{self, Json, JsonNode, SpecJson, SpecJsonNode};
#[allow(unused_imports)]
use crate::number::{self, Bits, NumberModel, Numbers};
use crate::text;
use vstd::prelude::*;

verus! {

#[derive(Debug)]
pub enum Value {
    Number(Bits),
    Str(String),
    /// A set of subsets: a JSON value that is neither a number nor a string,
    /// or the whole of a document.
    Subsets(Json),
}

pub enum SpecValue {
    Number(Bits),
    Str(Seq<char>),
    Subsets(SpecJson),
}

impl View for Value {
    type V = SpecValue;

    open spec fn view(&self) -> SpecValue {
        match *self {
            Value::Number(n) => SpecValue::Number(n),
            Value::Str(s) => SpecValue::Str(s@),
            Value::Subsets(j) => SpecValue::Subsets(j@),
        }
    }
}

impl Clone for Value {
    fn clone(&self) -> (r: Value)
        ensures
            r@ == self@,
    {
        match self {
            Value::Number(n) => Value::Number(*n),
            Value::Str(s) => Value::Str(s.clone()),
            Value::Subsets(j) => Value::Subsets(j.clone()),
        }
    }
}

/// A value as it is printed.
pub open spec fn value_text(m: NumberModel, v: SpecValue) -> Seq<char> {
    match v {
        SpecValue::Number(n) => (m.show)(n),
        SpecValue::Str(s) => s,
        SpecValue::Subsets(j) => set_text(json::json_pretty(j.text, j.pointer)),
    }
}

/// A set as it is printed: its JSON, indented.
pub open spec fn set_text(pretty: Option<Seq<char>>) -> Seq<char> {
    match pretty {
        Some(s) => s,
        None => Seq::empty(),
    }
}

impl Value {
    /// The value as it is printed.
    pub fn to_text<N: Numbers>(&self, nums: &N) -> (r: String)
        ensures
            forall|m: NumberModel| #[trigger]
                number::computes(*nums, m) ==> r@ == value_text(m, self@),
    {
        match self {
            Value::Number(n) => nums.show(*n),
            Value::Str(s) => s.clone(),
            Value::Subsets(j) => match json::find_json_pretty(j.text.as_str(), j.pointer.as_str()) {
                Some(s) => s,
                None => String::new(),
            },
        }
    }
}

/// What a name stands for while a program runs.
#[derive(Debug)]
pub struct Binding {
    pub value: Value,
    pub mutable: bool,
}

pub struct SpecBinding {
    pub value: SpecValue,
    pub mutable: bool,
}

impl View for Binding {
    type V = SpecBinding;

    open spec fn view(&self) -> SpecBinding {
        SpecBinding { value: self.value@, mutable: self.mutable }
    }
}

impl Clone for Binding {
    fn clone(&self) -> (r: Binding)
        ensures
            r@ == self@,
    {
        Binding { value: self.value.clone(), mutable: self.mutable }
    }
}

/// What goes wrong while a program runs.
#[derive(Debug, Clone)]
pub struct RuntimeError {
    pub message: String,
}

impl View for RuntimeError {
    type V = Seq<char>;

    open spec fn view(&self) -> Seq<char> {
        self.message@
    }
}

impl RuntimeError {
    pub fn new(message: String) -> (r: Self)
        ensures
            r@ == message@,
            r.message == message,
    {
        RuntimeError { message }
    }

    /// The error as it is reported.
    pub fn to_text(&self) -> (r: String)
        ensures
            r@ == "runtime error: "@ + self@,
    {
        let mut s = "runtime error: ".to_owned();
        s.append(self.message.as_str());
        s
    }
}

/// What an expression gives: a value, or the message of an error.
pub type SpecResult = Result<SpecValue, Seq<char>>;

/// The view of a result.
pub open spec fn result_view(r: Result<Value, RuntimeError>) -> SpecResult {
    match r {
        Ok(v) => Ok(v@),
        Err(e) => Err(e@),
    }
}

/// An error with the message `before`, `after`.
pub(crate) fn fail(before: &str, after: &str) -> (r: RuntimeError)
    ensures
        r@ == before@ + after@,
{
    let mut s = before.to_owned();
    s.append(after);
    RuntimeError::new(s)
}

/// An error with the message `before`, `name`, `after`.
pub(crate) fn fail_at(before: &str, name: &str, after: &str) -> (r: RuntimeError)
    ensures
        r@ == before@ + name@ + after@,
{
    let mut s = before.to_owned();
    s.append(name);
    s.append(after);
    RuntimeError::new(s)
}

/// The number that a value is.
pub open spec fn number_of(m: NumberModel, v: SpecValue) -> Result<Bits, Seq<char>> {
    match v {
        SpecValue::Number(n) => Ok(n),
        _ => Err("expected a number, found "@ + value_text(m, v)),
    }
}

pub fn as_number<N: Numbers>(v: &Value, nums: &N) -> (r: Result<Bits, RuntimeError>)
    ensures
        forall|m: NumberModel| #[trigger]
            number::computes(*nums, m) ==> number_of(m, v@) == (match r {
                Ok(n) => Ok::<Bits, Seq<char>>(n),
                Err(e) => Err(e@),
            }),
        r is Ok == v@ is Number,
{
    match v {
        Value::Number(n) => Ok(*n),
        other => Err(fail("expected a number, found ", other.to_text(nums).as_str())),
    }
}

/// The value that a JSON value is. A number without a double is not a number.
pub open spec fn value_of_node(node: SpecJsonNode, j: SpecJson) -> SpecValue {
    match node {
        SpecJsonNode::Number(Some(n)) => SpecValue::Number(n),
        SpecJsonNode::Number(None) => SpecValue::Number(number::NAN),
        SpecJsonNode::Text(s) => SpecValue::Str(s),
        _ => SpecValue::Subsets(j),
    }
}

/// The value that `json` is, where `node` is what stands there.
pub fn json_to_value(node: JsonNode, json: Json) -> (r: Value)
    ensures
        r@ == value_of_node(node@, json@),
{
    match node {
        JsonNode::Number(n) => match n {
            Some(b) => Value::Number(b),
            None => Value::Number(number::NAN),
        },
        JsonNode::Text(s) => Value::Str(s),
        _ => Value::Subsets(json),
    }
}

/// What looking up `key` in `j` gives, where `node` is what stands at `j` and
/// `found` what stands at the member `key` of it.
pub open spec fn lookup_node(
    node: SpecJsonNode,
    found: SpecJsonNode,
    j: SpecJson,
    key: Seq<char>,
) -> SpecResult {
    if node !is Object {
        Err("no subsets to look `"@ + key + "` up in"@)
    } else if found is Absent {
        Err("no subset named `"@ + key + "`"@)
    } else {
        Ok(value_of_node(found, json::member(j, key)))
    }
}

/// Look up `key` in `json`, where `node` is what stands there and `found` what
/// stands at its member `key`.
pub fn find_member(node: JsonNode, found: JsonNode, json: &Json, key: &str) -> (r: Result<
    Value,
    RuntimeError,
>)
    ensures
        result_view(r) == lookup_node(node@, found@, json@, key@),
{
    match node {
        JsonNode::Object => match found {
            JsonNode::Absent => Err(fail_at("no subset named `", key, "`")),
            found => Ok(json_to_value(found, json.member(key))),
        },
        _ => Err(fail_at("no subsets to look `", key, "` up in")),
    }
}

/// What `base.key` and `base<key>` give.
pub open spec fn subset_of(m: NumberModel, base: SpecValue, key: Seq<char>) -> SpecResult {
    match base {
        SpecValue::Subsets(j) => {
            let k = json::member(j, key);
            lookup_node(
                json::json_node(j.text, j.pointer),
                json::json_node(k.text, k.pointer),
                j,
                key,
            )
        },
        _ => Err(
            "cannot look up `"@ + key + "` on "@ + value_text(m, base)
                + " -- it isn't a set of subsets"@,
        ),
    }
}

pub fn subset_lookup<N: Numbers>(base: &Value, key: &str, nums: &N) -> (r: Result<
    Value,
    RuntimeError,
>)
    ensures
        forall|m: NumberModel| #[trigger]
            number::computes(*nums, m) ==> result_view(r) == subset_of(m, base@, key@),
{
    match base {
        Value::Subsets(j) => {
            let node = j.node();
            let found = j.member(key).node();
            find_member(node, found, j, key)
        },
        other => {
            let mut s = "cannot look up `".to_owned();
            s.append(key);
            s.append("` on ");
            s.append(other.to_text(nums).as_str());
            s.append(" -- it isn't a set of subsets");
            Err(RuntimeError::new(s))
        },
    }
}

/// The value that a raw `--name=value` stands for: a number where the text
/// denotes one, the text otherwise.
pub open spec fn param_value(m: NumberModel, raw: Seq<char>) -> SpecValue {
    match (m.parse)(raw) {
        Some(n) => SpecValue::Number(n),
        None => SpecValue::Str(raw),
    }
}

pub fn parse_param_value<N: Numbers>(raw: &str, nums: &N) -> (r: Value)
    ensures
        forall|m: NumberModel| #[trigger]
            number::computes(*nums, m) ==> r@ == param_value(m, raw@),
{
    match nums.parse(raw) {
        Some(n) => Value::Number(n),
        None => Value::Str(raw.to_owned()),
    }
}

/// The first place from `pos` on that holds `c`; the end where there is none.
pub open spec fn place_of(s: Seq<char>, c: char, pos: int) -> int
    decreases s.len() - pos,
{
    if pos < 0 || pos >= s.len() || s[pos] == c {
        pos
    } else {
        place_of(s, c, pos + 1)
    }
}

/// The name and the raw value of an argument `--name=value`.
pub open spec fn override_of(s: Seq<char>) -> Option<(Seq<char>, Seq<char>)> {
    let at = place_of(s, '=', 2);
    if s.len() >= 2 && s[0] == '-' && s[1] == '-' && at < s.len() {
        Some((s.subrange(2, at), s.subrange(at + 1, s.len() as int)))
    } else {
        None
    }
}

/// The name and the raw value, where `arg` is `--name=value`.
pub fn parse_override(arg: &str) -> (r: Option<(String, String)>)
    ensures
        match r {
            Some((name, raw)) => override_of(arg@) == Some((name@, raw@)),
            None => override_of(arg@) is None,
        },
{
    let cs = text::chars_of(arg);
    if cs.len() < 2 || cs[0] != '-' || cs[1] != '-' {
        return None;
    }
    let mut at: usize = 2;
    while at < cs.len() && cs[at] != '='
        invariant
            cs@ == arg@,
            2 <= at <= cs@.len(),
            place_of(arg@, '=', 2) == place_of(arg@, '=', at as int),
        decreases cs@.len() - at,
    {
        at = at + 1;
    }
    if at < cs.len() {
        Some((text::piece(&cs, 2, at), text::piece(&cs, at + 1, cs.len())))
    } else {
        None
    }
}

/// The value of a document whose fault is `fault`, read from `path`.
pub open spec fn document_value(
    fault: Option<Seq<char>>,
    path: Seq<char>,
    content: Seq<char>,
) -> SpecResult {
    match fault {
        Some(e) => Err("invalid JSON in '"@ + path + "': "@ + e),
        None => Ok(SpecValue::Subsets(SpecJson { text: content, pointer: Seq::empty() })),
    }
}

/// The value of a document whose fault is `fault`, read from `path`.
pub fn checked_document(fault: Option<String>, path: &str, content: &str) -> (r: Result<
    Value,
    RuntimeError,
>)
    ensures
        result_view(r) == document_value(
            match fault {
                Some(e) => Some(e@),
                None => None,
            },
            path@,
            content@,
        ),
{
    match fault {
        Some(e) => {
            let mut s = "invalid JSON in '".to_owned();
            s.append(path);
            s.append("': ");
            s.append(e.as_str());
            Err(RuntimeError::new(s))
        },
        None => Ok(Value::Subsets(Json::document(content))),
    }
}

/// The value of the document `content`, read from `path`.
pub fn load_json(path: &str, content: &str) -> (r: Result<Value, RuntimeError>)
    ensures
        result_view(r) == document_value(json::json_fault(content@), path@, content@),
{
    checked_document(json::find_json_fault(content), path, content)
}

} // verus!
