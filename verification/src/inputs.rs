//! What comes into a program from outside: overrides of its params, and places
//! in its data.

#[allow(unused_imports)]
use crate::ast::SpecExpr;
#[allow(unused_imports)]
use crate::json::{self, SpecJson, SpecJsonNode};
#[allow(unused_imports)]
use crate::machine::{self, SpecControl};
#[allow(unused_imports)]
use crate::names;
#[allow(unused_imports)]
use crate::number::{self, NumberModel};
#[allow(unused_imports)]
use crate::semantics::{self, Meaning, Run};
#[allow(unused_imports)]
use crate::value::{self, SpecValue};
use vstd::prelude::*;

verus! {

// ---- overrides --------------------------------------------------------

/// The argument `--name=raw`.
pub open spec fn argument(name: Seq<char>, raw: Seq<char>) -> Seq<char> {
    seq!['-', '-'] + name + seq!['='] + raw
}

proof fn lemma_place(s: Seq<char>, c: char, pos: int)
    requires
        0 <= pos <= s.len(),
    ensures
        pos <= value::place_of(s, c, pos) <= s.len(),
        forall|i: int| pos <= i < value::place_of(s, c, pos) ==> #[trigger] s[i] != c,
        value::place_of(s, c, pos) < s.len() ==> s[value::place_of(s, c, pos)] == c,
    decreases s.len() - pos,
{
    if pos < s.len() && s[pos] != c {
        lemma_place(s, c, pos + 1);
    }
}

/// An argument `--name=raw` is read as the name and the raw value. The value may
/// hold anything; the name ends at the first `=`.
pub proof fn law_overrides_are_read(name: Seq<char>, raw: Seq<char>)
    requires
        !name.contains('='),
    ensures
        value::override_of(argument(name, raw)) == Some((name, raw)),
{
    let s = argument(name, raw);
    let k = 2 + name.len() as int;
    lemma_place(s, '=', 2);
    assert(s[k] == '=');
    assert forall|i: int| 2 <= i < k implies #[trigger] s[i] != '=' by {
        assert(s[i] == name[i - 2]);
    }
    assert(value::place_of(s, '=', 2) == k);
    assert(s.subrange(2, k) =~= name);
    assert(s.subrange(k + 1, s.len() as int) =~= raw);
}

/// Nothing else is an override.
pub proof fn law_overrides_are_written_so(s: Seq<char>)
    ensures
        value::override_of(s) matches Some((name, raw)) ==> s == argument(name, raw)
            && !name.contains('='),
{
    if s.len() >= 2 {
        lemma_place(s, '=', 2);
    }
    if let Some((name, raw)) = value::override_of(s) {
        assert(s =~= argument(name, raw));
        if name.contains('=') {
            let i = name.index_of('=');
            assert(s[i + 2] == '=');
        }
    }
}

/// The call `param(args)`.
pub open spec fn param_call(args: Seq<SpecExpr>) -> SpecExpr {
    SpecExpr::Call { name: "param"@, args }
}

/// A name that is overridden is what the override says, whatever default it has: a
/// number where the text denotes one, and the text otherwise. A name that is not is
/// its default, and an error where it has none.
pub proof fn law_params(
    m: NumberModel,
    r: Run,
    name: Seq<char>,
    args: Seq<SpecExpr>,
    fuel: nat,
)
    requires
        fuel > 0,
    ensures
        ({
            let given = semantics::assigned_value(m, r, name, param_call(args), fuel);
            match names::lookup(r.st.params, name) {
                Some(raw) => match (m.parse)(raw) {
                    Some(n) => given == Meaning::Is(SpecValue::Number(n), r),
                    None => given == Meaning::Is(SpecValue::Str(raw), r),
                },
                None => {
                    &&& args.len() == 1 ==> given == semantics::eval(
                        m,
                        r,
                        args[0],
                        (fuel - 1) as nat,
                    )
                    &&& args.len() != 1 ==> (given matches Meaning::Wrong(_, end) && end == r)
                },
            }
        }),
{
}

/// An override matters to `param()` alone.
pub proof fn law_overrides_change_nothing_else(
    m: NumberModel,
    r: Run,
    name: Seq<char>,
    e: SpecExpr,
    fuel: nat,
)
    requires
        fuel > 0,
        forall|args: Seq<SpecExpr>| e != #[trigger] param_call(args),
    ensures
        semantics::assigned_value(m, r, name, e, fuel) == semantics::eval(
            m,
            r,
            e,
            (fuel - 1) as nat,
        ),
{
    if let SpecExpr::Call { name: f, args } = e {
        assert(e != param_call(args));
    }
}

// ---- places in documents ----------------------------------------------

/// What a part of a pointer stands for: `~0` for `~`, `~1` for `/`, any other
/// character for itself.
pub open spec fn unescaped(t: Seq<char>) -> Seq<char>
    decreases t.len(),
{
    if t.len() == 0 {
        Seq::empty()
    } else if t.len() >= 2 && t[0] == '~' && t[1] == '0' {
        seq!['~'] + unescaped(t.skip(2))
    } else if t.len() >= 2 && t[0] == '~' && t[1] == '1' {
        seq!['/'] + unescaped(t.skip(2))
    } else {
        seq![t[0]] + unescaped(t.skip(1))
    }
}

proof fn lemma_unescaped_char(c: char, rest: Seq<char>)
    ensures
        unescaped(json::escaped_char(c) + rest) == seq![c] + unescaped(rest),
        !json::escaped_char(c).contains('/'),
{
    reveal_strlit("~0");
    reveal_strlit("~1");
    let t = json::escaped_char(c) + rest;
    if c == '~' || c == '/' {
        assert(t.skip(2) =~= rest);
    } else {
        assert(t.skip(1) =~= rest);
        assert(t[0] == c);
    }
}

proof fn lemma_unescaped(key: Seq<char>, n: int, rest: Seq<char>)
    requires
        0 <= n <= key.len(),
    ensures
        unescaped(json::escaped(key, n) + rest) == key.take(n) + unescaped(rest),
        !json::escaped(key, n).contains('/'),
    decreases n,
{
    if n > 0 {
        let c = key[n - 1];
        let before = json::escaped(key, n - 1);
        let more = json::escaped_char(c) + rest;
        lemma_unescaped(key, n - 1, more);
        lemma_unescaped_char(c, rest);
        assert(json::escaped(key, n) + rest =~= before + more);
        assert(key.take(n) + unescaped(rest) =~= key.take(n - 1) + (seq![c] + unescaped(rest)));
        if json::escaped(key, n).contains('/') {
            let i = json::escaped(key, n).index_of('/');
            if i < before.len() {
                assert(before[i] == '/');
            } else {
                assert(json::escaped_char(c)[i - before.len()] == '/');
            }
        }
    } else {
        assert(json::escaped(key, n) + rest =~= rest);
        assert(key.take(0) + unescaped(rest) =~= unescaped(rest));
    }
}

/// A member is one part more of a pointer, and that part stands for its key.
pub proof fn law_members(j: SpecJson, key: Seq<char>)
    ensures
        ({
            let k = json::member(j, key);
            let part = k.pointer.skip(j.pointer.len() as int + 1);
            &&& k.text == j.text
            &&& k.pointer.len() > j.pointer.len()
            &&& k.pointer.take(j.pointer.len() as int) == j.pointer
            &&& k.pointer[j.pointer.len() as int] == '/'
            &&& !part.contains('/')
            &&& unescaped(part) == key
        }),
{
    reveal_strlit("/");
    let k = json::member(j, key);
    let n = j.pointer.len() as int;
    let part = json::escaped(key, key.len() as int);
    assert(k.pointer.take(n) =~= j.pointer);
    assert(k.pointer.skip(n + 1) =~= part);
    lemma_unescaped(key, key.len() as int, Seq::empty());
    assert(part + Seq::<char>::empty() =~= part);
    assert(key.take(key.len() as int) + unescaped(Seq::empty()) =~= key);
}

/// Members with different keys are at different places.
pub proof fn law_members_differ(j: SpecJson, a: Seq<char>, b: Seq<char>)
    requires
        json::member(j, a) == json::member(j, b),
    ensures
        a == b,
{
    law_members(j, a);
    law_members(j, b);
}

/// Looking a key up gives what stands at the member: a number where it is one, and
/// NaN where no double stands for it; a text where it is one; and the set of what is
/// below it otherwise. It goes wrong if and only if there is no object to look it up
/// in, or no such member.
pub proof fn law_lookups(m: NumberModel, base: SpecValue, key: Seq<char>)
    ensures
        match (base, value::subset_of(m, base, key)) {
            (SpecValue::Subsets(j), Ok(v)) => {
                let k = json::member(j, key);
                let node = json::json_node(k.text, k.pointer);
                &&& json::json_node(j.text, j.pointer) is Object
                &&& node !is Absent
                &&& node matches SpecJsonNode::Number(n) ==> (v matches SpecValue::Number(b) && (
                n matches Some(c) ==> b == c) && (n is None ==> number::is_nan(b)))
                &&& node matches SpecJsonNode::Text(s) ==> v == SpecValue::Str(s)
                &&& node is Object || node is Other ==> v == SpecValue::Subsets(k)
            },
            (SpecValue::Subsets(j), Err(_)) => {
                let k = json::member(j, key);
                json::json_node(j.text, j.pointer) !is Object || json::json_node(
                    k.text,
                    k.pointer,
                ) is Absent
            },
            (_, r) => r is Err,
        },
{
}

} // verus!
