//! A map from names to values that keeps its names in the order in which they
//! were first added.

#[allow(unused_imports)]
use crate::text;
use vstd::prelude::*;

verus! {

/// The index of the first entry for `name` from `i` on; the number of entries
/// where there is none.
pub open spec fn find_from<W>(es: Seq<(Seq<char>, W)>, name: Seq<char>, i: int) -> int
    decreases es.len() - i,
{
    if i < 0 || i >= es.len() {
        es.len() as int
    } else if es[i].0 == name {
        i
    } else {
        find_from(es, name, i + 1)
    }
}

/// What `name` stands for, if anything.
pub open spec fn lookup<W>(es: Seq<(Seq<char>, W)>, name: Seq<char>) -> Option<W> {
    let i = find_from(es, name, 0);
    if i < es.len() {
        Some(es[i].1)
    } else {
        None
    }
}

/// The entries with `name` standing for `value`: in the place that `name` had,
/// or after all others.
pub open spec fn put<W>(es: Seq<(Seq<char>, W)>, name: Seq<char>, value: W) -> Seq<
    (Seq<char>, W),
> {
    let i = find_from(es, name, 0);
    if i < es.len() {
        es.update(i, (name, value))
    } else {
        es.push((name, value))
    }
}

/// No name has two entries.
pub open spec fn distinct<W>(es: Seq<(Seq<char>, W)>) -> bool {
    forall|i: int, j: int| 0 <= i < j < es.len() ==> (#[trigger] es[i]).0 != (#[trigger] es[j]).0
}

/// The search stops at an entry for the name, or has passed none.
pub proof fn lemma_find<W>(es: Seq<(Seq<char>, W)>, name: Seq<char>, i: int)
    requires
        0 <= i <= es.len(),
    ensures
        i <= find_from(es, name, i) <= es.len(),
        find_from(es, name, i) < es.len() ==> es[find_from(es, name, i)].0 == name,
        forall|j: int| i <= j < find_from(es, name, i) ==> (#[trigger] es[j]).0 != name,
    decreases es.len() - i,
{
    if i < es.len() && es[i].0 != name {
        lemma_find(es, name, i + 1);
    }
}

proof fn lemma_find_is<W>(es: Seq<(Seq<char>, W)>, name: Seq<char>, k: int)
    requires
        0 <= k <= es.len(),
        forall|j: int| 0 <= j < k ==> (#[trigger] es[j]).0 != name,
        k < es.len() ==> es[k].0 == name,
    ensures
        find_from(es, name, 0) == k,
{
    lemma_find(es, name, 0);
}

/// After `put`, the name stands for the value and every other name for what it
/// stood for before.
pub proof fn law_put<W>(es: Seq<(Seq<char>, W)>, name: Seq<char>, value: W, other: Seq<char>)
    ensures
        lookup(put(es, name, value), name) == Some(value),
        other != name ==> lookup(put(es, name, value), other) == lookup(es, other),
        distinct(es) ==> distinct(put(es, name, value)),
{
    let after = put(es, name, value);
    let i = find_from(es, name, 0);
    lemma_find(es, name, 0);
    lemma_find_is(after, name, i);
    if other != name {
        let k = find_from(es, other, 0);
        lemma_find(es, other, 0);
        if k < es.len() {
            lemma_find_is(after, other, k);
        } else {
            lemma_find_is(after, other, after.len() as int);
        }
    }
}

/// The names, in order.
pub open spec fn names_of<W>(es: Seq<(Seq<char>, W)>) -> Seq<Seq<char>> {
    es.map_values(|e: (Seq<char>, W)| e.0)
}

/// A name that is there keeps its place, and a new one comes after all others.
pub proof fn law_put_keeps_the_order<W>(es: Seq<(Seq<char>, W)>, name: Seq<char>, value: W)
    ensures
        names_of(put(es, name, value)) == (if names_of(es).contains(name) {
            names_of(es)
        } else {
            names_of(es).push(name)
        }),
{
    let i = find_from(es, name, 0);
    lemma_find(es, name, 0);
    let ns = names_of(es);
    if i < es.len() {
        assert(ns[i] == name);
        assert(names_of(put(es, name, value)) =~= ns);
    } else {
        if ns.contains(name) {
            let j = ns.index_of(name);
            assert(es[j].0 == name);
        }
        assert(names_of(put(es, name, value)) =~= ns.push(name));
    }
}

/// A map from names to values.
#[derive(Debug)]
pub struct NameMap<V> {
    pub entries: Vec<(String, V)>,
}

impl<V: View> View for NameMap<V> {
    type V = Seq<(Seq<char>, V::V)>;

    open spec fn view(&self) -> Seq<(Seq<char>, V::V)> {
        self.entries@.map_values(|e: (String, V)| (e.0@, e.1@))
    }
}

impl<V: View> NameMap<V> {
    pub fn new() -> (r: Self)
        ensures
            r@ == Seq::<(Seq<char>, V::V)>::empty(),
    {
        let r = NameMap { entries: Vec::new() };
        proof {
            assert(r@ =~= Seq::<(Seq<char>, V::V)>::empty());
        }
        r
    }

    /// The index of the entry for `name`, if there is one.
    pub fn position(&self, name: &str) -> (r: Option<usize>)
        ensures
            match r {
                Some(i) => i == find_from(self@, name@, 0) && i < self@.len(),
                None => find_from(self@, name@, 0) == self@.len(),
            },
    {
        let mut i: usize = 0;
        while i < self.entries.len()
            invariant
                i <= self.entries@.len(),
                find_from(self@, name@, 0) == find_from(self@, name@, i as int),
            decreases self.entries@.len() - i,
        {
            if text::same_text(self.entries[i].0.as_str(), name) {
                return Some(i);
            }
            i = i + 1;
        }
        None
    }

    /// What `name` stands for.
    pub fn get(&self, name: &str) -> (r: Option<&V>)
        ensures
            match r {
                Some(v) => lookup(self@, name@) == Some(v@),
                None => lookup(self@, name@) is None,
            },
    {
        match self.position(name) {
            Some(i) => Some(&self.entries[i].1),
            None => None,
        }
    }

    /// Whether `name` stands for anything.
    pub fn contains(&self, name: &str) -> (r: bool)
        ensures
            r == (lookup(self@, name@) is Some),
    {
        match self.position(name) {
            Some(_) => true,
            None => false,
        }
    }

    /// Let `name` stand for `value`.
    pub fn insert(&mut self, name: String, value: V)
        ensures
            final(self)@ == put(old(self)@, name@, value@),
    {
        let ghost before = self@;
        let ghost entry = (name@, value@);
        match self.position(name.as_str()) {
            Some(i) => {
                self.entries.set(i, (name, value));
                proof {
                    assert(self@ =~= before.update(i as int, entry));
                }
            },
            None => {
                self.entries.push((name, value));
                proof {
                    assert(self@ =~= before.push(entry));
                }
            },
        }
    }
}

/// A value that can be copied.
pub trait Duplicate: View + Sized {
    fn duplicate(&self) -> (r: Self)
        ensures
            r@ == self@,
    ;
}

/// The views of a list of maps.
pub open spec fn scopes_view<V: View>(scopes: Seq<NameMap<V>>) -> Seq<Seq<(Seq<char>, V::V)>> {
    scopes.map_values(|s: NameMap<V>| s@)
}

/// The innermost of the first `n` scopes that has `name`, counted from one; 0
/// where none has it.
pub open spec fn scope_of<W>(scopes: Seq<Seq<(Seq<char>, W)>>, name: Seq<char>, n: int) -> int
    decreases n,
{
    if n <= 0 {
        0
    } else if lookup(scopes[n - 1], name) is Some {
        n
    } else {
        scope_of(scopes, name, n - 1)
    }
}

/// What `name` stands for in the innermost scope that has it.
pub open spec fn lookup_in<W>(scopes: Seq<Seq<(Seq<char>, W)>>, name: Seq<char>) -> Option<W> {
    let n = scope_of(scopes, name, scopes.len() as int);
    if n > 0 {
        lookup(scopes[n - 1], name)
    } else {
        None
    }
}

/// The scopes with `name` standing for `value` in the `i`th.
pub open spec fn put_in<W>(
    scopes: Seq<Seq<(Seq<char>, W)>>,
    i: int,
    name: Seq<char>,
    value: W,
) -> Seq<Seq<(Seq<char>, W)>> {
    scopes.update(i, put(scopes[i], name, value))
}

/// The search stops at a scope that has the name, or has passed none.
pub proof fn lemma_scope_of<W>(scopes: Seq<Seq<(Seq<char>, W)>>, name: Seq<char>, n: int)
    requires
        0 <= n <= scopes.len(),
    ensures
        0 <= scope_of(scopes, name, n) <= n,
        scope_of(scopes, name, n) > 0 ==> lookup(
            scopes[scope_of(scopes, name, n) - 1],
            name,
        ) is Some,
        forall|i: int|
            scope_of(scopes, name, n) <= i < n ==> lookup(#[trigger] scopes[i], name) is None,
    decreases n,
{
    if n > 0 && lookup(scopes[n - 1], name) is None {
        lemma_scope_of(scopes, name, n - 1);
    }
}

/// The innermost scope that has `name`.
pub fn find_scope<V: View>(scopes: &Vec<NameMap<V>>, name: &str) -> (r: Option<usize>)
    ensures
        match r {
            Some(i) => {
                &&& i < scopes@.len()
                &&& i + 1 == scope_of(scopes_view(scopes@), name@, scopes@.len() as int)
            },
            None => scope_of(scopes_view(scopes@), name@, scopes@.len() as int) == 0,
        },
{
    let mut n: usize = scopes.len();
    while n > 0
        invariant
            n <= scopes@.len(),
            scope_of(scopes_view(scopes@), name@, scopes@.len() as int) == scope_of(
                scopes_view(scopes@),
                name@,
                n as int,
            ),
        decreases n,
    {
        proof {
            assert(scopes_view(scopes@)[n - 1] == scopes@[n - 1]@);
        }
        if scopes[n - 1].contains(name) {
            return Some(n - 1);
        }
        n = n - 1;
    }
    None
}

/// What `name` stands for in the innermost scope that has it.
pub fn find_in<'a, V: View>(scopes: &'a Vec<NameMap<V>>, name: &str) -> (r: Option<&'a V>)
    ensures
        match r {
            Some(v) => lookup_in(scopes_view(scopes@), name@) == Some(v@),
            None => lookup_in(scopes_view(scopes@), name@) is None,
        },
{
    match find_scope(scopes, name) {
        Some(i) => {
            proof {
                assert(scopes_view(scopes@)[i as int] == scopes@[i as int]@);
                lemma_scope_of(scopes_view(scopes@), name@, scopes@.len() as int);
            }
            scopes[i].get(name)
        },
        None => None,
    }
}

/// Let `name` stand for `value` in the `i`th scope.
pub fn set_in<V: View>(scopes: &mut Vec<NameMap<V>>, i: usize, name: String, value: V)
    requires
        i < old(scopes)@.len(),
    ensures
        scopes_view(final(scopes)@) == put_in(
            scopes_view(old(scopes)@),
            i as int,
            name@,
            value@,
        ),
        final(scopes)@.len() == old(scopes)@.len(),
{
    let ghost before = scopes_view(scopes@);
    proof {
        assert(before[i as int] == scopes@[i as int]@);
    }
    scopes[i].insert(name, value);
    proof {
        assert(scopes_view(scopes@) =~= put_in(before, i as int, name@, value@));
    }
}

/// The same map again.
pub fn copy_map<V: Duplicate>(map: &NameMap<V>) -> (r: NameMap<V>)
    ensures
        r@ == map@,
{
    let mut out: NameMap<V> = NameMap::new();
    let mut i: usize = 0;
    while i < map.entries.len()
        invariant
            i <= map.entries@.len(),
            out@ == map@.take(i as int),
        decreases map.entries@.len() - i,
    {
        let ghost before = out@;
        out.entries.push((map.entries[i].0.clone(), map.entries[i].1.duplicate()));
        proof {
            assert(out@ =~= before.push(map@[i as int]));
            assert(map@.take(i + 1) =~= map@.take(i as int).push(map@[i as int]));
        }
        i = i + 1;
    }
    proof {
        assert(map@.take(i as int) =~= map@);
    }
    out
}

/// The same scopes again.
pub fn copy_scopes<V: Duplicate>(scopes: &Vec<NameMap<V>>) -> (r: Vec<NameMap<V>>)
    ensures
        scopes_view(r@) == scopes_view(scopes@),
        r@.len() == scopes@.len(),
{
    let mut out: Vec<NameMap<V>> = Vec::new();
    let mut i: usize = 0;
    while i < scopes.len()
        invariant
            i <= scopes@.len(),
            out@.len() == i,
            scopes_view(out@) == scopes_view(scopes@).take(i as int),
        decreases scopes@.len() - i,
    {
        let ghost before = out@;
        let scope = copy_map(&scopes[i]);
        out.push(scope);
        proof {
            assert(scopes_view(out@) =~= scopes_view(before).push(scope@));
            assert(scopes_view(scopes@).take(i + 1) =~= scopes_view(scopes@).take(
                i as int,
            ).push(scopes@[i as int]@));
        }
        i = i + 1;
    }
    proof {
        assert(scopes_view(scopes@).take(i as int) =~= scopes_view(scopes@));
    }
    out
}

} // verus!
