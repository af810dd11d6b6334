//! YAML values as the workflow parser hands them over: scalars, sequences and
//! mappings (entries in document order), with the text the YAML writer gives
//! every compound value.

use vstd::prelude::*;

use crate::smap::str_eq;
use crate::text::owned;

verus! {

/// A YAML value. A number keeps the text YAML writes for it; a sequence, a
/// mapping and a tagged value keep, beside their contents, the text the YAML
/// writer produces for the whole value (trimmed).
#[derive(Debug)]
pub enum Yaml {
    Null,
    Bool(bool),
    Number(String),
    Str(String),
    List(Vec<Yaml>, String),
    Mapping(Vec<(Yaml, Yaml)>, String),
    Tagged(String),
}

impl Yaml {
    /// The string of a string value (`Value::as_str`).
    pub open spec fn str_spec(&self) -> Option<Seq<char>> {
        match self {
            Yaml::Str(s) => Some(s@),
            _ => None,
        }
    }

    /// The string of a string value.
    pub fn as_str(&self) -> (r: Option<&String>)
        ensures
            match r {
                Some(s) => self.str_spec() == Some(s@),
                None => self.str_spec() is None,
            },
    {
        match self {
            Yaml::Str(s) => Some(s),
            _ => None,
        }
    }

    /// The boolean of a boolean value (`Value::as_bool`).
    pub fn as_bool(&self) -> (r: Option<bool>)
        ensures
            r == match self {
                Yaml::Bool(b) => Some(*b),
                _ => None,
            },
    {
        match self {
            Yaml::Bool(b) => Some(*b),
            _ => None,
        }
    }
}

/// Index of the first entry of `m` whose key is the string `key`.
pub open spec fn entry_index(m: Seq<(Yaml, Yaml)>, key: Seq<char>) -> Option<int>
    decreases m.len(),
{
    if m.len() == 0 {
        None
    } else if m[0].0.str_spec() == Some(key) {
        Some(0)
    } else {
        match entry_index(m.drop_first(), key) {
            Some(i) => Some(i + 1),
            None => None,
        }
    }
}

pub proof fn lemma_entry_index(m: Seq<(Yaml, Yaml)>, key: Seq<char>)
    ensures
        entry_index(m, key) matches Some(i) ==> 0 <= i < m.len() && m[i].0.str_spec() == Some(key),
    decreases m.len(),
{
    if m.len() > 0 && m[0].0.str_spec() != Some(key) {
        lemma_entry_index(m.drop_first(), key);
    }
}

/// The value stored under the string key `key` in the mapping entries `m`
/// (`Mapping::get`).
pub open spec fn map_get(m: Seq<(Yaml, Yaml)>, key: Seq<char>) -> Option<Yaml> {
    match entry_index(m, key) {
        Some(i) => Some(m[i].1),
        None => None,
    }
}

/// The value under the string key `key` of mapping entries.
pub fn mapping_get<'a>(m: &'a Vec<(Yaml, Yaml)>, key: &str) -> (r: Option<&'a Yaml>)
    ensures
        match r {
            Some(v) => map_get(m@, key@) == Some(*v),
            None => map_get(m@, key@) is None,
        },
{
    let mut i: usize = 0;
    assert(m@.skip(0) =~= m@);
    while i < m.len()
        invariant
            i <= m@.len(),
            entry_index(m@, key@) == match entry_index(m@.skip(i as int), key@) {
                Some(j) => Some(j + i),
                None => None,
            },
        decreases m.len() - i,
    {
        assert(m@.skip(i as int)[0] == m@[i as int]);
        assert(m@.skip(i as int).drop_first() =~= m@.skip(i + 1));
        let hit = match m[i].0.as_str() {
            Some(s) => str_eq(s.as_str(), key),
            None => false,
        };
        if hit {
            return Some(&m[i].1);
        }
        i += 1;
    }
    assert(m@.skip(i as int).len() == 0);
    None
}

/// The text of a plain scalar (not a sequence, mapping or tagged value):
/// `null`, `true`/`false`, the number's text, or the string itself.
pub open spec fn scalar_text(v: Yaml) -> Option<Seq<char>> {
    match v {
        Yaml::Null => Some("null"@),
        Yaml::Bool(b) => Some(if b {
            "true"@
        } else {
            "false"@
        }),
        Yaml::Number(n) => Some(n@),
        Yaml::Str(s) => Some(s@),
        _ => None,
    }
}

/// The text of a plain scalar; see [`scalar_text`].
pub fn scalar_to_string(v: &Yaml) -> (r: Option<String>)
    ensures
        match r {
            Some(s) => scalar_text(*v) == Some(s@),
            None => scalar_text(*v) is None,
        },
{
    match v {
        Yaml::Null => Some(owned("null")),
        Yaml::Bool(b) => Some(if *b {
            owned("true")
        } else {
            owned("false")
        }),
        Yaml::Number(n) => Some(n.clone()),
        Yaml::Str(s) => Some(s.clone()),
        _ => None,
    }
}

/// The text of a string, boolean or number (not null).
pub open spec fn scalar_string_spec(v: Yaml) -> Option<Seq<char>> {
    match v {
        Yaml::Null => None,
        _ => scalar_text(v),
    }
}

/// The text of a string, boolean or number; see [`scalar_string_spec`].
pub fn scalar_string(v: &Yaml) -> (r: Option<String>)
    ensures
        match r {
            Some(s) => scalar_string_spec(*v) == Some(s@),
            None => scalar_string_spec(*v) is None,
        },
{
    match v {
        Yaml::Null => None,
        _ => scalar_to_string(v),
    }
}

/// Any value as text: a scalar's text, otherwise the text the YAML writer
/// gives it.
pub open spec fn any_text(v: Yaml) -> Seq<char> {
    match v {
        Yaml::List(_, t) => t@,
        Yaml::Mapping(_, t) => t@,
        Yaml::Tagged(t) => t@,
        _ => scalar_text(v)->0,
    }
}

/// Any value as text; see [`any_text`].
pub fn to_text(v: &Yaml) -> (r: String)
    ensures
        r@ == any_text(*v),
{
    match v {
        Yaml::List(_, t) => t.clone(),
        Yaml::Mapping(_, t) => t.clone(),
        Yaml::Tagged(t) => t.clone(),
        Yaml::Null => owned("null"),
        Yaml::Bool(b) => if *b {
            owned("true")
        } else {
            owned("false")
        },
        Yaml::Number(n) => n.clone(),
        Yaml::Str(s) => s.clone(),
    }
}

/// `a` and `b` are the same value, nested items and source text included.
pub open spec fn same_yaml(a: Yaml, b: Yaml) -> bool
    decreases a, 1int,
{
    match a {
        Yaml::Null => b is Null,
        Yaml::Bool(x) => b matches Yaml::Bool(y) && x == y,
        Yaml::Number(x) => b matches Yaml::Number(y) && x@ == y@,
        Yaml::Str(x) => b matches Yaml::Str(y) && x@ == y@,
        Yaml::Tagged(x) => b matches Yaml::Tagged(y) && x@ == y@,
        Yaml::List(xs, t) => b matches Yaml::List(ys, u) && t@ == u@ && same_yamls(xs@, ys@),
        Yaml::Mapping(es, t) => b matches Yaml::Mapping(fs, u) && t@ == u@ && same_entries(es@, fs@),
    }
}

/// Two lists of values of one length, the same value at every index.
pub open spec fn same_yamls(a: Seq<Yaml>, b: Seq<Yaml>) -> bool
    decreases a, 0int,
{
    &&& a.len() == b.len()
    &&& (a.len() > 0 ==> same_yaml(a.last(), b.last()) && same_yamls(a.drop_last(), b.drop_last()))
}

/// Two lists of entries of one length, the same key and value at every index.
pub open spec fn same_entries(a: Seq<(Yaml, Yaml)>, b: Seq<(Yaml, Yaml)>) -> bool
    decreases a, 0int,
{
    &&& a.len() == b.len()
    &&& (a.len() > 0 ==> same_yaml(a.last().0, b.last().0) && same_yaml(a.last().1, b.last().1) && same_entries(
        a.drop_last(),
        b.drop_last(),
    ))
}

/// A deep copy of a value.
pub fn copy_yaml(v: &Yaml) -> (r: Yaml)
    ensures
        same_yaml(r, *v),
    decreases v,
{
    match v {
        Yaml::Null => Yaml::Null,
        Yaml::Bool(b) => Yaml::Bool(*b),
        Yaml::Number(n) => Yaml::Number(n.clone()),
        Yaml::Str(s) => Yaml::Str(s.clone()),
        Yaml::List(items, t) => {
            let mut out: Vec<Yaml> = Vec::new();
            let mut i: usize = 0;
            while i < items.len()
                invariant
                    *v == Yaml::List(*items, *t),
                    i <= items@.len(),
                    same_yamls(out@, items@.take(i as int)),
                decreases items.len() - i,
            {
                proof {
                    vstd::std_specs::vec::axiom_vec_index_decreases(*items, i as int);
                    assert(decreases_to!(*v => (*v)->List_0));
                    assert(decreases_to!(*v => items[i as int]));
                }
                let c = copy_yaml(&items[i]);
                proof {
                    assert(out@.push(c).drop_last() =~= out@);
                    assert(items@.take(i + 1).drop_last() =~= items@.take(i as int));
                }
                out.push(c);
                i += 1;
            }
            assert(items@.take(i as int) =~= items@);
            Yaml::List(out, t.clone())
        },
        Yaml::Mapping(entries, t) => {
            let mut out: Vec<(Yaml, Yaml)> = Vec::new();
            let mut i: usize = 0;
            while i < entries.len()
                invariant
                    *v == Yaml::Mapping(*entries, *t),
                    i <= entries@.len(),
                    same_entries(out@, entries@.take(i as int)),
                decreases entries.len() - i,
            {
                proof {
                    vstd::std_specs::vec::axiom_vec_index_decreases(*entries, i as int);
                    assert(decreases_to!(*v => (*v)->Mapping_0));
                    assert(decreases_to!(*v => entries[i as int]));
                    assert(decreases_to!(*v => entries[i as int].0));
                    assert(decreases_to!(*v => entries[i as int].1));
                }
                let k = copy_yaml(&entries[i].0);
                let w = copy_yaml(&entries[i].1);
                proof {
                    assert(out@.push((k, w)).drop_last() =~= out@);
                    assert(entries@.take(i + 1).drop_last() =~= entries@.take(i as int));
                }
                out.push((k, w));
                i += 1;
            }
            assert(entries@.take(i as int) =~= entries@);
            Yaml::Mapping(out, t.clone())
        },
        Yaml::Tagged(t) => Yaml::Tagged(t.clone()),
    }
}

} // verus!
