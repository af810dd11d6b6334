//! JSON values of the expression language, held as the compact text
//! `serde_json` writes for them.

use vstd::prelude::*;

verus! {

/// The compact text of the JSON document `text`, or `None` when `text` is not
/// JSON.
pub uninterp spec fn json_compact(text: Seq<char>) -> Option<Seq<char>>;

/// The contents of the JSON string `text`, or `None` when `text` is not a
/// JSON string.
pub uninterp spec fn json_string_of(text: Seq<char>) -> Option<Seq<char>>;

/// The compact texts of the elements of the JSON array `text`, or `None` when
/// `text` is not a JSON array.
pub uninterp spec fn json_items(text: Seq<char>) -> Option<Seq<Seq<char>>>;

/// The lower-case hex digits.
pub open spec fn hex_chars() -> Seq<char> {
    seq!['0', '1', '2', '3', '4', '5', '6', '7', '8', '9', 'a', 'b', 'c', 'd', 'e', 'f']
}

/// How `c` is written inside a JSON string: `"` and `\` after a backslash,
/// backspace, tab, line feed, form feed and carriage return by their short
/// escapes, the other characters below U+0020 as `\u00XX`, and every other
/// character as it is.
pub open spec fn json_escape_char(c: char) -> Seq<char> {
    let n = c as u32;
    if c == '"' {
        seq!['\\', '"']
    } else if c == '\\' {
        seq!['\\', '\\']
    } else if n == 8 {
        seq!['\\', 'b']
    } else if n == 9 {
        seq!['\\', 't']
    } else if n == 10 {
        seq!['\\', 'n']
    } else if n == 12 {
        seq!['\\', 'f']
    } else if n == 13 {
        seq!['\\', 'r']
    } else if n < 32 {
        seq!['\\', 'u', '0', '0', hex_chars()[(n / 16) as int], hex_chars()[(n % 16) as int]]
    } else {
        seq![c]
    }
}

/// The characters of `s` escaped one by one.
pub open spec fn json_escaped(s: Seq<char>) -> Seq<char>
    decreases s.len(),
{
    if s.len() == 0 {
        Seq::empty()
    } else {
        json_escaped(s.drop_last()) + json_escape_char(s.last())
    }
}

/// The JSON string literal for `s`, as `serde_json` writes it.
pub open spec fn json_quoted(s: Seq<char>) -> Seq<char> {
    seq!['"'] + json_escaped(s) + seq!['"']
}

/// Whether `a` and `b` parse to equal JSON values, or both fail to parse.
pub uninterp spec fn json_same(a: Seq<char>, b: Seq<char>) -> bool;

/// An optional string taken by view.
pub open spec fn opt_view(o: Option<String>) -> Option<Seq<char>> {
    match o {
        Some(s) => Some(s@),
        None => None,
    }
}

/// Parses `text` with `serde_json::from_str` into a `serde_json::Value` and
/// writes that value back in compact form (its `Display`); the result is
/// named, not described.
#[verifier::external_body]
pub(crate) fn parse_json_compact(text: &str) -> (r: Option<String>)
    ensures
        opt_view(r) == json_compact(text@),
{
    match serde_json::from_str::<serde_json::Value>(text) {
        Ok(value) => Some(value.to_string()),
        Err(_) => None,
    }
}

/// Parses `text` with `serde_json::from_str` and, when it is a JSON string,
/// hands back its contents.
#[verifier::external_body]
pub(crate) fn json_string_contents(text: &str) -> (r: Option<String>)
    ensures
        opt_view(r) == json_string_of(text@),
{
    match serde_json::from_str::<serde_json::Value>(text) {
        Ok(serde_json::Value::String(s)) => Some(s),
        _ => None,
    }
}

/// Parses `text` with `serde_json::from_str` and, when it is a JSON array,
/// hands back each element written in compact form.
#[verifier::external_body]
pub(crate) fn json_array_items(text: &str) -> (r: Option<Vec<String>>)
    ensures
        match (r, json_items(text@)) {
            (Some(v), Some(s)) => v@.len() == s.len() && forall|i: int| 0 <= i < s.len() ==> (#[trigger] v@[i])@ == s[i],
            (None, None) => true,
            _ => false,
        },
{
    match serde_json::from_str::<serde_json::Value>(text) {
        Ok(serde_json::Value::Array(items)) => Some(items.iter().map(|item| item.to_string()).collect()),
        _ => None,
    }
}

/// Writes `s` as a JSON string literal, escaped as `serde_json` escapes it.
pub(crate) fn json_quote(s: &str) -> (r: String)
    ensures
        r@ == json_quoted(s@),
{
    let v = crate::text::chars_of(s);
    let hex: Vec<char> = vec!['0', '1', '2', '3', '4', '5', '6', '7', '8', '9', 'a', 'b', 'c', 'd', 'e', 'f'];
    assert(hex@ =~= hex_chars());
    let mut out = String::new();
    crate::text::push_char(&mut out, '"');
    let mut i: usize = 0;
    while i < v.len()
        invariant
            i <= v@.len(),
            v@ == s@,
            hex@ == hex_chars(),
            out@ == seq!['"'] + json_escaped(v@.take(i as int)),
        decreases v.len() - i,
    {
        let c = v[i];
        let n = c as u32;
        let ghost before = out@;
        if c == '"' || c == '\\' {
            crate::text::push_char(&mut out, '\\');
            crate::text::push_char(&mut out, c);
        } else if n == 8 {
            crate::text::push_char(&mut out, '\\');
            crate::text::push_char(&mut out, 'b');
        } else if n == 9 {
            crate::text::push_char(&mut out, '\\');
            crate::text::push_char(&mut out, 't');
        } else if n == 10 {
            crate::text::push_char(&mut out, '\\');
            crate::text::push_char(&mut out, 'n');
        } else if n == 12 {
            crate::text::push_char(&mut out, '\\');
            crate::text::push_char(&mut out, 'f');
        } else if n == 13 {
            crate::text::push_char(&mut out, '\\');
            crate::text::push_char(&mut out, 'r');
        } else if n < 32 {
            crate::text::push_char(&mut out, '\\');
            crate::text::push_char(&mut out, 'u');
            crate::text::push_char(&mut out, '0');
            crate::text::push_char(&mut out, '0');
            crate::text::push_char(&mut out, hex[(n / 16) as usize]);
            crate::text::push_char(&mut out, hex[(n % 16) as usize]);
        } else {
            crate::text::push_char(&mut out, c);
        }
        proof {
            assert(v@.take(i + 1).drop_last() =~= v@.take(i as int));
            assert(v@.take(i + 1).last() == c);
            assert(out@ =~= before + json_escape_char(c));
        }
        i += 1;
    }
    crate::text::push_char(&mut out, '"');
    assert(v@.take(i as int) =~= s@);
    out
}

/// Parses `a` and `b` with `serde_json::from_str` and compares the results
/// with `serde_json::Value`'s `==`.
#[verifier::external_body]
pub(crate) fn json_equal(a: &str, b: &str) -> (r: bool)
    ensures
        r == json_same(a@, b@),
{
    serde_json::from_str::<serde_json::Value>(a).ok() == serde_json::from_str::<serde_json::Value>(b).ok()
}

} // verus!
