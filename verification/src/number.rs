//! Numbers of the expression language, held exactly as normalized decimals.
//!
//! A number literal is whatever Rust's `f64` parser accepts; its value is kept
//! as sign, significant digits and a decimal exponent, so every decimal with
//! at most fifteen significant digits, inside the `f64` range, compares and
//! prints exactly as the `f64` it denotes.

use vstd::prelude::*;

use crate::text::{chars_of, push_char};

verus! {

/// A number: a finite decimal `(-1)^neg * digits * 10^exp` (digits most
/// significant first, no leading or trailing zero; no digits at all for zero),
/// an infinity, or not-a-number.
#[derive(Debug, PartialEq, Eq)]
pub enum Num {
    Finite { neg: bool, digits: Vec<u8>, exp: i128 },
    Inf { neg: bool },
    NaN,
}

/// The view of a [`Num`].
pub enum SNum {
    Finite { neg: bool, digits: Seq<u8>, exp: int },
    Inf { neg: bool },
    NaN,
}

impl Num {
    pub open spec fn sv(&self) -> SNum {
        match self {
            Num::Finite { neg, digits, exp } => SNum::Finite { neg: *neg, digits: digits@, exp: *exp as int },
            Num::Inf { neg } => SNum::Inf { neg: *neg },
            Num::NaN => SNum::NaN,
        }
    }

    pub fn duplicate(&self) -> (r: Num)
        ensures
            r.sv() == self.sv(),
    {
        match self {
            Num::Finite { neg, digits, exp } => Num::Finite { neg: *neg, digits: digits.clone(), exp: *exp },
            Num::Inf { neg } => Num::Inf { neg: *neg },
            Num::NaN => Num::NaN,
        }
    }
}

/// Digits in `0..=9`, none leading or trailing zero.
pub open spec fn normal_digits(d: Seq<u8>) -> bool {
    &&& forall|i: int| 0 <= i < d.len() ==> #[trigger] d[i] <= 9
    &&& d.len() > 0 ==> d[0] != 0 && d.last() != 0
}

/// A well-formed number: normalized digits, zero exponent for zero.
pub open spec fn wf_num(n: SNum) -> bool {
    match n {
        SNum::Finite { neg, digits, exp } => normal_digits(digits) && (digits.len() == 0 ==> exp == 0)
            && (digits.len() > 0 ==> -324 <= digits.len() + exp <= 309)
            && -0x1_0000_0000_0000_0000_0000 <= exp <= 0x1_0000_0000_0000_0000_0000,
        _ => true,
    }
}

// ---------------------------------------------------------------------------
// Parsing (the grammar of `str::parse::<f64>`)
// ---------------------------------------------------------------------------

pub open spec fn is_digit(c: char) -> bool {
    '0' <= c && c <= '9'
}

pub open spec fn digit_val(c: char) -> u8 {
    ((c as u32) - ('0' as u32)) as u8
}

/// ASCII lower-case of `c`.
pub open spec fn lower(c: char) -> char {
    if 'A' <= c && c <= 'Z' {
        ((c as u8) + 32) as char
    } else {
        c
    }
}

/// `s` equals `w` (given in lower case) ignoring ASCII case.
pub open spec fn eq_nocase(s: Seq<char>, w: Seq<char>) -> bool {
    s.len() == w.len() && forall|i: int| 0 <= i < s.len() ==> lower(#[trigger] s[i]) == w[i]
}

/// Length of the run of ASCII digits of `s` from `i`.
pub open spec fn digit_run(s: Seq<char>, i: int) -> nat
    decreases s.len() - i,
{
    if 0 <= i < s.len() && is_digit(s[i]) {
        1 + digit_run(s, i + 1)
    } else {
        0
    }
}

/// The decimal value of digits `s[i..j]`.
pub open spec fn digits_value(s: Seq<char>, i: int, j: int) -> nat
    decreases j - i,
{
    if j <= i {
        0
    } else {
        digits_value(s, i, j - 1) * 10 + digit_val(s[j - 1]) as nat
    }
}

/// The digit values of `s[i..j]`.
pub open spec fn digit_seq(s: Seq<char>, i: int, j: int) -> Seq<u8> {
    s.subrange(i, j).map_values(|c: char| digit_val(c))
}

/// Exponents beyond this size put any literal far outside the `f64` range.
pub open spec fn exp_cap() -> int {
    1_000_000_000_000
}

/// Number of leading zeros of `d`.
pub open spec fn lead_zeros(d: Seq<u8>) -> nat
    decreases d.len(),
{
    if d.len() > 0 && d[0] == 0 {
        1 + lead_zeros(d.drop_first())
    } else {
        0
    }
}

/// Number of trailing zeros of `d`.
pub open spec fn trail_zeros(d: Seq<u8>) -> nat
    decreases d.len(),
{
    if d.len() > 0 && d.last() == 0 {
        1 + trail_zeros(d.drop_last())
    } else {
        0
    }
}

/// The normalized number with sign `neg`, raw digits `d` and exponent `e`
/// (value `d * 10^e`), saturated to an infinity or zero far outside the
/// `f64` range.
pub open spec fn normalize(neg: bool, d: Seq<u8>, e: int) -> SNum {
    let lz = lead_zeros(d);
    if lz >= d.len() {
        SNum::Finite { neg, digits: Seq::empty(), exp: 0 }
    } else {
        let tz = trail_zeros(d);
        let sig = d.subrange(lz as int, d.len() - tz);
        let exp = e + tz;
        let order = sig.len() + exp;
        if order > 309 {
            SNum::Inf { neg }
        } else if order < -324 {
            SNum::Finite { neg, digits: Seq::empty(), exp: 0 }
        } else {
            SNum::Finite { neg, digits: sig, exp }
        }
    }
}

/// What `str::parse::<f64>` makes of `s`: an optional sign, then `inf`,
/// `infinity` or `nan` in any case, or digits with an optional fraction (at
/// least one digit in all) and an optional exponent.
pub open spec fn parse_num_spec(s: Seq<char>) -> Option<SNum> {
    let signed = s.len() > 0 && (s[0] == '+' || s[0] == '-');
    let neg = s.len() > 0 && s[0] == '-';
    let b: int = if signed { 1 } else { 0 };
    let body = s.subrange(b, s.len() as int);
    if eq_nocase(body, seq!['i', 'n', 'f']) || eq_nocase(body, seq!['i', 'n', 'f', 'i', 'n', 'i', 't', 'y']) {
        Some(SNum::Inf { neg })
    } else if eq_nocase(body, seq!['n', 'a', 'n']) {
        Some(SNum::NaN)
    } else {
        decimal_spec(s, b, neg)
    }
}

/// The decimal literal of `s` from index `b` (after any sign).
pub open spec fn decimal_spec(s: Seq<char>, b: int, neg: bool) -> Option<SNum> {
    let n1 = digit_run(s, b);
    let dot = b + n1 < s.len() && s[b + n1] == '.';
    let f0 = if dot { b + n1 + 1 } else { b + n1 };
    let n2 = if dot { digit_run(s, f0) } else { 0 };
    let m = f0 + n2;
    let d = digit_seq(s, b, b + n1) + digit_seq(s, f0, m);
    if n1 + n2 == 0 {
        None
    } else if m == s.len() {
        Some(normalize(neg, d, -(n2 as int)))
    } else if s[m] == 'e' || s[m] == 'E' {
        exponent_spec(s, m + 1, neg, d, n2 as int)
    } else {
        None
    }
}

/// The exponent part of a decimal literal, starting after its `e`, applied to
/// raw digits `d` with `n2` fraction digits.
pub open spec fn exponent_spec(s: Seq<char>, i: int, neg: bool, d: Seq<u8>, n2: int) -> Option<SNum> {
    let es = i < s.len() && (s[i] == '+' || s[i] == '-');
    let eneg = i < s.len() && s[i] == '-';
    let e0 = if es { i + 1 } else { i };
    let n3 = digit_run(s, e0);
    if n3 == 0 || e0 + n3 != s.len() {
        None
    } else {
        let ev = digits_value(s, e0, e0 + n3);
        let ev_capped = if ev > exp_cap() { exp_cap() } else { ev as int };
        let e = if eneg { -ev_capped } else { ev_capped };
        Some(normalize(neg, d, e - n2))
    }
}

pub proof fn lemma_lead_zeros(d: Seq<u8>, i: int)
    requires
        0 <= i <= d.len(),
        forall|k: int| 0 <= k < i ==> #[trigger] d[k] == 0,
        i < d.len() ==> d[i] != 0,
    ensures
        lead_zeros(d) == i,
    decreases d.len(),
{
    if d.len() > 0 && d[0] == 0 {
        let t = d.drop_first();
        assert forall|k: int| 0 <= k < i - 1 implies #[trigger] t[k] == 0 by {
            assert(t[k] == d[k + 1]);
        }
        lemma_lead_zeros(t, i - 1);
    }
}

pub proof fn lemma_trail_zeros(d: Seq<u8>, j: int)
    requires
        0 <= j <= d.len(),
        forall|k: int| j <= k < d.len() ==> #[trigger] d[k] == 0,
        j > 0 ==> d[j - 1] != 0,
    ensures
        trail_zeros(d) == d.len() - j,
    decreases d.len(),
{
    if d.len() > 0 && d.last() == 0 {
        let t = d.drop_last();
        assert forall|k: int| j <= k < t.len() implies #[trigger] t[k] == 0 by {
            assert(t[k] == d[k]);
        }
        lemma_trail_zeros(t, j);
    }
}

/// The normalized number for sign `neg`, raw digits `d` and exponent `e`.
fn normalize_exec(neg: bool, d: Vec<u8>, e: i128) -> (r: Num)
    requires
        forall|i: int| 0 <= i < d@.len() ==> #[trigger] d@[i] <= 9,
        -0x4_0000_0000_0000_0000 <= e <= 0x4_0000_0000_0000_0000,
    ensures
        r.sv() == normalize(neg, d@, e as int),
        wf_num(r.sv()),
{
    let n = d.len();
    let mut a: usize = 0;
    while a < n && d[a] == 0
        invariant
            a <= n == d@.len(),
            forall|k: int| 0 <= k < a ==> #[trigger] d@[k] == 0,
        decreases n - a,
    {
        a += 1;
    }
    proof {
        lemma_lead_zeros(d@, a as int);
    }
    if a == n {
        return Num::Finite { neg, digits: Vec::new(), exp: 0 };
    }
    let mut b: usize = n;
    while b > a && d[b - 1] == 0
        invariant
            a < n == d@.len(),
            a <= b <= n,
            d@[a as int] != 0,
            forall|k: int| b <= k < n ==> #[trigger] d@[k] == 0,
        decreases b - a,
    {
        b -= 1;
    }
    proof {
        lemma_trail_zeros(d@, b as int);
    }
    let mut sig: Vec<u8> = Vec::new();
    let mut k = a;
    while k < b
        invariant
            a <= k <= b <= n == d@.len(),
            sig@ == d@.subrange(a as int, k as int),
        decreases b - k,
    {
        sig.push(d[k]);
        k += 1;
        assert(sig@ =~= d@.subrange(a as int, k as int));
    }
    let exp: i128 = e + ((n - b) as i128);
    let order: i128 = (sig.len() as i128) + exp;
    if order > 309 {
        Num::Inf { neg }
    } else if order < -324 {
        Num::Finite { neg, digits: Vec::new(), exp: 0 }
    } else {
        proof {
            assert(sig@.len() > 0);
            assert(sig@[0] == d@[a as int]);
            assert(sig@.last() == d@[b - 1]);
        }
        Num::Finite { neg, digits: sig, exp }
    }
}

fn ascii_lower(c: char) -> (r: char)
    ensures
        r == lower(c),
{
    if 'A' <= c && c <= 'Z' {
        ((c as u8) + 32) as char
    } else {
        c
    }
}

/// Whether `v[b..]` equals `w` (lower case) ignoring ASCII case.
fn tail_eq_nocase(v: &Vec<char>, b: usize, w: &Vec<char>) -> (r: bool)
    requires
        b <= v.len(),
    ensures
        r == eq_nocase(v@.subrange(b as int, v@.len() as int), w@),
{
    let ghost body = v@.subrange(b as int, v@.len() as int);
    if v.len() - b != w.len() {
        return false;
    }
    let mut i: usize = 0;
    while i < w.len()
        invariant
            i <= w.len() == v.len() - b,
            body == v@.subrange(b as int, v@.len() as int),
            forall|k: int| 0 <= k < i ==> lower(#[trigger] body[k]) == w@[k],
        decreases w.len() - i,
    {
        if ascii_lower(v[b + i]) != w[i] {
            assert(body[i as int] == v@[b + i]);
            return false;
        }
        i += 1;
    }
    true
}

fn digit_run_end(v: &Vec<char>, i: usize) -> (e: usize)
    requires
        i <= v.len(),
    ensures
        e == i + digit_run(v@, i as int),
        e <= v.len(),
{
    let mut e = i;
    while e < v.len() && '0' <= v[e] && v[e] <= '9'
        invariant
            i <= e <= v.len(),
            digit_run(v@, i as int) == (e - i) + digit_run(v@, e as int),
        decreases v.len() - e,
    {
        e += 1;
    }
    e
}

/// Appends the digit values of `v[i..j]` to `d`.
fn push_digits(d: &mut Vec<u8>, v: &Vec<char>, i: usize, j: usize)
    requires
        i <= j <= v.len(),
        forall|k: int| i <= k < j ==> is_digit(#[trigger] v@[k]),
        forall|k: int| 0 <= k < old(d)@.len() ==> #[trigger] old(d)@[k] <= 9,
    ensures
        final(d)@ == old(d)@ + digit_seq(v@, i as int, j as int),
        forall|k: int| 0 <= k < final(d)@.len() ==> #[trigger] final(d)@[k] <= 9,
{
    let mut k = i;
    while k < j
        invariant
            i <= k <= j <= v.len(),
            forall|m: int| i <= m < j ==> is_digit(#[trigger] v@[m]),
            d@ == old(d)@ + digit_seq(v@, i as int, k as int),
            forall|m: int| 0 <= m < d@.len() ==> #[trigger] d@[m] <= 9,
        decreases j - k,
    {
        let c = v[k];
        assert(is_digit(v@[k as int]));
        d.push(((c as u32) - ('0' as u32)) as u8);
        k += 1;
        assert(digit_seq(v@, i as int, k as int) =~= digit_seq(v@, i as int, k - 1).push(digit_val(c)));
        assert(d@ =~= old(d)@ + digit_seq(v@, i as int, k as int));
    }
}

pub proof fn lemma_digit_run(s: Seq<char>, i: int, k: int)
    requires
        0 <= i <= k < i + digit_run(s, i),
    ensures
        is_digit(s[k]),
    decreases k - i,
{
    if k > i {
        lemma_digit_run(s, i + 1, k);
    }
}

pub proof fn lemma_digit_run_bound(s: Seq<char>, i: int)
    requires
        0 <= i <= s.len(),
    ensures
        i + digit_run(s, i) <= s.len(),
    decreases s.len() - i,
{
    if 0 <= i < s.len() && is_digit(s[i]) {
        lemma_digit_run_bound(s, i + 1);
    }
}

/// The value of the exponent digits `v[i..j]`, capped at [`exp_cap`].
fn exponent_value(v: &Vec<char>, i: usize, j: usize) -> (r: i128)
    requires
        i <= j <= v.len(),
        forall|k: int| i <= k < j ==> is_digit(#[trigger] v@[k]),
    ensures
        r == if digits_value(v@, i as int, j as int) > exp_cap() { exp_cap() } else {
            digits_value(v@, i as int, j as int) as int },
{
    let mut acc: i128 = 0;
    let mut sat = false;
    let mut k = i;
    while k < j
        invariant
            i <= k <= j <= v.len(),
            forall|m: int| i <= m < j ==> is_digit(#[trigger] v@[m]),
            !sat ==> acc == digits_value(v@, i as int, k as int) && acc <= exp_cap(),
            sat ==> digits_value(v@, i as int, k as int) > exp_cap(),
        decreases j - k,
    {
        assert(is_digit(v@[k as int]));
        let dv = ((v[k] as u32) - ('0' as u32)) as i128;
        proof {
            let prev = digits_value(v@, i as int, k as int);
            assert(digits_value(v@, i as int, k + 1) == prev * 10 + digit_val(v@[k as int]) as nat);
            assert(prev * 10 + digit_val(v@[k as int]) as nat >= prev) by (nonlinear_arith);
        }
        if !sat {
            let next = acc * 10 + dv;
            if next > 1_000_000_000_000 {
                sat = true;
            } else {
                acc = next;
            }
        }
        k += 1;
    }
    if sat { 1_000_000_000_000 } else { acc }
}

/// Parse `s` as Rust's `f64` parser does; see [`parse_num_spec`].
pub fn parse_num(s: &str) -> (r: Option<Num>)
    ensures
        match (r, parse_num_spec(s@)) {
            (Some(a), Some(b)) => a.sv() == b,
            (None, None) => true,
            _ => false,
        },
        r matches Some(n) ==> wf_num(n.sv()),
{
    let v = chars_of(s);
    let signed = v.len() > 0 && (v[0] == '+' || v[0] == '-');
    let neg = v.len() > 0 && v[0] == '-';
    let b: usize = if signed { 1 } else { 0 };
    if tail_eq_nocase(&v, b, &vec!['i', 'n', 'f']) || tail_eq_nocase(&v, b, &vec!['i', 'n', 'f', 'i', 'n', 'i', 't', 'y']) {
        return Some(Num::Inf { neg });
    }
    if tail_eq_nocase(&v, b, &vec!['n', 'a', 'n']) {
        return Some(Num::NaN);
    }
    parse_decimal(&v, b, neg)
}

fn parse_decimal(v: &Vec<char>, b: usize, neg: bool) -> (r: Option<Num>)
    requires
        b <= v.len(),
    ensures
        match (r, decimal_spec(v@, b as int, neg)) {
            (Some(a), Some(c)) => a.sv() == c,
            (None, None) => true,
            _ => false,
        },
        r matches Some(n) ==> wf_num(n.sv()),
{
    let i1 = digit_run_end(v, b);
    let dot = i1 < v.len() && v[i1] == '.';
    let f0 = if dot { i1 + 1 } else { i1 };
    let m = if dot { digit_run_end(v, f0) } else { f0 };
    proof {
        lemma_digit_run_bound(v@, b as int);
        assert forall|k: int| b <= k < i1 implies is_digit(#[trigger] v@[k]) by {
            lemma_digit_run(v@, b as int, k);
        }
        assert forall|k: int| f0 <= k < m implies is_digit(#[trigger] v@[k]) by {
            lemma_digit_run(v@, f0 as int, k);
        }
    }
    let n2 = m - f0;
    if (i1 - b) + n2 == 0 {
        return None;
    }
    let mut d: Vec<u8> = Vec::new();
    push_digits(&mut d, v, b, i1);
    push_digits(&mut d, v, f0, m);
    assert(d@ =~= digit_seq(v@, b as int, i1 as int) + digit_seq(v@, f0 as int, m as int));
    if m == v.len() {
        return Some(normalize_exec(neg, d, -(n2 as i128)));
    }
    if v[m] == 'e' || v[m] == 'E' {
        return parse_exponent(v, m + 1, neg, d, n2);
    }
    None
}

fn parse_exponent(v: &Vec<char>, i: usize, neg: bool, d: Vec<u8>, n2: usize) -> (r: Option<Num>)
    requires
        i <= v.len(),
        n2 <= v.len(),
        forall|k: int| 0 <= k < d@.len() ==> #[trigger] d@[k] <= 9,
    ensures
        match (r, exponent_spec(v@, i as int, neg, d@, n2 as int)) {
            (Some(a), Some(c)) => a.sv() == c,
            (None, None) => true,
            _ => false,
        },
        r matches Some(n) ==> wf_num(n.sv()),
{
    let es = i < v.len() && (v[i] == '+' || v[i] == '-');
    let eneg = i < v.len() && v[i] == '-';
    let e0 = if es { i + 1 } else { i };
    let e3 = digit_run_end(v, e0);
    if e3 == e0 || e3 != v.len() {
        return None;
    }
    proof {
        assert forall|k: int| e0 <= k < e3 implies is_digit(#[trigger] v@[k]) by {
            lemma_digit_run(v@, e0 as int, k);
        }
    }
    let ev = exponent_value(v, e0, e3);
    let e: i128 = if eneg { -ev } else { ev };
    Some(normalize_exec(neg, d, e - (n2 as i128)))
}


// ---------------------------------------------------------------------------
// Printing
// ---------------------------------------------------------------------------

/// The ASCII characters of digits `d`.
pub open spec fn digit_chars(d: Seq<u8>) -> Seq<char> {
    d.map_values(|x: u8| crate::text::digit_char(x as nat))
}

/// `n` zeros.
pub open spec fn zeros(n: nat) -> Seq<char> {
    Seq::new(n, |i: int| '0')
}

/// The magnitude of a finite nonzero number in plain decimal notation.
pub open spec fn plain_digits(d: Seq<u8>, exp: int) -> Seq<char> {
    if exp >= 0 {
        digit_chars(d) + zeros(exp as nat)
    } else if d.len() > -exp {
        digit_chars(d.subrange(0, d.len() + exp)) + seq!['.'] + digit_chars(d.subrange(d.len() + exp, d.len() as int))
    } else {
        seq!['0', '.'] + zeros((-exp - d.len()) as nat) + digit_chars(d)
    }
}

/// How `f64`'s `Display` writes the number: `NaN`, `inf`, `-inf`, or an
/// optional `-` and the digits in plain decimal notation (`0` for zero).
pub open spec fn display_spec(n: SNum) -> Seq<char> {
    match n {
        SNum::NaN => seq!['N', 'a', 'N'],
        SNum::Inf { neg } => if neg { seq!['-', 'i', 'n', 'f'] } else { seq!['i', 'n', 'f'] },
        SNum::Finite { neg, digits, exp } => {
            let sign = if neg { seq!['-'] } else { Seq::empty() };
            if digits.len() == 0 {
                sign + seq!['0']
            } else {
                sign + plain_digits(digits, exp)
            }
        },
    }
}

fn push_digit_chars(s: &mut String, d: &Vec<u8>, lo: usize, hi: usize)
    requires
        lo <= hi <= d.len(),
        forall|k: int| 0 <= k < d@.len() ==> #[trigger] d@[k] <= 9,
    ensures
        final(s)@ == old(s)@ + digit_chars(d@.subrange(lo as int, hi as int)),
{
    let mut k = lo;
    while k < hi
        invariant
            lo <= k <= hi <= d.len(),
            forall|m: int| 0 <= m < d@.len() ==> #[trigger] d@[m] <= 9,
            s@ == old(s)@ + digit_chars(d@.subrange(lo as int, k as int)),
        decreases hi - k,
    {
        push_char(s, digit_char_of(d[k]));
        k += 1;
        assert(digit_chars(d@.subrange(lo as int, k as int)) =~= digit_chars(d@.subrange(lo as int, k - 1)).push(
            crate::text::digit_char(d@[k - 1] as nat)));
    }
}

fn digit_char_of(x: u8) -> (c: char)
    requires
        x <= 9,
    ensures
        c == crate::text::digit_char(x as nat),
{
    if x == 0 { '0' } else if x == 1 { '1' } else if x == 2 { '2' } else if x == 3 { '3' }
    else if x == 4 { '4' } else if x == 5 { '5' } else if x == 6 { '6' } else if x == 7 { '7' }
    else if x == 8 { '8' } else { '9' }
}

fn push_zeros(s: &mut String, n: u128)
    ensures
        final(s)@ == old(s)@ + zeros(n as nat),
{
    let mut k: u128 = 0;
    while k < n
        invariant
            k <= n,
            s@ == old(s)@ + zeros(k as nat),
        decreases n - k,
    {
        push_char(s, '0');
        k += 1;
        assert(zeros(k as nat) =~= zeros((k - 1) as nat).push('0'));
    }
}

/// The text `f64`'s `Display` writes for `n`.
pub fn display(n: &Num) -> (s: String)
    requires
        wf_num(n.sv()),
    ensures
        s@ == display_spec(n.sv()),
{
    match n {
        Num::NaN => {
            let s = crate::text::owned("NaN");
            proof {
                reveal_strlit("NaN");
                assert(s@ =~= seq!['N', 'a', 'N']);
            }
            s
        },
        Num::Inf { neg } => {
            let s = if *neg { crate::text::owned("-inf") } else { crate::text::owned("inf") };
            proof {
                reveal_strlit("-inf");
                reveal_strlit("inf");
                assert(*neg ==> s@ =~= seq!['-', 'i', 'n', 'f']);
                assert(!*neg ==> s@ =~= seq!['i', 'n', 'f']);
            }
            s
        },
        Num::Finite { neg, digits, exp } => {
            let mut s = String::new();
            if *neg {
                push_char(&mut s, '-');
            }
            let ghost sign = s@;
            assert(sign =~= if *neg { seq!['-'] } else { Seq::<char>::empty() });
            if digits.len() == 0 {
                push_char(&mut s, '0');
                return s;
            }
            let len = digits.len();
            assert(digits@.subrange(0, len as int) =~= digits@);
            if *exp >= 0 {
                push_digit_chars(&mut s, digits, 0, len);
                push_zeros(&mut s, *exp as u128);
            } else {
                let f = (-*exp) as u128;
                if (len as u128) > f {
                    let cut = len - (f as usize);
                    push_digit_chars(&mut s, digits, 0, cut);
                    push_char(&mut s, '.');
                    push_digit_chars(&mut s, digits, cut, len);
                } else {
                    push_char(&mut s, '0');
                    push_char(&mut s, '.');
                    push_zeros(&mut s, f - (len as u128));
                    push_digit_chars(&mut s, digits, 0, len);
                }
            }
            assert(s@ =~= sign + plain_digits(digits@, *exp as int));
            s
        },
    }
}

// ---------------------------------------------------------------------------
// Comparison
// ---------------------------------------------------------------------------

/// A three-way comparison outcome.
#[derive(Debug, Clone, Copy, PartialEq, Eq, Structural)]
pub enum Order3 {
    Less,
    Equal,
    Greater,
}

pub open spec fn flip(c: Order3) -> Order3 {
    match c {
        Order3::Less => Order3::Greater,
        Order3::Equal => Order3::Equal,
        Order3::Greater => Order3::Less,
    }
}

/// Lexicographic comparison of digit sequences (a proper prefix is smaller).
pub open spec fn digits_order(a: Seq<u8>, b: Seq<u8>) -> Order3
    decreases a.len(),
{
    if a.len() == 0 && b.len() == 0 {
        Order3::Equal
    } else if a.len() == 0 {
        Order3::Less
    } else if b.len() == 0 {
        Order3::Greater
    } else if a[0] < b[0] {
        Order3::Less
    } else if a[0] > b[0] {
        Order3::Greater
    } else {
        digits_order(a.drop_first(), b.drop_first())
    }
}

/// Comparison of the magnitudes of two nonzero normalized decimals: first by
/// order of magnitude, then digit by digit.
pub open spec fn mag_order(da: Seq<u8>, ea: int, db: Seq<u8>, eb: int) -> Order3 {
    let oa = da.len() + ea;
    let ob = db.len() + eb;
    if oa < ob {
        Order3::Less
    } else if oa > ob {
        Order3::Greater
    } else {
        digits_order(da, db)
    }
}

/// The sign class of a number: -1 below zero, 0 at zero, 1 above.
pub open spec fn sign_class(n: SNum) -> int {
    match n {
        SNum::Inf { neg } => if neg { -1 } else { 1 },
        SNum::Finite { neg, digits, exp } => if digits.len() == 0 { 0 } else if neg { -1 } else { 1 },
        SNum::NaN => 0,
    }
}

/// The order of two numbers as `f64`'s partial order gives it: none when either
/// is not-a-number.
pub open spec fn num_order(a: SNum, b: SNum) -> Option<Order3> {
    match (a, b) {
        (SNum::NaN, _) => None,
        (_, SNum::NaN) => None,
        (SNum::Inf { neg: na }, SNum::Inf { neg: nb }) => Some(
            if na == nb { Order3::Equal } else if na { Order3::Less } else { Order3::Greater }),
        (SNum::Inf { neg }, _) => Some(if neg { Order3::Less } else { Order3::Greater }),
        (_, SNum::Inf { neg }) => Some(if neg { Order3::Greater } else { Order3::Less }),
        (SNum::Finite { neg: na, digits: da, exp: ea }, SNum::Finite { neg: nb, digits: db, exp: eb }) => {
            let sa = sign_class(a);
            let sb = sign_class(b);
            if sa < sb {
                Some(Order3::Less)
            } else if sa > sb {
                Some(Order3::Greater)
            } else if sa == 0 {
                Some(Order3::Equal)
            } else if sa > 0 {
                Some(mag_order(da, ea, db, eb))
            } else {
                Some(flip(mag_order(da, ea, db, eb)))
            }
        },
    }
}

proof fn lemma_digits_order_flip(a: Seq<u8>, b: Seq<u8>)
    ensures
        digits_order(b, a) == flip(digits_order(a, b)),
        digits_order(a, a) == Order3::Equal,
    decreases a.len(),
{
    if a.len() > 0 && b.len() > 0 {
        lemma_digits_order_flip(a.drop_first(), b.drop_first());
    }
    if a.len() > 0 {
        lemma_digits_order_flip(a.drop_first(), a.drop_first());
    }
}

/// Law of the order of numbers: comparing the other way round flips the
/// outcome, and a number other than not-a-number equals itself.
pub proof fn lemma_num_order_flip(a: SNum, b: SNum)
    ensures
        num_order(b, a) == match num_order(a, b) {
            Some(o) => Some(flip(o)),
            None => None,
        },
        !(a is NaN) ==> num_order(a, a) == Some(Order3::Equal),
{
    match (a, b) {
        (SNum::Finite { neg: na, digits: da, exp: ea }, SNum::Finite { neg: nb, digits: db, exp: eb }) => {
            lemma_digits_order_flip(da, db);
        },
        _ => {},
    }
    match a {
        SNum::Finite { neg, digits, exp } => {
            lemma_digits_order_flip(digits, digits);
        },
        _ => {},
    }
}

fn digits_order_exec(a: &Vec<u8>, b: &Vec<u8>) -> (r: Order3)
    ensures
        r == digits_order(a@, b@),
{
    let mut i: usize = 0;
    assert(a@.skip(0) =~= a@);
    assert(b@.skip(0) =~= b@);
    loop
        invariant
            i <= a.len(),
            i <= b.len(),
            digits_order(a@, b@) == digits_order(a@.skip(i as int), b@.skip(i as int)),
        decreases a.len() - i,
    {
        let ghost sa = a@.skip(i as int);
        let ghost sb = b@.skip(i as int);
        if i == a.len() && i == b.len() {
            return Order3::Equal;
        }
        if i == a.len() {
            return Order3::Less;
        }
        if i == b.len() {
            return Order3::Greater;
        }
        assert(sa[0] == a@[i as int] && sb[0] == b@[i as int]);
        if a[i] < b[i] {
            return Order3::Less;
        }
        if a[i] > b[i] {
            return Order3::Greater;
        }
        assert(sa.drop_first() =~= a@.skip(i + 1));
        assert(sb.drop_first() =~= b@.skip(i + 1));
        i += 1;
    }
}

/// The partial order of `f64` on the numbers.
pub fn compare(a: &Num, b: &Num) -> (r: Option<Order3>)
    requires
        wf_num(a.sv()),
        wf_num(b.sv()),
    ensures
        r == num_order(a.sv(), b.sv()),
{
    match (a, b) {
        (Num::NaN, _) => None,
        (_, Num::NaN) => None,
        (Num::Inf { neg: na }, Num::Inf { neg: nb }) => Some(
            if *na == *nb { Order3::Equal } else if *na { Order3::Less } else { Order3::Greater }),
        (Num::Inf { neg }, _) => Some(if *neg { Order3::Less } else { Order3::Greater }),
        (_, Num::Inf { neg }) => Some(if *neg { Order3::Greater } else { Order3::Less }),
        (Num::Finite { neg: na, digits: da, exp: ea }, Num::Finite { neg: nb, digits: db, exp: eb }) => {
            let sa: i8 = if da.len() == 0 { 0 } else if *na { -1 } else { 1 };
            let sb: i8 = if db.len() == 0 { 0 } else if *nb { -1 } else { 1 };
            if sa < sb {
                Some(Order3::Less)
            } else if sa > sb {
                Some(Order3::Greater)
            } else if sa == 0 {
                Some(Order3::Equal)
            } else {
                let oa: i128 = (da.len() as i128) + *ea;
                let ob: i128 = (db.len() as i128) + *eb;
                let m = if oa < ob {
                    Order3::Less
                } else if oa > ob {
                    Order3::Greater
                } else {
                    digits_order_exec(da, db)
                };
                if sa > 0 {
                    Some(m)
                } else {
                    Some(match m {
                        Order3::Less => Order3::Greater,
                        Order3::Equal => Order3::Equal,
                        Order3::Greater => Order3::Less,
                    })
                }
            }
        },
    }
}

/// `x == 0.0`.
pub fn is_zero(n: &Num) -> (r: bool)
    ensures
        r == (n.sv() matches SNum::Finite { digits, .. } && digits.len() == 0),
{
    match n {
        Num::Finite { digits, .. } => digits.len() == 0,
        _ => false,
    }
}

// ---------------------------------------------------------------------------
// JSON text (how `serde_json` writes an `f64`)
// ---------------------------------------------------------------------------

/// The exponent text of scientific notation: optional `-`, then the decimal
/// magnitude.
pub open spec fn exp_text(k: int) -> Seq<char> {
    if k < 0 {
        seq!['-'] + crate::text::decimal((-k) as nat)
    } else {
        crate::text::decimal(k as nat)
    }
}

/// How `serde_json` writes the number: `null` when not finite, otherwise the
/// shortest-digit form of the `ryu` crate (`2.0`, `0.001`, `1e20`, `1.5e-7`).
pub open spec fn json_spec(n: SNum) -> Seq<char> {
    match n {
        SNum::Finite { neg, digits, exp } => {
            let sign = if neg { seq!['-'] } else { Seq::empty() };
            if digits.len() == 0 {
                sign + seq!['0', '.', '0']
            } else {
                let len = digits.len() as int;
                let k = exp;
                let kk = len + k;
                if 0 <= k && kk <= 16 {
                    sign + digit_chars(digits) + zeros(k as nat) + seq!['.', '0']
                } else if 0 < kk && kk <= 16 {
                    sign + digit_chars(digits.subrange(0, kk)) + seq!['.'] + digit_chars(digits.subrange(kk, len))
                } else if -5 < kk && kk <= 0 {
                    sign + seq!['0', '.'] + zeros((-kk) as nat) + digit_chars(digits)
                } else if len == 1 {
                    sign + digit_chars(digits) + seq!['e'] + exp_text(kk - 1)
                } else {
                    sign + digit_chars(digits.subrange(0, 1)) + seq!['.'] + digit_chars(digits.subrange(1, len))
                        + seq!['e'] + exp_text(kk - 1)
                }
            }
        },
        _ => seq!['n', 'u', 'l', 'l'],
    }
}

fn push_exp_text(s: &mut String, k: i128)
    requires
        -1000 <= k <= 1000,
    ensures
        final(s)@ == old(s)@ + exp_text(k as int),
{
    if k < 0 {
        push_char(s, '-');
        let t = crate::text::usize_to_string((-k) as usize);
        s.append(t.as_str());
    } else {
        let t = crate::text::usize_to_string(k as usize);
        s.append(t.as_str());
    }
}

/// The text `serde_json` writes for the number.
pub fn to_json_text(n: &Num) -> (s: String)
    requires
        wf_num(n.sv()),
    ensures
        s@ == json_spec(n.sv()),
{
    match n {
        Num::Finite { neg, digits, exp } => {
            let mut s = String::new();
            if *neg {
                push_char(&mut s, '-');
            }
            let ghost sign = s@;
            assert(sign =~= if *neg { seq!['-'] } else { Seq::<char>::empty() });
            let len = digits.len();
            if len == 0 {
                push_char(&mut s, '0');
                push_char(&mut s, '.');
                push_char(&mut s, '0');
                return s;
            }
            assert(digits@.subrange(0, len as int) =~= digits@);
            let k: i128 = *exp;
            let kk: i128 = (len as i128) + k;
            if 0 <= k && kk <= 16 {
                push_digit_chars(&mut s, digits, 0, len);
                push_zeros(&mut s, k as u128);
                push_char(&mut s, '.');
                push_char(&mut s, '0');
            } else if 0 < kk && kk <= 16 {
                push_digit_chars(&mut s, digits, 0, kk as usize);
                push_char(&mut s, '.');
                push_digit_chars(&mut s, digits, kk as usize, len);
            } else if -5 < kk && kk <= 0 {
                push_char(&mut s, '0');
                push_char(&mut s, '.');
                push_zeros(&mut s, (-kk) as u128);
                push_digit_chars(&mut s, digits, 0, len);
            } else if len == 1 {
                push_digit_chars(&mut s, digits, 0, 1);
                push_char(&mut s, 'e');
                push_exp_text(&mut s, kk - 1);
            } else {
                push_digit_chars(&mut s, digits, 0, 1);
                push_char(&mut s, '.');
                push_digit_chars(&mut s, digits, 1, len);
                push_char(&mut s, 'e');
                push_exp_text(&mut s, kk - 1);
            }
            assert(s@ =~= json_spec(n.sv()));
            s
        },
        _ => {
            let s = crate::text::owned("null");
            proof {
                reveal_strlit("null");
                assert(s@ =~= seq!['n', 'u', 'l', 'l']);
            }
            s
        },
    }
}

} // verus!
