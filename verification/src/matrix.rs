//! Expansion of `strategy.matrix` into concrete combinations: the cartesian
//! product of the axes, then `include` (merged into matching combinations or
//! appended), then `exclude` (combinations containing an excluded entry are
//! dropped), then a cap on the number of instances.

use vstd::prelude::*;

use crate::smap::{StrMap, lookup, insert_sorted, entry_views, lemma_lookup_some, lemma_lookup_index, strictly_sorted, str_eq};
use crate::ir::{Job, JobInstance, SupportTier, copy_opt, copy_steps, copy_strings};
use crate::text::{join, views, owned, push_char, join_strings, lemma_views_push, cat, cat3};
use crate::yaml::{Yaml, map_get, mapping_get, scalar_text, scalar_to_string, lemma_entry_index};

verus! {

/// At most this many instances are expanded per job.
pub const MAX_INSTANCES: usize = 256;

/// Why a `strategy.matrix` cannot be expanded.
#[derive(Debug)]
pub enum MatrixError {
    Unsupported(String),
}

impl MatrixError {
    /// The human-readable reason.
    pub fn reason(&self) -> (r: &String)
        ensures
            match self {
                MatrixError::Unsupported(s) => r == s,
            },
    {
        match self {
            MatrixError::Unsupported(reason) => reason,
        }
    }
}

/// Recorded on a job whose matrix needs a finding.
#[derive(Debug)]
pub enum MatrixNote {
    /// Every combination was removed (or an axis had no values).
    Empty,
    /// More combinations than the cap; only the first `cap` are kept.
    Capped { total: usize, cap: usize },
    /// The matrix cannot be expanded, for the given reason.
    Unsupported(String),
}

/// A combination's view: axis name to value.
pub type ComboView = Map<Seq<char>, Seq<char>>;

/// The views of combinations.
pub open spec fn combo_views(cs: Seq<StrMap<String>>) -> Seq<ComboView> {
    cs.map_values(|c: StrMap<String>| c.map_view())
}

proof fn lemma_combo_views_push(s: Seq<StrMap<String>>, x: StrMap<String>)
    ensures
        combo_views(s.push(x)) == combo_views(s).push(x.map_view()),
{
    assert forall|i: int| 0 <= i < s.len() + 1 implies #[trigger] combo_views(s.push(x))[i] == combo_views(s).push(
        x.map_view())[i] by {
        if i < s.len() {
            assert(s.push(x)[i] == s[i]);
        }
    }
    assert(combo_views(s.push(x)) =~= combo_views(s).push(x.map_view()));
}

proof fn lemma_combo_views_update(s: Seq<StrMap<String>>, i: int, x: StrMap<String>)
    requires
        0 <= i < s.len(),
    ensures
        combo_views(s.update(i, x)) == combo_views(s).update(i, x.map_view()),
{
    assert forall|j: int| 0 <= j < s.len() implies #[trigger] combo_views(s.update(i, x))[j] == combo_views(s).update(i,
        x.map_view())[j] by {
        if j != i {
            assert(s.update(i, x)[j] == s[j]);
        }
    }
    assert(combo_views(s.update(i, x)) =~= combo_views(s).update(i, x.map_view()));
}

/// Both absent, or both present with the same text.
pub open spec fn same_entry(a: Option<String>, b: Option<String>) -> bool {
    match (a, b) {
        (Some(x), Some(y)) => x@ == y@,
        (None, None) => true,
        _ => false,
    }
}

/// The views of axes: name and values.
pub open spec fn axes_view(a: Seq<(String, Vec<String>)>) -> Seq<(Seq<char>, Seq<Seq<char>>)> {
    a.map_values(|x: (String, Vec<String>)| (x.0@, views(x.1@)))
}

// ---------------------------------------------------------------------------
// Cartesian product
// ---------------------------------------------------------------------------

/// `c` extended with each value of axis `key`, in order.
pub open spec fn with_values(c: ComboView, key: Seq<char>, vals: Seq<Seq<char>>) -> Seq<ComboView> {
    vals.map_values(|v: Seq<char>| c.insert(key, v))
}

/// Every combination of `cs` extended with every value of axis `key`,
/// combination-major.
pub open spec fn extend_axis(cs: Seq<ComboView>, key: Seq<char>, vals: Seq<Seq<char>>) -> Seq<ComboView>
    decreases cs.len(),
{
    if cs.len() == 0 {
        Seq::empty()
    } else {
        extend_axis(cs.drop_last(), key, vals) + with_values(cs.last(), key, vals)
    }
}

/// `cs` extended by the axes in order.
pub open spec fn product_from(cs: Seq<ComboView>, axes: Seq<(Seq<char>, Seq<Seq<char>>)>) -> Seq<ComboView>
    decreases axes.len(),
{
    if axes.len() == 0 {
        cs
    } else {
        extend_axis(product_from(cs, axes.drop_last()), axes.last().0, axes.last().1)
    }
}

/// The cartesian product of the axes; none at all without axes.
pub open spec fn product_spec(axes: Seq<(Seq<char>, Seq<Seq<char>>)>) -> Seq<ComboView> {
    if axes.len() == 0 {
        Seq::empty()
    } else {
        product_from(seq![Map::empty()], axes)
    }
}

/// The product of the numbers of values of the axes.
pub open spec fn axes_count(axes: Seq<(Seq<char>, Seq<Seq<char>>)>) -> nat
    decreases axes.len(),
{
    if axes.len() == 0 {
        1
    } else {
        axes_count(axes.drop_last()) * axes.last().1.len()
    }
}

proof fn lemma_extend_axis(cs: Seq<ComboView>, key: Seq<char>, vals: Seq<Seq<char>>)
    ensures
        extend_axis(cs, key, vals).len() == cs.len() * vals.len(),
        forall|x: ComboView| #[trigger] extend_axis(cs, key, vals).contains(x) ==> exists|a: int, b: int|
            0 <= a < cs.len() && 0 <= b < vals.len() && x == #[trigger] cs[a].insert(key, vals[b]),
    decreases cs.len(),
{
    if cs.len() > 0 {
        let init = cs.drop_last();
        lemma_extend_axis(init, key, vals);
        let n = cs.len() as int;
        let v = vals.len() as int;
        assert((n - 1) * v + v == n * v) by (nonlinear_arith);
        let front = extend_axis(init, key, vals);
        let back = with_values(cs.last(), key, vals);
        assert forall|x: ComboView| #[trigger] extend_axis(cs, key, vals).contains(x) implies exists|a: int, b: int|
            0 <= a < cs.len() && 0 <= b < vals.len() && x == #[trigger] cs[a].insert(key, vals[b]) by {
            let m = choose|m: int| 0 <= m < extend_axis(cs, key, vals).len() && extend_axis(cs, key, vals)[m] == x;
            if m < front.len() {
                assert(front[m] == x);
                assert(front.contains(x));
                let (a, b) = choose|a: int, b: int| 0 <= a < init.len() && 0 <= b < vals.len() && x == #[trigger] init[a].insert(key, vals[b]);
                assert(init[a] == cs[a]);
            } else {
                let b = m - front.len();
                assert(back[b] == x);
                assert(x == cs[n - 1].insert(key, vals[b]));
            }
        }
    }
}

/// Law of the cartesian product: with at least one axis it has as many
/// combinations as the product of the axes' numbers of values, and each
/// combination has exactly the axis names as keys, each with one of the
/// values of an axis of that name.
pub proof fn lemma_product(axes: Seq<(Seq<char>, Seq<Seq<char>>)>)
    requires
        axes.len() > 0,
    ensures
        product_spec(axes).len() == axes_count(axes),
        forall|x: ComboView, k: Seq<char>| #[trigger] product_spec(axes).contains(x) ==> (#[trigger] x.contains_key(k)
            <==> exists|t: int| 0 <= t < axes.len() && #[trigger] axes[t].0 == k),
        forall|x: ComboView, k: Seq<char>| #[trigger] product_spec(axes).contains(x) && #[trigger] x.contains_key(k)
            ==> exists|t: int| 0 <= t < axes.len() && #[trigger] axes[t].0 == k && axes[t].1.contains(x[k]),
{
    lemma_product_from(axes);
}

proof fn lemma_product_from(axes: Seq<(Seq<char>, Seq<Seq<char>>)>)
    ensures
        product_from(seq![Map::empty()], axes).len() == axes_count(axes),
        forall|x: ComboView, k: Seq<char>| #[trigger] product_from(seq![Map::empty()], axes).contains(x)
            ==> (#[trigger] x.contains_key(k) <==> exists|t: int| 0 <= t < axes.len() && #[trigger] axes[t].0 == k),
        forall|x: ComboView, k: Seq<char>| #[trigger] product_from(seq![Map::empty()], axes).contains(x)
            && #[trigger] x.contains_key(k)
            ==> exists|t: int| 0 <= t < axes.len() && #[trigger] axes[t].0 == k && axes[t].1.contains(x[k]),
    decreases axes.len(),
{
    let base = seq![Map::<Seq<char>, Seq<char>>::empty()];
    if axes.len() == 0 {
        assert forall|x: ComboView, k: Seq<char>| #[trigger] base.contains(x) implies !#[trigger] x.contains_key(k) by {
            assert(x == base[0]);
        }
    } else {
        let pre = axes.drop_last();
        let key = axes.last().0;
        let vals = axes.last().1;
        lemma_product_from(pre);
        let p = product_from(base, pre);
        lemma_extend_axis(p, key, vals);
        let r = product_from(base, axes);
        assert(r == extend_axis(p, key, vals));
        assert(p.len() * vals.len() == axes_count(pre) * vals.len());
        assert forall|x: ComboView, k: Seq<char>| #[trigger] r.contains(x) implies (#[trigger] x.contains_key(k)
            <==> exists|t: int| 0 <= t < axes.len() && #[trigger] axes[t].0 == k) by {
            let (a, b) = choose|a: int, b: int| 0 <= a < p.len() && 0 <= b < vals.len() && x == #[trigger] p[a].insert(key, vals[b]);
            assert(p.contains(p[a]));
            if x.contains_key(k) {
                if k == key {
                    assert(axes[axes.len() - 1].0 == k);
                } else {
                    assert(p[a].contains_key(k));
                    let t = choose|t: int| 0 <= t < pre.len() && #[trigger] pre[t].0 == k;
                    assert(axes[t] == pre[t]);
                }
            }
            if exists|t: int| 0 <= t < axes.len() && #[trigger] axes[t].0 == k {
                let t = choose|t: int| 0 <= t < axes.len() && #[trigger] axes[t].0 == k;
                if k != key {
                    assert(t < pre.len());
                    assert(pre[t] == axes[t]);
                    assert(p[a].contains_key(k));
                }
            }
        }
        assert forall|x: ComboView, k: Seq<char>| #[trigger] r.contains(x) && #[trigger] x.contains_key(k)
            implies exists|t: int| 0 <= t < axes.len() && #[trigger] axes[t].0 == k && axes[t].1.contains(x[k]) by {
            let (a, b) = choose|a: int, b: int| 0 <= a < p.len() && 0 <= b < vals.len() && x == #[trigger] p[a].insert(key, vals[b]);
            assert(p.contains(p[a]));
            if k == key {
                assert(axes[axes.len() - 1].0 == k);
                assert(x[k] == vals[b]);
                assert(vals.contains(vals[b]));
            } else {
                assert(p[a].contains_key(k));
                assert(x[k] == p[a][k]);
                let t = choose|t: int| 0 <= t < pre.len() && #[trigger] pre[t].0 == k && pre[t].1.contains(p[a][k]);
                assert(axes[t] == pre[t]);
            }
        }
    }
}

fn insert_view(c: &mut StrMap<String>, k: String, v: String)
    ensures
        final(c).map_view() == old(c).map_view().insert(k@, v@),
{
    let ghost kv = k@;
    let ghost vv = v@;
    c.insert(k, v);
    assert(c.map_view() =~= old(c).map_view().insert(kv, vv)) by {
        assert forall|q: Seq<char>| #[trigger] c.map_view().contains_key(q) == old(c).map_view().insert(kv, vv).contains_key(q) by {
            let _ = c.get_spec(q);
        }
        assert forall|q: Seq<char>| c.map_view().contains_key(q) implies #[trigger] c.map_view()[q] == old(c).map_view().insert(kv, vv)[q] by {
            let _ = c.get_spec(q);
        }
    }
}

fn cartesian_product(axes: &Vec<(String, Vec<String>)>) -> (r: Vec<StrMap<String>>)
    ensures
        combo_views(r@) == product_spec(axes_view(axes@)),
{
    if axes.len() == 0 {
        let r: Vec<StrMap<String>> = Vec::new();
        assert(combo_views(r@) =~= Seq::<ComboView>::empty());
        return r;
    }
    let ghost av = axes_view(axes@);
    let mut combos: Vec<StrMap<String>> = Vec::new();
    let first: StrMap<String> = StrMap::new();
    assert(first.map_view() =~= Map::<Seq<char>, Seq<char>>::empty());
    let ghost e0 = combos@;
    combos.push(first);
    proof {
        lemma_combo_views_push(e0, first);
        assert(combo_views(e0) =~= Seq::<ComboView>::empty());
    }
    assert(combo_views(combos@) =~= seq![Map::<Seq<char>, Seq<char>>::empty()]);
    assert(av.take(0) =~= Seq::<(Seq<char>, Seq<Seq<char>>)>::empty());
    let mut i: usize = 0;
    while i < axes.len()
        invariant
            i <= axes@.len(),
            av == axes_view(axes@),
            combo_views(combos@) == product_from(seq![Map::empty()], av.take(i as int)),
        decreases axes.len() - i,
    {
        let key = &axes[i].0;
        let values = &axes[i].1;
        let ghost cv = combo_views(combos@);
        let ghost vals = views(values@);
        let mut next: Vec<StrMap<String>> = Vec::new();
        let mut j: usize = 0;
        assert(cv.take(0) =~= Seq::<ComboView>::empty());
        while j < combos.len()
            invariant
                j <= combos@.len(),
                cv == combo_views(combos@),
                vals == views(values@),
                combo_views(next@) == extend_axis(cv.take(j as int), key@, vals),
            decreases combos.len() - j,
        {
            let mut k: usize = 0;
            let ghost base = combo_views(next@);
            assert(base + with_values(cv[j as int], key@, vals).take(0) =~= base);
            while k < values.len()
                invariant
                    j < combos@.len(),
                    k <= values@.len(),
                    cv == combo_views(combos@),
                    vals == views(values@),
                    combo_views(next@) == base + with_values(cv[j as int], key@, vals).take(k as int),
                decreases values.len() - k,
            {
                let mut c = combos[j].duplicate();
                assert(c.map_view() == cv[j as int]);
                insert_view(&mut c, key.clone(), values[k].clone());
                assert(vals[k as int] == values@[k as int]@);
                assert(c.map_view() == cv[j as int].insert(key@, vals[k as int]));
                let ghost before = next@;
                next.push(c);
                proof {
                    lemma_combo_views_push(before, c);
                }
                k += 1;
                assert(with_values(cv[j as int], key@, vals).take(k as int) =~= with_values(cv[j as int], key@,
                    vals).take(k - 1).push(cv[j as int].insert(key@, vals[k - 1])));
                assert(combo_views(next@) =~= base + with_values(cv[j as int], key@, vals).take(k as int));
            }
            assert(with_values(cv[j as int], key@, vals).take(k as int) =~= with_values(cv[j as int], key@, vals));
            j += 1;
            assert(cv.take(j as int).drop_last() =~= cv.take(j - 1));
            assert(cv.take(j as int).last() == cv[j - 1]);
        }
        assert(cv.take(j as int) =~= cv);
        combos = next;
        i += 1;
        assert(av.take(i as int).drop_last() =~= av.take(i - 1));
        assert(av.take(i as int).last() == av[i - 1]);
        assert(av[i - 1] == (axes@[i - 1].0@, views(axes@[i - 1].1@)));
    }
    assert(av.take(i as int) =~= av);
    combos
}

// ---------------------------------------------------------------------------
// include / exclude
// ---------------------------------------------------------------------------

/// Every key of `entry` is in `combo` with the same value.
pub open spec fn subset_spec(entry: ComboView, combo: ComboView) -> bool {
    forall|k: Seq<char>| #[trigger] entry.contains_key(k) ==> combo.contains_key(k) && combo[k] == entry[k]
}

/// Whether every key/value pair of `entry` is also in `combo`.
pub fn is_subset_match(entry: &StrMap<String>, combo: &StrMap<String>) -> (r: bool)
    ensures
        r == subset_spec(entry.map_view(), combo.map_view()),
{
    let n = entry.len();
    let mut i: usize = 0;
    while i < n
        invariant
            i <= n == entry@.len(),
            strictly_sorted(entry@),
            forall|j: int| 0 <= j < i ==> (#[trigger] combo.get_spec(entry@[j].0) matches Some(x) && x@ == entry@[j].1@),
        decreases n - i,
    {
        let k = entry.key_at(i);
        let v = entry.value_at(i);
        match combo.get(k.as_str()) {
            Some(cv) => {
                if !str_eq(cv.as_str(), v.as_str()) {
                    proof {
                        lemma_lookup_index(entry@, entry@[i as int].0, i as int);
                        let key = entry@[i as int].0;
                        assert(entry.map_view().contains_key(key));
                        assert(entry.map_view()[key] == v@);
                    }
                    return false;
                }
                proof {
                    assert(cv@ == v@);
                }
            },
            None => {
                proof {
                    lemma_lookup_index(entry@, entry@[i as int].0, i as int);
                    assert(entry.map_view().contains_key(entry@[i as int].0));
                }
                return false;
            },
        }
        i += 1;
    }
    assert forall|k: Seq<char>| #[trigger] entry.map_view().contains_key(k) implies combo.map_view().contains_key(k)
        && combo.map_view()[k] == entry.map_view()[k] by {
        lemma_lookup_some(entry@, k);
        let j = choose|j: int| 0 <= j < entry@.len() && entry@[j].0 == k && entry@[j].1 == entry.get_spec(k)->0;
        assert(combo.get_spec(entry@[j].0) matches Some(x) && x@ == entry@[j].1@);
        assert(entry.map_view()[k] == entry@[j].1@);
    }
    true
}

/// `combo` contains some entry of `exclude`.
pub open spec fn excluded(combo: ComboView, exclude: Seq<ComboView>) -> bool {
    exists|i: int| 0 <= i < exclude.len() && #[trigger] subset_spec(exclude[i], combo)
}

/// The combinations that contain no excluded entry, in order.
pub open spec fn exclude_spec(cs: Seq<ComboView>, exclude: Seq<ComboView>) -> Seq<ComboView>
    decreases cs.len(),
{
    if cs.len() == 0 {
        Seq::empty()
    } else {
        let rest = exclude_spec(cs.drop_last(), exclude);
        if excluded(cs.last(), exclude) {
            rest
        } else {
            rest.push(cs.last())
        }
    }
}

/// Law of `exclude`: every combination kept is one of `cs` that contains no
/// excluded entry (an entry all of whose keys it has, with the same values),
/// and every combination of `cs` that contains none is kept.
pub proof fn lemma_exclude(cs: Seq<ComboView>, ex: Seq<ComboView>)
    ensures
        exclude_spec(cs, ex).len() <= cs.len(),
        forall|i: int| 0 <= i < exclude_spec(cs, ex).len() ==> cs.contains(#[trigger] exclude_spec(cs, ex)[i]),
        forall|i: int, j: int| 0 <= i < exclude_spec(cs, ex).len() && 0 <= j < ex.len()
            ==> !#[trigger] subset_spec(ex[j], exclude_spec(cs, ex)[i]),
        forall|i: int| 0 <= i < cs.len() && (forall|j: int| 0 <= j < ex.len() ==> !subset_spec(ex[j], cs[i]))
            ==> exclude_spec(cs, ex).contains(#[trigger] cs[i]),
    decreases cs.len(),
{
    if cs.len() > 0 {
        let init = cs.drop_last();
        let c = cs.last();
        lemma_exclude(init, ex);
        let rest = exclude_spec(init, ex);
        let r = exclude_spec(cs, ex);
        assert forall|i: int| 0 <= i < r.len() implies cs.contains(#[trigger] r[i])
            && forall|j: int| 0 <= j < ex.len() ==> !subset_spec(ex[j], r[i]) by {
            if i < rest.len() {
                assert(r[i] == rest[i]);
                assert(init.contains(rest[i]));
                let m = choose|m: int| 0 <= m < init.len() && init[m] == rest[i];
                assert(cs[m] == init[m]);
            } else {
                assert(r[i] == c);
                assert(!excluded(c, ex));
                assert(cs[cs.len() - 1] == c);
            }
        }
        assert forall|i: int| 0 <= i < cs.len() && (forall|j: int| 0 <= j < ex.len() ==> !subset_spec(ex[j], cs[i]))
            implies r.contains(#[trigger] cs[i]) by {
            if i < init.len() {
                assert(init[i] == cs[i]);
                assert(rest.contains(init[i]));
                let m = choose|m: int| 0 <= m < rest.len() && rest[m] == init[i];
                assert(r[m] == rest[m]);
            } else {
                assert(!excluded(c, ex));
                assert(r[rest.len() as int] == c);
            }
        }
    }
}

fn apply_exclude(combos: &mut Vec<StrMap<String>>, exclude: &Vec<StrMap<String>>)
    ensures
        combo_views(final(combos)@) == exclude_spec(combo_views(old(combos)@), combo_views(exclude@)),
{
    let ghost cv = combo_views(combos@);
    let ghost ev = combo_views(exclude@);
    let mut source: Vec<StrMap<String>> = Vec::new();
    std::mem::swap(&mut source, combos);
    let mut i: usize = 0;
    assert(cv.take(0) =~= Seq::<ComboView>::empty());
    assert(combo_views(combos@) =~= Seq::<ComboView>::empty());
    while i < source.len()
        invariant
            i <= source@.len(),
            cv == combo_views(source@),
            ev == combo_views(exclude@),
            combo_views(combos@) == exclude_spec(cv.take(i as int), ev),
        decreases source.len() - i,
    {
        let mut hit = false;
        let mut j: usize = 0;
        while j < exclude.len()
            invariant
                i < source@.len(),
                j <= exclude@.len(),
                cv == combo_views(source@),
                ev == combo_views(exclude@),
                hit == exists|k: int| 0 <= k < j && #[trigger] subset_spec(ev[k], cv[i as int]),
            decreases exclude.len() - j,
        {
            let m = is_subset_match(&exclude[j], &source[i]);
            assert(ev[j as int] == exclude@[j as int].map_view());
            assert(cv[i as int] == source@[i as int].map_view());
            if m {
                hit = true;
            }
            j += 1;
        }
        proof {
            assert(cv.take(i + 1).drop_last() =~= cv.take(i as int));
            assert(cv.take(i + 1).last() == cv[i as int]);
        }
        if !hit {
            let c = source[i].duplicate();
            assert(c.map_view() == cv[i as int]);
            let ghost before = combos@;
            combos.push(c);
            proof {
                lemma_combo_views_push(before, c);
            }
        }
        i += 1;
    }
    assert(cv.take(i as int) =~= cv);
}

/// Some key of `entry` is an axis name.
pub open spec fn key_hits(entry: ComboView, axes: Seq<Seq<char>>) -> bool {
    exists|k: Seq<char>| #[trigger] entry.contains_key(k) && axes.contains(k)
}

/// `combo` has the entry's value for every key of the entry that is an axis.
pub open spec fn agrees_on_axes(combo: ComboView, entry: ComboView, axes: Seq<Seq<char>>) -> bool {
    forall|k: Seq<char>| #[trigger] entry.contains_key(k) && axes.contains(k) ==> combo.contains_key(k)
        && combo[k] == entry[k]
}

/// `combo` with the entry merged in where it agrees on the axes.
pub open spec fn merge_if_agrees(combo: ComboView, entry: ComboView, axes: Seq<Seq<char>>) -> ComboView {
    if agrees_on_axes(combo, entry, axes) {
        combo.union_prefer_right(entry)
    } else {
        combo
    }
}

/// One `include` entry: merged into every combination when it names no axis;
/// otherwise merged into every combination that agrees with it on the axes
/// it names, or appended when none does.
pub open spec fn merge_entry(cs: Seq<ComboView>, entry: ComboView, axes: Seq<Seq<char>>) -> Seq<ComboView> {
    if !key_hits(entry, axes) {
        cs.map_values(|c: ComboView| c.union_prefer_right(entry))
    } else {
        let merged = cs.map_values(|c: ComboView| merge_if_agrees(c, entry, axes));
        if exists|j: int| 0 <= j < cs.len() && #[trigger] agrees_on_axes(cs[j], entry, axes) {
            merged
        } else {
            merged.push(entry)
        }
    }
}

/// The `include` entries applied in order.
pub open spec fn merge_entries(cs: Seq<ComboView>, es: Seq<ComboView>, axes: Seq<Seq<char>>) -> Seq<ComboView>
    decreases es.len(),
{
    if es.len() == 0 {
        cs
    } else {
        merge_entry(merge_entries(cs, es.drop_last(), axes), es.last(), axes)
    }
}

/// `include` on combinations with axes `axes`: without axes every entry is a
/// combination of its own.
pub open spec fn merged_spec(cs: Seq<ComboView>, es: Seq<ComboView>, axes: Seq<Seq<char>>) -> Seq<ComboView> {
    if axes.len() == 0 {
        cs + es
    } else {
        merge_entries(cs, es, axes)
    }
}

#[verifier::spinoff_prover]
proof fn lemma_merge_entry_cases(cs: Seq<ComboView>, entry: ComboView, axes: Seq<Seq<char>>, k0: Seq<char>, j0: int)
    requires
        entry.contains_key(k0),
        axes.contains(k0),
    ensures
        (0 <= j0 < cs.len() && forall|k: Seq<char>| entry.contains_key(k) && axes.contains(k)
            ==> #[trigger] cs[j0].contains_key(k) && cs[j0][k] == entry[k])
            ==> merge_entry(cs, entry, axes).len() == cs.len() && forall|j: int| 0 <= j < cs.len()
                ==> #[trigger] merge_entry(cs, entry, axes)[j]
                == if forall|k: Seq<char>| entry.contains_key(k) && axes.contains(k)
                    ==> #[trigger] cs[j].contains_key(k) && cs[j][k] == entry[k] {
                    cs[j].union_prefer_right(entry)
                } else {
                    cs[j]
                },
        (forall|j: int| #![trigger cs[j]] 0 <= j < cs.len() ==> exists|k: Seq<char>| entry.contains_key(k) && axes.contains(k)
            && !(#[trigger] cs[j].contains_key(k) && cs[j][k] == entry[k]))
            ==> merge_entry(cs, entry, axes) == cs.push(entry),
{
    assert(key_hits(entry, axes));
    let merged = cs.map_values(|c: ComboView| merge_if_agrees(c, entry, axes));
    if 0 <= j0 < cs.len() && forall|k: Seq<char>| entry.contains_key(k) && axes.contains(k)
        ==> #[trigger] cs[j0].contains_key(k) && cs[j0][k] == entry[k] {
        assert forall|k: Seq<char>| #[trigger] entry.contains_key(k) && axes.contains(k) implies cs[j0].contains_key(k)
            && cs[j0][k] == entry[k] by {
            assert(cs[j0].contains_key(k) && cs[j0][k] == entry[k]);
        }
        assert(agrees_on_axes(cs[j0], entry, axes));
        assert(merge_entry(cs, entry, axes) == merged);
        assert forall|i: int| 0 <= i < cs.len() implies #[trigger] merge_entry(cs, entry, axes)[i]
            == if forall|k: Seq<char>| entry.contains_key(k) && axes.contains(k)
                ==> #[trigger] cs[i].contains_key(k) && cs[i][k] == entry[k] {
                cs[i].union_prefer_right(entry)
            } else {
                cs[i]
            } by {
            assert(merged[i] == merge_if_agrees(cs[i], entry, axes));
        }
    }
    if forall|j: int| #![trigger cs[j]] 0 <= j < cs.len() ==> exists|k: Seq<char>| entry.contains_key(k) && axes.contains(k)
        && !(#[trigger] cs[j].contains_key(k) && cs[j][k] == entry[k]) {
        assert forall|j: int| 0 <= j < cs.len() implies !#[trigger] agrees_on_axes(cs[j], entry, axes) by {
            let k = choose|k: Seq<char>| entry.contains_key(k) && axes.contains(k)
                && !(#[trigger] cs[j].contains_key(k) && cs[j][k] == entry[k]);
            assert(entry.contains_key(k) && axes.contains(k));
        }
        assert forall|i: int| 0 <= i < cs.len() implies #[trigger] merged[i] == cs[i] by {
            assert(!agrees_on_axes(cs[i], entry, axes));
        }
        assert(merged =~= cs);
    }
}

/// Law of an `include` entry that names an axis, applied after the entries
/// `es`: when some combination (here the one at `j0`) has the entry's value
/// for every axis the entry names, no combination is added, each such
/// combination gains the entry's keys and the others stay as they are; when
/// none does, the entry is appended as a combination of its own.
pub proof fn lemma_include_entry(cs: Seq<ComboView>, es: Seq<ComboView>, entry: ComboView, axes: Seq<Seq<char>>,
    k0: Seq<char>, j0: int)
    requires
        axes.len() > 0,
        entry.contains_key(k0),
        axes.contains(k0),
    ensures
        ({
            let prev = merged_spec(cs, es, axes);
            let next = merged_spec(cs, es.push(entry), axes);
            &&& (0 <= j0 < prev.len() && forall|k: Seq<char>| entry.contains_key(k) && axes.contains(k)
                ==> #[trigger] prev[j0].contains_key(k) && prev[j0][k] == entry[k])
                ==> next.len() == prev.len() && forall|j: int| 0 <= j < prev.len() ==> #[trigger] next[j]
                    == if forall|k: Seq<char>| entry.contains_key(k) && axes.contains(k)
                        ==> #[trigger] prev[j].contains_key(k) && prev[j][k] == entry[k] {
                        prev[j].union_prefer_right(entry)
                    } else {
                        prev[j]
                    }
            &&& (forall|j: int| #![trigger prev[j]] 0 <= j < prev.len() ==> exists|k: Seq<char>| entry.contains_key(k)
                && axes.contains(k) && !(#[trigger] prev[j].contains_key(k) && prev[j][k] == entry[k]))
                ==> next == prev.push(entry)
        }),
{
    assert(es.push(entry).drop_last() =~= es);
    assert(es.push(entry).last() == entry);
    lemma_merge_entry_cases(merged_spec(cs, es, axes), entry, axes, k0, j0);
}

/// Law of `include` entries that name no axis, and of `include` without
/// axes: with axes, an entry none of whose keys is an axis adds its keys to
/// every combination and adds none; without axes, every entry is a
/// combination of its own, after those there were.
pub proof fn lemma_include_without_axes(cs: Seq<ComboView>, es: Seq<ComboView>, entry: ComboView,
    axes: Seq<Seq<char>>)
    ensures
        (axes.len() > 0 && forall|k: Seq<char>| #[trigger] entry.contains_key(k) ==> !axes.contains(k)) ==> {
            let prev = merged_spec(cs, es, axes);
            let next = merged_spec(cs, es.push(entry), axes);
            &&& next.len() == prev.len()
            &&& forall|j: int| 0 <= j < prev.len() ==> #[trigger] next[j] == prev[j].union_prefer_right(entry)
        },
        axes.len() == 0 ==> merged_spec(cs, es, axes) == cs + es,
{
    if axes.len() > 0 && forall|k: Seq<char>| #[trigger] entry.contains_key(k) ==> !axes.contains(k) {
        assert(es.push(entry).drop_last() =~= es);
        assert(es.push(entry).last() == entry);
        assert(!key_hits(entry, axes));
    }
}

fn merge_into(c: &mut StrMap<String>, entry: &StrMap<String>)
    ensures
        final(c).map_view() == old(c).map_view().union_prefer_right(entry.map_view()),
{
    c.overlay(entry);
    assert(c.map_view() =~= old(c).map_view().union_prefer_right(entry.map_view())) by {
        assert forall|q: Seq<char>| #[trigger] c.map_view().contains_key(q)
            == old(c).map_view().union_prefer_right(entry.map_view()).contains_key(q) by {
            let _ = c.get_spec(q);
        }
        assert forall|q: Seq<char>| c.map_view().contains_key(q) implies #[trigger] c.map_view()[q]
            == old(c).map_view().union_prefer_right(entry.map_view())[q] by {
            let _ = c.get_spec(q);
        }
    }
}

/// Whether `name` is one of `names`.
pub(crate) fn contains_name(names: &Vec<String>, name: &str) -> (r: bool)
    ensures
        r == views(names@).contains(name@),
{
    let mut i: usize = 0;
    while i < names.len()
        invariant
            i <= names@.len(),
            forall|k: int| 0 <= k < i ==> views(names@)[k] != name@,
        decreases names.len() - i,
    {
        if str_eq(names[i].as_str(), name) {
            assert(views(names@)[i as int] == name@);
            return true;
        }
        i += 1;
    }
    false
}

/// The keys of `entry` that are axis names, in key order.
fn axis_keys(entry: &StrMap<String>, axes: &Vec<String>) -> (r: Vec<String>)
    ensures
        forall|k: Seq<char>| #[trigger] views(r@).contains(k) == (entry.map_view().contains_key(k) && views(axes@).contains(k)),
{
    let mut r: Vec<String> = Vec::new();
    let n = entry.len();
    let mut i: usize = 0;
    while i < n
        invariant
            i <= n == entry@.len(),
            strictly_sorted(entry@),
            forall|k: Seq<char>| #[trigger] views(r@).contains(k) == (exists|j: int| 0 <= j < i && entry@[j].0 == k
                && views(axes@).contains(k)),
        decreases n - i,
    {
        let k = entry.key_at(i);
        let ghost before = r@;
        if contains_name(axes, k.as_str()) {
            r.push(k.clone());
        }
        proof {
            assert forall|q: Seq<char>| #[trigger] views(r@).contains(q) == (exists|j: int| 0 <= j < i + 1
                && entry@[j].0 == q && views(axes@).contains(q)) by {
                if views(r@).contains(q) {
                    let m = choose|m: int| 0 <= m < views(r@).len() && views(r@)[m] == q;
                    if m < before.len() {
                        assert(views(before)[m] == q);
                        assert(views(before).contains(q));
                    }
                }
                if exists|j: int| 0 <= j < i + 1 && entry@[j].0 == q && views(axes@).contains(q) {
                    let j = choose|j: int| 0 <= j < i + 1 && entry@[j].0 == q && views(axes@).contains(q);
                    if j < i {
                        assert(views(before).contains(q));
                        let m = choose|m: int| 0 <= m < views(before).len() && views(before)[m] == q;
                        assert(views(r@)[m] == q);
                    } else {
                        assert(views(r@)[views(r@).len() - 1] == q);
                    }
                }
            }
        }
        i += 1;
    }
    assert forall|q: Seq<char>| #[trigger] views(r@).contains(q) == (entry.map_view().contains_key(q)
        && views(axes@).contains(q)) by {
        lemma_lookup_some(entry@, q);
        if exists|j: int| 0 <= j < n && entry@[j].0 == q {
            let j = choose|j: int| 0 <= j < n && entry@[j].0 == q;
            lemma_lookup_index(entry@, q, j);
        }
    }
    r
}

fn agrees(combo: &StrMap<String>, entry: &StrMap<String>, keys: &Vec<String>) -> (r: bool)
    ensures
        r == forall|m: int| 0 <= m < keys@.len() ==> #[trigger] same_entry(combo.get_spec(keys@[m]@), entry.get_spec(keys@[m]@)),
{
    let mut m: usize = 0;
    while m < keys.len()
        invariant
            m <= keys@.len(),
            forall|p: int| 0 <= p < m ==> #[trigger] same_entry(combo.get_spec(keys@[p]@), entry.get_spec(keys@[p]@)),
        decreases keys.len() - m,
    {
        let a = combo.get(keys[m].as_str());
        let b = entry.get(keys[m].as_str());
        let same = match (a, b) {
            (Some(x), Some(y)) => str_eq(x.as_str(), y.as_str()),
            (None, None) => true,
            _ => false,
        };
        if !same {
            assert(!same_entry(combo.get_spec(keys@[m as int]@), entry.get_spec(keys@[m as int]@)));
            return false;
        }
        m += 1;
    }
    true
}

fn apply_include(combos: &mut Vec<StrMap<String>>, entries: &Vec<StrMap<String>>, axes: &Vec<String>)
    ensures
        combo_views(final(combos)@) == merged_spec(combo_views(old(combos)@), combo_views(entries@), views(axes@)),
{
    let ghost ev = combo_views(entries@);
    if axes.len() == 0 {
        let mut i: usize = 0;
        while i < entries.len()
            invariant
                i <= entries@.len(),
                ev == combo_views(entries@),
                combo_views(combos@) == combo_views(old(combos)@) + ev.take(i as int),
            decreases entries.len() - i,
        {
            let c = entries[i].duplicate();
            assert(c.map_view() == ev[i as int]);
            let ghost before = combos@;
            combos.push(c);
            proof {
                lemma_combo_views_push(before, c);
                assert(ev.take(i + 1) =~= ev.take(i as int).push(ev[i as int]));
                assert(combo_views(combos@) =~= combo_views(old(combos)@) + ev.take(i + 1));
            }
            i += 1;
        }
        assert(ev.take(i as int) =~= ev);
        return;
    }
    let mut i: usize = 0;
    assert(ev.take(0) =~= Seq::<ComboView>::empty());
    while i < entries.len()
        invariant
            i <= entries@.len(),
            ev == combo_views(entries@),
            views(axes@).len() > 0,
            combo_views(combos@) == merge_entries(combo_views(old(combos)@), ev.take(i as int), views(axes@)),
        decreases entries.len() - i,
    {
        let entry = &entries[i];
        let ghost e = ev[i as int];
        let ghost cs0 = combo_views(combos@);
        let keys = axis_keys(entry, axes);
        assert(e == entry.map_view());
        proof {
            assert(ev.take(i + 1).drop_last() =~= ev.take(i as int));
            assert(ev.take(i + 1).last() == e);
            assert forall|c: ComboView| #[trigger] agrees_on_axes(c, e, views(axes@)) == (forall|k: Seq<char>|
                #[trigger] views(keys@).contains(k) ==> c.contains_key(k) && c[k] == e[k]) by {
                if agrees_on_axes(c, e, views(axes@)) {
                    assert forall|k: Seq<char>| #[trigger] views(keys@).contains(k) implies c.contains_key(k) && c[k] == e[k] by {
                        assert(e.contains_key(k) && views(axes@).contains(k));
                    }
                }
                if forall|k: Seq<char>| #[trigger] views(keys@).contains(k) ==> c.contains_key(k) && c[k] == e[k] {
                    assert forall|k: Seq<char>| #[trigger] e.contains_key(k) && views(axes@).contains(k) implies c.contains_key(k)
                        && c[k] == e[k] by {
                        assert(views(keys@).contains(k));
                    }
                }
            }
        }
        if keys.len() == 0 {
            proof {
                assert(!key_hits(e, views(axes@))) by {
                    if key_hits(e, views(axes@)) {
                        let k = choose|k: Seq<char>| #[trigger] e.contains_key(k) && views(axes@).contains(k);
                        assert(views(keys@).contains(k));
                    }
                }
            }
            let mut j: usize = 0;
            while j < combos.len()
                invariant
                    j <= combos@.len() == cs0.len(),
                    e == entry.map_view(),
                    forall|k: Seq<char>| #[trigger] views(keys@).contains(k) == (e.contains_key(k) && views(axes@).contains(k)),
                    forall|m: int| 0 <= m < j ==> #[trigger] combo_views(combos@)[m] == cs0[m].union_prefer_right(e),
                    forall|m: int| j <= m < cs0.len() ==> #[trigger] combo_views(combos@)[m] == cs0[m],
                decreases combos.len() - j,
            {
                assert(combo_views(combos@)[j as int] == cs0[j as int]);
                let mut c = combos[j].duplicate();
                assert(c.map_view() == cs0[j as int]);
                merge_into(&mut c, entry);
                let ghost before = combos@;
                combos.set(j, c);
                proof {
                    lemma_combo_views_update(before, j as int, c);
                }
                j += 1;
            }
            assert(combo_views(combos@) =~= cs0.map_values(|c: ComboView| c.union_prefer_right(e)));
            assert(combo_views(combos@) == merge_entry(cs0, e, views(axes@)));
        } else {
            proof {
                let k = views(keys@)[0];
                assert(views(keys@).contains(k));
                assert(key_hits(e, views(axes@)));
            }
            let mut matched = false;
            let mut j: usize = 0;
            while j < combos.len()
                invariant
                    j <= combos@.len() == cs0.len(),
                    e == entry.map_view(),
                    forall|k: Seq<char>| #[trigger] views(keys@).contains(k) == (e.contains_key(k) && views(axes@).contains(k)),
                    forall|c: ComboView| #[trigger] agrees_on_axes(c, e, views(axes@)) == (forall|k: Seq<char>|
                        #[trigger] views(keys@).contains(k) ==> c.contains_key(k) && c[k] == e[k]),
                    forall|m: int| 0 <= m < j ==> #[trigger] combo_views(combos@)[m] == merge_if_agrees(cs0[m], e, views(axes@)),
                    forall|m: int| j <= m < cs0.len() ==> #[trigger] combo_views(combos@)[m] == cs0[m],
                    matched == exists|m: int| 0 <= m < j && #[trigger] agrees_on_axes(cs0[m], e, views(axes@)),
                decreases combos.len() - j,
            {
                assert(combo_views(combos@)[j as int] == cs0[j as int]);
                let ok = agrees(&combos[j], entry, &keys);
                proof {
                    let c = cs0[j as int];
                    assert(combo_views(combos@)[j as int] == c);
                    if ok {
                        assert forall|k: Seq<char>| #[trigger] views(keys@).contains(k) implies c.contains_key(k)
                            && c[k] == e[k] by {
                            let m = choose|m: int| 0 <= m < views(keys@).len() && views(keys@)[m] == k;
                            assert(same_entry(combos@[j as int].get_spec(keys@[m]@), entry.get_spec(keys@[m]@)));
                            assert(e.contains_key(k));
                            assert(c == combos@[j as int].map_view());
                        }
                        assert(agrees_on_axes(c, e, views(axes@)));
                    } else {
                        let m = choose|m: int| 0 <= m < keys@.len() && !#[trigger] same_entry(
                            combos@[j as int].get_spec(keys@[m]@), entry.get_spec(keys@[m]@));
                        let k = keys@[m]@;
                        assert(views(keys@)[m] == k);
                        assert(views(keys@).contains(k));
                        assert(e.contains_key(k));
                        assert(views(axes@).contains(k));
                        assert(c == combos@[j as int].map_view());
                        assert(!agrees_on_axes(c, e, views(axes@)));
                    }
                }
                if ok {
                    matched = true;
                    let mut c = combos[j].duplicate();
                    assert(c.map_view() == cs0[j as int]);
                    merge_into(&mut c, entry);
                    let ghost before = combos@;
                    combos.set(j, c);
                    proof {
                        lemma_combo_views_update(before, j as int, c);
                    }
                }
                j += 1;
            }
            let ghost merged = cs0.map_values(|c: ComboView| merge_if_agrees(c, e, views(axes@)));
            assert(combo_views(combos@) =~= merged);
            assert(key_hits(e, views(axes@)));
            if !matched {
                assert(!exists|m: int| 0 <= m < cs0.len() && #[trigger] agrees_on_axes(cs0[m], e, views(axes@)));
                let c = entry.duplicate();
                assert(c.map_view() == e);
                let ghost before = combos@;
                combos.push(c);
                proof {
                    lemma_combo_views_push(before, c);
                }
            }
            assert(combo_views(combos@) == merge_entry(cs0, e, views(axes@)));
        }
        i += 1;
    }
    assert(ev.take(i as int) =~= ev);
}

// ---------------------------------------------------------------------------
// Instance ids
// ---------------------------------------------------------------------------

/// The `name=value` texts of a combination, in key order.
pub open spec fn pair_texts(c: Seq<(Seq<char>, String)>) -> Seq<Seq<char>> {
    c.map_values(|e: (Seq<char>, String)| e.0 + seq!['='] + e.1@)
}

/// The instance id of a combination: the job id alone without values,
/// otherwise `job (k1=v1, k2=v2)`.
pub open spec fn instance_id_spec(base: Seq<char>, c: Seq<(Seq<char>, String)>) -> Seq<char> {
    if c.len() == 0 {
        base
    } else {
        base + seq![' ', '('] + join(pair_texts(c), seq![',', ' ']) + seq![')']
    }
}

/// The instance id of combination `combo` of job `base_id`.
pub fn format_instance_id(base_id: &str, combo: &StrMap<String>) -> (r: String)
    ensures
        r@ == instance_id_spec(base_id@, combo@),
{
    let n = combo.len();
    if n == 0 {
        return owned(base_id);
    }
    let mut pairs: Vec<String> = Vec::new();
    let mut i: usize = 0;
    while i < n
        invariant
            i <= n == combo@.len(),
            views(pairs@) == pair_texts(combo@).take(i as int),
        decreases n - i,
    {
        let mut p = combo.key_at(i).clone();
        push_char(&mut p, '=');
        p.append(combo.value_at(i).as_str());
        assert(p@ == pair_texts(combo@)[i as int]);
        let ghost before = pairs@;
        pairs.push(p);
        proof {
            lemma_views_push(before, p);
            assert(pair_texts(combo@).take(i + 1) =~= pair_texts(combo@).take(i as int).push(p@));
        }
        i += 1;
    }
    assert(pair_texts(combo@).take(i as int) =~= pair_texts(combo@));
    let joined = join_strings(pairs.as_slice(), ", ");
    let mut r = owned(base_id);
    push_char(&mut r, ' ');
    push_char(&mut r, '(');
    r.append(joined.as_str());
    push_char(&mut r, ')');
    proof {
        reveal_strlit(", ");
        assert(", "@ =~= seq![',', ' ']);
        assert(r@ =~= instance_id_spec(base_id@, combo@));
    }
    r
}

// ---------------------------------------------------------------------------
// Reading `strategy.matrix`
// ---------------------------------------------------------------------------

/// The name of the list key that adds combinations.
pub open spec fn added_key() -> Seq<char> {
    seq!['i', 'n', 'c', 'l', 'u', 'd', 'e']
}

/// The name of the list key that removes combinations.
pub open spec fn removed_key() -> Seq<char> {
    "exclude"@
}

fn added_key_string() -> (s: String)
    ensures
        s@ == added_key(),
{
    let mut s = String::new();
    push_char(&mut s, 'i');
    push_char(&mut s, 'n');
    push_char(&mut s, 'c');
    push_char(&mut s, 'l');
    push_char(&mut s, 'u');
    push_char(&mut s, 'd');
    push_char(&mut s, 'e');
    assert(s@ =~= added_key());
    s
}

/// `strategy.matrix ` followed by the two list keys.
pub open spec fn lists_prefix() -> Seq<char> {
    "strategy.matrix "@ + added_key() + "/exclude"@
}

fn lists_prefix_string() -> (s: String)
    ensures
        s@ == lists_prefix(),
{
    let a = added_key_string();
    cat3("strategy.matrix ", a.as_str(), "/exclude")
}

/// The texts of a sequence whose items are all plain scalars.
pub open spec fn all_scalars(items: Seq<Yaml>) -> Option<Seq<Seq<char>>>
    decreases items.len(),
{
    if items.len() == 0 {
        Some(Seq::empty())
    } else {
        match (all_scalars(items.drop_last()), scalar_text(items.last())) {
            (Some(r), Some(t)) => Some(r.push(t)),
            _ => None,
        }
    }
}

/// An axis: a sequence of plain scalars.
pub open spec fn scalar_seq_spec(v: Yaml) -> Option<Seq<Seq<char>>> {
    match v {
        Yaml::List(items, _) => all_scalars(items@),
        _ => None,
    }
}

fn parse_scalar_seq(v: &Yaml) -> (r: Option<Vec<String>>)
    ensures
        match r {
            Some(x) => scalar_seq_spec(*v) == Some(views(x@)),
            None => scalar_seq_spec(*v) is None,
        },
{
    let items = match v {
        Yaml::List(items, _) => items,
        _ => return None,
    };
    let mut out: Vec<String> = Vec::new();
    let mut i: usize = 0;
    assert(items@.take(0) =~= Seq::<Yaml>::empty());
    assert(views(out@) =~= Seq::<Seq<char>>::empty());
    while i < items.len()
        invariant
            i <= items@.len(),
            scalar_seq_spec(*v) == all_scalars(items@),
            all_scalars(items@.take(i as int)) == Some(views(out@)),
        decreases items.len() - i,
    {
        proof {
            assert(items@.take(i + 1).drop_last() =~= items@.take(i as int));
            assert(items@.take(i + 1).last() == items@[i as int]);
        }
        let t = match scalar_to_string(&items[i]) {
            Some(t) => t,
            None => {
                proof {
                    lemma_all_scalars_none(items@, i as int + 1);
                }
                return None;
            },
        };
        let ghost before = out@;
        out.push(t);
        proof {
            lemma_views_push(before, t);
        }
        i += 1;
    }
    assert(items@.take(i as int) =~= items@);
    Some(out)
}

proof fn lemma_all_scalars_none(items: Seq<Yaml>, n: int)
    requires
        0 <= n <= items.len(),
        all_scalars(items.take(n)) is None,
    ensures
        all_scalars(items) is None,
    decreases items.len() - n,
{
    if n < items.len() {
        assert(items.take(n + 1).drop_last() =~= items.take(n));
        lemma_all_scalars_none(items, n + 1);
    } else {
        assert(items.take(n) =~= items);
    }
}

/// One combination entry from the pairs of a mapping, in order: the first
/// pair whose key is not a string or whose value is not a plain scalar is
/// the error.
pub open spec fn combo_of(m: Seq<(Yaml, Yaml)>) -> Result<ComboView, Seq<char>>
    decreases m.len(),
{
    if m.len() == 0 {
        Ok(Map::empty())
    } else {
        match combo_of(m.drop_last()) {
            Err(e) => Err(e),
            Ok(c) => match m.last().0.str_spec() {
                None => Err(lists_prefix() + " key is not a string"@),
                Some(k) => match scalar_text(m.last().1) {
                    None => Err(lists_prefix() + " value for `"@ + k + "` is not a plain scalar"@),
                    Some(v) => Ok(c.insert(k, v)),
                },
            },
        }
    }
}

/// The combination entries of a sequence of mappings, in order.
pub open spec fn combos_of(items: Seq<Yaml>) -> Result<Seq<ComboView>, Seq<char>>
    decreases items.len(),
{
    if items.len() == 0 {
        Ok(Seq::empty())
    } else {
        match combos_of(items.drop_last()) {
            Err(e) => Err(e),
            Ok(cs) => match items.last() {
                Yaml::Mapping(m, _) => match combo_of(m@) {
                    Err(e) => Err(e),
                    Ok(c) => Ok(cs.push(c)),
                },
                _ => Err(lists_prefix() + " entry is not a mapping"@),
            },
        }
    }
}

/// The list of combination entries under the two list keys.
pub open spec fn combo_list_spec(v: Yaml) -> Result<Seq<ComboView>, Seq<char>> {
    match v {
        Yaml::List(items, _) => combos_of(items@),
        _ => Err(lists_prefix() + " is not a list"@),
    }
}

fn unsupported(reason: String) -> (e: MatrixError)
    ensures
        e == MatrixError::Unsupported(reason),
{
    MatrixError::Unsupported(reason)
}

/// The text of an error.
pub open spec fn err_text(e: MatrixError) -> Seq<char> {
    match e {
        MatrixError::Unsupported(s) => s@,
    }
}

fn parse_combo(m: &Vec<(Yaml, Yaml)>) -> (r: Result<StrMap<String>, MatrixError>)
    ensures
        match (r, combo_of(m@)) {
            (Ok(c), Ok(v)) => c.map_view() == v,
            (Err(e), Err(t)) => err_text(e) == t,
            _ => false,
        },
{
    let mut combo: StrMap<String> = StrMap::new();
    assert(combo.map_view() =~= Map::<Seq<char>, Seq<char>>::empty());
    assert(m@.take(0) =~= Seq::<(Yaml, Yaml)>::empty());
    let mut i: usize = 0;
    while i < m.len()
        invariant
            i <= m@.len(),
            combo_of(m@.take(i as int)) == Ok::<ComboView, Seq<char>>(combo.map_view()),
        decreases m.len() - i,
    {
        proof {
            assert(m@.take(i + 1).drop_last() =~= m@.take(i as int));
            assert(m@.take(i + 1).last() == m@[i as int]);
        }
        let key = match m[i].0.as_str() {
            Some(k) => k,
            None => {
                let p = lists_prefix_string();
                proof {
                    lemma_combo_of_err(m@, i as int + 1);
                }
                return Err(unsupported(cat(p.as_str(), " key is not a string")));
            },
        };
        let val = match scalar_to_string(&m[i].1) {
            Some(v) => v,
            None => {
                let p = lists_prefix_string();
                let a = cat3(p.as_str(), " value for `", key.as_str());
                proof {
                    lemma_combo_of_err(m@, i as int + 1);
                }
                return Err(unsupported(cat(a.as_str(), "` is not a plain scalar")));
            },
        };
        insert_view(&mut combo, key.clone(), val);
        i += 1;
    }
    assert(m@.take(i as int) =~= m@);
    Ok(combo)
}

proof fn lemma_combo_of_err(m: Seq<(Yaml, Yaml)>, n: int)
    requires
        0 <= n <= m.len(),
        combo_of(m.take(n)) is Err,
    ensures
        combo_of(m) == combo_of(m.take(n)),
    decreases m.len() - n,
{
    if n < m.len() {
        assert(m.take(n + 1).drop_last() =~= m.take(n));
        lemma_combo_of_err(m, n + 1);
    } else {
        assert(m.take(n) =~= m);
    }
}

proof fn lemma_combos_of_err(items: Seq<Yaml>, n: int)
    requires
        0 <= n <= items.len(),
        combos_of(items.take(n)) is Err,
    ensures
        combos_of(items) == combos_of(items.take(n)),
    decreases items.len() - n,
{
    if n < items.len() {
        assert(items.take(n + 1).drop_last() =~= items.take(n));
        lemma_combos_of_err(items, n + 1);
    } else {
        assert(items.take(n) =~= items);
    }
}

fn parse_combo_list(v: &Yaml) -> (r: Result<Vec<StrMap<String>>, MatrixError>)
    ensures
        match (r, combo_list_spec(*v)) {
            (Ok(cs), Ok(w)) => combo_views(cs@) == w,
            (Err(e), Err(t)) => err_text(e) == t,
            _ => false,
        },
{
    let items = match v {
        Yaml::List(items, _) => items,
        _ => {
            let p = lists_prefix_string();
            return Err(unsupported(cat(p.as_str(), " is not a list")));
        },
    };
    let mut out: Vec<StrMap<String>> = Vec::new();
    assert(items@.take(0) =~= Seq::<Yaml>::empty());
    assert(combo_views(out@) =~= Seq::<ComboView>::empty());
    let mut i: usize = 0;
    while i < items.len()
        invariant
            i <= items@.len(),
            combo_list_spec(*v) == combos_of(items@),
            combos_of(items@.take(i as int)) == Ok::<Seq<ComboView>, Seq<char>>(combo_views(out@)),
        decreases items.len() - i,
    {
        proof {
            assert(items@.take(i + 1).drop_last() =~= items@.take(i as int));
            assert(items@.take(i + 1).last() == items@[i as int]);
        }
        match &items[i] {
            Yaml::Mapping(m, _) => {
                match parse_combo(m) {
                    Ok(c) => {
                        let ghost before = out@;
                        out.push(c);
                        proof {
                            lemma_combo_views_push(before, c);
                        }
                    },
                    Err(e) => {
                        proof {
                            lemma_combos_of_err(items@, i as int + 1);
                        }
                        return Err(e);
                    },
                }
            },
            _ => {
                let p = lists_prefix_string();
                proof {
                    lemma_combos_of_err(items@, i as int + 1);
                }
                return Err(unsupported(cat(p.as_str(), " entry is not a mapping")));
            },
        }
        i += 1;
    }
    assert(items@.take(i as int) =~= items@);
    Ok(out)
}

/// What the entries of `strategy.matrix` declare so far: the axes (name and
/// values) in order, the added and the removed combinations.
pub struct MatrixDecl {
    pub axes: Seq<(Seq<char>, Seq<Seq<char>>)>,
    pub added: Seq<ComboView>,
    pub removed: Seq<ComboView>,
}

/// The entries of `strategy.matrix` read in order; the first entry that cannot
/// be read is the error.
pub open spec fn decl_of(m: Seq<(Yaml, Yaml)>) -> Result<MatrixDecl, Seq<char>>
    decreases m.len(),
{
    if m.len() == 0 {
        Ok(MatrixDecl { axes: Seq::empty(), added: Seq::empty(), removed: Seq::empty() })
    } else {
        match decl_of(m.drop_last()) {
            Err(e) => Err(e),
            Ok(d) => match m.last().0.str_spec() {
                None => Err("strategy.matrix key is not a string"@),
                Some(k) => if k == added_key() {
                    match combo_list_spec(m.last().1) {
                        Err(e) => Err(e),
                        Ok(cs) => Ok(MatrixDecl { added: cs, ..d }),
                    }
                } else if k == removed_key() {
                    match combo_list_spec(m.last().1) {
                        Err(e) => Err(e),
                        Ok(cs) => Ok(MatrixDecl { removed: cs, ..d }),
                    }
                } else {
                    match scalar_seq_spec(m.last().1) {
                        None => Err("strategy.matrix."@ + k + " is not a list of plain scalar values"@),
                        Some(vals) => Ok(MatrixDecl { axes: d.axes.push((k, vals)), ..d }),
                    }
                },
            },
        }
    }
}

/// The axis names of the axes.
pub open spec fn axis_names(axes: Seq<(Seq<char>, Seq<Seq<char>>)>) -> Seq<Seq<char>> {
    axes.map_values(|a: (Seq<char>, Seq<Seq<char>>)| a.0)
}

/// The combinations a declaration yields before the cap.
pub open spec fn decl_combos(d: MatrixDecl) -> Seq<ComboView> {
    exclude_spec(merged_spec(product_spec(d.axes), d.added, axis_names(d.axes)), d.removed)
}

/// The capped combinations of a declaration and their number before the cap.
pub open spec fn finish(r: Result<MatrixDecl, Seq<char>>) -> Result<Option<(Seq<ComboView>, nat)>, Seq<char>> {
    match r {
        Err(e) => Err(e),
        Ok(d) => {
            let all = decl_combos(d);
            Ok(Some((all.take(if all.len() > MAX_INSTANCES { MAX_INSTANCES as int } else { all.len() as int }), all.len())))
        },
    }
}

/// What `strategy` expands to: no matrix (`Ok(None)`), the combinations kept
/// under the cap with the number there were before it, or why the matrix
/// cannot be expanded.
pub open spec fn expand_spec(strategy: Option<Yaml>) -> Result<Option<(Seq<ComboView>, nat)>, Seq<char>> {
    match strategy {
        None => Ok(None),
        Some(Yaml::Mapping(sm, _)) => match map_get(sm@, "matrix"@) {
            None => Ok(None),
            Some(Yaml::Mapping(mm, _)) => finish(decl_of(mm@)),
            Some(_) => Err("strategy.matrix is not a mapping (dynamic/expression matrices aren't evaluated in v1)"@),
        },
        Some(_) => Err("strategy is not a mapping"@),
    }
}

/// The combinations of an expanded matrix, already capped, and how many there
/// were before the cap.
#[derive(Debug)]
pub struct Expansion {
    pub combos: Vec<StrMap<String>>,
    pub total_before_cap: usize,
}

proof fn lemma_decl_err(m: Seq<(Yaml, Yaml)>, n: int)
    requires
        0 <= n <= m.len(),
        decl_of(m.take(n)) is Err,
    ensures
        decl_of(m) == decl_of(m.take(n)),
    decreases m.len() - n,
{
    if n < m.len() {
        assert(m.take(n + 1).drop_last() =~= m.take(n));
        lemma_decl_err(m, n + 1);
    } else {
        assert(m.take(n) =~= m);
    }
}

fn same_as_added(k: &str) -> (r: bool)
    ensures
        r == (k@ == added_key()),
{
    let a = added_key_string();
    str_eq(k, a.as_str())
}

/// Expand `strategy`'s matrix; see [`expand_spec`].
pub fn expand_matrix(strategy: Option<&Yaml>) -> (r: Result<Option<Expansion>, MatrixError>)
    ensures
        match (r, expand_spec(match strategy {
            Some(s) => Some(*s),
            None => None,
        })) {
            (Ok(None), Ok(None)) => true,
            (Ok(Some(e)), Ok(Some((cs, total)))) => combo_views(e.combos@) == cs && e.total_before_cap == total,
            (Err(e), Err(t)) => err_text(e) == t,
            _ => false,
        },
{
    let st = match strategy {
        Some(s) => s,
        None => return Ok(None),
    };
    let sm = match st {
        Yaml::Mapping(m, _) => m,
        _ => return Err(unsupported(owned("strategy is not a mapping"))),
    };
    let matrix_value = match mapping_get(sm, "matrix") {
        Some(v) => v,
        None => return Ok(None),
    };
    let mm = match matrix_value {
        Yaml::Mapping(m, _) => m,
        _ => return Err(unsupported(owned(
            "strategy.matrix is not a mapping (dynamic/expression matrices aren't evaluated in v1)",
        ))),
    };
    let mut axes: Vec<(String, Vec<String>)> = Vec::new();
    let mut names: Vec<String> = Vec::new();
    let mut added: Vec<StrMap<String>> = Vec::new();
    let mut removed: Vec<StrMap<String>> = Vec::new();
    let mut i: usize = 0;
    assert(mm@.take(0) =~= Seq::<(Yaml, Yaml)>::empty());
    assert(axes_view(axes@) =~= Seq::<(Seq<char>, Seq<Seq<char>>)>::empty());
    assert(combo_views(added@) =~= Seq::<ComboView>::empty());
    assert(combo_views(removed@) =~= Seq::<ComboView>::empty());
    assert(views(names@) =~= Seq::<Seq<char>>::empty());
    while i < mm.len()
        invariant
            i <= mm@.len(),
            strategy == Some(st),
            expand_spec(Some(*st)) == finish(decl_of(mm@)),
            decl_of(mm@.take(i as int)) == Ok::<MatrixDecl, Seq<char>>(MatrixDecl {
                axes: axes_view(axes@),
                added: combo_views(added@),
                removed: combo_views(removed@),
            }),
            views(names@) == axis_names(axes_view(axes@)),
        decreases mm.len() - i,
    {
        proof {
            assert(mm@.take(i + 1).drop_last() =~= mm@.take(i as int));
            assert(mm@.take(i + 1).last() == mm@[i as int]);
        }
        let key = match mm[i].0.as_str() {
            Some(k) => k,
            None => {
                proof {
                    lemma_decl_err(mm@, i as int + 1);
                }
                return Err(unsupported(owned("strategy.matrix key is not a string")));
            },
        };
        if same_as_added(key.as_str()) {
            match parse_combo_list(&mm[i].1) {
                Ok(cs) => {
                    added = cs;
                },
                Err(e) => {
                    proof {
                        lemma_decl_err(mm@, i as int + 1);
                    }
                    return Err(e);
                },
            }
        } else if str_eq(key.as_str(), "exclude") {
            match parse_combo_list(&mm[i].1) {
                Ok(cs) => {
                    removed = cs;
                },
                Err(e) => {
                    proof {
                        lemma_decl_err(mm@, i as int + 1);
                    }
                    return Err(e);
                },
            }
        } else {
            match parse_scalar_seq(&mm[i].1) {
                Some(vals) => {
                    let ghost before = axes@;
                    let ghost vv = views(vals@);
                    let ghost nb = names@;
                    names.push(key.clone());
                    axes.push((key.clone(), vals));
                    proof {
                        lemma_views_push(nb, *key);
                        assert(axes_view(axes@) =~= axes_view(before).push((key@, vv)));
                        assert(axis_names(axes_view(axes@)) =~= axis_names(axes_view(before)).push(key@));
                    }
                },
                None => {
                    let a = cat3("strategy.matrix.", key.as_str(), " is not a list of plain scalar values");
                    proof {
                        lemma_decl_err(mm@, i as int + 1);
                    }
                    return Err(unsupported(a));
                },
            }
        }
        i += 1;
    }
    assert(mm@.take(i as int) =~= mm@);
    let mut combos = cartesian_product(&axes);
    apply_include(&mut combos, &added, &names);
    apply_exclude(&mut combos, &removed);
    let total = combos.len();
    combos.truncate(MAX_INSTANCES);
    Ok(Some(Expansion { combos, total_before_cap: total }))
}

// ---------------------------------------------------------------------------
// Instances of a workflow's jobs
// ---------------------------------------------------------------------------

/// The view of a [`MatrixNote`].
pub enum SNote {
    Empty,
    Capped { total: nat, cap: nat },
    Unsupported(Seq<char>),
}

pub open spec fn note_view(n: Option<MatrixNote>) -> Option<SNote> {
    match n {
        None => None,
        Some(MatrixNote::Empty) => Some(SNote::Empty),
        Some(MatrixNote::Capped { total, cap }) => Some(SNote::Capped { total: total as nat, cap: cap as nat }),
        Some(MatrixNote::Unsupported(s)) => Some(SNote::Unsupported(s@)),
    }
}

/// The reason recorded on the fallback instance of an empty matrix.
pub open spec fn empty_reason() -> Seq<char> {
    "strategy.matrix produced zero combinations (after `exclude`, or an empty axis); no instance of this job will run"@
}

/// The reason recorded on the fallback instance of an unsupported matrix.
pub open spec fn unsupported_reason(reason: Seq<char>) -> Seq<char> {
    "strategy.matrix not evaluated in v1: "@ + reason
}

/// One planned instance: its combination, support tier and deferral
/// reasons.
pub struct Planned {
    pub combo: ComboView,
    pub support: SupportTier,
    pub reasons: Seq<Seq<char>>,
}

/// What expanding one job gives: the job's note and support tier, and its
/// instances in order. No matrix gives one plain instance; an empty matrix
/// one deferred fallback instance; an expanded matrix one instance per kept
/// combination (noting a cap); an unsupported matrix one deferred fallback
/// instance with the reason.
pub open spec fn job_plan(job: Job) -> (Option<SNote>, SupportTier, Seq<Planned>) {
    let reasons = views(job.deferred_reasons@);
    match expand_spec(job.strategy) {
        Ok(None) => (None, job.support, seq![Planned { combo: Map::empty(), support: job.support, reasons }]),
        Ok(Some((cs, total))) => if cs.len() == 0 {
            (Some(SNote::Empty), SupportTier::Deferred, seq![Planned {
                combo: Map::empty(),
                support: SupportTier::Deferred,
                reasons: reasons.push(empty_reason()),
            }])
        } else {
            (
                if total > cs.len() {
                    Some(SNote::Capped { total, cap: MAX_INSTANCES as nat })
                } else {
                    None
                },
                job.support,
                cs.map_values(|c: ComboView| Planned { combo: c, support: job.support, reasons }),
            )
        },
        Err(reason) => (Some(SNote::Unsupported(reason)), SupportTier::Deferred, seq![Planned {
            combo: Map::empty(),
            support: SupportTier::Deferred,
            reasons: reasons.push(unsupported_reason(reason)),
        }]),
    }
}

/// `inst` is the instance of job `job` (id `base`) for the planned
/// combination `p`: the job's fields copied, the combination as its matrix
/// and its id derived from both.
pub open spec fn instance_matches(inst: JobInstance, base: Seq<char>, job: Job, p: Planned) -> bool {
    &&& inst.base_id@ == base
    &&& inst.instance_id@ == instance_id_spec(base, inst.matrix@)
    &&& inst.matrix.map_view() == p.combo
    &&& inst.inputs.map_view() == job.with_inputs.map_view()
    &&& inst.runs_on == job.runs_on
    &&& inst.needs@ == job.needs@
    &&& inst.condition == job.condition
    &&& inst.outputs.map_view() == job.outputs.map_view()
    &&& inst.env.map_view() == job.env.map_view()
    &&& inst.strategy_text == job.strategy_text
    &&& inst.steps@.len() == job.steps@.len()
    &&& forall|i: int| 0 <= i < job.steps@.len() ==> #[trigger] crate::ir::same_step(inst.steps@[i], job.steps@[i])
    &&& inst.support == p.support
    &&& views(inst.deferred_reasons@) == p.reasons
}

/// Instances inserted one after the other into a map keyed by instance id.
pub open spec fn inserted(s: Seq<JobInstance>) -> Seq<(Seq<char>, JobInstance)>
    decreases s.len(),
{
    if s.len() == 0 {
        Seq::empty()
    } else {
        insert_sorted(inserted(s.drop_last()), s.last().instance_id@, s.last())
    }
}

/// The plans of the jobs `jobs`, one after the other, each with its job id
/// and job.
pub open spec fn plans_of(jobs: Seq<(Seq<char>, Job)>) -> Seq<(Seq<char>, Job, Planned)>
    decreases jobs.len(),
{
    if jobs.len() == 0 {
        Seq::empty()
    } else {
        let (b, j) = jobs.last();
        plans_of(jobs.drop_last()) + job_plan(j).2.map_values(|p: Planned| (b, j, p))
    }
}

/// `insts` are the instances of the plans, one for one.
pub open spec fn instances_match(insts: Seq<JobInstance>, plans: Seq<(Seq<char>, Job, Planned)>) -> bool {
    insts.len() == plans.len() && forall|i: int| 0 <= i < insts.len() ==> #[trigger] instance_matches(insts[i],
        plans[i].0, plans[i].1, plans[i].2)
}

proof fn lemma_match_push(insts: Seq<JobInstance>, plans: Seq<(Seq<char>, Job, Planned)>, inst: JobInstance,
    pl: (Seq<char>, Job, Planned))
    requires
        instances_match(insts, plans),
        instance_matches(inst, pl.0, pl.1, pl.2),
    ensures
        instances_match(insts.push(inst), plans.push(pl)),
{
    assert forall|i: int| 0 <= i < insts.len() + 1 implies #[trigger] instance_matches(insts.push(inst)[i],
        plans.push(pl)[i].0, plans.push(pl)[i].1, plans.push(pl)[i].2) by {
        if i < insts.len() {
            assert(insts.push(inst)[i] == insts[i]);
            assert(plans.push(pl)[i] == plans[i]);
        }
    }
}

proof fn lemma_inserted_push(insts: Seq<JobInstance>, inst: JobInstance)
    ensures
        inserted(insts.push(inst)) == insert_sorted(inserted(insts), inst.instance_id@, inst),
{
    assert(insts.push(inst).drop_last() =~= insts);
}

/// `jobs` are the jobs `pre` with each job's matrix note and support tier set
/// by its plan (everything else unchanged), and `insts` the instances of all
/// plans inserted by instance id.
pub open spec fn expanded(pre: Seq<(Seq<char>, Job)>, jobs: Seq<(Seq<char>, Job)>, insts: Seq<(Seq<char>, JobInstance)>) -> bool {
    &&& jobs.len() == pre.len()
    &&& forall|i: int| 0 <= i < pre.len() ==> {
        let (k, j) = #[trigger] pre[i];
        let plan = job_plan(j);
        &&& jobs[i].0 == k
        &&& note_view(jobs[i].1.matrix_note) == plan.0
        &&& jobs[i].1.support == plan.1
        &&& jobs[i].1 == Job { matrix_note: jobs[i].1.matrix_note, support: jobs[i].1.support, ..j }
    }
    &&& exists|s: Seq<JobInstance>| #[trigger] instances_match(s, plans_of(pre)) && insts == inserted(s)
}

fn instance_for_combo(base_id: &str, job: &Job, combo: StrMap<String>, support: SupportTier, reasons: Vec<String>) -> (r: JobInstance)
    ensures
        instance_matches(r, base_id@, *job, Planned { combo: combo.map_view(), support, reasons: views(reasons@) }),
{
    let instance_id = format_instance_id(base_id, &combo);
    let steps = copy_steps(&job.steps);
    let r = JobInstance {
        instance_id,
        base_id: owned(base_id),
        matrix: combo,
        inputs: job.with_inputs.duplicate(),
        runs_on: copy_opt(&job.runs_on),
        needs: copy_strings(&job.needs),
        condition: copy_opt(&job.condition),
        outputs: job.outputs.duplicate(),
        env: job.env.duplicate(),
        strategy: match &job.strategy {
            Some(y) => Some(crate::yaml::copy_yaml(y)),
            None => None,
        },
        strategy_text: copy_opt(&job.strategy_text),
        concurrency: job.concurrency.clone(),
        services: job.services.clone(),
        permissions: job.permissions.clone(),
        environment: job.environment.clone(),
        defaults_run: job.defaults_run.clone(),
        steps,
        support,
        deferred_reasons: reasons,
    };
    assert(r.base_id@ == base_id@);
    assert(r.instance_id@ == instance_id_spec(base_id@, r.matrix@));
    assert(r.matrix.map_view() == combo.map_view());
    assert(r.inputs.map_view() == job.with_inputs.map_view());
    assert(r.needs@ == job.needs@);
    assert(r.outputs.map_view() == job.outputs.map_view());
    assert(r.steps@.len() == job.steps@.len());
    assert(views(r.deferred_reasons@) == views(reasons@));
    assert(r.runs_on == job.runs_on);
    assert(r.condition == job.condition);
    assert(r.env.map_view() == job.env.map_view());
    assert(r.support == support);
    assert(r.strategy_text == job.strategy_text);
    r
}

/// Expand every job into its instances, recording each job's matrix note and
/// support tier on the job; see [`job_plan`]. The instances are keyed by
/// instance id, inserted job by job in job order.
pub fn expand_workflow(jobs: &mut StrMap<Job>) -> (r: StrMap<JobInstance>)
    ensures
        expanded(old(jobs)@, final(jobs)@, r@),
{
    let mut entries = jobs.take_entries();
    let ghost orig = entries@;
    let n = entries.len();
    let mut rev: Vec<(String, Job)> = Vec::new();
    while entries.len() > 0
        invariant
            entries@.len() + rev@.len() == n,
            n == orig.len(),
            forall|k: int| 0 <= k < entries@.len() ==> #[trigger] entries@[k] == orig[k],
            forall|k: int| 0 <= k < rev@.len() ==> #[trigger] rev@[k] == orig[n - 1 - k],
        decreases entries.len(),
    {
        let e = entries.pop().unwrap();
        rev.push(e);
    }
    let mut out: Vec<(String, Job)> = Vec::new();
    let mut instances: StrMap<JobInstance> = StrMap::new();
    let ghost mut insts: Seq<JobInstance> = Seq::empty();
    assert(orig.take(0) =~= Seq::<(String, Job)>::empty());
    assert(entry_views(orig.take(0)) =~= Seq::<(Seq<char>, Job)>::empty());
    while rev.len() > 0
        invariant
            out@.len() + rev@.len() == n,
            n == orig.len(),
            forall|k: int| 0 <= k < rev@.len() ==> #[trigger] rev@[k] == orig[n - 1 - k],
            forall|k: int| 0 <= k < out@.len() ==> {
                let (b, j) = #[trigger] orig[k];
                let plan = job_plan(j);
                &&& out@[k].0 == b
                &&& note_view(out@[k].1.matrix_note) == plan.0
                &&& out@[k].1.support == plan.1
                &&& out@[k].1 == Job { matrix_note: out@[k].1.matrix_note, support: out@[k].1.support, ..j }
            },
            instances_match(insts, plans_of(entry_views(orig.take(out@.len() as int)))),
            instances@ == inserted(insts),
        decreases rev.len(),
    {
        let ghost done = out@.len() as int;
        let (base, mut job) = rev.pop().unwrap();
        assert((base, job) == orig[done]);
        let ghost old_job = job;
        let ghost plan = job_plan(old_job);
        let ghost prev_insts = insts;
        let ghost prefix = entry_views(orig.take(done));
        proof {
            assert(entry_views(orig.take(done + 1)) =~= prefix.push((base@, old_job)));
            assert(entry_views(orig.take(done + 1)).drop_last() =~= prefix);
        }
        let reasons = copy_strings(&job.deferred_reasons);
        match expand_matrix(job.strategy.as_ref()) {
            Ok(None) => {
                job.matrix_note = None;
                let inst = instance_for_combo(base.as_str(), &job, StrMap::new(), job.support, reasons);
                assert(inst.matrix.map_view() =~= Map::<Seq<char>, Seq<char>>::empty());
                let id = inst.instance_id.clone();
                let ghost iv = inst;
                let ghost pl = (base@, old_job, job_plan(old_job).2[0]);
                instances.insert(id, inst);
                proof {
                    lemma_match_push(insts, plans_of(prefix), iv, pl);
                    lemma_inserted_push(insts, iv);
                    assert(job_plan(old_job).2.map_values(|p: Planned| (base@, old_job, p)) =~= seq![pl]);
                    insts = insts.push(iv);
                }
            },
            Ok(Some(expansion)) => {
                if expansion.combos.len() == 0 {
                    job.matrix_note = Some(MatrixNote::Empty);
                    job.support = SupportTier::Deferred;
                    let mut rs = reasons;
                    let extra = owned("strategy.matrix produced zero combinations (after `exclude`, or an empty axis); no instance of this job will run");
                    let ghost rb = rs@;
                    rs.push(extra);
                    proof {
                        lemma_views_push(rb, extra);
                    }
                    let inst = instance_for_combo(base.as_str(), &job, StrMap::new(), SupportTier::Deferred, rs);
                    assert(inst.matrix.map_view() =~= Map::<Seq<char>, Seq<char>>::empty());
                    let id = inst.instance_id.clone();
                    let ghost iv = inst;
                    let ghost pl = (base@, old_job, job_plan(old_job).2[0]);
                    instances.insert(id, inst);
                    proof {
                        lemma_match_push(insts, plans_of(prefix), iv, pl);
                        lemma_inserted_push(insts, iv);
                        assert(job_plan(old_job).2.map_values(|p: Planned| (base@, old_job, p)) =~= seq![pl]);
                        insts = insts.push(iv);
                    }
                } else {
                    let ghost cs = combo_views(expansion.combos@);
                    let ghost g = |x: ComboView| (base@, old_job, Planned { combo: x, support: old_job.support,
                        reasons: views(old_job.deferred_reasons@) });
                    let mut c: usize = 0;
                    assert(plans_of(prefix) + cs.take(0).map_values(g) =~= plans_of(prefix));
                    while c < expansion.combos.len()
                        invariant
                            c <= expansion.combos@.len(),
                            cs == combo_views(expansion.combos@),
                            job == old_job,
                            reasons@ == old_job.deferred_reasons@,
                            g == (|x: ComboView| (base@, old_job, Planned { combo: x, support: old_job.support,
                                reasons: views(old_job.deferred_reasons@) })),
                            instances_match(insts, plans_of(prefix) + cs.take(c as int).map_values(g)),
                            instances@ == inserted(insts),
                        decreases expansion.combos.len() - c,
                    {
                        let combo = expansion.combos[c].duplicate();
                        assert(combo.map_view() == cs[c as int]);
                        let rs = copy_strings(&reasons);
                        let inst = instance_for_combo(base.as_str(), &job, combo, job.support, rs);
                        let id = inst.instance_id.clone();
                        let ghost iv = inst;
                        let ghost before = insts;
                        instances.insert(id, inst);
                        proof {
                            lemma_match_push(before, plans_of(prefix) + cs.take(c as int).map_values(g), iv, g(cs[c as int]));
                            assert(cs.take(c + 1).map_values(g) =~= cs.take(c as int).map_values(g).push(g(cs[c as int])));
                            assert(plans_of(prefix) + cs.take(c + 1).map_values(g) =~= (plans_of(prefix) + cs.take(
                                c as int).map_values(g)).push(g(cs[c as int])));
                            lemma_inserted_push(before, iv);
                            insts = before.push(iv);
                        }
                        c += 1;
                    }
                    proof {
                        assert(cs.take(c as int) =~= cs);
                        let plan2 = job_plan(old_job).2;
                        assert(plan2.map_values(|p: Planned| (base@, old_job, p)) =~= cs.map_values(g));
                    }
                    let capped = expansion.total_before_cap > expansion.combos.len();
                    job.matrix_note = if capped {
                        Some(MatrixNote::Capped { total: expansion.total_before_cap, cap: MAX_INSTANCES })
                    } else {
                        None
                    };
                }
            },
            Err(err) => {
                let reason = err.reason().clone();
                job.matrix_note = Some(MatrixNote::Unsupported(reason.clone()));
                job.support = SupportTier::Deferred;
                let mut rs = reasons;
                let extra = cat("strategy.matrix not evaluated in v1: ", reason.as_str());
                let ghost rb = rs@;
                rs.push(extra);
                proof {
                    lemma_views_push(rb, extra);
                }
                let inst = instance_for_combo(base.as_str(), &job, StrMap::new(), SupportTier::Deferred, rs);
                assert(inst.matrix.map_view() =~= Map::<Seq<char>, Seq<char>>::empty());
                let id = inst.instance_id.clone();
                let ghost iv = inst;
                let ghost pl = (base@, old_job, job_plan(old_job).2[0]);
                instances.insert(id, inst);
                proof {
                    lemma_match_push(insts, plans_of(prefix), iv, pl);
                    lemma_inserted_push(insts, iv);
                    assert(job_plan(old_job).2.map_values(|p: Planned| (base@, old_job, p)) =~= seq![pl]);
                    insts = insts.push(iv);
                }
            },
        }
        out.push((base, job));
    }
    assert(orig.take(n as int) =~= orig);
    proof {
        assert forall|a: int, b: int| 0 <= a < b < entry_views(out@).len() implies crate::smap::lex_lt(
            #[trigger] entry_views(out@)[a].0, #[trigger] entry_views(out@)[b].0) by {
            assert(entry_views(out@)[a].0 == entry_views(orig)[a].0);
            assert(entry_views(out@)[b].0 == entry_views(orig)[b].0);
        }
    }
    *jobs = StrMap::from_entries(out);
    assert(instances_match(insts, plans_of(old(jobs)@)));
    instances
}

/// Every job expands to at least one and at most [`MAX_INSTANCES`]
/// instances.
pub proof fn lemma_plan_size(job: Job)
    ensures
        1 <= job_plan(job).2.len() <= MAX_INSTANCES,
{
    match expand_spec(job.strategy) {
        Ok(Some((cs, total))) => {
            match job.strategy {
                Some(Yaml::Mapping(sm, _)) => match map_get(sm@, "matrix"@) {
                    Some(Yaml::Mapping(mm, _)) => {
                        match decl_of(mm@) {
                            Ok(d) => {
                                let all = decl_combos(d);
                                assert(cs == all.take(if all.len() > MAX_INSTANCES { MAX_INSTANCES as int } else { all.len() as int }));
                            },
                            Err(_) => {},
                        }
                    },
                    _ => {},
                },
                _ => {},
            }
        },
        _ => {},
    }
}

proof fn lemma_insert_sorted_from<V>(s: Seq<(Seq<char>, V)>, k: Seq<char>, v: V, i: int)
    requires
        0 <= i < crate::smap::insert_sorted(s, k, v).len(),
    ensures
        crate::smap::insert_sorted(s, k, v)[i] == (k, v) || exists|j: int| 0 <= j < s.len() && s[j] == #[trigger] crate::smap::insert_sorted(s, k, v)[i],
    decreases s.len(),
{
    let r = crate::smap::insert_sorted(s, k, v);
    if s.len() == 0 {
    } else if s[0].0 == k {
        if i != 0 {
            assert(s[i] == r[i]);
        }
    } else if crate::smap::lex_lt(k, s[0].0) {
        if i != 0 {
            assert(s[i - 1] == r[i]);
        }
    } else {
        if i == 0 {
            assert(s[0] == r[0]);
        } else {
            let t = s.drop_first();
            lemma_insert_sorted_from(t, k, v, i - 1);
            assert(r[i] == crate::smap::insert_sorted(t, k, v)[i - 1]);
            if crate::smap::insert_sorted(t, k, v)[i - 1] != (k, v) {
                let j = choose|j: int| 0 <= j < t.len() && t[j] == #[trigger] crate::smap::insert_sorted(t, k, v)[i - 1];
                assert(s[j + 1] == t[j]);
            }
        }
    }
}

proof fn lemma_inserted_from(s: Seq<JobInstance>, i: int)
    requires
        0 <= i < inserted(s).len(),
    ensures
        exists|j: int| 0 <= j < s.len() && s[j] == #[trigger] inserted(s)[i].1,
    decreases s.len(),
{
    let pre = s.drop_last();
    lemma_insert_sorted_from(inserted(pre), s.last().instance_id@, s.last(), i);
    if inserted(s)[i] != (s.last().instance_id@, s.last()) {
        let j = choose|j: int| 0 <= j < inserted(pre).len() && inserted(pre)[j] == #[trigger] inserted(s)[i];
        lemma_inserted_from(pre, j);
        let m = choose|m: int| 0 <= m < pre.len() && pre[m] == #[trigger] inserted(pre)[j].1;
        assert(s[m] == pre[m]);
    } else {
        assert(s[s.len() - 1] == s.last());
    }
}

proof fn lemma_plans_of_from(jobs: Seq<(Seq<char>, Job)>, i: int)
    requires
        0 <= i < plans_of(jobs).len(),
    ensures
        exists|j: int| 0 <= j < jobs.len() && jobs[j].0 == (#[trigger] plans_of(jobs)[i]).0,
    decreases jobs.len(),
{
    let pre = jobs.drop_last();
    let a = plans_of(pre);
    if i < a.len() {
        assert(plans_of(jobs)[i] == a[i]);
        lemma_plans_of_from(pre, i);
        let j = choose|j: int| 0 <= j < pre.len() && pre[j].0 == (#[trigger] plans_of(pre)[i]).0;
        assert(jobs[j] == pre[j]);
    } else {
        assert(jobs[jobs.len() - 1] == jobs.last());
    }
}

/// Every instance that matrix expansion leaves belongs to one of the jobs.
pub proof fn lemma_instances_of_jobs(pre: Seq<(Seq<char>, Job)>, jobs: Seq<(Seq<char>, Job)>, insts: Seq<(Seq<char>, JobInstance)>, i: int)
    requires
        expanded(pre, jobs, insts),
        0 <= i < insts.len(),
    ensures
        exists|j: int| 0 <= j < jobs.len() && jobs[j].0 == (#[trigger] insts[i]).1.base_id@,
{
    let s = choose|s: Seq<JobInstance>| #[trigger] instances_match(s, plans_of(pre)) && insts == inserted(s);
    lemma_inserted_from(s, i);
    let m = choose|m: int| 0 <= m < s.len() && s[m] == #[trigger] inserted(s)[i].1;
    assert(instance_matches(s[m], plans_of(pre)[m].0, plans_of(pre)[m].1, plans_of(pre)[m].2));
    lemma_plans_of_from(pre, m);
    let j = choose|j: int| 0 <= j < pre.len() && pre[j].0 == (#[trigger] plans_of(pre)[m]).0;
    assert(jobs[j].0 == pre[j].0);
}

/// What matrix expansion gives a job, by its note: without a matrix one
/// instance with no matrix values and the job's support; an empty or
/// unsupported matrix one deferred instance with no matrix values, the job
/// deferred too; a capped matrix exactly [`MAX_INSTANCES`] instances, fewer
/// than there were; and otherwise every instance keeps the job's support.
pub proof fn lemma_plan_shape(job: Job)
    ensures
        job_plan(job).0 is None ==> job_plan(job).1 == job.support && forall|i: int| 0 <= i < job_plan(job).2.len()
            ==> (#[trigger] job_plan(job).2[i]).support == job.support,
        expand_spec(job.strategy) is Ok && expand_spec(job.strategy)->Ok_0 is None ==> job_plan(job).0 is None
            && job_plan(job).2.len() == 1 && job_plan(job).2[0].combo == Map::<Seq<char>, Seq<char>>::empty(),
        (job_plan(job).0 matches Some(SNote::Empty) || job_plan(job).0 matches Some(SNote::Unsupported(_)))
            ==> job_plan(job).1 == SupportTier::Deferred && job_plan(job).2.len() == 1 && job_plan(job).2[0].support
            == SupportTier::Deferred && job_plan(job).2[0].combo == Map::<Seq<char>, Seq<char>>::empty(),
        job_plan(job).0 matches Some(SNote::Capped { total, cap }) ==> cap == MAX_INSTANCES && total > MAX_INSTANCES
            && job_plan(job).2.len() == MAX_INSTANCES && job_plan(job).1 == job.support,
{
    lemma_plan_size(job);
    match expand_spec(job.strategy) {
        Ok(Some((cs, total))) => {
            match job.strategy {
                Some(Yaml::Mapping(sm, _)) => match map_get(sm@, "matrix"@) {
                    Some(Yaml::Mapping(mm, _)) => {
                        match decl_of(mm@) {
                            Ok(d) => {
                                let all = decl_combos(d);
                                assert(cs == all.take(if all.len() > MAX_INSTANCES { MAX_INSTANCES as int } else { all.len() as int }));
                                assert(total == all.len());
                            },
                            Err(_) => {},
                        }
                    },
                    _ => {},
                },
                _ => {},
            }
        },
        _ => {},
    }
}

/// A job without `strategy:` has exactly one instance, with no matrix
/// values, whose instance id is the job id, and which keeps the job's
/// support tier.
pub proof fn lemma_no_strategy_single_instance(job: Job, base: Seq<char>, inst: JobInstance)
    requires
        job.strategy is None,
        instance_matches(inst, base, job, job_plan(job).2[0]),
    ensures
        job_plan(job).2.len() == 1,
        job_plan(job).0 is None,
        inst.instance_id@ == base,
        inst.support == job.support,
{
    assert(inst.matrix.map_view() == Map::<Seq<char>, Seq<char>>::empty());
    if inst.matrix@.len() > 0 {
        let k = inst.matrix@[0].0;
        assert(crate::smap::lookup(inst.matrix@, k) is Some);
        assert(inst.matrix.map_view().contains_key(k));
    }
}

} // verus!
