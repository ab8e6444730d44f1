use vstd::prelude::*;
use crate::json::{Json, JsonV, jget, entry_index, view_elems, view_entries, lemma_array_view, lemma_object_view,
    clone_json, lemma_entry_index};
use crate::pages::refs_view;
use crate::text::str_equal;

verus! {

/// The clean-ups that turn values into CSS: colour objects, text measures
/// (`letterSpacing`, `lineHeight`) and `transform` matrices.
#[derive(Debug, Clone, Copy, PartialEq, Eq, Structural)]
pub enum CssRule {
    Colors,
    TextProperties,
    Matrices,
}

/// The value is a number.
pub open spec fn is_number(o: Option<JsonV>) -> bool {
    match o {
        Some(JsonV::Number(_)) => true,
        _ => false,
    }
}

/// A colour that turns into CSS: an object with numbers `r`, `g` and `b`.
pub open spec fn color_site(v: JsonV) -> bool {
    v is Object && is_number(jget(v, "r"@)) && is_number(jget(v, "g"@)) && is_number(jget(v, "b"@))
}

/// A text measure that turns into CSS: an object with `units` `PERCENT` or
/// `PIXELS` and a number `value`.
pub open spec fn text_site(v: JsonV) -> bool {
    &&& v is Object
    &&& (jget(v, "units"@) == Some(JsonV::Str("PERCENT"@)) || jget(v, "units"@) == Some(JsonV::Str("PIXELS"@)))
    &&& is_number(jget(v, "value"@))
}

/// A matrix that turns into CSS: an object with the six numbers `m00` to `m12`.
pub open spec fn matrix_site(t: JsonV) -> bool {
    &&& t is Object
    &&& is_number(jget(t, "m00"@))
    &&& is_number(jget(t, "m01"@))
    &&& is_number(jget(t, "m02"@))
    &&& is_number(jget(t, "m10"@))
    &&& is_number(jget(t, "m11"@))
    &&& is_number(jget(t, "m12"@))
}

/// The field `k` holding `x` is replaced by its CSS value.
pub open spec fn entry_site(rule: CssRule, k: Seq<char>, x: JsonV) -> bool {
    match rule {
        CssRule::Colors => color_site(x),
        CssRule::TextProperties => (k == "letterSpacing"@ || k == "lineHeight"@) && text_site(x),
        CssRule::Matrices => false,
    }
}

/// The object's own `transform` is replaced by its CSS parts.
pub open spec fn own_site(rule: CssRule, v: JsonV) -> bool {
    rule == CssRule::Matrices && match jget(v, "transform"@) {
        Some(t) => matrix_site(t),
        None => false,
    }
}

/// The values that turn into CSS below `v`, in the order the clean-up meets
/// them: an object's own matrix first, then its fields in order; a replaced
/// value is not entered.
pub open spec fn css_sites(v: JsonV, rule: CssRule) -> Seq<JsonV>
    decreases v, 0int,
{
    let own = own_site(rule, v);
    match v {
        JsonV::Object(es) => (if own {
            seq![jget(v, "transform"@)->0]
        } else {
            Seq::empty()
        }) + sites_in_entries(es, rule, own, es.len() as int),
        JsonV::Array(xs) => sites_in_items(xs, rule, xs.len() as int),
        _ => Seq::empty(),
    }
}

/// The sites of the first `n` fields; with `own`, the `transform` field is
/// left to its object.
pub open spec fn sites_in_entries(es: Seq<(Seq<char>, JsonV)>, rule: CssRule, own: bool, n: int) -> Seq<JsonV>
    decreases es, n,
{
    if n <= 0 || n > es.len() {
        Seq::empty()
    } else {
        proof {
            assert(decreases_to!(es => es[n - 1]));
            assert(decreases_to!(es[n - 1] => es[n - 1].1));
        }
        sites_in_entries(es, rule, own, n - 1) + if own && n - 1 == entry_index(es, "transform"@) {
            Seq::empty()
        } else if entry_site(rule, es[n - 1].0, es[n - 1].1) {
            seq![es[n - 1].1]
        } else {
            css_sites(es[n - 1].1, rule)
        }
    }
}

/// The sites of the first `n` items.
pub open spec fn sites_in_items(xs: Seq<JsonV>, rule: CssRule, n: int) -> Seq<JsonV>
    decreases xs, n,
{
    if n <= 0 || n > xs.len() {
        Seq::empty()
    } else {
        proof {
            assert(decreases_to!(xs => xs[n - 1]));
        }
        sites_in_items(xs, rule, n - 1) + css_sites(xs[n - 1], rule)
    }
}

fn is_number_exec(o: Option<&Json>) -> (r: bool)
    ensures
        r == is_number(match o {
            Some(x) => Some(x@),
            None => None,
        }),
{
    match o {
        Some(Json::Number(_)) => true,
        _ => false,
    }
}

fn color_site_exec(v: &Json) -> (r: bool)
    ensures
        r == color_site(v@),
{
    v.is_object() && is_number_exec(v.get("r")) && is_number_exec(v.get("g")) && is_number_exec(v.get("b"))
}

fn text_site_exec(v: &Json) -> (r: bool)
    ensures
        r == text_site(v@),
{
    proof {
        reveal_strlit("PERCENT");
        reveal_strlit("PIXELS");
    }
    let units_ok = match v.get("units") {
        Some(Json::Str(u)) => str_equal(u.as_str(), "PERCENT") || str_equal(u.as_str(), "PIXELS"),
        _ => false,
    };
    v.is_object() && units_ok && is_number_exec(v.get("value"))
}

fn matrix_site_exec(t: &Json) -> (r: bool)
    ensures
        r == matrix_site(t@),
{
    t.is_object() && is_number_exec(t.get("m00")) && is_number_exec(t.get("m01")) && is_number_exec(t.get("m02"))
        && is_number_exec(t.get("m10")) && is_number_exec(t.get("m11")) && is_number_exec(t.get("m12"))
}

fn entry_site_exec(rule: CssRule, k: &str, x: &Json) -> (r: bool)
    ensures
        r == entry_site(rule, k@, x@),
{
    proof {
        reveal_strlit("letterSpacing");
        reveal_strlit("lineHeight");
    }
    match rule {
        CssRule::Colors => color_site_exec(x),
        CssRule::TextProperties => (str_equal(k, "letterSpacing") || str_equal(k, "lineHeight")) && text_site_exec(x),
        CssRule::Matrices => false,
    }
}

fn own_site_exec(rule: CssRule, v: &Json) -> (r: bool)
    ensures
        r == own_site(rule, v@),
{
    match rule {
        CssRule::Matrices => match v.get("transform") {
            Some(t) => matrix_site_exec(t),
            None => false,
        },
        _ => false,
    }
}

fn sites_exec<'a>(v: &'a Json, rule: CssRule, out: &mut Vec<&'a Json>)
    ensures
        refs_view(final(out)@) == refs_view(old(out)@) + css_sites(v@, rule),
    decreases v,
{
    let own = own_site_exec(rule, v);
    let ghost start = refs_view(out@);
    match v {
        Json::Object(es) => {
            proof {
                lemma_object_view(*es);
            }
            let ghost ev = view_entries(es@);
            let mut idx: usize = es.len();
            if own {
                match Json::find_entry(es, "transform") {
                    Some(t) => {
                        idx = t;
                        let ghost pre = out@;
                        out.push(&es[t].1);
                        assert(refs_view(out@) =~= refs_view(pre).push(ev[t as int].1));
                    },
                    None => {},
                }
            }
            proof {
                lemma_entry_index(ev, "transform"@);
            }
            let ghost mid = refs_view(out@);
            assert(mid =~= start + (if own {
                seq![jget(v@, "transform"@)->0]
            } else {
                Seq::empty()
            }));
            let mut i: usize = 0;
            while i < es.len()
                invariant
                    *v == Json::Object(*es),
                    ev == view_entries(es@),
                    own == own_site(rule, v@),
                    own ==> idx as int == entry_index(ev, "transform"@),
                    !own ==> idx == es@.len(),
                    i <= es@.len(),
                    refs_view(out@) == mid + sites_in_entries(ev, rule, own, i as int),
                decreases es@.len() - i,
            {
                if own && i == idx {
                    assert(refs_view(out@) =~= mid + sites_in_entries(ev, rule, own, i + 1));
                } else if entry_site_exec(rule, es[i].0.as_str(), &es[i].1) {
                    let ghost pre = out@;
                    out.push(&es[i].1);
                    assert(refs_view(out@) =~= refs_view(pre).push(ev[i as int].1));
                    assert(refs_view(out@) =~= mid + sites_in_entries(ev, rule, own, i + 1));
                } else {
                    proof {
                        vstd::std_specs::vec::axiom_vec_index_decreases(*es, i as int);
                        assert(decreases_to!(*v => (*v)->Object_0));
                        assert(decreases_to!(es@[i as int] => es@[i as int].1));
                        assert(decreases_to!(*v => es@[i as int].1));
                    }
                    sites_exec(&es[i].1, rule, out);
                    assert(refs_view(out@) =~= mid + sites_in_entries(ev, rule, own, i + 1));
                }
                i = i + 1;
            }
        },
        Json::Array(xs) => {
            proof {
                lemma_array_view(*xs);
            }
            let ghost xv = view_elems(xs@);
            let mut i: usize = 0;
            while i < xs.len()
                invariant
                    *v == Json::Array(*xs),
                    xv == view_elems(xs@),
                    i <= xs@.len(),
                    refs_view(out@) == start + sites_in_items(xv, rule, i as int),
                decreases xs@.len() - i,
            {
                proof {
                    vstd::std_specs::vec::axiom_vec_index_decreases(*xs, i as int);
                    assert(decreases_to!(*v => (*v)->Array_0));
                    assert(decreases_to!(*v => xs@[i as int]));
                }
                sites_exec(&xs[i], rule, out);
                assert(refs_view(out@) =~= start + sites_in_items(xv, rule, i + 1));
                i = i + 1;
            }
        },
        _ => {
            assert(refs_view(out@) =~= start + css_sites(v@, rule));
        },
    }
}

/// The values below `tree` that a clean-up turns into CSS, in order (see
/// `css_sites`).
pub fn css_sites_of(tree: &Json, rule: CssRule) -> (r: Vec<&Json>)
    ensures
        refs_view(r@) == css_sites(tree@, rule),
{
    let mut out: Vec<&Json> = Vec::new();
    sites_exec(tree, rule, &mut out);
    assert(refs_view(out@) =~= Seq::<JsonV>::empty() + css_sites(tree@, rule));
    out
}

/// The values left after the first `i`.
pub open spec fn vals_from(vs: Seq<JsonV>, i: int) -> Seq<JsonV> {
    if 0 <= i <= vs.len() {
        vs.skip(i)
    } else {
        Seq::empty()
    }
}

/// The document with each site below `v` replaced by the next of the CSS
/// values `vs`, in the order of `css_sites`; sites beyond the values keep
/// their value.
pub open spec fn css_replaced(v: JsonV, rule: CssRule, vs: Seq<JsonV>) -> JsonV
    decreases v, 0int,
{
    let own = own_site(rule, v);
    let rest = if own {
        vals_from(vs, 1)
    } else {
        vs
    };
    match v {
        JsonV::Object(es) => {
            let walked = replaced_entries(es, rule, own, rest, es.len() as int);
            if own && vs.len() > 0 {
                JsonV::Object(walked.update(entry_index(es, "transform"@), ("transform"@, vs[0])))
            } else {
                JsonV::Object(walked)
            }
        },
        JsonV::Array(xs) => JsonV::Array(replaced_items(xs, rule, rest, xs.len() as int)),
        _ => v,
    }
}

/// The first `n` fields with their sites replaced; `vs` starts at the first
/// field's sites.
pub open spec fn replaced_entries(
    es: Seq<(Seq<char>, JsonV)>,
    rule: CssRule,
    own: bool,
    vs: Seq<JsonV>,
    n: int,
) -> Seq<(Seq<char>, JsonV)>
    decreases es, n,
{
    if n <= 0 || n > es.len() {
        Seq::empty()
    } else {
        proof {
            assert(decreases_to!(es => es[n - 1]));
            assert(decreases_to!(es[n - 1] => es[n - 1].1));
        }
        let used = sites_in_entries(es, rule, own, n - 1).len() as int;
        replaced_entries(es, rule, own, vs, n - 1).push(
            if own && n - 1 == entry_index(es, "transform"@) {
                es[n - 1]
            } else if entry_site(rule, es[n - 1].0, es[n - 1].1) {
                (es[n - 1].0, if used < vs.len() { vs[used] } else { es[n - 1].1 })
            } else {
                (es[n - 1].0, css_replaced(es[n - 1].1, rule, vals_from(vs, used)))
            },
        )
    }
}

/// The first `n` items with their sites replaced; `vs` starts at the first
/// item's sites.
pub open spec fn replaced_items(xs: Seq<JsonV>, rule: CssRule, vs: Seq<JsonV>, n: int) -> Seq<JsonV>
    decreases xs, n,
{
    if n <= 0 || n > xs.len() {
        Seq::empty()
    } else {
        proof {
            assert(decreases_to!(xs => xs[n - 1]));
        }
        let used = sites_in_items(xs, rule, n - 1).len() as int;
        replaced_items(xs, rule, vs, n - 1).push(css_replaced(xs[n - 1], rule, vals_from(vs, used)))
    }
}

proof fn lemma_replaced_len(es: Seq<(Seq<char>, JsonV)>, rule: CssRule, own: bool, vs: Seq<JsonV>, n: int)
    requires
        0 <= n <= es.len(),
    ensures
        replaced_entries(es, rule, own, vs, n).len() == n,
        forall|i: int| 0 <= i < n ==> (#[trigger] replaced_entries(es, rule, own, vs, n)[i]).0 == es[i].0,
    decreases n,
{
    if n > 0 {
        lemma_replaced_len(es, rule, own, vs, n - 1);
        let prev = replaced_entries(es, rule, own, vs, n - 1);
        assert forall|i: int| 0 <= i < n implies (#[trigger] replaced_entries(es, rule, own, vs, n)[i]).0 == es[i].0 by {
            if i < n - 1 {
                assert(replaced_entries(es, rule, own, vs, n)[i] == prev[i]);
            }
        }
    }
}

/// `i + u`, but at most `n`.
pub open spec fn capped_at(i: int, u: int, n: int) -> int {
    if i + u <= n {
        i + u
    } else {
        n
    }
}

proof fn lemma_vals_from_add(e: Seq<JsonV>, i: int, u: int)
    requires
        0 <= i <= e.len(),
        0 <= u,
    ensures
        vals_from(vals_from(e, i), u) == vals_from(e, capped_at(i, u, e.len() as int)),
{
    if i + u <= e.len() {
        assert(e.skip(i).skip(u) =~= e.skip(i + u));
    } else {
        assert(e.skip(e.len() as int) =~= Seq::<JsonV>::empty());
    }
}

fn replace_exec(v: &Json, rule: CssRule, vals: &Vec<Json>, i: usize) -> (r: (Json, usize))
    requires
        i <= vals@.len(),
    ensures
        r.0@ == css_replaced(v@, rule, vals_from(view_elems(vals@), i as int)),
        r.1 as int == capped_at(i as int, css_sites(v@, rule).len() as int, vals@.len() as int),
    decreases v,
{
    let ghost ev = view_elems(vals@);
    let ghost ex = vals_from(ev, i as int);
    let own = own_site_exec(rule, v);
    let j: usize = if own && i < vals.len() {
        i + 1
    } else {
        i
    };
    proof {
        lemma_vals_from_add(ev, i as int, if own { 1 } else { 0 });
    }
    let ghost rest = if own {
        vals_from(ex, 1)
    } else {
        ex
    };
    assert(rest == vals_from(ev, j as int));
    match v {
        Json::Object(es) => {
            proof {
                lemma_object_view(*es);
            }
            let ghost evs = view_entries(es@);
            proof {
                lemma_entry_index(evs, "transform"@);
            }
            let mut idx: usize = es.len();
            if own {
                match Json::find_entry(es, "transform") {
                    Some(t) => {
                        idx = t;
                    },
                    None => {},
                }
            }
            let mut out: Vec<(String, Json)> = Vec::new();
            let mut k: usize = j;
            let mut t: usize = 0;
            assert(view_entries(out@) =~= Seq::<(Seq<char>, JsonV)>::empty());
            while t < es.len()
                invariant
                    *v == Json::Object(*es),
                    evs == view_entries(es@),
                    ev == view_elems(vals@),
                    own == own_site(rule, v@),
                    own ==> idx as int == entry_index(evs, "transform"@),
                    !own ==> idx == es@.len(),
                    j <= vals@.len(),
                    rest == vals_from(ev, j as int),
                    t <= es@.len(),
                    k as int == capped_at(j as int, sites_in_entries(evs, rule, own, t as int).len() as int, vals@.len() as int),
                    view_entries(out@) == replaced_entries(evs, rule, own, rest, t as int),
                decreases es@.len() - t,
            {
                let ghost used = sites_in_entries(evs, rule, own, t as int).len() as int;
                proof {
                    lemma_vals_from_add(ev, j as int, used);
                }
                let key = es[t].0.clone();
                let ghost pre = out@;
                if own && t == idx {
                    let x = clone_json(&es[t].1);
                    out.push((key, x));
                    assert(view_entries(out@) =~= view_entries(pre).push(evs[t as int]));
                } else if entry_site_exec(rule, es[t].0.as_str(), &es[t].1) {
                    let x = if k < vals.len() {
                        clone_json(&vals[k])
                    } else {
                        clone_json(&es[t].1)
                    };
                    assert(x@ == (if used < rest.len() { rest[used] } else { evs[t as int].1 })) by {
                        if k < vals@.len() {
                            assert(rest[used] == ev[k as int]);
                        }
                    }
                    out.push((key, x));
                    assert(view_entries(out@) =~= view_entries(pre).push((evs[t as int].0, x@)));
                    if k < vals.len() {
                        k = k + 1;
                    }
                } else {
                    proof {
                        vstd::std_specs::vec::axiom_vec_index_decreases(*es, t as int);
                        assert(decreases_to!(*v => (*v)->Object_0));
                        assert(decreases_to!(es@[t as int] => es@[t as int].1));
                        assert(decreases_to!(*v => es@[t as int].1));
                    }
                    let (w, k2) = replace_exec(&es[t].1, rule, vals, k);
                    let ghost wv = w@;
                    out.push((key, w));
                    assert(view_entries(out@) =~= view_entries(pre).push((evs[t as int].0, wv)));
                    k = k2;
                }
                t = t + 1;
            }
            proof {
                lemma_replaced_len(evs, rule, own, rest, evs.len() as int);
            }
            if own && i < vals.len() && idx < out.len() {
                let x = clone_json(&vals[i]);
                let ghost pre = out@;
                out.set(idx, (String::from_str("transform"), x));
                proof {
                    reveal_strlit("transform");
                }
                assert(view_entries(out@) =~= view_entries(pre).update(idx as int, ("transform"@, ex[0])));
            }
            proof {
                lemma_object_view(out);
            }
            (Json::Object(out), k)
        },
        Json::Array(xs) => {
            proof {
                lemma_array_view(*xs);
            }
            let ghost xv = view_elems(xs@);
            let mut out: Vec<Json> = Vec::new();
            let mut k: usize = j;
            let mut t: usize = 0;
            assert(view_elems(out@) =~= Seq::<JsonV>::empty());
            while t < xs.len()
                invariant
                    *v == Json::Array(*xs),
                    xv == view_elems(xs@),
                    ev == view_elems(vals@),
                    j <= vals@.len(),
                    rest == vals_from(ev, j as int),
                    t <= xs@.len(),
                    k as int == capped_at(j as int, sites_in_items(xv, rule, t as int).len() as int, vals@.len() as int),
                    view_elems(out@) == replaced_items(xv, rule, rest, t as int),
                decreases xs@.len() - t,
            {
                proof {
                    vstd::std_specs::vec::axiom_vec_index_decreases(*xs, t as int);
                    assert(decreases_to!(*v => (*v)->Array_0));
                    assert(decreases_to!(*v => xs@[t as int]));
                    lemma_vals_from_add(ev, j as int, sites_in_items(xv, rule, t as int).len() as int);
                }
                let (w, k2) = replace_exec(&xs[t], rule, vals, k);
                let ghost pre = out@;
                out.push(w);
                assert(view_elems(out@) =~= view_elems(pre).push(w@));
                k = k2;
                t = t + 1;
            }
            proof {
                lemma_array_view(out);
            }
            (Json::Array(out), k)
        },
        _ => (clone_json(v), j),
    }
}

/// The document with each site of `css_sites` replaced, in order, by the
/// CSS value computed for it (see `css_replaced`).
pub fn apply_css_values(tree: &Json, rule: CssRule, vals: &Vec<Json>) -> (r: Json)
    ensures
        r@ == css_replaced(tree@, rule, view_elems(vals@)),
{
    let (j, _) = replace_exec(tree, rule, vals, 0);
    assert(vals_from(view_elems(vals@), 0) =~= view_elems(vals@));
    j
}

} // verus!
