use vstd::prelude::*;
use vstd::string::StrSliceExecFns;
use crate::blobs::{insert_key, insert_key_exec};
use crate::childmap::strs;
use crate::json::{Json, JsonNumber, JsonV, jget, jas_u64, view_elems, view_entries, lemma_array_view,
    lemma_object_view, clone_json, entry_index};
use crate::text::{hex2, push_hex2, push_str, str_equal};

verus! {

/// The hexadecimal text of a list of bytes given as numbers, or `None` when
/// an item is not an integer from 0 to 255.
pub open spec fn hash_hex_text(xs: Seq<JsonV>) -> Option<Seq<char>>
    decreases xs.len(),
{
    if xs.len() == 0 {
        Some(Seq::empty())
    } else {
        match hash_hex_text(xs.drop_last()) {
            None => None,
            Some(t) => match jas_u64(xs.last()) {
                Some(n) => if n <= 255 {
                    Some(t + hex2(n as u8))
                } else {
                    None
                },
                None => None,
            },
        }
    }
}

/// The file name of an image hash: `images/` and its hexadecimal text.
pub open spec fn hash_file_name(xs: Seq<JsonV>) -> Option<Seq<char>> {
    match hash_hex_text(xs) {
        Some(t) => Some("images/"@ + t),
        None => None,
    }
}

proof fn lemma_hash_hex_none(xs: Seq<JsonV>, k: int)
    requires
        0 <= k <= xs.len(),
        hash_hex_text(xs.take(k)) is None,
    ensures
        hash_hex_text(xs) is None,
    decreases xs.len() - k,
{
    if k < xs.len() {
        assert(xs.take(k + 1).drop_last() =~= xs.take(k));
        lemma_hash_hex_none(xs, k + 1);
    } else {
        assert(xs.take(k) =~= xs);
    }
}

/// The file name of an image hash (see `hash_file_name`).
pub fn hash_to_filename(hash: &[Json]) -> (r: Option<String>)
    ensures
        match hash_file_name(view_elems(hash@)) {
            Some(t) => (r matches Some(s) && s@ == t),
            None => r is None,
        },
{
    let ghost xv = view_elems(hash@);
    let mut hex = String::new();
    let mut i: usize = 0;
    assert(hex@ =~= Seq::<char>::empty());
    assert(xv.take(0) =~= Seq::<JsonV>::empty());
    while i < hash.len()
        invariant
            xv == view_elems(hash@),
            i <= hash@.len(),
            hash_hex_text(xv.take(i as int)) == Some(hex@),
        decreases hash@.len() - i,
    {
        assert(xv.take(i + 1).drop_last() =~= xv.take(i as int));
        assert(xv.take(i + 1).last() == hash@[i as int]@);
        match hash[i].as_u64() {
            Some(n) => {
                if n <= 255 {
                    push_hex2(&mut hex, n as u8);
                } else {
                    proof {
                        lemma_hash_hex_none(xv, i + 1);
                    }
                    return None;
                }
            },
            None => {
                proof {
                    lemma_hash_hex_none(xv, i + 1);
                }
                return None;
            },
        }
        i = i + 1;
    }
    assert(xv.take(hash@.len() as int) =~= xv);
    let mut name = String::from_str("images/");
    push_str(&mut name, hex.as_str());
    proof {
        reveal_strlit("images/");
    }
    Some(name)
}

/// A field that holds an image reference: `image` or `imageThumbnail`.
pub open spec fn is_image_key(k: Seq<char>) -> bool {
    k == "image"@ || k == "imageThumbnail"@
}

/// The file an image object held under `key` refers to, when its `hash` is
/// an array of bytes.
pub open spec fn image_file(v: JsonV, key: Option<Seq<char>>) -> Option<Seq<char>> {
    if key is Some && is_image_key(key->0) && v is Object {
        match jget(v, "hash"@) {
            Some(JsonV::Array(xs)) => hash_file_name(xs),
            _ => None,
        }
    } else {
        None
    }
}

/// An entry the renaming replaces: the `hash` and any old `filename` of an
/// image object.
pub open spec fn replaced_entry(own: bool, k: Seq<char>) -> bool {
    own && (k == "hash"@ || k == "filename"@)
}

/// The image files that the document refers to, in the order the renaming
/// meets them: an image object's own file, then those below it.
pub open spec fn image_files(v: JsonV, key: Option<Seq<char>>) -> Seq<Seq<char>>
    decreases v, 0int,
{
    let own = image_file(v, key);
    let here = match own {
        Some(f) => seq![f],
        None => Seq::empty(),
    };
    here + match v {
        JsonV::Object(es) => files_in_entries(es, own is Some, es.len() as int),
        JsonV::Array(xs) => files_in_items(xs, xs.len() as int),
        _ => Seq::empty(),
    }
}

/// The image files below the first `n` entries, replaced entries skipped.
pub open spec fn files_in_entries(es: Seq<(Seq<char>, JsonV)>, own: bool, n: int) -> Seq<Seq<char>>
    decreases es, n,
{
    if n <= 0 || n > es.len() {
        Seq::empty()
    } else if replaced_entry(own, es[n - 1].0) {
        files_in_entries(es, own, n - 1)
    } else {
        proof {
            assert(decreases_to!(es => es[n - 1]));
            assert(decreases_to!(es[n - 1] => es[n - 1].1));
        }
        files_in_entries(es, own, n - 1) + image_files(es[n - 1].1, Some(es[n - 1].0))
    }
}

/// The image files below the first `n` items.
pub open spec fn files_in_items(xs: Seq<JsonV>, n: int) -> Seq<Seq<char>>
    decreases xs, n,
{
    if n <= 0 || n > xs.len() {
        Seq::empty()
    } else {
        proof {
            assert(decreases_to!(xs => xs[n - 1]));
        }
        files_in_items(xs, n - 1) + image_files(xs[n - 1], None)
    }
}

/// The extensions left after the first `i`.
pub open spec fn exts_from(exts: Seq<Option<Seq<char>>>, i: int) -> Seq<Option<Seq<char>>> {
    if 0 <= i <= exts.len() {
        exts.skip(i)
    } else {
        Seq::empty()
    }
}

/// The extension found for the next file, if any.
pub open spec fn next_ext(exts: Seq<Option<Seq<char>>>) -> Seq<char> {
    if exts.len() > 0 && exts[0] is Some {
        exts[0]->0
    } else {
        Seq::empty()
    }
}

/// The document with every image hash turned into a file name: each image
/// object meets the next extension of `exts` (the format found for its file,
/// if any), loses its `hash` and gets `filename` set to the file name and
/// extension; the objects below are renamed in turn.
pub open spec fn with_file_names(v: JsonV, key: Option<Seq<char>>, exts: Seq<Option<Seq<char>>>) -> JsonV
    decreases v, 0int,
{
    let own = image_file(v, key);
    let rest = if own is Some {
        exts_from(exts, 1)
    } else {
        exts
    };
    match v {
        JsonV::Object(es) => {
            let walked = names_in_entries(es, own is Some, rest, es.len() as int);
            match own {
                Some(f) => JsonV::Object(insert_key(walked, "filename"@, JsonV::Str(f + next_ext(exts)))),
                None => JsonV::Object(walked),
            }
        },
        JsonV::Array(xs) => JsonV::Array(names_in_items(xs, rest, xs.len() as int)),
        _ => v,
    }
}

/// The first `n` entries renamed, replaced entries dropped; `exts` starts at
/// the first entry's files.
pub open spec fn names_in_entries(
    es: Seq<(Seq<char>, JsonV)>,
    own: bool,
    exts: Seq<Option<Seq<char>>>,
    n: int,
) -> Seq<(Seq<char>, JsonV)>
    decreases es, n,
{
    if n <= 0 || n > es.len() {
        Seq::empty()
    } else if replaced_entry(own, es[n - 1].0) {
        names_in_entries(es, own, exts, n - 1)
    } else {
        proof {
            assert(decreases_to!(es => es[n - 1]));
            assert(decreases_to!(es[n - 1] => es[n - 1].1));
        }
        let used = files_in_entries(es, own, n - 1).len();
        names_in_entries(es, own, exts, n - 1).push(
            (es[n - 1].0, with_file_names(es[n - 1].1, Some(es[n - 1].0), exts_from(exts, used as int))),
        )
    }
}

/// The first `n` items renamed; `exts` starts at the first item's files.
pub open spec fn names_in_items(xs: Seq<JsonV>, exts: Seq<Option<Seq<char>>>, n: int) -> Seq<JsonV>
    decreases xs, n,
{
    if n <= 0 || n > xs.len() {
        Seq::empty()
    } else {
        proof {
            assert(decreases_to!(xs => xs[n - 1]));
        }
        let used = files_in_items(xs, n - 1).len();
        names_in_items(xs, exts, n - 1).push(with_file_names(xs[n - 1], None, exts_from(exts, used as int)))
    }
}

/// The texts of a list of optional extensions.
pub open spec fn ext_views(v: Seq<Option<String>>) -> Seq<Option<Seq<char>>> {
    v.map_values(|o: Option<String>| match o {
        Some(s) => Some(s@),
        None => None,
    })
}

/// The contents of an optional field name.
pub open spec fn key_view(key: Option<&str>) -> Option<Seq<char>> {
    match key {
        Some(s) => Some(s@),
        None => None,
    }
}

fn image_file_exec(v: &Json, key: Option<&str>) -> (r: Option<String>)
    ensures
        match image_file(v@, key_view(key)) {
            Some(f) => (r matches Some(s) && s@ == f),
            None => r is None,
        },
{
    let is_image = match key {
        Some(k) => str_equal(k, "image") || str_equal(k, "imageThumbnail"),
        None => false,
    };
    if !is_image || !v.is_object() {
        return None;
    }
    match v.get("hash") {
        Some(h) => match h {
            Json::Array(xs) => {
                proof {
                    lemma_array_view(*xs);
                }
                hash_to_filename(xs.as_slice())
            },
            _ => None,
        },
        None => None,
    }
}

fn files_exec(v: &Json, key: Option<&str>, out: &mut Vec<String>)
    ensures
        strs(final(out)@) == strs(old(out)@) + image_files(v@, key_view(key)),
    decreases v,
{
    let own = image_file_exec(v, key);
    let is_own = own.is_some();
    match own {
        Some(f) => {
            let ghost pre = out@;
            let ghost fv = f@;
            out.push(f);
            assert(strs(out@) =~= strs(pre).push(fv));
        },
        None => {},
    }
    let ghost mid = strs(out@);
    match v {
        Json::Object(es) => {
            proof {
                lemma_object_view(*es);
            }
            let ghost ev = view_entries(es@);
            let mut i: usize = 0;
            while i < es.len()
                invariant
                    *v == Json::Object(*es),
                    ev == view_entries(es@),
                    is_own == image_file(v@, key_view(key)) is Some,
                    i <= es@.len(),
                    strs(out@) == mid + files_in_entries(ev, is_own, i as int),
                decreases es@.len() - i,
            {
                let k = es[i].0.as_str();
                let skip = is_own && (str_equal(k, "hash") || str_equal(k, "filename"));
                if !skip {
                    proof {
                        vstd::std_specs::vec::axiom_vec_index_decreases(*es, i as int);
                        assert(decreases_to!(*v => (*v)->Object_0));
                        assert(decreases_to!(es@[i as int] => es@[i as int].1));
                        assert(decreases_to!(*v => es@[i as int].1));
                    }
                    files_exec(&es[i].1, Some(k), out);
                    assert(strs(out@) =~= mid + files_in_entries(ev, is_own, i + 1));
                }
                i = i + 1;
            }
            assert(strs(old(out)@) + image_files(v@, key_view(key)) =~= mid + files_in_entries(ev, is_own, ev.len() as int));
        },
        Json::Array(xs) => {
            proof {
                lemma_array_view(*xs);
            }
            let ghost xv = view_elems(xs@);
            let mut i: usize = 0;
            while i < xs.len()
                invariant
                    *v == Json::Array(*xs),
                    xv == view_elems(xs@),
                    i <= xs@.len(),
                    strs(out@) == mid + files_in_items(xv, i as int),
                decreases xs@.len() - i,
            {
                proof {
                    vstd::std_specs::vec::axiom_vec_index_decreases(*xs, i as int);
                    assert(decreases_to!(*v => (*v)->Array_0));
                    assert(decreases_to!(*v => xs@[i as int]));
                }
                files_exec(&xs[i], None, out);
                assert(strs(out@) =~= mid + files_in_items(xv, i + 1));
                i = i + 1;
            }
            assert(strs(old(out)@) + image_files(v@, key_view(key)) =~= mid + files_in_items(xv, xv.len() as int));
        },
        _ => {
            assert(strs(old(out)@) + image_files(v@, key_view(key)) =~= mid);
        },
    }
}

/// The image files that the document refers to, in the order the renaming
/// meets them (see `image_files`).
pub fn image_hash_files(tree: &Json) -> (r: Vec<String>)
    ensures
        strs(r@) == image_files(tree@, None),
{
    let mut out: Vec<String> = Vec::new();
    files_exec(tree, None, &mut out);
    assert(strs(out@) =~= Seq::<Seq<char>>::empty() + image_files(tree@, None));
    out
}

/// `i + u`, but at most `n`.
pub open spec fn capped(i: int, u: int, n: int) -> int {
    if i + u <= n { i + u } else { n }
}

proof fn lemma_exts_from_add(e: Seq<Option<Seq<char>>>, i: int, u: int)
    requires
        0 <= i <= e.len(),
        0 <= u,
    ensures
        exts_from(exts_from(e, i), u) == exts_from(e, capped(i, u, e.len() as int)),
{
    if i + u <= e.len() {
        assert(e.skip(i).skip(u) =~= e.skip(i + u));
    } else {
        assert(e.skip(e.len() as int) =~= Seq::<Option<Seq<char>>>::empty());
    }
}

fn names_exec(v: &Json, key: Option<&str>, exts: &Vec<Option<String>>, i: usize) -> (r: (Json, usize))
    requires
        i <= exts@.len(),
    ensures
        r.0@ == with_file_names(v@, key_view(key), exts_from(ext_views(exts@), i as int)),
        r.1 as int == capped(i as int, image_files(v@, key_view(key)).len() as int, exts@.len() as int),
    decreases v,
{
    let ghost ev = ext_views(exts@);
    let ghost ex = exts_from(ev, i as int);
    let own = image_file_exec(v, key);
    let is_own = own.is_some();
    let j: usize = if is_own && i < exts.len() { i + 1 } else { i };
    proof {
        lemma_exts_from_add(ev, i as int, if is_own { 1 } else { 0 });
    }
    let ghost rest = if is_own { exts_from(ex, 1) } else { ex };
    assert(rest == exts_from(ev, j as int));
    match v {
        Json::Object(es) => {
            proof {
                lemma_object_view(*es);
            }
            let ghost evs = view_entries(es@);
            let mut out: Vec<(String, Json)> = Vec::new();
            let mut k: usize = j;
            let mut t: usize = 0;
            assert(view_entries(out@) =~= Seq::<(Seq<char>, JsonV)>::empty());
            while t < es.len()
                invariant
                    *v == Json::Object(*es),
                    evs == view_entries(es@),
                    ev == ext_views(exts@),
                    is_own == image_file(v@, key_view(key)) is Some,
                    j <= exts@.len(),
                    rest == exts_from(ev, j as int),
                    t <= es@.len(),
                    k as int == capped(j as int, files_in_entries(evs, is_own, t as int).len() as int, exts@.len() as int),
                    view_entries(out@) == names_in_entries(evs, is_own, rest, t as int),
                decreases es@.len() - t,
            {
                let kk = es[t].0.as_str();
                let skip = is_own && (str_equal(kk, "hash") || str_equal(kk, "filename"));
                if !skip {
                    proof {
                        vstd::std_specs::vec::axiom_vec_index_decreases(*es, t as int);
                        assert(decreases_to!(*v => (*v)->Object_0));
                        assert(decreases_to!(es@[t as int] => es@[t as int].1));
                        assert(decreases_to!(*v => es@[t as int].1));
                        lemma_exts_from_add(ev, j as int, files_in_entries(evs, is_own, t as int).len() as int);
                    }
                    let (w, k2) = names_exec(&es[t].1, Some(kk), exts, k);
                    let name = es[t].0.clone();
                    let ghost pre = out@;
                    let ghost wv = w@;
                    out.push((name, w));
                    assert(view_entries(out@) =~= view_entries(pre).push((evs[t as int].0, wv)));
                    k = k2;
                }
                t = t + 1;
            }
            match own {
                Some(f) => {
                    let mut fname = f;
                    if i < exts.len() {
                        match &exts[i] {
                            Some(e) => {
                                push_str(&mut fname, e.as_str());
                            },
                            None => {},
                        }
                    }
                    assert(fname@ == image_file(v@, key_view(key))->0 + next_ext(ex)) by {
                        if i < exts@.len() {
                            assert(ex[0] == ev[i as int]);
                        }
                    }
                    proof {
                        reveal_strlit("filename");
                    }
                    insert_key_exec(&mut out, String::from_str("filename"), Json::Str(fname));
                },
                None => {},
            }
            proof {
                lemma_object_view(out);
            }
            (Json::Object(out), k)
        },
        Json::Array(xs) => {
            proof {
                lemma_array_view(*xs);
            }
            let ghost xv = view_elems(xs@);
            let mut out: Vec<Json> = Vec::new();
            let mut k: usize = j;
            let mut t: usize = 0;
            assert(view_elems(out@) =~= Seq::<JsonV>::empty());
            while t < xs.len()
                invariant
                    *v == Json::Array(*xs),
                    xv == view_elems(xs@),
                    ev == ext_views(exts@),
                    j <= exts@.len(),
                    rest == exts_from(ev, j as int),
                    t <= xs@.len(),
                    k as int == capped(j as int, files_in_items(xv, t as int).len() as int, exts@.len() as int),
                    view_elems(out@) == names_in_items(xv, rest, t as int),
                decreases xs@.len() - t,
            {
                proof {
                    vstd::std_specs::vec::axiom_vec_index_decreases(*xs, t as int);
                    assert(decreases_to!(*v => (*v)->Array_0));
                    assert(decreases_to!(*v => xs@[t as int]));
                    lemma_exts_from_add(ev, j as int, files_in_items(xv, t as int).len() as int);
                }
                let (w, k2) = names_exec(&xs[t], None, exts, k);
                let ghost pre = out@;
                out.push(w);
                assert(view_elems(out@) =~= view_elems(pre).push(w@));
                k = k2;
                t = t + 1;
            }
            proof {
                lemma_array_view(out);
            }
            (Json::Array(out), k)
        },
        _ => (clone_json(v), j),
    }
}

/// The document with every image hash turned into a file name (see
/// `with_file_names`); `exts` holds, for each file of `image_hash_files` in
/// turn, the extension of the format found for it.
/// No image hash is left in the result.
pub fn apply_image_filenames(tree: &Json, exts: &Vec<Option<String>>) -> (r: Json)
    ensures
        r@ == with_file_names(tree@, None, ext_views(exts@)),
        image_files(r@, None).len() == 0,
{
    proof {
        lemma_no_hash_left(tree@, None, ext_views(exts@));
    }
    let (j, _) = names_exec(tree, None, exts, 0);
    assert(exts_from(ext_views(exts@), 0) =~= ext_views(exts@));
    j
}

proof fn lemma_entry_index_same_keys(a: Seq<(Seq<char>, JsonV)>, b: Seq<(Seq<char>, JsonV)>, k: Seq<char>)
    requires
        a.len() == b.len(),
        forall|i: int| 0 <= i < a.len() ==> (#[trigger] a[i]).0 == b[i].0,
    ensures
        entry_index(a, k) == entry_index(b, k),
{
    crate::json::lemma_entry_index(a, k);
    crate::json::lemma_entry_index(b, k);
    let ia = entry_index(a, k);
    let ib = entry_index(b, k);
    if ia >= 0 {
        assert(b[ia].0 == k);
        if ib >= 0 && ib < ia {
            assert(a[ib].0 == k);
        }
    }
    if ib >= 0 {
        assert(a[ib].0 == k);
    }
}

proof fn lemma_hash_text_same(a: Seq<JsonV>, b: Seq<JsonV>)
    requires
        a.len() == b.len(),
        forall|i: int| 0 <= i < a.len() ==> jas_u64(#[trigger] a[i]) == jas_u64(b[i]),
    ensures
        hash_hex_text(a) == hash_hex_text(b),
    decreases a.len(),
{
    if a.len() > 0 {
        let (da, db) = (a.drop_last(), b.drop_last());
        assert forall|i: int| 0 <= i < da.len() implies jas_u64(#[trigger] da[i]) == jas_u64(db[i]) by {
            assert(da[i] == a[i] && db[i] == b[i]);
        }
        lemma_hash_text_same(da, db);
        assert(jas_u64(a.last()) == jas_u64(b.last())) by {
            assert(a.last() == a[a.len() - 1]);
        }
    }
}

proof fn lemma_items_shape(xs: Seq<JsonV>, e: Seq<Option<Seq<char>>>, n: int)
    requires
        0 <= n <= xs.len(),
    ensures
        names_in_items(xs, e, n).len() == n,
        forall|i: int| 0 <= i < n ==> #[trigger] names_in_items(xs, e, n)[i] == with_file_names(
            xs[i],
            None,
            exts_from(e, files_in_items(xs, i).len() as int),
        ),
    decreases n,
{
    if n > 0 {
        lemma_items_shape(xs, e, n - 1);
        let prev = names_in_items(xs, e, n - 1);
        assert forall|i: int| 0 <= i < n implies #[trigger] names_in_items(xs, e, n)[i] == with_file_names(
            xs[i],
            None,
            exts_from(e, files_in_items(xs, i).len() as int),
        ) by {
            if i < n - 1 {
                assert(names_in_items(xs, e, n)[i] == prev[i]);
            }
        }
    }
}

proof fn lemma_entries_shape(es: Seq<(Seq<char>, JsonV)>, e: Seq<Option<Seq<char>>>, n: int)
    requires
        0 <= n <= es.len(),
    ensures
        names_in_entries(es, false, e, n).len() == n,
        forall|i: int| 0 <= i < n ==> #[trigger] names_in_entries(es, false, e, n)[i] == (
            es[i].0,
            with_file_names(es[i].1, Some(es[i].0), exts_from(e, files_in_entries(es, false, i).len() as int)),
        ),
    decreases n,
{
    if n > 0 {
        lemma_entries_shape(es, e, n - 1);
        let prev = names_in_entries(es, false, e, n - 1);
        assert forall|i: int| 0 <= i < n implies #[trigger] names_in_entries(es, false, e, n)[i] == (
            es[i].0,
            with_file_names(es[i].1, Some(es[i].0), exts_from(e, files_in_entries(es, false, i).len() as int)),
        ) by {
            if i < n - 1 {
                assert(names_in_entries(es, false, e, n)[i] == prev[i]);
            }
        }
    }
}

proof fn lemma_own_entries_keys(es: Seq<(Seq<char>, JsonV)>, e: Seq<Option<Seq<char>>>, n: int)
    requires
        0 <= n <= es.len(),
    ensures
        forall|i: int| 0 <= i < names_in_entries(es, true, e, n).len() ==> (#[trigger] names_in_entries(
            es,
            true,
            e,
            n,
        )[i]).0 != "hash"@ && names_in_entries(es, true, e, n)[i].0 != "filename"@,
    decreases n,
{
    if n > 0 {
        lemma_own_entries_keys(es, e, n - 1);
        let prev = names_in_entries(es, true, e, n - 1);
        let cur = names_in_entries(es, true, e, n);
        assert forall|i: int| 0 <= i < cur.len() implies (#[trigger] cur[i]).0 != "hash"@ && cur[i].0 != "filename"@ by {
            if i < prev.len() {
                assert(cur[i] == prev[i]);
            }
        }
    }
}

proof fn lemma_files_prefix(es: Seq<(Seq<char>, JsonV)>, t: (Seq<char>, JsonV), own: bool, n: int)
    requires
        0 <= n <= es.len(),
    ensures
        files_in_entries(es.push(t), own, n) == files_in_entries(es, own, n),
    decreases n,
{
    if n > 0 {
        lemma_files_prefix(es, t, own, n - 1);
        assert(es.push(t)[n - 1] == es[n - 1]);
    }
}

proof fn lemma_no_hash_in_items(xs: Seq<JsonV>, e: Seq<Option<Seq<char>>>, n: int)
    requires
        0 <= n <= xs.len(),
    ensures
        files_in_items(names_in_items(xs, e, n), n).len() == 0,
    decreases xs, n,
{
    if n > 0 {
        lemma_items_shape(xs, e, n);
        lemma_items_shape(xs, e, n - 1);
        lemma_no_hash_in_items(xs, e, n - 1);
        let w = names_in_items(xs, e, n);
        let prev = names_in_items(xs, e, n - 1);
        assert(w =~= prev.push(w[n - 1]));
        assert(files_in_items(w, n - 1) == files_in_items(prev, n - 1)) by {
            lemma_items_prefix(prev, w[n - 1], n - 1);
        }
        assert(decreases_to!(xs => xs[n - 1]));
        lemma_no_hash_left(xs[n - 1], None, exts_from(e, files_in_items(xs, n - 1).len() as int));
    }
}

proof fn lemma_items_prefix(xs: Seq<JsonV>, t: JsonV, n: int)
    requires
        0 <= n <= xs.len(),
    ensures
        files_in_items(xs.push(t), n) == files_in_items(xs, n),
    decreases n,
{
    if n > 0 {
        lemma_items_prefix(xs, t, n - 1);
        assert(xs.push(t)[n - 1] == xs[n - 1]);
    }
}

proof fn lemma_no_hash_in_entries(es: Seq<(Seq<char>, JsonV)>, own: bool, e: Seq<Option<Seq<char>>>, n: int)
    requires
        0 <= n <= es.len(),
    ensures
        files_in_entries(
            names_in_entries(es, own, e, n),
            false,
            names_in_entries(es, own, e, n).len() as int,
        ).len() == 0,
    decreases es, n,
{
    if n > 0 {
        lemma_no_hash_in_entries(es, own, e, n - 1);
        let prev = names_in_entries(es, own, e, n - 1);
        if !replaced_entry(own, es[n - 1].0) {
            let used = files_in_entries(es, own, n - 1).len();
            let x = (es[n - 1].0, with_file_names(es[n - 1].1, Some(es[n - 1].0), exts_from(e, used as int)));
            let w = names_in_entries(es, own, e, n);
            assert(w == prev.push(x));
            lemma_files_prefix(prev, x, false, prev.len() as int);
            assert(w[prev.len() as int] == x);
            assert(decreases_to!(es => es[n - 1]));
            assert(decreases_to!(es[n - 1] => es[n - 1].1));
            lemma_no_hash_left(es[n - 1].1, Some(es[n - 1].0), exts_from(e, used as int));
        }
    }
}

/// Renaming leaves no image hash behind: the renamed document refers to no
/// image file that a second renaming would meet.
pub proof fn lemma_no_hash_left(v: JsonV, key: Option<Seq<char>>, exts: Seq<Option<Seq<char>>>)
    ensures
        image_files(with_file_names(v, key, exts), key).len() == 0,
    decreases v, 1int,
{
    let own = image_file(v, key);
    let rest = if own is Some {
        exts_from(exts, 1)
    } else {
        exts
    };
    let r = with_file_names(v, key, exts);
    match v {
        JsonV::Object(es) => {
            assert(decreases_to!(v => es));
            let walked = names_in_entries(es, own is Some, rest, es.len() as int);
            lemma_no_hash_in_entries(es, own is Some, rest, es.len() as int);
            match own {
                Some(f) => {
                    let x = ("filename"@, JsonV::Str(f + next_ext(exts)));
                    lemma_own_entries_keys(es, rest, es.len() as int);
                    assert(entry_index(walked, "filename"@) == -1) by {
                        crate::json::lemma_entry_index_none(walked, "filename"@);
                    }
                    let res = walked.push(x);
                    assert(r == JsonV::Object(res));
                    assert(jget(r, "hash"@) is None) by {
                        assert forall|j: int| 0 <= j < res.len() implies res[j].0 != "hash"@ by {
                            if j < walked.len() {
                                assert(res[j] == walked[j]);
                            } else {
                                reveal_strlit("hash");
                                reveal_strlit("filename");
                                assert("filename"@[0] != "hash"@[0]);
                            }
                        }
                        crate::json::lemma_entry_index_none(res, "hash"@);
                    }
                    lemma_files_prefix(walked, x, false, walked.len() as int);
                    assert(image_file(r, key) is None);
                    assert(res[res.len() - 1] == x);
                    assert(image_file(x.1, Some(x.0)) is None);
                    assert(image_files(x.1, Some(x.0)) =~= Seq::<Seq<char>>::empty());
                    assert(!replaced_entry(false, x.0));
                    assert(files_in_entries(res, false, res.len() as int) == files_in_entries(res, false, walked.len() as int)
                        + image_files(x.1, Some(x.0)));
                    assert(files_in_entries(res, false, res.len() as int) =~= files_in_entries(walked, false, walked.len() as int));
                    assert(image_files(r, key) =~= files_in_entries(res, false, res.len() as int));
                    assert(image_files(r, key).len() == 0);
                },
                None => {
                    lemma_entries_shape(es, rest, es.len() as int);
                    assert(r == JsonV::Object(walked));
                    assert(image_file(r, key) is None) by {
                        if key is Some && is_image_key(key->0) {
                            lemma_entry_index_same_keys(es, walked, "hash"@);
                            let idx = entry_index(es, "hash"@);
                            crate::json::lemma_entry_index(es, "hash"@);
                            if idx >= 0 {
                                let hv = es[idx].1;
                                let used = files_in_entries(es, false, idx).len();
                                assert(walked[idx].1 == with_file_names(hv, Some(es[idx].0), exts_from(rest, used as int)));
                                match hv {
                                    JsonV::Array(xs) => {
                                        let wxs = names_in_items(
                                            xs,
                                            exts_from(exts_from(rest, used as int), 0),
                                            xs.len() as int,
                                        );
                                        assert(image_file(hv, Some(es[idx].0)) is None) by {
                                            reveal_strlit("hash");
                                            reveal_strlit("image");
                                            reveal_strlit("imageThumbnail");
                                        }
                                        lemma_items_shape(xs, exts_from(rest, used as int), xs.len() as int);
                                        let ws = names_in_items(xs, exts_from(rest, used as int), xs.len() as int);
                                        assert(walked[idx].1 == JsonV::Array(ws));
                                        assert forall|i: int| 0 <= i < xs.len() implies jas_u64(#[trigger] xs[i])
                                            == jas_u64(ws[i]) by {
                                            let ee = exts_from(exts_from(rest, used as int), files_in_items(xs, i).len() as int);
                                            assert(ws[i] == with_file_names(xs[i], None, ee));
                                        }
                                        lemma_hash_text_same(xs, ws);
                                    },
                                    _ => {},
                                }
                            }
                        }
                    }
                    assert(image_files(r, key) =~= files_in_entries(walked, false, walked.len() as int));
                    assert(image_files(r, key).len() == 0);
                },
            }
        },
        JsonV::Array(xs) => {
            assert(decreases_to!(v => xs));
            lemma_no_hash_in_items(xs, rest, xs.len() as int);
            lemma_items_shape(xs, rest, xs.len() as int);
            assert(image_files(r, key) =~= files_in_items(
                names_in_items(xs, rest, xs.len() as int),
                xs.len() as int,
            ));
        },
        _ => {},
    }
}

/// `p` occurs in `t`.
pub open spec fn text_contains(t: Seq<char>, p: Seq<char>) -> bool {
    exists|i: int| 0 <= i && i + p.len() <= t.len() && #[trigger] t.subrange(i, i + p.len()) == p
}

/// The file extension of the image format the first bytes of a file show:
/// PNG, JPEG, GIF, WebP, or SVG text; `None` for fewer than 4 bytes or an
/// unknown format.
pub open spec fn image_format(b: Seq<u8>) -> Option<Seq<char>> {
    if b.len() < 4 {
        None
    } else if b.len() >= 8 && b.take(8) == seq![0x89u8, 0x50u8, 0x4Eu8, 0x47u8, 0x0Du8, 0x0Au8, 0x1Au8, 0x0Au8] {
        Some(".png"@)
    } else if b.take(3) == seq![0xFFu8, 0xD8u8, 0xFFu8] {
        Some(".jpg"@)
    } else if b.take(4) == seq![0x47u8, 0x49u8, 0x46u8, 0x38u8] {
        Some(".gif"@)
    } else if b.len() >= 12 && b.take(4) == seq![0x52u8, 0x49u8, 0x46u8, 0x46u8] && b.subrange(8, 12) == seq![
        0x57u8,
        0x45u8,
        0x42u8,
        0x50u8,
    ] {
        Some(".webp"@)
    } else if vstd::utf8::valid_utf8(b) {
        let t = crate::cli::unicode_lowercase(vstd::utf8::decode_utf8(b));
        if text_contains(t, "<svg"@) || (text_contains(t, "<?xml"@) && text_contains(t, "svg"@)) {
            Some(".svg"@)
        } else {
            None
        }
    } else {
        None
    }
}

/// `std::str::from_utf8`, the text copied out: the text of valid UTF-8.
#[verifier::external_body]
fn utf8_text(b: &[u8]) -> (r: Option<String>)
    ensures
        r is Some <==> vstd::utf8::valid_utf8(b@),
        r matches Some(s) ==> s@ == vstd::utf8::decode_utf8(b@),
{
    match std::str::from_utf8(b) {
        Ok(s) => Some(s.to_string()),
        Err(_) => None,
    }
}

pub(crate) fn contains_text(t: &str, p: &str) -> (r: bool)
    ensures
        r == text_contains(t@, p@),
{
    let n = t.unicode_len();
    let m = p.unicode_len();
    if m == 0 {
        assert(t@.subrange(0int, 0int + p@.len()) =~= p@);
        return true;
    }
    if m > n {
        return false;
    }
    let mut i: usize = 0;
    while i <= n - m
        invariant
            n == t@.len(),
            m == p@.len(),
            1 <= m <= n,
            i <= n - m + 1,
            forall|a: int| 0 <= a < i ==> #[trigger] t@.subrange(a, a + m) != p@,
        decreases n - m + 1 - i,
    {
        let mut j: usize = 0;
        let mut same = true;
        while j < m
            invariant
                n == t@.len(),
                m == p@.len(),
                i + m <= n,
                j <= m,
                same == (forall|k: int| 0 <= k < j ==> t@[i + k] == p@[k]),
            decreases m - j,
        {
            let a = t.get_char(i + j);
            let b = p.get_char(j);
            same = same && a == b;
            j = j + 1;
        }
        if same {
            assert(t@.subrange(i as int, i + m) =~= p@);
            return true;
        }
        let ghost k = choose|k: int| 0 <= k < m && t@[i + k] != p@[k];
        assert(t@.subrange(i as int, i + m)[k] != p@[k]);
        i = i + 1;
    }
    assert forall|a: int| 0 <= a && a + p@.len() <= t@.len() implies #[trigger] t@.subrange(a, a + p@.len()) != p@ by {
        assert(a < i);
    }
    false
}

fn starts_with_bytes(b: &[u8], off: usize, p: &[u8]) -> (r: bool)
    requires
        off + p@.len() <= b@.len(),
    ensures
        r == (b@.subrange(off as int, off + p@.len()) == p@),
{
    let lb = b.len();
    let mut i: usize = 0;
    while i < p.len()
        invariant
            lb == b@.len(),
            off + p@.len() <= b@.len(),
            i <= p@.len(),
            forall|a: int| 0 <= a < i ==> b@[off + a] == p@[a],
        decreases p@.len() - i,
    {
        if b[off + i] != p[i] {
            assert(b@.subrange(off as int, off + p@.len())[i as int] != p@[i as int]);
            return false;
        }
        i = i + 1;
    }
    assert(b@.subrange(off as int, off + p@.len()) =~= p@);
    true
}

/// The file extension of the image format that the first bytes of a file
/// show (see `image_format`).
pub fn detect_image_format(header: &[u8]) -> (r: Option<String>)
    ensures
        match image_format(header@) {
            Some(e) => (r matches Some(s) && s@ == e),
            None => r is None,
        },
{
    let n = header.len();
    if n < 4 {
        return None;
    }
    let png: [u8; 8] = [0x89, 0x50, 0x4E, 0x47, 0x0D, 0x0A, 0x1A, 0x0A];
    let jpg: [u8; 3] = [0xFF, 0xD8, 0xFF];
    let gif: [u8; 4] = [0x47, 0x49, 0x46, 0x38];
    let riff: [u8; 4] = [0x52, 0x49, 0x46, 0x46];
    let webp: [u8; 4] = [0x57, 0x45, 0x42, 0x50];
    assert(png@ =~= seq![0x89u8, 0x50u8, 0x4Eu8, 0x47u8, 0x0Du8, 0x0Au8, 0x1Au8, 0x0Au8]);
    assert(jpg@ =~= seq![0xFFu8, 0xD8u8, 0xFFu8]);
    assert(gif@ =~= seq![0x47u8, 0x49u8, 0x46u8, 0x38u8]);
    assert(riff@ =~= seq![0x52u8, 0x49u8, 0x46u8, 0x46u8]);
    assert(webp@ =~= seq![0x57u8, 0x45u8, 0x42u8, 0x50u8]);
    assert(header@.subrange(0, 8) =~= header@.take(8) || n < 8);
    assert(header@.subrange(0, 3) =~= header@.take(3));
    assert(header@.subrange(0, 4) =~= header@.take(4));
    proof {
        reveal_strlit(".png");
        reveal_strlit(".jpg");
        reveal_strlit(".gif");
        reveal_strlit(".webp");
        reveal_strlit(".svg");
    }
    if n >= 8 && starts_with_bytes(header, 0, png.as_slice()) {
        return Some(String::from_str(".png"));
    }
    if starts_with_bytes(header, 0, jpg.as_slice()) {
        return Some(String::from_str(".jpg"));
    }
    if starts_with_bytes(header, 0, gif.as_slice()) {
        return Some(String::from_str(".gif"));
    }
    if n >= 12 && starts_with_bytes(header, 0, riff.as_slice()) && starts_with_bytes(header, 8, webp.as_slice()) {
        return Some(String::from_str(".webp"));
    }
    match utf8_text(header) {
        Some(text) => {
            let lower = crate::cli::to_lowercase(text.as_str());
            let l = lower.as_str();
            if contains_text(l, "<svg") || (contains_text(l, "<?xml") && contains_text(l, "svg")) {
                Some(String::from_str(".svg"))
            } else {
                None
            }
        },
        None => None,
    }
}

} // verus!
