use vstd::prelude::*;
use vstd::string::StrSliceExecFns;
use crate::json::{Json, JsonV, jget, jas_u64, view_elems, view_entries, lemma_array_view, lemma_object_view, entry_index,
    lemma_entry_index};
use crate::text::{hex2, hex_char, push_hex2, push_char};
use crate::nodes::{guid_text, guid_string};
use crate::text::{str_equal, push_str};

verus! {

/// The `name` of a node, or `?`.
pub open spec fn name_of(v: JsonV) -> Seq<char> {
    match jget(v, "name"@) {
        Some(JsonV::Str(s)) => s,
        _ => "?"@,
    }
}

/// The `children` array of a node, or no children.
pub open spec fn kids_of(v: JsonV) -> Seq<JsonV> {
    match jget(v, "children"@) {
        Some(JsonV::Array(xs)) => xs,
        _ => Seq::empty(),
    }
}

/// The `document` of the data, or the data itself.
pub open spec fn document_of(v: JsonV) -> JsonV {
    match jget(v, "document"@) {
        Some(d) => d,
        None => v,
    }
}

/// The pages (canvases) of the data: the children of its document.
pub open spec fn canvases_of(v: JsonV) -> Seq<JsonV> {
    kids_of(document_of(v))
}

/// The name of a node.
pub fn node_name(v: &Json) -> (r: &str)
    ensures
        r@ == name_of(v@),
{
    proof {
        reveal_strlit("?");
    }
    match v.get("name") {
        Some(x) => match x.as_str() {
            Some(s) => s,
            None => "?",
        },
        None => "?",
    }
}

/// The children of a node.
pub fn children(v: &Json) -> (r: &[Json])
    ensures
        view_elems(r@) == kids_of(v@),
{
    match v.get("children") {
        Some(x) => match x.as_array() {
            Some(a) => a.as_slice(),
            None => {
                let e: &[Json] = &[];
                assert(view_elems(e@) =~= Seq::<JsonV>::empty());
                e
            },
        },
        None => {
            let e: &[Json] = &[];
            assert(view_elems(e@) =~= Seq::<JsonV>::empty());
            e
        },
    }
}

/// The document root of the data.
pub fn get_document(data: &Json) -> (r: &Json)
    ensures
        r@ == document_of(data@),
{
    match data.get("document") {
        Some(d) => d,
        None => data,
    }
}

/// The first page of the data.
pub fn get_canvas(data: &Json) -> (r: Option<&Json>)
    ensures
        canvases_of(data@).len() == 0 ==> r is None,
        canvases_of(data@).len() > 0 ==> (r matches Some(c) && c@ == canvases_of(data@)[0]),
{
    let cs = children(get_document(data));
    if cs.len() > 0 {
        Some(&cs[0])
    } else {
        None
    }
}

/// Every page of the data, in order.
pub fn get_all_canvases(data: &Json) -> (r: Vec<&Json>)
    ensures
        r@.len() == canvases_of(data@).len(),
        forall|i: int| 0 <= i < r@.len() ==> (#[trigger] r@[i])@ == canvases_of(data@)[i],
{
    let cs = children(get_document(data));
    let mut out: Vec<&Json> = Vec::new();
    let mut i: usize = 0;
    while i < cs.len()
        invariant
            i <= cs@.len(),
            view_elems(cs@) == canvases_of(data@),
            out@.len() == i,
            forall|t: int| 0 <= t < i ==> (#[trigger] out@[t])@ == canvases_of(data@)[t],
        decreases cs@.len() - i,
    {
        out.push(&cs[i]);
        i = i + 1;
    }
    out
}

/// The `description` text of a page.
pub fn get_page_description(page: &Json) -> (r: Option<String>)
    ensures
        match jget(page@, "description"@) {
            Some(JsonV::Str(s)) => (r matches Some(t) && t@ == s),
            _ => r is None,
        },
{
    match page.get("description") {
        Some(x) => match x.as_str() {
            Some(s) => Some(s.to_string()),
            None => None,
        },
        None => None,
    }
}

/// Position of the first node named `name` in `xs`, or -1.
pub open spec fn first_named(xs: Seq<JsonV>, name: Seq<char>) -> int
    decreases xs.len(),
{
    if xs.len() == 0 {
        -1
    } else if first_named(xs.drop_last(), name) >= 0 {
        first_named(xs.drop_last(), name)
    } else if name_of(xs.last()) == name {
        xs.len() - 1
    } else {
        -1
    }
}

fn find_named(xs: &[Json], name: &str) -> (r: Option<usize>)
    ensures
        match r {
            Some(i) => i < xs@.len() && first_named(view_elems(xs@), name@) == i,
            None => first_named(view_elems(xs@), name@) == -1,
        },
{
    let ghost xv = view_elems(xs@);
    let mut i: usize = 0;
    assert(xv.take(0) =~= Seq::<JsonV>::empty());
    while i < xs.len()
        invariant
            xv == view_elems(xs@),
            i <= xs@.len(),
            first_named(xv.take(i as int), name@) == -1,
        decreases xs@.len() - i,
    {
        assert(xv.take(i + 1).drop_last() =~= xv.take(i as int));
        assert(xv.take(i + 1).last() == xs@[i as int]@);
        if str_equal(node_name(&xs[i]), name) {
            proof {
                lemma_first_named_prefix(xv, name@, i + 1);
            }
            return Some(i);
        }
        i = i + 1;
    }
    assert(xv.take(xs@.len() as int) =~= xv);
    None
}

proof fn lemma_first_named_prefix(xs: Seq<JsonV>, name: Seq<char>, k: int)
    requires
        0 <= k <= xs.len(),
        first_named(xs.take(k), name) >= 0,
    ensures
        first_named(xs, name) == first_named(xs.take(k), name),
    decreases xs.len() - k,
{
    if k < xs.len() {
        assert(xs.take(k + 1).drop_last() =~= xs.take(k));
        lemma_first_named_prefix(xs, name, k + 1);
    } else {
        assert(xs.take(k) =~= xs);
    }
}

/// The first layer (direct child of the first page) named `name`.
pub fn find_layer<'a>(data: &'a Json, name: &str) -> (r: Option<&'a Json>)
    ensures
        canvases_of(data@).len() == 0 ==> r is None,
        canvases_of(data@).len() > 0 ==> match r {
            Some(l) => {
                let i = first_named(kids_of(canvases_of(data@)[0]), name@);
                i >= 0 && l@ == kids_of(canvases_of(data@)[0])[i]
            },
            None => first_named(kids_of(canvases_of(data@)[0]), name@) == -1,
        },
{
    let canvas = match get_canvas(data) {
        Some(c) => c,
        None => {
            return None;
        },
    };
    let cs = children(canvas);
    match find_named(cs, name) {
        Some(i) => Some(&cs[i]),
        None => None,
    }
}

/// Position of the first page with a layer named `name`, or -1.
pub open spec fn page_with_layer(pages: Seq<JsonV>, name: Seq<char>) -> int
    decreases pages.len(),
{
    if pages.len() == 0 {
        -1
    } else if page_with_layer(pages.drop_last(), name) >= 0 {
        page_with_layer(pages.drop_last(), name)
    } else if first_named(kids_of(pages.last()), name) >= 0 {
        pages.len() - 1
    } else {
        -1
    }
}

/// The first page that has a layer named `name`, and that layer.
pub fn find_layer_across_pages<'a>(data: &'a Json, name: &str) -> (r: Option<(&'a Json, &'a Json)>)
    ensures
        match r {
            Some((p, l)) => {
                let i = page_with_layer(canvases_of(data@), name@);
                let pg = canvases_of(data@)[i];
                0 <= i && p@ == pg && l@ == kids_of(pg)[first_named(kids_of(pg), name@)]
            },
            None => page_with_layer(canvases_of(data@), name@) == -1,
        },
{
    let pages = children(get_document(data));
    let ghost pv = view_elems(pages@);
    let mut i: usize = 0;
    assert(pv.take(0) =~= Seq::<JsonV>::empty());
    while i < pages.len()
        invariant
            pv == view_elems(pages@),
            pv == canvases_of(data@),
            i <= pages@.len(),
            page_with_layer(pv.take(i as int), name@) == -1,
        decreases pages@.len() - i,
    {
        assert(pv.take(i + 1).drop_last() =~= pv.take(i as int));
        assert(pv.take(i + 1).last() == pages@[i as int]@);
        let cs = children(&pages[i]);
        match find_named(cs, name) {
            Some(j) => {
                proof {
                    lemma_page_with_layer_prefix(pv, name@, i + 1);
                }
                return Some((&pages[i], &cs[j]));
            },
            None => {},
        }
        i = i + 1;
    }
    assert(pv.take(pages@.len() as int) =~= pv);
    None
}

proof fn lemma_page_with_layer_prefix(xs: Seq<JsonV>, name: Seq<char>, k: int)
    requires
        0 <= k <= xs.len(),
        page_with_layer(xs.take(k), name) >= 0,
    ensures
        page_with_layer(xs, name) == page_with_layer(xs.take(k), name),
    decreases xs.len() - k,
{
    if k < xs.len() {
        assert(xs.take(k + 1).drop_last() =~= xs.take(k));
        lemma_page_with_layer_prefix(xs, name, k + 1);
    } else {
        assert(xs.take(k) =~= xs);
    }
}

/// The node the tree walk settles on when looking for `name` below `v`: the
/// walk visits nodes in pre-order, does not enter a node with that name, and
/// keeps the last such node it visits.
pub open spec fn last_named(v: JsonV, name: Seq<char>) -> Option<JsonV>
    decreases v, 0int,
{
    if name_of(v) == name {
        Some(v)
    } else {
        let ks = kids_of(v);
        if ks.len() == 0 {
            None
        } else {
            proof {
                lemma_kids_smaller(v);
            }
            last_named_in(ks, name, ks.len() as int)
        }
    }
}

/// The last result of `last_named` over the first `n` nodes of `xs`.
pub open spec fn last_named_in(xs: Seq<JsonV>, name: Seq<char>, n: int) -> Option<JsonV>
    decreases xs, n,
{
    if n <= 0 || n > xs.len() {
        None
    } else {
        proof {
            assert(decreases_to!(xs => xs[n - 1]));
        }
        match last_named(xs[n - 1], name) {
            Some(x) => Some(x),
            None => last_named_in(xs, name, n - 1),
        }
    }
}

pub proof fn lemma_kids_smaller(v: JsonV)
    ensures
        kids_of(v).len() > 0 ==> decreases_to!(v => kids_of(v)),
{
    if kids_of(v).len() > 0 {
        match v {
            JsonV::Object(es) => {
                let i = crate::json::entry_index(es, "children"@);
                crate::json::lemma_entry_index(es, "children"@);
                assert(decreases_to!(v => es));
                assert(decreases_to!(es => es[i]));
                assert(decreases_to!(es[i] => es[i].1));
                assert(decreases_to!(es[i].1 => es[i].1->Array_0));
            },
            _ => {},
        }
    }
}

fn find_in<'a>(v: &'a Json, name: &str) -> (r: Option<&'a Json>)
    ensures
        match last_named(v@, name@) {
            Some(x) => (r matches Some(y) && y@ == x),
            None => r is None,
        },
    decreases v,
{
    if str_equal(node_name(v), name) {
        return Some(v);
    }
    match v {
        Json::Object(es) => {
            proof {
                lemma_object_view(*es);
            }
            match Json::find_entry(es, "children") {
                Some(j) => match &es[j].1 {
                    Json::Array(a) => {
                        proof {
                            lemma_array_view(*a);
                        }
                        let ghost ks = view_elems(a@);
                        assert(ks == kids_of(v@));
                        let mut found: Option<&'a Json> = None;
                        let mut i: usize = 0;
                        while i < a.len()
                            invariant
                                *v == Json::Object(*es),
                                j < es@.len(),
                                es@[j as int].1 == Json::Array(*a),
                                ks == view_elems(a@),
                                i <= a@.len(),
                                match last_named_in(ks, name@, i as int) {
                                    Some(x) => (found matches Some(y) && y@ == x),
                                    None => found is None,
                                },
                            decreases a@.len() - i,
                        {
                            proof {
                                vstd::std_specs::vec::axiom_vec_index_decreases(*es, j as int);
                                vstd::std_specs::vec::axiom_vec_index_decreases(*a, i as int);
                                assert(decreases_to!(*v => (*v)->Object_0));
                                assert(decreases_to!(es@[j as int] => es@[j as int].1));
                                assert(decreases_to!(es@[j as int].1 => (es@[j as int].1)->Array_0));
                                assert(decreases_to!(*v => a@[i as int]));
                            }
                            match find_in(&a[i], name) {
                                Some(x) => {
                                    found = Some(x);
                                },
                                None => {},
                            }
                            i = i + 1;
                        }
                        found
                    },
                    _ => None,
                },
                None => None,
            }
        },
        _ => None,
    }
}

/// The node named `name` that the tree walk from `root` settles on (see
/// `last_named`).
pub fn find_node_by_name<'a>(root: &'a Json, name: &str) -> (r: Option<&'a Json>)
    ensures
        match last_named(root@, name@) {
            Some(x) => (r matches Some(y) && y@ == x),
            None => r is None,
        },
{
    find_in(root, name)
}

/// Position of the first page whose walk finds a node named `name`, or -1.
pub open spec fn page_with_node(pages: Seq<JsonV>, name: Seq<char>) -> int
    decreases pages.len(),
{
    if pages.len() == 0 {
        -1
    } else if page_with_node(pages.drop_last(), name) >= 0 {
        page_with_node(pages.drop_last(), name)
    } else if last_named(pages.last(), name) is Some {
        pages.len() - 1
    } else {
        -1
    }
}

proof fn lemma_page_with_node_prefix(xs: Seq<JsonV>, name: Seq<char>, k: int)
    requires
        0 <= k <= xs.len(),
        page_with_node(xs.take(k), name) >= 0,
    ensures
        page_with_node(xs, name) == page_with_node(xs.take(k), name),
    decreases xs.len() - k,
{
    if k < xs.len() {
        assert(xs.take(k + 1).drop_last() =~= xs.take(k));
        lemma_page_with_node_prefix(xs, name, k + 1);
    } else {
        assert(xs.take(k) =~= xs);
    }
}

/// The first page whose walk finds a node named `name`, and that node.
pub fn find_node_across_pages<'a>(data: &'a Json, name: &str) -> (r: Option<(&'a Json, &'a Json)>)
    ensures
        match r {
            Some((p, n)) => {
                let i = page_with_node(canvases_of(data@), name@);
                0 <= i && p@ == canvases_of(data@)[i] && last_named(p@, name@) == Some(n@)
            },
            None => page_with_node(canvases_of(data@), name@) == -1,
        },
{
    let pages = children(get_document(data));
    let ghost pv = view_elems(pages@);
    let mut i: usize = 0;
    assert(pv.take(0) =~= Seq::<JsonV>::empty());
    while i < pages.len()
        invariant
            pv == view_elems(pages@),
            pv == canvases_of(data@),
            i <= pages@.len(),
            page_with_node(pv.take(i as int), name@) == -1,
        decreases pages@.len() - i,
    {
        assert(pv.take(i + 1).drop_last() =~= pv.take(i as int));
        assert(pv.take(i + 1).last() == pages@[i as int]@);
        match find_node_by_name(&pages[i], name) {
            Some(n) => {
                proof {
                    lemma_page_with_node_prefix(pv, name@, i + 1);
                }
                return Some((&pages[i], n));
            },
            None => {},
        }
        i = i + 1;
    }
    assert(pv.take(pages@.len() as int) =~= pv);
    None
}

/// The type name of a node: the `value` of an enum `type` object, or a
/// plain `type` text; empty otherwise.
pub open spec fn type_text(v: JsonV) -> Seq<char> {
    match jget(v, "type"@) {
        Some(t) => if t is Object {
            match jget(t, "__enum__"@) {
                Some(e) => match jget(e, "value"@) {
                    Some(JsonV::Str(s)) => s,
                    _ => match jget(t, "value"@) {
                        Some(JsonV::Str(s)) => s,
                        _ => Seq::empty(),
                    },
                },
                None => match jget(t, "value"@) {
                    Some(JsonV::Str(s)) => s,
                    _ => Seq::empty(),
                },
            }
        } else {
            match t {
                JsonV::Str(s) => s,
                _ => Seq::empty(),
            }
        },
        None => Seq::empty(),
    }
}

fn str_field(v: &Json, k: &str) -> (r: Option<String>)
    ensures
        match jget(v@, k@) {
            Some(JsonV::Str(s)) => (r matches Some(t) && t@ == s),
            _ => r is None,
        },
{
    match v.get(k) {
        Some(x) => match x.as_str() {
            Some(s) => Some(s.to_string()),
            None => None,
        },
        None => None,
    }
}

/// The type name of a node (see `type_text`).
pub fn node_type(v: &Json) -> (r: String)
    ensures
        r@ == type_text(v@),
{
    match v.get("type") {
        Some(t) => {
            if t.is_object() {
                match t.get("__enum__") {
                    Some(e) => match str_field(e, "value") {
                        Some(s) => {
                            return s;
                        },
                        None => {},
                    },
                    None => {},
                }
                match str_field(t, "value") {
                    Some(s) => s,
                    None => String::new(),
                }
            } else {
                match t.as_str() {
                    Some(s) => s.to_string(),
                    None => String::new(),
                }
            }
        },
        None => String::new(),
    }
}

/// The hexadecimal digits of `n`, without leading zeros.
pub open spec fn hex_digits(n: nat) -> Seq<char>
    decreases n,
{
    if n < 16 {
        seq![hex_char(n as int)]
    } else {
        hex_digits(n / 16).push(hex_char((n % 16) as int))
    }
}

/// The hexadecimal form of `n` with at least two digits (`{:02x}`).
pub open spec fn hex_min2(n: nat) -> Seq<char> {
    if n < 16 {
        seq!['0', hex_char(n as int)]
    } else {
        hex_digits(n)
    }
}

fn hex_digit(d: u64) -> (c: char)
    requires
        d < 16,
    ensures
        c == hex_char(d as int),
{
    crate::text::hex_digit_of(d as u8)
}

fn push_hex_digits(out: &mut String, n: u64)
    ensures
        final(out)@ == old(out)@ + hex_digits(n as nat),
    decreases n,
{
    if n >= 16 {
        push_hex_digits(out, n / 16);
        push_char(out, hex_digit(n % 16));
    } else {
        push_char(out, hex_digit(n));
    }
}

/// The hexadecimal text of a hash: `{:02x}` of each non-negative integer of
/// the array, other items skipped; empty for a value that is not an array.
pub open spec fn hash_hex(v: JsonV) -> Seq<char> {
    match v {
        JsonV::Array(xs) => hash_hex_items(xs),
        _ => Seq::empty(),
    }
}

/// The `{:02x}` texts of the non-negative integers of the list, in order.
pub open spec fn hash_hex_items(xs: Seq<JsonV>) -> Seq<char>
    decreases xs.len(),
{
    if xs.len() == 0 {
        Seq::empty()
    } else {
        hash_hex_items(xs.drop_last()) + match jas_u64(xs.last()) {
            Some(b) => hex_min2(b as nat),
            None => Seq::empty(),
        }
    }
}

/// The hexadecimal text of a hash (see `hash_hex`).
pub fn hash_to_hex(hash: &Json) -> (r: String)
    ensures
        r@ == hash_hex(hash@),
{
    let mut out = String::new();
    match hash {
        Json::Array(xs) => {
            proof {
                lemma_array_view(*xs);
            }
            let ghost xv = view_elems(xs@);
            let mut i: usize = 0;
            assert(out@ =~= hash_hex_items(xv.take(0)));
            while i < xs.len()
                invariant
                    xv == view_elems(xs@),
                    i <= xs@.len(),
                    out@ == hash_hex_items(xv.take(i as int)),
                decreases xs@.len() - i,
            {
                assert(xv.take(i + 1).drop_last() =~= xv.take(i as int));
                assert(xv.take(i + 1).last() == xs@[i as int]@);
                match xs[i].as_u64() {
                    Some(b) => {
                        let ghost pre = out@;
                        if b < 16 {
                            push_char(&mut out, '0');
                            push_char(&mut out, hex_digit(b));
                        } else {
                            push_hex_digits(&mut out, b);
                        }
                        assert(out@ =~= pre + hex_min2(b as nat));
                    },
                    None => {
                        assert(out@ =~= out@ + Seq::<char>::empty());
                    },
                }
                i = i + 1;
            }
            assert(xv.take(xs@.len() as int) =~= xv);
        },
        _ => {},
    }
    out
}

/// The (GUID text, name) of every node with a `guid` field below `v`, in
/// pre-order; missing GUID parts read as 0.
pub open spec fn guid_entries(v: JsonV) -> Seq<(Seq<char>, Seq<char>)>
    decreases v, 0int,
{
    let here = match jget(v, "guid"@) {
        Some(g) => seq![(
            guid_text(crate::summaries::u64_or_zero(jget(g, "sessionID"@)), crate::summaries::u64_or_zero(jget(g, "localID"@))),
            name_of(v),
        )],
        None => Seq::empty(),
    };
    let ks = kids_of(v);
    if ks.len() == 0 {
        here
    } else {
        proof {
            lemma_kids_smaller(v);
        }
        here + guid_entries_in(ks, ks.len() as int)
    }
}

/// The GUID entries of the first `n` nodes of `xs`, in order.
pub open spec fn guid_entries_in(xs: Seq<JsonV>, n: int) -> Seq<(Seq<char>, Seq<char>)>
    decreases xs, n,
{
    if n <= 0 || n > xs.len() {
        Seq::empty()
    } else {
        proof {
            assert(decreases_to!(xs => xs[n - 1]));
        }
        guid_entries_in(xs, n - 1) + guid_entries(xs[n - 1])
    }
}

/// The contents of a list of (GUID, name) pairs.
pub open spec fn pair_view(v: Seq<(String, String)>) -> Seq<(Seq<char>, Seq<char>)> {
    v.map_values(|p: (String, String)| (p.0@, p.1@))
}

fn guid_entries_exec(v: &Json, out: &mut Vec<(String, String)>)
    ensures
        pair_view(final(out)@) == pair_view(old(out)@) + guid_entries(v@),
    decreases v,
{
    let ghost start = pair_view(out@);
    match v.get("guid") {
        Some(g) => {
            let key = guid_string(
                crate::summaries::u64_field_or_zero_pub(g, "sessionID"),
                crate::summaries::u64_field_or_zero_pub(g, "localID"),
            );
            let name = node_name(v).to_string();
            let ghost pre = out@;
            out.push((key, name));
            assert(pair_view(out@) =~= pair_view(pre).push((key@, name@)));
        },
        None => {},
    }
    let ghost mid = pair_view(out@);
    assert(mid =~= start + match jget(v@, "guid"@) {
        Some(g) => seq![(
            guid_text(crate::summaries::u64_or_zero(jget(g, "sessionID"@)), crate::summaries::u64_or_zero(jget(g, "localID"@))),
            name_of(v@),
        )],
        None => Seq::empty(),
    });
    match v {
        Json::Object(es) => {
            proof {
                lemma_object_view(*es);
            }
            match Json::find_entry(es, "children") {
                Some(j) => match &es[j].1 {
                    Json::Array(a) => {
                        proof {
                            lemma_array_view(*a);
                        }
                        let ghost ks = view_elems(a@);
                        assert(ks == kids_of(v@));
                        let mut i: usize = 0;
                        while i < a.len()
                            invariant
                                *v == Json::Object(*es),
                                j < es@.len(),
                                es@[j as int].1 == Json::Array(*a),
                                ks == view_elems(a@),
                                i <= a@.len(),
                                pair_view(out@) == mid + guid_entries_in(ks, i as int),
                            decreases a@.len() - i,
                        {
                            proof {
                                vstd::std_specs::vec::axiom_vec_index_decreases(*es, j as int);
                                vstd::std_specs::vec::axiom_vec_index_decreases(*a, i as int);
                                assert(decreases_to!(*v => (*v)->Object_0));
                                assert(decreases_to!(es@[j as int] => es@[j as int].1));
                                assert(decreases_to!(es@[j as int].1 => (es@[j as int].1)->Array_0));
                                assert(decreases_to!(*v => a@[i as int]));
                            }
                            let ghost before = pair_view(out@);
                            guid_entries_exec(&a[i], out);
                            assert(pair_view(out@) =~= mid + guid_entries_in(ks, i + 1));
                            i = i + 1;
                        }
                        if a.len() == 0 {
                            assert(pair_view(out@) =~= mid);
                        }
                    },
                    _ => {
                        assert(pair_view(out@) =~= mid);
                    },
                },
                None => {
                    assert(pair_view(out@) =~= mid);
                },
            }
        },
        _ => {
            assert(pair_view(out@) =~= mid);
        },
    }
}

/// The (GUID, name) of every node with a `guid` field below `root`, in
/// pre-order; a later node with the same GUID wins when looked up.
pub fn build_guid_map(root: &Json) -> (r: Vec<(String, String)>)
    ensures
        pair_view(r@) == guid_entries(root@),
{
    let mut out: Vec<(String, String)> = Vec::new();
    guid_entries_exec(root, &mut out);
    assert(pair_view(out@) =~= Seq::<(Seq<char>, Seq<char>)>::empty() + guid_entries(root@));
    out
}

/// Position of the last pair with GUID `k`, or -1.
pub open spec fn last_guid(ps: Seq<(Seq<char>, Seq<char>)>, k: Seq<char>) -> int
    decreases ps.len(),
{
    if ps.len() == 0 {
        -1
    } else if ps.last().0 == k {
        ps.len() - 1
    } else {
        last_guid(ps.drop_last(), k)
    }
}

/// The name recorded last for the GUID `k`.
pub fn lookup_guid_name(map: &Vec<(String, String)>, k: &str) -> (r: Option<String>)
    ensures
        last_guid(pair_view(map@), k@) >= 0 ==> (r matches Some(s) && s@ == pair_view(map@)[last_guid(
            pair_view(map@),
            k@,
        )].1),
        last_guid(pair_view(map@), k@) < 0 ==> r is None,
{
    let ghost pv = pair_view(map@);
    let mut i: usize = map.len();
    assert(pv.take(i as int) =~= pv);
    while i > 0
        invariant
            pv == pair_view(map@),
            i <= map@.len(),
            last_guid(pv, k@) == last_guid(pv.take(i as int), k@),
        decreases i,
    {
        assert(pv.take(i as int).drop_last() =~= pv.take(i - 1));
        if str_equal(map[i - 1].0.as_str(), k) {
            return Some(map[i - 1].1.clone());
        }
        i = i - 1;
    }
    None
}

} // verus!
