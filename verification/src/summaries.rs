use vstd::prelude::*;
use crate::childmap::strs;
use crate::doctor::{NodeChangesSummary, BlobSummary};
use crate::json::{Json, JsonV, jget, jas_u64, entry_index, view_elems, lemma_entry_index, lemma_entry_index_at,
    lemma_entry_index_none};
use crate::nodes::{guid_text, guid_string};
use crate::report::counts;
use crate::text::{decimal, push_decimal, push_str, str_equal};

verus! {

/// The name of a `type` value: the `value` text of an enum object, a plain
/// string, or `Unknown`.
pub open spec fn kind_name(v: JsonV) -> Seq<char> {
    match v {
        JsonV::Object(_) => match jget(v, "value"@) {
            Some(JsonV::Str(s)) => s,
            _ => "Unknown"@,
        },
        JsonV::Str(s) => s,
        _ => "Unknown"@,
    }
}

/// The type names of the items that have a `type` field, in order.
pub open spec fn typed_names(xs: Seq<JsonV>) -> Seq<Seq<char>>
    decreases xs.len(),
{
    if xs.len() == 0 {
        Seq::empty()
    } else {
        let rest = typed_names(xs.drop_last());
        match jget(xs.last(), "type"@) {
            Some(t) => rest.push(kind_name(t)),
            None => rest,
        }
    }
}

/// How many times each name occurs, in order of first occurrence.
pub open spec fn tally(names: Seq<Seq<char>>) -> Seq<(Seq<char>, nat)>
    decreases names.len(),
{
    if names.len() == 0 {
        Seq::empty()
    } else {
        let t = tally(names.drop_last());
        let x = names.last();
        let i = entry_index(t, x);
        if i >= 0 {
            t.update(i, (x, t[i].1 + 1))
        } else {
            t.push((x, 1nat))
        }
    }
}

/// A non-negative integer field, or 0.
pub open spec fn u64_or_zero(v: Option<JsonV>) -> u64 {
    match v {
        Some(x) => match jas_u64(x) {
            Some(n) => n,
            None => 0,
        },
        None => 0,
    }
}

/// The GUID text of a node whose `guid` field is an object; missing parts
/// read as 0.
pub open spec fn sample_guid(node: JsonV) -> Option<Seq<char>> {
    match jget(node, "guid"@) {
        Some(g) => if g is Object {
            Some(guid_text(u64_or_zero(jget(g, "sessionID"@)), u64_or_zero(jget(g, "localID"@))))
        } else {
            None
        },
        None => None,
    }
}

/// The sample GUIDs of the nodes, in order.
pub open spec fn sample_guids(xs: Seq<JsonV>) -> Seq<Seq<char>>
    decreases xs.len(),
{
    if xs.len() == 0 {
        Seq::empty()
    } else {
        let rest = sample_guids(xs.drop_last());
        match sample_guid(xs.last()) {
            Some(s) => rest.push(s),
            None => rest,
        }
    }
}

/// The summary of a list of nodes: their number, the count of each type, and
/// the GUIDs of the first ten.
pub open spec fn node_summary(xs: Seq<JsonV>) -> (nat, Seq<(Seq<char>, nat)>, Seq<Seq<char>>) {
    (xs.len(), tally(typed_names(xs)), sample_guids(xs.take(if xs.len() < 10 { xs.len() as int } else { 10 })))
}

/// A short description of a blob's bytes.
pub open spec fn blob_sample(blob: JsonV) -> Seq<char> {
    match jget(blob, "bytes"@) {
        Some(JsonV::Array(xs)) => "bytes["@ + decimal(xs.len()) + "]"@,
        Some(JsonV::Str(s)) => "bytes(base64)["@ + decimal(vstd::utf8::encode_utf8(s).len()) + "]"@,
        Some(_) => "bytes(unknown)"@,
        None => "no bytes"@,
    }
}

/// The summary of a list of blobs: their number, the count of each type, and
/// descriptions of the first five.
pub open spec fn blob_summary(xs: Seq<JsonV>) -> (nat, Seq<(Seq<char>, nat)>, Seq<Seq<char>>) {
    (
        xs.len(),
        tally(typed_names(xs)),
        xs.take(if xs.len() < 5 { xs.len() as int } else { 5 }).map_values(|b: JsonV| blob_sample(b)),
    )
}

pub proof fn lemma_tally_bound(names: Seq<Seq<char>>)
    ensures
        forall|j: int| 0 <= j < tally(names).len() ==> #[trigger] tally(names)[j].1 <= names.len(),
        tally(names).len() <= names.len(),
    decreases names.len(),
{
    if names.len() > 0 {
        lemma_tally_bound(names.drop_last());
        lemma_entry_index(tally(names.drop_last()), names.last());
    }
}

proof fn lemma_typed_names_len(xs: Seq<JsonV>)
    ensures
        typed_names(xs).len() <= xs.len(),
    decreases xs.len(),
{
    if xs.len() > 0 {
        lemma_typed_names_len(xs.drop_last());
    }
}

fn kind_name_of(v: &Json) -> (r: String)
    ensures
        r@ == kind_name(v@),
{
    proof {
        reveal_strlit("Unknown");
    }
    match v {
        Json::Object(_) => match v.get("value") {
            Some(x) => match x.as_str() {
                Some(s) => s.to_string(),
                None => String::from_str("Unknown"),
            },
            None => String::from_str("Unknown"),
        },
        Json::Str(s) => s.clone(),
        _ => String::from_str("Unknown"),
    }
}

fn find_count(v: &Vec<(String, usize)>, k: &str) -> (r: Option<usize>)
    ensures
        r matches Some(i) ==> i < v@.len() && i as int == entry_index(counts(v@), k@),
        r is None ==> entry_index(counts(v@), k@) == -1,
{
    let ghost cv = counts(v@);
    let mut i: usize = 0;
    while i < v.len()
        invariant
            i <= v@.len(),
            cv == counts(v@),
            forall|j: int| 0 <= j < i ==> cv[j].0 != k@,
        decreases v@.len() - i,
    {
        if str_equal(v[i].0.as_str(), k) {
            proof {
                lemma_entry_index_at(cv, k@, i as int);
            }
            return Some(i);
        }
        i = i + 1;
    }
    proof {
        lemma_entry_index_none(cv, k@);
    }
    None
}

/// Counts the type of each item that has a `type` field.
fn type_tally(xs: &Vec<Json>) -> (r: Vec<(String, usize)>)
    ensures
        counts(r@) == tally(typed_names(view_elems(xs@))),
{
    let ghost ev = view_elems(xs@);
    let mut out: Vec<(String, usize)> = Vec::new();
    let mut i: usize = 0;
    while i < xs.len()
        invariant
            ev == view_elems(xs@),
            i <= xs@.len(),
            counts(out@) == tally(typed_names(ev.take(i as int))),
        decreases xs@.len() - i,
    {
        assert(ev.take(i + 1).drop_last() =~= ev.take(i as int));
        assert(ev.take(i + 1).last() == xs@[i as int]@);
        match xs[i].get("type") {
            Some(t) => {
                let name = kind_name_of(t);
                let ghost names = typed_names(ev.take(i as int));
                proof {
                    lemma_tally_bound(names);
                    lemma_typed_names_len(ev.take(i as int));
                }
                match find_count(&out, name.as_str()) {
                    Some(j) => {
                        let c = out[j].1;
                        assert(counts(out@)[j as int].1 == c);
                        let ghost nm = name@;
                        out.set(j, (name, c + 1));
                        assert(counts(out@) =~= tally(names).update(j as int, (nm, (c + 1) as nat)));
                        assert(names.push(nm).drop_last() =~= names);
                    },
                    None => {
                        let ghost nm = name@;
                        let ghost pre = out@;
                        out.push((name, 1));
                        assert(counts(out@) =~= counts(pre).push((nm, 1nat)));
                        assert(names.push(nm).drop_last() =~= names);
                    },
                }
            },
            None => {},
        }
        i = i + 1;
    }
    assert(ev.take(xs@.len() as int) =~= ev);
    out
}

pub(crate) fn u64_field_or_zero_pub(g: &Json, k: &str) -> (r: u64)
    ensures
        r == u64_or_zero(jget(g@, k@)),
{
    match g.get(k) {
        Some(x) => match x.as_u64() {
            Some(n) => n,
            None => 0,
        },
        None => 0,
    }
}

fn sample_guid_of(node: &Json) -> (r: Option<String>)
    ensures
        match sample_guid(node@) {
            Some(t) => (r matches Some(s) && s@ == t),
            None => r is None,
        },
{
    match node.get("guid") {
        Some(g) => if g.is_object() {
            Some(guid_string(u64_field_or_zero_pub(g, "sessionID"), u64_field_or_zero_pub(g, "localID")))
        } else {
            None
        },
        None => None,
    }
}

/// Summarises a list of nodes: their number, the count of each type (in
/// order of first occurrence), and the GUIDs of the first ten.
pub fn summarize_nodes(nodes: &Vec<Json>) -> (r: NodeChangesSummary)
    ensures
        (r.total_count as nat, counts(r.type_distribution@), strs(r.sample_guids@)) == node_summary(
            view_elems(nodes@),
        ),
{
    let ghost ev = view_elems(nodes@);
    let type_distribution = type_tally(nodes);
    let mut sample: Vec<String> = Vec::new();
    let limit: usize = if nodes.len() < 10 { nodes.len() } else { 10 };
    let mut i: usize = 0;
    while i < limit
        invariant
            ev == view_elems(nodes@),
            limit <= nodes@.len(),
            i <= limit,
            strs(sample@) == sample_guids(ev.take(i as int)),
        decreases limit - i,
    {
        assert(ev.take(i + 1).drop_last() =~= ev.take(i as int));
        assert(ev.take(i + 1).last() == nodes@[i as int]@);
        match sample_guid_of(&nodes[i]) {
            Some(s) => {
                let ghost pre = sample@;
                let ghost sv = s@;
                sample.push(s);
                assert(strs(sample@) =~= strs(pre).push(sv));
            },
            None => {},
        }
        i = i + 1;
    }
    assert(ev.take(limit as int) =~= ev.take(if ev.len() < 10 { ev.len() as int } else { 10 }));
    NodeChangesSummary { total_count: nodes.len(), type_distribution, sample_guids: sample }
}

fn blob_sample_of(blob: &Json) -> (r: String)
    ensures
        r@ == blob_sample(blob@),
{
    proof {
        reveal_strlit("bytes[");
        reveal_strlit("]");
        reveal_strlit("bytes(base64)[");
        reveal_strlit("bytes(unknown)");
        reveal_strlit("no bytes");
    }
    match blob.get("bytes") {
        Some(v) => match v {
            Json::Array(xs) => {
                let mut s = String::from_str("bytes[");
                push_decimal(&mut s, xs.len() as u64);
                push_str(&mut s, "]");
                proof {
                    crate::json::lemma_array_view(*xs);
                }
                assert(s@ =~= blob_sample(blob@));
                s
            },
            Json::Str(t) => {
                let mut s = String::from_str("bytes(base64)[");
                let nb = t.as_str().as_bytes().len();
                push_decimal(&mut s, nb as u64);
                push_str(&mut s, "]");
                assert(s@ =~= blob_sample(blob@));
                s
            },
            _ => String::from_str("bytes(unknown)"),
        },
        None => String::from_str("no bytes"),
    }
}

/// Summarises a list of blobs: their number, the count of each type (in order
/// of first occurrence), and short descriptions of the first five.
pub fn summarize_blobs(blobs: &Vec<Json>) -> (r: BlobSummary)
    ensures
        (r.total_count as nat, counts(r.type_distribution@), strs(r.sample_blobs@)) == blob_summary(
            view_elems(blobs@),
        ),
{
    let ghost ev = view_elems(blobs@);
    let type_distribution = type_tally(blobs);
    let mut sample: Vec<String> = Vec::new();
    let limit: usize = if blobs.len() < 5 { blobs.len() } else { 5 };
    let mut i: usize = 0;
    while i < limit
        invariant
            ev == view_elems(blobs@),
            limit <= blobs@.len(),
            i <= limit,
            strs(sample@) == ev.take(i as int).map_values(|b: JsonV| blob_sample(b)),
        decreases limit - i,
    {
        let s = blob_sample_of(&blobs[i]);
        let ghost pre = sample@;
        let ghost sv = s@;
        sample.push(s);
        assert(strs(sample@) =~= strs(pre).push(sv));
        assert(ev.take(i + 1).map_values(|b: JsonV| blob_sample(b)) =~= ev.take(i as int).map_values(
            |b: JsonV| blob_sample(b),
        ).push(blob_sample(ev[i as int])));
        i = i + 1;
    }
    assert(ev.take(limit as int) =~= ev.take(if ev.len() < 5 { ev.len() as int } else { 5 }));
    BlobSummary { total_count: blobs.len(), type_distribution, sample_blobs: sample }
}

} // verus!
