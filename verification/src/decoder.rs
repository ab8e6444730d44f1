use vstd::prelude::*;
use crate::childmap::{strs, ChildMap, acyclic_graph};
use crate::text::{decimal, push_decimal, lemma_decimal_injective};
use crate::error::FigError;
use crate::float_bits::{f32_bits_to_json, f32_json};
use crate::json::{Json, JsonNumber, JsonV, json_view};
use crate::text::str_equal;
use crate::tree::{text_lt, text_less, lemma_text_lt_total};
use crate::json::{view_entries};

verus! {

#[verifier::external_type_specification]
#[verifier::external_body]
pub struct ExKiwiValue<'a>(kiwi_schema::Value<'a>);

/// A decoded Kiwi value held as plain data. Floats are kept as their bits;
/// object fields as (name, value) pairs.
#[derive(Debug)]
pub enum KiwiValue {
    Bool(bool),
    Byte(u8),
    Int(i32),
    UInt(u32),
    Float(u32),
    Str(String),
    Int64(i64),
    UInt64(u64),
    Array(Vec<KiwiValue>),
    Enum(String, String),
    Object(String, Vec<(String, KiwiValue)>),
}

/// A definition of a Kiwi schema: its name, its index, its field names,
/// whether it is a struct, and each field's type id and array flag.
#[derive(Debug)]
pub struct SchemaDef {
    pub name: String,
    pub index: i32,
    pub field_names: Vec<String>,
    pub is_struct: bool,
    pub field_types: Vec<(i32, bool)>,
}

/// A definition as mathematical values: (name, index, field names, is a
/// struct, (type id, is an array) of each field).
pub type DefV = (Seq<char>, i32, Seq<Seq<char>>, bool, Seq<(i32, bool)>);

/// A definition as mathematical values.
pub open spec fn def_view(d: SchemaDef) -> DefV {
    (d.name@, d.index, strs(d.field_names@), d.is_struct, d.field_types@)
}

/// The definitions of the binary Kiwi schema `bytes` (name, index, field
/// names, whether it is a struct, field type ids and array flags), or `None`
/// when `kiwi_schema::Schema::decode` rejects the bytes.
pub uninterp spec fn kiwi_schema_defs(bytes: Seq<u8>) -> Option<Seq<DefV>>;

/// What `kiwi_schema::Value::decode` makes of `data` as the definition
/// `type_id` of the schema `schema`, as JSON whose objects order their fields
/// by name; `None` when it rejects the data.
pub uninterp spec fn kiwi_document(schema: Seq<u8>, type_id: i32, data: Seq<u8>) -> Option<JsonV>;

/// Calls `kiwi_schema::Schema::decode` and lists its definitions. Claimed: the
/// result is the definitions that the named function gives, and, as
/// `Schema::new` sets it, each definition's index is its position.
#[verifier::external_body]
pub(crate) fn decode_schema_defs(bytes: &[u8]) -> (r: Option<Vec<SchemaDef>>)
    ensures
        r is Some <==> kiwi_schema_defs(bytes@) is Some,
        r matches Some(v) ==> v@.map_values(|d: SchemaDef| def_view(d)) == kiwi_schema_defs(bytes@).unwrap(),
        r matches Some(v) ==> forall|i: int| 0 <= i < v@.len() ==> #[trigger] v@[i].index == i,
{
    match kiwi_schema::Schema::decode(bytes) {
        Ok(schema) => Some(schema.defs.iter().map(|d| SchemaDef {
            name: d.name.clone(),
            index: d.index,
            field_names: d.fields.iter().map(|f| f.name.clone()).collect(),
            is_struct: d.kind == kiwi_schema::DefKind::Struct,
            field_types: d.fields.iter().map(|f| (f.type_id, f.is_array)).collect(),
        }).collect()),
        Err(()) => None,
    }
}

/// The structs that the fields name in place: for each field that is not an
/// array and whose type is a struct definition, that definition's index as
/// decimal text.
pub open spec fn struct_links(ds: Seq<DefV>, fs: Seq<(i32, bool)>) -> Seq<Seq<char>>
    decreases fs.len(),
{
    if fs.len() == 0 {
        Seq::empty()
    } else {
        let rest = struct_links(ds, fs.drop_last());
        let f = fs.last();
        if !f.1 && 0 <= f.0 < ds.len() && ds[f.0 as int].3 {
            rest.push(decimal(f.0 as nat))
        } else {
            rest
        }
    }
}

/// The structs that decoding definition `i` decodes before it reads a byte:
/// for a struct, those its fields name in place; none for an enum or a
/// message, which read a number first.
pub open spec fn struct_children(ds: Seq<DefV>, i: int) -> Seq<Seq<char>> {
    if ds[i].3 {
        struct_links(ds, ds[i].4)
    } else {
        Seq::empty()
    }
}

/// The struct children of the definition, among the first `n`, whose index
/// is written `k`.
pub open spec fn key_children(ds: Seq<DefV>, k: Seq<char>, n: int) -> Seq<Seq<char>>
    decreases n,
{
    if n <= 0 {
        Seq::empty()
    } else if decimal((n - 1) as nat) == k {
        struct_children(ds, n - 1)
    } else {
        key_children(ds, k, n - 1)
    }
}

/// `k` is the index of one of the first `n` definitions, as decimal text.
pub open spec fn key_in(k: Seq<char>, n: int) -> bool {
    exists|j: int| 0 <= j < n && #[trigger] decimal(j as nat) == k
}

/// The relation from each definition, by its index as decimal text, to the
/// structs it decodes in place.
pub open spec fn struct_graph(ds: Seq<DefV>) -> spec_fn(Seq<char>) -> Seq<Seq<char>> {
    |k: Seq<char>| key_children(ds, k, ds.len() as int)
}

/// No struct contains itself in place, directly or through other structs:
/// decoding a value never comes back to the same struct without reading a
/// byte.
pub open spec fn structs_well_founded(ds: Seq<DefV>) -> bool {
    acyclic_graph(struct_graph(ds), ds.len())
}

fn struct_children_exec(defs: &Vec<SchemaDef>, i: usize) -> (r: Vec<String>)
    requires
        i < defs@.len(),
    ensures
        strs(r@) == struct_children(defs@.map_values(|d: SchemaDef| def_view(d)), i as int),
{
    let ghost ds = defs@.map_values(|d: SchemaDef| def_view(d));
    let mut out: Vec<String> = Vec::new();
    assert(ds[i as int] == def_view(defs@[i as int]));
    if !defs[i].is_struct {
        assert(strs(out@) =~= Seq::<Seq<char>>::empty());
        return out;
    }
    let fs = &defs[i].field_types;
    let n = defs.len();
    let mut j: usize = 0;
    assert(fs@.take(0) =~= Seq::<(i32, bool)>::empty());
    assert(strs(out@) =~= Seq::<Seq<char>>::empty());
    while j < fs.len()
        invariant
            ds == defs@.map_values(|d: SchemaDef| def_view(d)),
            n == defs@.len(),
            i < n,
            ds[i as int].4 == fs@,
            ds[i as int].3,
            j <= fs@.len(),
            strs(out@) == struct_links(ds, fs@.take(j as int)),
        decreases fs@.len() - j,
    {
        assert(fs@.take(j + 1).drop_last() =~= fs@.take(j as int));
        assert(fs@.take(j + 1).last() == fs@[j as int]);
        let (t, arr) = fs[j];
        if !arr && 0 <= t && (t as usize) < n && defs[t as usize].is_struct {
            assert(ds[t as int] == def_view(defs@[t as int]));
            let mut key = String::new();
            push_decimal(&mut key, t as u64);
            let ghost pre = strs(out@);
            out.push(key);
            assert(strs(out@) =~= pre.push(decimal(t as nat)));
        } else {
            proof {
                if 0 <= t && t < n {
                    assert(ds[t as int] == def_view(defs@[t as int]));
                }
            }
        }
        j = j + 1;
    }
    assert(fs@.take(fs@.len() as int) =~= fs@);
    out
}

/// Decides whether the schema's structs are well founded.
pub fn structs_acyclic(defs: &Vec<SchemaDef>) -> (r: bool)
    ensures
        r == structs_well_founded(defs@.map_values(|d: SchemaDef| def_view(d))),
{
    let ghost ds = defs@.map_values(|d: SchemaDef| def_view(d));
    let mut m = ChildMap::new();
    let mut i: usize = 0;
    while i < defs.len()
        invariant
            i <= defs@.len(),
            ds == defs@.map_values(|d: SchemaDef| def_view(d)),
            m.len() == i,
            forall|k: Seq<char>| m.children_of(k) == key_children(ds, k, i as int),
            forall|k: Seq<char>| m.has_key(k) == key_in(k, i as int),
        decreases defs@.len() - i,
    {
        let kids = struct_children_exec(defs, i);
        let mut key = String::new();
        push_decimal(&mut key, i as u64);
        assert(key@ == decimal(i as nat));
        proof {
            if key_in(key@, i as int) {
                let j = choose|j: int| 0 <= j < i && #[trigger] decimal(j as nat) == key@;
                lemma_decimal_injective(j as nat, i as nat);
            }
        }
        let ghost ki = key@;
        m.insert(key, kids);
        assert forall|k: Seq<char>| m.has_key(k) == key_in(k, i + 1) by {
            if k == ki {
                let w: int = i as int;
                assert(0 <= w < i + 1 && decimal(w as nat) == k);
                assert(key_in(k, i + 1));
            } else if key_in(k, i + 1) {
                let j = choose|j: int| 0 <= j < i + 1 && #[trigger] decimal(j as nat) == k;
                assert(j != i);
                assert(key_in(k, i as int));
            } else if key_in(k, i as int) {
                let j = choose|j: int| 0 <= j < i && #[trigger] decimal(j as nat) == k;
                assert(decimal(j as nat) == k);
            }
        }
        i = i + 1;
    }
    assert(m.children_fn() =~= struct_graph(ds));
    m.is_acyclic()
}

/// Copies a `kiwi_schema::Value` into plain data, variant for variant; the
/// scalar variants are copied by `kiwi_scalar`. The order of object fields is
/// that in which the value's `HashMap` is walked, which nothing fixes.
#[verifier::external_body]
fn kiwi_mirror(v: &kiwi_schema::Value) -> KiwiValue {
    match v {
        kiwi_schema::Value::Array(a) => KiwiValue::Array(a.iter().map(kiwi_mirror).collect()),
        kiwi_schema::Value::Enum(e, n) => KiwiValue::Enum(e.to_string(), n.to_string()),
        kiwi_schema::Value::Object(t, fs) => KiwiValue::Object(
            t.to_string(), fs.iter().map(|(k, x)| (k.to_string(), kiwi_mirror(x))).collect()),
        other => kiwi_scalar(other),
    }
}

/// Copies a scalar `kiwi_schema::Value` into plain data; floats are taken by
/// `f32::to_bits`. Other variants go back to `kiwi_mirror`.
#[verifier::external_body]
fn kiwi_scalar(v: &kiwi_schema::Value) -> KiwiValue {
    match v {
        kiwi_schema::Value::Bool(b) => KiwiValue::Bool(*b),
        kiwi_schema::Value::Byte(n) => KiwiValue::Byte(*n),
        kiwi_schema::Value::Int(n) => KiwiValue::Int(*n),
        kiwi_schema::Value::UInt(n) => KiwiValue::UInt(*n),
        kiwi_schema::Value::Float(f) => KiwiValue::Float(f.to_bits()),
        kiwi_schema::Value::String(s) => KiwiValue::Str(s.clone()),
        kiwi_schema::Value::Int64(n) => KiwiValue::Int64(*n),
        kiwi_schema::Value::UInt64(n) => KiwiValue::UInt64(*n),
        compound => kiwi_mirror(compound),
    }
}

/// Calls `kiwi_schema::Schema::decode` and then `kiwi_schema::Value::decode`
/// for the definition `type_id`. Claimed: it succeeds exactly when the named
/// document exists, and the value's JSON form is that document. The order of
/// the value's object fields comes from `HashMap` iteration, which nothing
/// fixes; the JSON form orders fields by name, and a `HashMap` holds each name
/// once, so that form depends on the inputs alone. A struct that contains
/// itself in place would make `Value::decode` recurse without end, so the
/// schema's structs must be well founded. Not stated: data nested deeper than
/// the thread's stack allows, or an array length that asks for more memory
/// than the machine has, still ends the process; those are limits of the
/// machine.
#[verifier::external_body]
fn decode_message(schema_bytes: &[u8], type_id: i32, data: &[u8]) -> (r: Option<KiwiValue>)
    requires
        kiwi_schema_defs(schema_bytes@) is Some,
        structs_well_founded(kiwi_schema_defs(schema_bytes@).unwrap()),
        0 <= type_id < kiwi_schema_defs(schema_bytes@).unwrap().len(),
    ensures
        r is Some <==> kiwi_document(schema_bytes@, type_id, data@) is Some,
        r matches Some(v) ==> v@ == kiwi_document(schema_bytes@, type_id, data@)->0,
{
    let schema = kiwi_schema::Schema::decode(schema_bytes).ok()?;
    let value = kiwi_schema::Value::decode(&schema, type_id, data).ok()?;
    Some(kiwi_mirror(&value))
}

/// The definition is the root message: named `Message`, with fields
/// `nodeChanges` and `blobs`.
pub open spec fn is_root_message(d: DefV) -> bool {
    d.0 == "Message"@ && d.2.contains("nodeChanges"@) && d.2.contains("blobs"@)
}

/// The index of the first root message definition.
pub open spec fn spec_root_message(ds: Seq<DefV>) -> Option<i32>
    decreases ds.len(),
{
    if ds.len() == 0 {
        None
    } else if spec_root_message(ds.drop_last()) is Some {
        spec_root_message(ds.drop_last())
    } else if is_root_message(ds.last()) {
        Some(ds.last().1)
    } else {
        None
    }
}

fn contains_name(names: &Vec<String>, name: &str) -> (r: bool)
    ensures
        r == strs(names@).contains(name@),
{
    let mut i: usize = 0;
    while i < names.len()
        invariant
            i <= names@.len(),
            forall|j: int| 0 <= j < i ==> strs(names@)[j] != name@,
        decreases names@.len() - i,
    {
        if str_equal(names[i].as_str(), name) {
            assert(strs(names@)[i as int] == name@);
            return true;
        }
        i = i + 1;
    }
    false
}

proof fn lemma_root_message_prefix(ds: Seq<DefV>, i: int)
    requires
        0 <= i < ds.len(),
        spec_root_message(ds.take(i)) is None,
    ensures
        spec_root_message(ds.take(i + 1)) == (if is_root_message(ds[i]) { Some(ds[i].1) } else { None::<i32> }),
{
    assert(ds.take(i + 1).drop_last() =~= ds.take(i));
}

proof fn lemma_root_message_found(ds: Seq<DefV>, i: int)
    requires
        0 <= i <= ds.len(),
        spec_root_message(ds.take(i)) is Some,
    ensures
        spec_root_message(ds) == spec_root_message(ds.take(i)),
    decreases ds.len() - i,
{
    if i < ds.len() {
        assert(ds.take(i + 1).drop_last() =~= ds.take(i));
        lemma_root_message_found(ds, i + 1);
    } else {
        assert(ds.take(i) =~= ds);
    }
}

/// Finds the root message definition: the first one named `Message` with
/// fields `nodeChanges` and `blobs`.
pub fn find_root_message(defs: &Vec<SchemaDef>) -> (r: Option<i32>)
    ensures
        r == spec_root_message(defs@.map_values(|d: SchemaDef| def_view(d))),
{
    let ghost ds = defs@.map_values(|d: SchemaDef| def_view(d));
    let mut i: usize = 0;
    while i < defs.len()
        invariant
            i <= defs@.len(),
            ds == defs@.map_values(|d: SchemaDef| def_view(d)),
            spec_root_message(ds.take(i as int)) is None,
        decreases defs@.len() - i,
    {
        let d = &defs[i];
        proof {
            lemma_root_message_prefix(ds, i as int);
        }
        if str_equal(d.name.as_str(), "Message") && contains_name(&d.field_names, "nodeChanges")
            && contains_name(&d.field_names, "blobs") {
            proof {
                lemma_root_message_found(ds, i + 1);
            }
            return Some(d.index);
        }
        i = i + 1;
    }
    assert(ds.take(defs@.len() as int) =~= ds);
    None
}

/// The JSON value of a number that `serde_json` builds from a signed integer.
pub open spec fn signed_json(n: int) -> JsonV {
    if n < 0 {
        JsonV::Number(JsonNumber::NegInt(n as i64))
    } else {
        JsonV::Number(JsonNumber::PosInt(n as u64))
    }
}

/// The entries of a JSON map with `k` set to `v`, as `serde_json::Map`
/// keeps them: ordered by key, a present key keeping its place and taking
/// the new value.
pub open spec fn map_insert(es: Seq<(Seq<char>, JsonV)>, k: Seq<char>, v: JsonV) -> Seq<(Seq<char>, JsonV)>
    decreases es.len(),
{
    if es.len() == 0 {
        seq![(k, v)]
    } else if es[0].0 == k {
        seq![(k, v)] + es.skip(1)
    } else if text_lt(k, es[0].0) {
        seq![(k, v)] + es
    } else {
        seq![es[0]] + map_insert(es.skip(1), k, v)
    }
}

/// The map built by inserting the pairs in order.
pub open spec fn map_of(fs: Seq<(Seq<char>, JsonV)>) -> Seq<(Seq<char>, JsonV)>
    decreases fs.len(),
{
    if fs.len() == 0 {
        Seq::empty()
    } else {
        map_insert(map_of(fs.drop_last()), fs.last().0, fs.last().1)
    }
}

/// The JSON value of a decoded Kiwi value: numbers stay numbers (floats that
/// are infinite or NaN become `null`), enums become `{"__enum__": name,
/// "value": variant}`, objects become maps of their fields ordered by name.
pub open spec fn kiwi_json(v: KiwiValue) -> JsonV
    decreases v, 0int,
{
    match v {
        KiwiValue::Bool(b) => JsonV::Bool(b),
        KiwiValue::Byte(n) => JsonV::Number(JsonNumber::PosInt(n as u64)),
        KiwiValue::Int(n) => signed_json(n as int),
        KiwiValue::UInt(n) => JsonV::Number(JsonNumber::PosInt(n as u64)),
        KiwiValue::Float(b) => f32_json(b),
        KiwiValue::Str(s) => JsonV::Str(s@),
        KiwiValue::Int64(n) => signed_json(n as int),
        KiwiValue::UInt64(n) => JsonV::Number(JsonNumber::PosInt(n)),
        KiwiValue::Array(a) => JsonV::Array(
            Seq::new(a@.len(), |i: int| if 0 <= i < a@.len() { kiwi_json(a@[i]) } else { JsonV::Null }),
        ),
        KiwiValue::Enum(e, n) => JsonV::Object(seq![("__enum__"@, JsonV::Str(e@)), ("value"@, JsonV::Str(n@))]),
        KiwiValue::Object(_, fs) => {
            proof {
                assert(decreases_to!(v => v->Object_1));
                assert(decreases_to!(v->Object_1 => v->Object_1@));
            }
            JsonV::Object(map_of(kiwi_pairs(fs@, fs@.len() as int)))
        },
    }
}

/// A Kiwi value is seen as the JSON it becomes.
impl View for KiwiValue {
    type V = JsonV;

    open spec fn view(&self) -> JsonV {
        kiwi_json(*self)
    }
}

/// The (name, JSON value) of the first `n` fields.
pub open spec fn kiwi_pairs(fs: Seq<(String, KiwiValue)>, n: int) -> Seq<(Seq<char>, JsonV)>
    decreases fs, n,
{
    if n <= 0 || n > fs.len() {
        Seq::empty()
    } else {
        proof {
            assert(decreases_to!(fs => fs[n - 1]));
            assert(decreases_to!(fs[n - 1] => fs[n - 1].1));
        }
        kiwi_pairs(fs, n - 1).push((fs[n - 1].0@, kiwi_json(fs[n - 1].1)))
    }
}

proof fn lemma_kiwi_pairs(fs: Seq<(String, KiwiValue)>, n: int)
    requires
        0 <= n <= fs.len(),
    ensures
        kiwi_pairs(fs, n).len() == n,
        forall|j: int| 0 <= j < n ==> #[trigger] kiwi_pairs(fs, n)[j] == (fs[j].0@, kiwi_json(fs[j].1)),
    decreases n,
{
    if n > 0 {
        lemma_kiwi_pairs(fs, n - 1);
        let prev = kiwi_pairs(fs, n - 1);
        assert forall|j: int| 0 <= j < n implies #[trigger] kiwi_pairs(fs, n)[j] == (fs[j].0@, kiwi_json(fs[j].1)) by {
            if j < n - 1 {
                assert(kiwi_pairs(fs, n)[j] == prev[j]);
            }
        }
    }
}

proof fn lemma_map_insert_skip(es: Seq<(Seq<char>, JsonV)>, k: Seq<char>, v: JsonV, i: int)
    requires
        0 <= i <= es.len(),
        forall|j: int| 0 <= j < i ==> text_lt(#[trigger] es[j].0, k),
    ensures
        map_insert(es, k, v) == es.take(i) + map_insert(es.skip(i), k, v),
    decreases i,
{
    if i == 0 {
        assert(es.skip(0) =~= es);
        assert(es.take(0) + map_insert(es, k, v) =~= map_insert(es, k, v));
    } else {
        lemma_text_lt_total(es[0].0, k);
        lemma_text_lt_total(k, k);
        assert(es[0].0 != k);
        assert(!text_lt(k, es[0].0));
        let t = es.skip(1);
        assert forall|j: int| 0 <= j < i - 1 implies text_lt(#[trigger] t[j].0, k) by {
            assert(t[j] == es[j + 1]);
        }
        lemma_map_insert_skip(t, k, v, i - 1);
        assert(t.skip(i - 1) =~= es.skip(i));
        assert(seq![es[0]] + t.take(i - 1) =~= es.take(i));
    }
}

/// Sets `k` to `v` in a map kept as entries ordered by key (see
/// `map_insert`).
fn map_insert_exec(out: &mut Vec<(String, Json)>, k: String, v: Json)
    ensures
        view_entries(final(out)@) == map_insert(view_entries(old(out)@), k@, v@),
{
    let ghost es = view_entries(out@);
    let mut i: usize = 0;
    while i < out.len() && text_less(out[i].0.as_str(), k.as_str())
        invariant
            i <= out@.len(),
            es == view_entries(out@),
            forall|j: int| 0 <= j < i ==> text_lt(#[trigger] es[j].0, k@),
        decreases out@.len() - i,
    {
        i = i + 1;
    }
    proof {
        lemma_map_insert_skip(es, k@, v@, i as int);
    }
    let ghost kv = k@;
    let ghost vv = v@;
    if i < out.len() && str_equal(out[i].0.as_str(), k.as_str()) {
        out.set(i, (k, v));
        assert(es.skip(i as int)[0].0 == kv);
        assert(view_entries(out@) =~= es.take(i as int) + (seq![(kv, vv)] + es.skip(i as int).skip(1)));
    } else {
        proof {
            if i < es.len() {
                lemma_text_lt_total(es[i as int].0, kv);
                assert(es.skip(i as int)[0] == es[i as int]);
            }
        }
        out.insert(i, (k, v));
        assert(view_entries(out@) =~= es.take(i as int) + (seq![(kv, vv)] + es.skip(i as int)));
    }
}

fn signed_to_json(n: i64) -> (r: Json)
    ensures
        r@ == signed_json(n as int),
{
    if n < 0 {
        Json::Number(JsonNumber::NegInt(n))
    } else {
        Json::Number(JsonNumber::PosInt(n as u64))
    }
}

/// Converts a decoded Kiwi value to JSON.
pub fn kiwi_value_to_json(value: &KiwiValue) -> (r: Json)
    ensures
        r@ == value@,
    decreases value,
{
    match value {
        KiwiValue::Bool(b) => Json::Bool(*b),
        KiwiValue::Byte(n) => Json::Number(JsonNumber::PosInt(*n as u64)),
        KiwiValue::Int(n) => signed_to_json(*n as i64),
        KiwiValue::UInt(n) => Json::Number(JsonNumber::PosInt(*n as u64)),
        KiwiValue::Float(b) => f32_bits_to_json(*b),
        KiwiValue::Str(s) => Json::Str(s.clone()),
        KiwiValue::Int64(n) => signed_to_json(*n),
        KiwiValue::UInt64(n) => Json::Number(JsonNumber::PosInt(*n)),
        KiwiValue::Array(a) => {
            let mut out: Vec<Json> = Vec::new();
            let mut i: usize = 0;
            while i < a.len()
                invariant
                    *value == KiwiValue::Array(*a),
                    i <= a@.len(),
                    out@.len() == i,
                    forall|j: int| 0 <= j < i ==> #[trigger] json_view(out@[j]) == kiwi_json(a@[j]),
                decreases a@.len() - i,
            {
                proof {
                    vstd::std_specs::vec::axiom_vec_index_decreases(*a, i as int);
                    assert(decreases_to!(*value => (*value)->Array_0));
                    assert(decreases_to!(*value => a@[i as int]));
                }
                let x = kiwi_value_to_json(&a[i]);
                out.push(x);
                i = i + 1;
            }
            let r = Json::Array(out);
            assert(r@->Array_0.len() == out@.len());
            assert(kiwi_json(*value)->Array_0.len() == a@.len());
            assert forall|j: int| 0 <= j < a@.len() implies r@->Array_0[j] == kiwi_json(*value)->Array_0[j] by {
                assert(json_view(out@[j]) == kiwi_json(a@[j]));
            }
            assert(r@->Array_0 =~= kiwi_json(*value)->Array_0);
            r
        },
        KiwiValue::Enum(e, n) => {
            let mut out: Vec<(String, Json)> = Vec::new();
            let k1 = String::from_str("__enum__");
            let v1 = Json::Str(e.clone());
            let k2 = String::from_str("value");
            let v2 = Json::Str(n.clone());
            out.push((k1, v1));
            out.push((k2, v2));
            assert(out@.len() == 2 && out@[0] == (k1, v1) && out@[1] == (k2, v2));
            assert(json_view(v1) == JsonV::Str(e@));
            assert(json_view(v2) == JsonV::Str(n@));
            let r = Json::Object(out);
            proof {
                reveal_strlit("__enum__");
                reveal_strlit("value");
                assert(r@->Object_0 =~= kiwi_json(*value)->Object_0);
            }
            r
        },
        KiwiValue::Object(_t, fs) => {
            let ghost pairs = kiwi_pairs(fs@, fs@.len() as int);
            proof {
                lemma_kiwi_pairs(fs@, fs@.len() as int);
            }
            let mut out: Vec<(String, Json)> = Vec::new();
            let mut i: usize = 0;
            assert(pairs.take(0) =~= Seq::<(Seq<char>, JsonV)>::empty());
            assert(view_entries(out@) =~= Seq::<(Seq<char>, JsonV)>::empty());
            while i < fs.len()
                invariant
                    *value == KiwiValue::Object(*_t, *fs),
                    i <= fs@.len(),
                    pairs.len() == fs@.len(),
                    forall|j: int| 0 <= j < fs@.len() ==> #[trigger] pairs[j] == (fs@[j].0@, kiwi_json(fs@[j].1)),
                    view_entries(out@) == map_of(pairs.take(i as int)),
                decreases fs@.len() - i,
            {
                proof {
                    vstd::std_specs::vec::axiom_vec_index_decreases(*fs, i as int);
                    assert(decreases_to!(*value => (*value)->Object_1));
                    assert(decreases_to!(fs@[i as int] => fs@[i as int].1));
                    assert(decreases_to!(*value => fs@[i as int].1));
                }
                let x = kiwi_value_to_json(&fs[i].1);
                let k = fs[i].0.clone();
                assert(pairs.take(i + 1).drop_last() =~= pairs.take(i as int));
                assert(pairs.take(i + 1).last() == pairs[i as int]);
                map_insert_exec(&mut out, k, x);
                i = i + 1;
            }
            assert(pairs.take(fs@.len() as int) =~= pairs);
            proof {
                crate::json::lemma_object_view(out);
            }
            Json::Object(out)
        },
    }
}

/// Why decoding can fail, in the order the steps run.
pub open spec fn decode_succeeds(schema: Seq<u8>, data: Seq<u8>) -> bool {
    &&& kiwi_schema_defs(schema) is Some
    &&& spec_root_message(kiwi_schema_defs(schema).unwrap()) is Some
    &&& structs_well_founded(kiwi_schema_defs(schema).unwrap())
    &&& kiwi_document(schema, spec_root_message(kiwi_schema_defs(schema).unwrap()).unwrap(), data) is Some
}

proof fn lemma_root_message_index(ds: Seq<DefV>)
    requires
        forall|i: int| 0 <= i < ds.len() ==> #[trigger] ds[i].1 == i,
        spec_root_message(ds) is Some,
    ensures
        0 <= spec_root_message(ds).unwrap() < ds.len(),
    decreases ds.len(),
{
    let d = ds.drop_last();
    assert forall|i: int| 0 <= i < d.len() implies #[trigger] d[i].1 == i by {
        assert(d[i] == ds[i]);
    }
    if spec_root_message(d) is Some {
        lemma_root_message_index(d);
    } else {
        assert(ds.last().1 == ds.len() - 1);
    }
}

/// The document that the schema and data chunks decode to.
pub open spec fn decoded_document(schema: Seq<u8>, data: Seq<u8>) -> JsonV {
    kiwi_document(schema, spec_root_message(kiwi_schema_defs(schema).unwrap()).unwrap(), data)->0
}

/// Decodes the decompressed schema and data chunks into a JSON document. A
/// schema with a struct that contains itself in place, whose decoding could
/// never end, is refused with the data error, whether or not the data
/// reaches that struct.
pub fn decode_fig_to_json(schema_bytes: &[u8], data_bytes: &[u8]) -> (r: Result<Json, FigError>)
    ensures
        r is Ok <==> decode_succeeds(schema_bytes@, data_bytes@),
        r matches Ok(j) ==> j@ == decoded_document(schema_bytes@, data_bytes@),
        kiwi_schema_defs(schema_bytes@) is None ==> (r matches Err(FigError::ZipError(m)) && m@
            == "Failed to decode Kiwi binary schema"@),
        kiwi_schema_defs(schema_bytes@) is Some && spec_root_message(kiwi_schema_defs(schema_bytes@).unwrap())
            is None ==> (r matches Err(FigError::ZipError(m)) && m@ == "No root Message definition found in schema"@),
        kiwi_schema_defs(schema_bytes@) is Some && spec_root_message(kiwi_schema_defs(schema_bytes@).unwrap())
            is Some && !decode_succeeds(schema_bytes@, data_bytes@) ==> (r matches Err(FigError::ZipError(m))
            && m@ == "Failed to decode message data"@),
{
    let defs = match decode_schema_defs(schema_bytes) {
        Some(d) => d,
        None => {
            return Err(FigError::ZipError(String::from_str("Failed to decode Kiwi binary schema")));
        },
    };
    let root = match find_root_message(&defs) {
        Some(i) => i,
        None => {
            return Err(FigError::ZipError(String::from_str("No root Message definition found in schema")));
        },
    };
    proof {
        let ds = kiwi_schema_defs(schema_bytes@).unwrap();
        assert forall|i: int| 0 <= i < ds.len() implies #[trigger] ds[i].1 == i by {
            assert(ds[i] == def_view(defs@[i]));
        }
        lemma_root_message_index(ds);
    }
    if !structs_acyclic(&defs) {
        return Err(FigError::ZipError(String::from_str("Failed to decode message data")));
    }
    let value = match decode_message(schema_bytes, root, data_bytes) {
        Some(v) => v,
        None => {
            return Err(FigError::ZipError(String::from_str("Failed to decode message data")));
        },
    };
    Ok(kiwi_value_to_json(&value))
}

} // verus!
