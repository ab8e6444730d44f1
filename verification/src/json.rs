use vstd::prelude::*;

verus! {

/// A JSON number as `serde_json` holds it: a non-negative integer, a negative
/// integer, or a finite double given by its IEEE-754 bit pattern.
#[derive(Debug, Clone, Copy, PartialEq, Eq)]
pub enum JsonNumber {
    PosInt(u64),
    NegInt(i64),
    Float(u64),
}

/// A JSON document. Objects keep their entries as (key, value) pairs.
#[derive(Debug)]
pub enum Json {
    Null,
    Bool(bool),
    Number(JsonNumber),
    Str(String),
    Array(Vec<Json>),
    Object(Vec<(String, Json)>),
}

/// The mathematical value of a JSON document.
pub enum JsonV {
    Null,
    Bool(bool),
    Number(JsonNumber),
    Str(Seq<char>),
    Array(Seq<JsonV>),
    Object(Seq<(Seq<char>, JsonV)>),
}

/// The values of a list of documents.
pub open spec fn view_elems(v: Seq<Json>) -> Seq<JsonV> {
    Seq::new(v.len(), |i: int| json_view(v[i]))
}

/// The values of a list of entries.
pub open spec fn view_entries(v: Seq<(String, Json)>) -> Seq<(Seq<char>, JsonV)> {
    Seq::new(v.len(), |i: int| (v[i].0@, json_view(v[i].1)))
}

pub open spec fn json_view(j: Json) -> JsonV
    decreases j,
{
    match j {
        Json::Null => JsonV::Null,
        Json::Bool(b) => JsonV::Bool(b),
        Json::Number(n) => JsonV::Number(n),
        Json::Str(s) => JsonV::Str(s@),
        Json::Array(v) => JsonV::Array(
            Seq::new(v@.len(), |i: int| if 0 <= i < v@.len() { json_view(v@[i]) } else { JsonV::Null }),
        ),
        Json::Object(v) => JsonV::Object(
            Seq::new(
                v@.len(),
                |i: int|
                    if 0 <= i < v@.len() {
                        (v@[i].0@, json_view(v@[i].1))
                    } else {
                        (Seq::empty(), JsonV::Null)
                    },
            ),
        ),
    }
}

impl View for Json {
    type V = JsonV;

    open spec fn view(&self) -> JsonV {
        json_view(*self)
    }
}

} // verus!

verus! {

/// Position of the first entry with key `k`, or -1.
pub open spec fn entry_index<V>(es: Seq<(Seq<char>, V)>, k: Seq<char>) -> int
    decreases es.len(),
{
    if es.len() == 0 {
        -1
    } else if entry_index(es.drop_last(), k) >= 0 {
        entry_index(es.drop_last(), k)
    } else if es.last().0 == k {
        es.len() - 1
    } else {
        -1
    }
}

pub proof fn lemma_entry_index<V>(es: Seq<(Seq<char>, V)>, k: Seq<char>)
    ensures
        -1 <= entry_index(es, k) < es.len(),
        entry_index(es, k) >= 0 ==> es[entry_index(es, k)].0 == k,
        entry_index(es, k) >= 0 ==> forall|j: int| 0 <= j < entry_index(es, k) ==> es[j].0 != k,
        entry_index(es, k) < 0 ==> forall|j: int| 0 <= j < es.len() ==> es[j].0 != k,
    decreases es.len(),
{
    if es.len() > 0 {
        let d = es.drop_last();
        lemma_entry_index(d, k);
        assert forall|j: int| 0 <= j < d.len() implies d[j] == es[j] by {}
    }
}

pub proof fn lemma_entry_index_at<V>(es: Seq<(Seq<char>, V)>, k: Seq<char>, i: int)
    requires
        0 <= i < es.len(),
        es[i].0 == k,
        forall|j: int| 0 <= j < i ==> es[j].0 != k,
    ensures
        entry_index(es, k) == i,
{
    lemma_entry_index(es, k);
}

pub proof fn lemma_entry_index_none<V>(es: Seq<(Seq<char>, V)>, k: Seq<char>)
    requires
        forall|j: int| 0 <= j < es.len() ==> es[j].0 != k,
    ensures
        entry_index(es, k) == -1,
{
    lemma_entry_index(es, k);
}

/// The value of field `k` of an object: that of its first entry with key `k`;
/// `None` for other values or when there is no such entry.
pub open spec fn jget(v: JsonV, k: Seq<char>) -> Option<JsonV> {
    match v {
        JsonV::Object(es) => if entry_index(es, k) >= 0 { Some(es[entry_index(es, k)].1) } else { None },
        _ => None,
    }
}

/// The number as a `u64`, when it is a non-negative integer.
pub open spec fn jas_u64(v: JsonV) -> Option<u64> {
    match v {
        JsonV::Number(JsonNumber::PosInt(n)) => Some(n),
        _ => None,
    }
}

/// The text of a string value.
pub open spec fn jas_str(v: JsonV) -> Option<Seq<char>> {
    match v {
        JsonV::Str(s) => Some(s),
        _ => None,
    }
}

/// True for an object value.
pub open spec fn jis_object(v: JsonV) -> bool {
    v is Object
}

impl Json {
    /// Position of the first entry with key `k` in a list of entries.
    pub fn find_entry(es: &Vec<(String, Json)>, k: &str) -> (r: Option<usize>)
        ensures
            r matches Some(i) ==> i < es@.len() && i as int == entry_index(view_entries(es@), k@),
            r is None ==> entry_index(view_entries(es@), k@) == -1,
    {
        let ghost ev = view_entries(es@);
        let mut i: usize = 0;
        while i < es.len()
            invariant
                i <= es@.len(),
                ev == view_entries(es@),
                forall|j: int| 0 <= j < i ==> ev[j].0 != k@,
            decreases es@.len() - i,
        {
            if crate::text::str_equal(es[i].0.as_str(), k) {
                proof {
                    lemma_entry_index_at(ev, k@, i as int);
                }
                return Some(i);
            }
            i = i + 1;
        }
        proof {
            lemma_entry_index_none(ev, k@);
        }
        None
    }

    /// The value of field `k` of an object.
    pub fn get(&self, k: &str) -> (r: Option<&Json>)
        ensures
            match jget(self@, k@) {
                Some(x) => (r matches Some(y) && y@ == x),
                None => r is None,
            },
    {
        match self {
            Json::Object(es) => {
                proof {
                    lemma_object_view(*es);
                }
                match Json::find_entry(es, k) {
                    Some(i) => Some(&es[i].1),
                    None => None,
                }
            },
            _ => None,
        }
    }

    /// The number as a `u64`, when it is a non-negative integer.
    pub fn as_u64(&self) -> (r: Option<u64>)
        ensures
            r == jas_u64(self@),
    {
        match self {
            Json::Number(JsonNumber::PosInt(n)) => Some(*n),
            _ => None,
        }
    }

    /// The text of a string value.
    pub fn as_str(&self) -> (r: Option<&str>)
        ensures
            match jas_str(self@) {
                Some(s) => (r matches Some(t) && t@ == s),
                None => r is None,
            },
    {
        match self {
            Json::Str(s) => Some(s.as_str()),
            _ => None,
        }
    }

    /// The elements of an array value.
    pub fn as_array(&self) -> (r: Option<&Vec<Json>>)
        ensures
            self@ is Array <==> r is Some,
            r matches Some(v) ==> self@ == JsonV::Array(view_elems(v@)),
    {
        match self {
            Json::Array(v) => {
                proof {
                    lemma_array_view(*v);
                }
                Some(v)
            },
            _ => None,
        }
    }

    /// True for an object value.
    pub fn is_object(&self) -> (r: bool)
        ensures
            r == jis_object(self@),
    {
        match self {
            Json::Object(_) => true,
            _ => false,
        }
    }
}

/// The view of an array is the list of its elements' views.
pub proof fn lemma_array_view(v: Vec<Json>)
    ensures
        json_view(Json::Array(v)) == JsonV::Array(view_elems(v@)),
{
    assert(json_view(Json::Array(v))->Array_0 =~= view_elems(v@));
}

/// The view of an object is the list of its entries' views.
pub proof fn lemma_object_view(v: Vec<(String, Json)>)
    ensures
        json_view(Json::Object(v)) == JsonV::Object(view_entries(v@)),
{
    assert(json_view(Json::Object(v))->Object_0 =~= view_entries(v@));
}

/// A deep copy of a document.
pub fn clone_json(j: &Json) -> (r: Json)
    ensures
        r@ == j@,
    decreases j,
{
    match j {
        Json::Null => Json::Null,
        Json::Bool(b) => Json::Bool(*b),
        Json::Number(n) => Json::Number(*n),
        Json::Str(s) => Json::Str(s.clone()),
        Json::Array(a) => {
            let mut out: Vec<Json> = Vec::new();
            let mut i: usize = 0;
            while i < a.len()
                invariant
                    *j == Json::Array(*a),
                    i <= a@.len(),
                    view_elems(out@) == view_elems(a@).take(i as int),
                decreases a@.len() - i,
            {
                proof {
                    vstd::std_specs::vec::axiom_vec_index_decreases(*a, i as int);
                    assert(decreases_to!(*j => (*j)->Array_0));
                    assert(decreases_to!(*j => a@[i as int]));
                }
                let x = clone_json(&a[i]);
                let ghost pre = out@;
                out.push(x);
                assert(view_elems(out@) =~= view_elems(pre).push(x@));
                assert(view_elems(a@).take(i + 1) =~= view_elems(a@).take(i as int).push(a@[i as int]@));
                i = i + 1;
            }
            assert(view_elems(a@).take(a@.len() as int) =~= view_elems(a@));
            proof {
                lemma_array_view(out);
                lemma_array_view(*a);
            }
            Json::Array(out)
        },
        Json::Object(es) => {
            let mut out: Vec<(String, Json)> = Vec::new();
            let mut i: usize = 0;
            while i < es.len()
                invariant
                    *j == Json::Object(*es),
                    i <= es@.len(),
                    view_entries(out@) == view_entries(es@).take(i as int),
                decreases es@.len() - i,
            {
                proof {
                    vstd::std_specs::vec::axiom_vec_index_decreases(*es, i as int);
                    assert(decreases_to!(*j => (*j)->Object_0));
                    assert(decreases_to!(es@[i as int] => es@[i as int].1));
                    assert(decreases_to!(*j => es@[i as int].1));
                }
                let x = clone_json(&es[i].1);
                let k = es[i].0.clone();
                let ghost pre = out@;
                out.push((k, x));
                assert(view_entries(out@) =~= view_entries(pre).push((k@, x@)));
                assert(view_entries(es@).take(i + 1) =~= view_entries(es@).take(i as int).push(
                    (es@[i as int].0@, es@[i as int].1@),
                ));
                i = i + 1;
            }
            assert(view_entries(es@).take(es@.len() as int) =~= view_entries(es@));
            proof {
                lemma_object_view(out);
                lemma_object_view(*es);
            }
            Json::Object(out)
        },
    }
}

} // verus!
