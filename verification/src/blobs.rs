use vstd::prelude::*;
use vstd::string::StrSliceExecFns;
use base64::Engine;
use crate::blob_parser::{command_items, parse_commands, parse_vector_network, spec_vector_network};
use crate::error::FigError;
use crate::json::{Json, JsonV, jget, jas_u64, entry_index, view_elems, view_entries, lemma_array_view,
    lemma_object_view, lemma_entry_index, clone_json};
use crate::text::str_equal;

verus! {

/// The character of the standard base64 alphabet for the 6-bit value `v`.
pub open spec fn b64_char(v: int) -> char {
    if v < 26 {
        ('A' as int + v) as char
    } else if v < 52 {
        ('a' as int + v - 26) as char
    } else if v < 62 {
        ('0' as int + v - 52) as char
    } else if v == 62 {
        '+'
    } else {
        '/'
    }
}

/// The standard padded base64 text of the bytes (RFC 4648): each group of
/// three bytes as four characters of 6 bits each, a last group of one or two
/// bytes padded with `=`.
pub open spec fn base64_text(b: Seq<u8>) -> Seq<char>
    decreases b.len(),
{
    let x = b[0] as int;
    let y = if b.len() > 1 { b[1] as int } else { 0 };
    let z = if b.len() > 2 { b[2] as int } else { 0 };
    if b.len() == 0 {
        Seq::empty()
    } else if b.len() == 1 {
        seq![b64_char(x / 4), b64_char((x % 4) * 16), '=', '=']
    } else if b.len() == 2 {
        seq![b64_char(x / 4), b64_char((x % 4) * 16 + y / 16), b64_char((y % 16) * 4), '=']
    } else {
        seq![b64_char(x / 4), b64_char((x % 4) * 16 + y / 16), b64_char((y % 16) * 4 + z / 64), b64_char(z % 64)]
            + base64_text(b.subrange(3, b.len() as int))
    }
}

/// What `base64`'s standard engine decodes the text to: the bytes, or the
/// message of the decoding error.
pub uninterp spec fn base64_decoded(text: Seq<char>) -> Result<Seq<u8>, Seq<char>>;

/// `base64::engine::general_purpose::STANDARD.encode`: the padded standard
/// encoding (`base64_text`), four characters for every three bytes or part
/// of them, which the same engine decodes back to the bytes.
#[verifier::external_body]
fn base64_encode(bytes: &[u8]) -> (r: String)
    requires
        bytes@.len() / 3 * 4 + 4 <= usize::MAX,
    ensures
        r@ == base64_text(bytes@),
        r@.len() == 4 * ((bytes@.len() + 2) / 3),
        base64_decoded(r@) is Ok && base64_decoded(r@)->Ok_0 == bytes@,
{
    base64::engine::general_purpose::STANDARD.encode(bytes)
}

/// `base64::engine::general_purpose::STANDARD.decode`, with the error turned
/// into its message.
#[verifier::external_body]
fn base64_decode(text: &str) -> (r: Result<Vec<u8>, String>)
    ensures
        match base64_decoded(text@) {
            Ok(b) => (r matches Ok(v) && v@ == b),
            Err(m) => (r matches Err(e) && e@ == m),
        },
{
    match base64::engine::general_purpose::STANDARD.decode(text) {
        Ok(v) => Ok(v),
        Err(e) => Err(e.to_string()),
    }
}

/// The bytes listed in an array: each non-negative integer taken modulo 256,
/// other values skipped.
pub open spec fn byte_items(xs: Seq<JsonV>) -> Seq<u8>
    decreases xs.len(),
{
    if xs.len() == 0 {
        Seq::empty()
    } else {
        let rest = byte_items(xs.drop_last());
        match jas_u64(xs.last()) {
            Some(n) => rest.push((n % 256) as u8),
            None => rest,
        }
    }
}

/// The bytes held by a blob object, from its `bytes` field: a base64 string or
/// an array of numbers. The error is a message.
pub open spec fn spec_blob_bytes(blob: JsonV) -> Result<Seq<u8>, Seq<char>> {
    match jget(blob, "bytes"@) {
        None => Err("Blob missing bytes field"@),
        Some(JsonV::Str(s)) => match base64_decoded(s) {
            Ok(b) => Ok(b),
            Err(m) => Err("Failed to decode base64: "@ + m),
        },
        Some(JsonV::Array(xs)) => Ok(byte_items(xs)),
        Some(_) => Err("Blob bytes field is neither string nor array"@),
    }
}

fn array_bytes(xs: &Vec<Json>) -> (r: Vec<u8>)
    ensures
        r@ == byte_items(view_elems(xs@)),
{
    let mut out: Vec<u8> = Vec::new();
    let mut i: usize = 0;
    while i < xs.len()
        invariant
            i <= xs@.len(),
            out@ == byte_items(view_elems(xs@).take(i as int)),
        decreases xs@.len() - i,
    {
        assert(view_elems(xs@).take(i + 1).drop_last() =~= view_elems(xs@).take(i as int));
        if let Some(n) = xs[i].as_u64() {
            out.push((n % 256) as u8);
        }
        i = i + 1;
    }
    assert(view_elems(xs@).take(xs@.len() as int) =~= view_elems(xs@));
    out
}

/// The bytes held by a blob object: its `bytes` field decoded from base64,
/// or its array of numbers taken as bytes.
pub fn extract_blob_bytes(blob: &Json) -> (r: Result<Vec<u8>, FigError>)
    ensures
        match spec_blob_bytes(blob@) {
            Ok(b) => (r matches Ok(v) && v@ == b),
            Err(m) => (r matches Err(FigError::ZipError(e)) && e@ == m),
        },
{
    proof {
        reveal_strlit("Blob missing bytes field");
        reveal_strlit("Failed to decode base64: ");
        reveal_strlit("Blob bytes field is neither string nor array");
    }
    let v = match blob.get("bytes") {
        Some(v) => v,
        None => {
            return Err(FigError::ZipError(String::from_str("Blob missing bytes field")));
        },
    };
    match v {
        Json::Str(s) => match base64_decode(s.as_str()) {
            Ok(b) => Ok(b),
            Err(m) => {
                let mut msg = String::from_str("Failed to decode base64: ");
                msg.append(m.as_str());
                Err(FigError::ZipError(msg))
            },
        },
        Json::Array(xs) => {
            proof {
                lemma_array_view(*xs);
            }
            Ok(array_bytes(xs))
        },
        _ => Err(FigError::ZipError(String::from_str("Blob bytes field is neither string nor array"))),
    }
}

/// What parsing a blob of the given type gives: path commands, a vector
/// network, or nothing for other types and undecodable content.
#[verifier::opaque]
pub open spec fn spec_parse_blob(blob_type: Seq<char>, blob: JsonV) -> Result<Option<JsonV>, Seq<char>> {
    match spec_blob_bytes(blob) {
        Err(m) => Err(m),
        Ok(b) => Ok(
            if blob_type == "commands"@ {
                match command_items(b, 0) {
                    Some(items) => Some(JsonV::Array(items)),
                    None => None,
                }
            } else if blob_type == "vectorNetwork"@ {
                spec_vector_network(b)
            } else {
                None
            },
        ),
    }
}

/// Parses a blob by its type (`commands` or `vectorNetwork`). The bytes are
/// read first, so a blob without readable bytes fails whatever its type.
pub fn parse_blob(blob_type: &str, blob: &Json) -> (r: Result<Option<Json>, FigError>)
    ensures
        match spec_parse_blob(blob_type@, blob@) {
            Ok(Some(j)) => (r matches Ok(Some(x)) && x@ == j),
            Ok(None) => (r matches Ok(None)),
            Err(m) => (r matches Err(FigError::ZipError(e)) && e@ == m),
        },
{
    proof {
        reveal(spec_parse_blob);
    }
    let bytes = match extract_blob_bytes(blob) {
        Ok(b) => b,
        Err(e) => {
            return Err(e);
        },
    };
    if str_equal(blob_type, "commands") {
        Ok(parse_commands(bytes.as_slice()))
    } else if str_equal(blob_type, "vectorNetwork") {
        Ok(parse_vector_network(bytes.as_slice()))
    } else {
        Ok(None)
    }
}

proof fn lemma_byte_items_len(xs: Seq<JsonV>)
    ensures
        byte_items(xs).len() <= xs.len(),
    decreases xs.len(),
{
    if xs.len() > 0 {
        lemma_byte_items_len(xs.drop_last());
    }
}

/// A blob whose `bytes` field is an array of numbers gets that field replaced
/// by the base64 text of those bytes; other blobs stay as they are.
pub open spec fn blob_with_text(blob: JsonV) -> JsonV {
    match blob {
        JsonV::Object(es) => {
            let i = entry_index(es, "bytes"@);
            if i >= 0 && es[i].1 is Array {
                JsonV::Object(es.update(i, ("bytes"@, JsonV::Str(base64_text(byte_items(es[i].1->Array_0))))))
            } else {
                blob
            }
        },
        _ => blob,
    }
}

/// The byte array of a blob, if any, is small enough to encode.
pub open spec fn encodable(blob: JsonV) -> bool {
    match jget(blob, "bytes"@) {
        Some(JsonV::Array(xs)) => xs.len() / 3 * 4 + 4 <= usize::MAX,
        _ => true,
    }
}

fn process_blob(blob: Json) -> (r: Json)
    requires
        encodable(blob@),
    ensures
        r@ == blob_with_text(blob@),
        spec_blob_bytes(r@) == spec_blob_bytes(blob@),
{
    match blob {
        Json::Object(mut es) => {
            proof {
                lemma_object_view(es);
            }
            match Json::find_entry(&es, "bytes") {
                Some(i) => {
                    let bytes: Option<Vec<u8>> = match &es[i].1 {
                        Json::Array(xs) => {
                            proof {
                                lemma_array_view(*xs);
                                lemma_byte_items_len(view_elems(xs@));
                            }
                            Some(array_bytes(xs))
                        },
                        _ => None,
                    };
                    match bytes {
                        Some(b) => {
                            let text = base64_encode(b.as_slice());
                            let ghost pre = es@;
                            let k = String::from_str("bytes");
                            proof {
                                reveal_strlit("bytes");
                            }
                            es.set(i, (k, Json::Str(text)));
                            proof {
                                lemma_object_view(es);
                                assert(view_entries(es@) =~= view_entries(pre).update(
                                    i as int,
                                    ("bytes"@, JsonV::Str(text@)),
                                ));
                                crate::json::lemma_entry_index(view_entries(pre), "bytes"@);
                                crate::json::lemma_entry_index_at(view_entries(es@), "bytes"@, i as int);
                                assert(jget(JsonV::Object(view_entries(es@)), "bytes"@) == Some(JsonV::Str(text@)));
                            }
                            Json::Object(es)
                        },
                        None => Json::Object(es),
                    }
                },
                None => Json::Object(es),
            }
        },
        other => other,
    }
}

/// Turns the byte array of every blob into base64 text, for JSON output.
///
/// What the bytes of each blob read as does not change: a byte array becomes
/// text that decodes to the same bytes.
pub fn process_blobs(blobs: Vec<Json>) -> (r: Result<Json, FigError>)
    requires
        forall|i: int| 0 <= i < blobs@.len() ==> encodable(#[trigger] blobs@[i]@),
    ensures
        r matches Ok(j) && j@ == JsonV::Array(view_elems(blobs@).map_values(|b: JsonV| blob_with_text(b))),
        forall|i: int|
            0 <= i < blobs@.len() ==> spec_blob_bytes(blob_with_text(#[trigger] blobs@[i]@)) == spec_blob_bytes(
                blobs@[i]@,
            ),
{
    let ghost input = blobs@;
    let mut blobs = blobs;
    let ghost orig = view_elems(blobs@);
    let mut rev: Vec<Json> = Vec::new();
    while blobs.len() > 0
        invariant
            orig.len() == blobs@.len() + rev@.len(),
            forall|i: int| 0 <= i < blobs@.len() ==> encodable(#[trigger] blobs@[i]@),
            forall|i: int| 0 <= i < blobs@.len() ==> #[trigger] blobs@[i]@ == orig[i],
            forall|i: int| 0 <= i < rev@.len() ==> #[trigger] rev@[i]@ == blob_with_text(orig[orig.len() - 1 - i]),
            forall|i: int|
                orig.len() - rev@.len() <= i < orig.len() ==> spec_blob_bytes(blob_with_text(#[trigger] orig[i]))
                    == spec_blob_bytes(orig[i]),
        decreases blobs@.len(),
    {
        let b = blobs.pop().unwrap();
        let p = process_blob(b);
        rev.push(p);
    }
    assert(forall|i: int|
        0 <= i < orig.len() ==> spec_blob_bytes(blob_with_text(#[trigger] orig[i])) == spec_blob_bytes(orig[i]));
    let mut out: Vec<Json> = Vec::new();
    while rev.len() > 0
        invariant
            orig.len() == rev@.len() + out@.len(),
            forall|i: int|
                0 <= i < orig.len() ==> spec_blob_bytes(blob_with_text(#[trigger] orig[i])) == spec_blob_bytes(orig[i]),
            forall|i: int| 0 <= i < rev@.len() ==> #[trigger] rev@[i]@ == blob_with_text(orig[orig.len() - 1 - i]),
            forall|i: int| 0 <= i < out@.len() ==> #[trigger] out@[i]@ == blob_with_text(orig[i]),
        decreases rev@.len(),
    {
        let p = rev.pop().unwrap();
        out.push(p);
    }
    proof {
        lemma_array_view(out);
        assert forall|i: int| 0 <= i < out@.len() implies view_elems(out@)[i] == orig.map_values(
            |b: JsonV| blob_with_text(b),
        )[i] by {
            assert(out@[i]@ == blob_with_text(orig[i]));
        }
        assert(view_elems(out@) =~= orig.map_values(|b: JsonV| blob_with_text(b)));
        assert forall|i: int| 0 <= i < input.len() implies spec_blob_bytes(blob_with_text(#[trigger] input[i]@))
            == spec_blob_bytes(input[i]@) by {
            assert(orig[i] == input[i]@);
        }
    }
    Ok(Json::Array(out))
}

/// A key that names a blob reference: it ends with `Blob`.
pub open spec fn is_blob_key(k: Seq<char>) -> bool {
    k.len() >= 4 && k.subrange(k.len() - 4, k.len() as int) == "Blob"@
}

/// A key without its `Blob` suffix.
pub open spec fn blob_base(k: Seq<char>) -> Seq<char> {
    k.subrange(0, k.len() - 4)
}

/// The index held by an entry that references a blob in range.
pub open spec fn blob_ref(e: (Seq<char>, JsonV), nblobs: int) -> Option<int> {
    if is_blob_key(e.0) {
        match jas_u64(e.1) {
            Some(n) => if n < nblobs { Some(n as int) } else { None },
            None => None,
        }
    } else {
        None
    }
}

/// The replacements that the entries of an object ask for, in entry order:
/// (old key, new key, parsed content). The first blob that cannot be read
/// fails the whole object.
pub open spec fn blob_replacements(es: Seq<(Seq<char>, JsonV)>, blobs: Seq<JsonV>) -> Result<
    Seq<(Seq<char>, Seq<char>, JsonV)>,
    Seq<char>,
>
    decreases es.len(),
{
    if es.len() == 0 {
        Ok(Seq::empty())
    } else {
        match blob_replacements(es.drop_last(), blobs) {
            Err(m) => Err(m),
            Ok(rs) => {
                let e = es.last();
                match blob_ref(e, blobs.len() as int) {
                    None => Ok(rs),
                    Some(ix) => match spec_parse_blob(blob_base(e.0), blobs[ix]) {
                        Err(m) => Err(m),
                        Ok(Some(p)) => Ok(rs.push((e.0, blob_base(e.0), p))),
                        Ok(None) => Ok(rs),
                    },
                }
            },
        }
    }
}

/// The entries without those whose key is `k`.
pub open spec fn remove_key(es: Seq<(Seq<char>, JsonV)>, k: Seq<char>) -> Seq<(Seq<char>, JsonV)>
    decreases es.len(),
{
    if es.len() == 0 {
        es
    } else if es.last().0 == k {
        remove_key(es.drop_last(), k)
    } else {
        remove_key(es.drop_last(), k).push(es.last())
    }
}

/// The entries with `k` set to `v`: its first entry takes the value, or a new
/// entry is added at the end.
pub open spec fn insert_key(es: Seq<(Seq<char>, JsonV)>, k: Seq<char>, v: JsonV) -> Seq<(Seq<char>, JsonV)> {
    let i = entry_index(es, k);
    if i >= 0 {
        es.update(i, (k, v))
    } else {
        es.push((k, v))
    }
}

/// The entries after each replacement in turn removes its old key and sets
/// its new key to the parsed content.
pub open spec fn apply_replacements(es: Seq<(Seq<char>, JsonV)>, rs: Seq<(Seq<char>, Seq<char>, JsonV)>) -> Seq<
    (Seq<char>, JsonV),
>
    decreases rs.len(),
{
    if rs.len() == 0 {
        es
    } else {
        let r = rs.last();
        insert_key(remove_key(apply_replacements(es, rs.drop_last()), r.0), r.1, r.2)
    }
}

/// True when `k` is the new key of some replacement.
pub open spec fn is_new_key(rs: Seq<(Seq<char>, Seq<char>, JsonV)>, k: Seq<char>) -> bool {
    exists|i: int| 0 <= i < rs.len() && #[trigger] rs[i].1 == k
}

/// A document with every blob reference replaced by the parsed blob: in each
/// object, a field `<name>Blob` holding the index of a blob that parses as
/// `<name>` becomes a field `<name>` with the parsed content; then all other
/// values are walked in turn. The first unreadable blob fails the document.
pub open spec fn subst_value(v: JsonV, blobs: Seq<JsonV>) -> Result<JsonV, Seq<char>>
    decreases v, 0int,
{
    match v {
        JsonV::Array(xs) => match subst_elems(xs, xs.len() as int, blobs) {
            Ok(ys) => Ok(JsonV::Array(ys)),
            Err(m) => Err(m),
        },
        JsonV::Object(es) => match blob_replacements(es, blobs) {
            Err(m) => Err(m),
            Ok(rs) => match subst_entries(es, es.len() as int, rs, blobs) {
                Err(m) => Err(m),
                Ok(es2) => Ok(JsonV::Object(apply_replacements(es2, rs))),
            },
        },
        _ => Ok(v),
    }
}

/// The first `n` elements, each walked.
pub open spec fn subst_elems(xs: Seq<JsonV>, n: int, blobs: Seq<JsonV>) -> Result<Seq<JsonV>, Seq<char>>
    decreases xs, n,
{
    if n <= 0 || n > xs.len() {
        Ok(Seq::empty())
    } else {
        match subst_elems(xs, n - 1, blobs) {
            Err(m) => Err(m),
            Ok(ys) => {
                proof {
                    assert(decreases_to!(xs => xs[n - 1]));
                }
                match subst_value(xs[n - 1], blobs) {
                    Err(m) => Err(m),
                    Ok(y) => Ok(ys.push(y)),
                }
            },
        }
    }
}

/// The first `n` entries, each value walked unless a replacement sets its key.
pub open spec fn subst_entries(
    es: Seq<(Seq<char>, JsonV)>,
    n: int,
    rs: Seq<(Seq<char>, Seq<char>, JsonV)>,
    blobs: Seq<JsonV>,
) -> Result<Seq<(Seq<char>, JsonV)>, Seq<char>>
    decreases es, n,
{
    if n <= 0 || n > es.len() {
        Ok(Seq::empty())
    } else {
        match subst_entries(es, n - 1, rs, blobs) {
            Err(m) => Err(m),
            Ok(ys) => {
                let e = es[n - 1];
                if is_new_key(rs, e.0) {
                    Ok(ys.push(e))
                } else {
                    proof {
                        assert(decreases_to!(es => es[n - 1]));
                        assert(decreases_to!(es[n - 1] => es[n - 1].1));
                    }
                    match subst_value(e.1, blobs) {
                        Err(m) => Err(m),
                        Ok(y) => Ok(ys.push((e.0, y))),
                    }
                }
            },
        }
    }
}

/// The document as the substitution leaves it: the same walk as
/// `subst_value`, where, once a blob fails to parse, the rest is left as it
/// was; the replacements of each object whose references all parsed are
/// made before its values are walked, as the walk in place makes them.
pub open spec fn subst_state(v: JsonV, blobs: Seq<JsonV>) -> JsonV
    decreases v, 0int,
{
    match v {
        JsonV::Array(xs) => JsonV::Array(state_elems(xs, xs.len() as int, blobs)),
        JsonV::Object(es) => match blob_replacements(es, blobs) {
            Err(_) => v,
            Ok(rs) => JsonV::Object(apply_replacements(state_entries(es, es.len() as int, rs, blobs), rs)),
        },
        _ => v,
    }
}

/// The first `n` elements as the walk leaves them.
pub open spec fn state_elems(xs: Seq<JsonV>, n: int, blobs: Seq<JsonV>) -> Seq<JsonV>
    decreases xs, n,
{
    if n <= 0 || n > xs.len() {
        Seq::empty()
    } else {
        let prev = state_elems(xs, n - 1, blobs);
        if subst_elems(xs, n - 1, blobs) is Err {
            prev.push(xs[n - 1])
        } else {
            proof {
                assert(decreases_to!(xs => xs[n - 1]));
            }
            prev.push(subst_state(xs[n - 1], blobs))
        }
    }
}

/// The first `n` entries as the walk leaves them.
pub open spec fn state_entries(
    es: Seq<(Seq<char>, JsonV)>,
    n: int,
    rs: Seq<(Seq<char>, Seq<char>, JsonV)>,
    blobs: Seq<JsonV>,
) -> Seq<(Seq<char>, JsonV)>
    decreases es, n,
{
    if n <= 0 || n > es.len() {
        Seq::empty()
    } else {
        let prev = state_entries(es, n - 1, rs, blobs);
        let e = es[n - 1];
        if subst_entries(es, n - 1, rs, blobs) is Err || is_new_key(rs, e.0) {
            prev.push(e)
        } else {
            proof {
                assert(decreases_to!(es => es[n - 1]));
                assert(decreases_to!(es[n - 1] => es[n - 1].1));
            }
            prev.push((e.0, subst_state(e.1, blobs)))
        }
    }
}

/// Where the substitution succeeds, the walk leaves its result.
pub proof fn lemma_subst_state_ok(v: JsonV, blobs: Seq<JsonV>)
    requires
        subst_value(v, blobs) is Ok,
    ensures
        subst_state(v, blobs) == subst_value(v, blobs)->Ok_0,
    decreases v, 0int,
{
    match v {
        JsonV::Array(xs) => lemma_state_elems_ok(xs, xs.len() as int, blobs),
        JsonV::Object(es) => {
            let rs = blob_replacements(es, blobs)->Ok_0;
            lemma_state_entries_ok(es, es.len() as int, rs, blobs);
        },
        _ => {},
    }
}

proof fn lemma_state_elems_ok(xs: Seq<JsonV>, n: int, blobs: Seq<JsonV>)
    requires
        0 <= n <= xs.len(),
        subst_elems(xs, n, blobs) is Ok,
    ensures
        state_elems(xs, n, blobs) == subst_elems(xs, n, blobs)->Ok_0,
    decreases xs, n,
{
    if n > 0 {
        lemma_state_elems_ok(xs, n - 1, blobs);
        assert(decreases_to!(xs => xs[n - 1]));
        lemma_subst_state_ok(xs[n - 1], blobs);
    }
}

proof fn lemma_state_entries_ok(
    es: Seq<(Seq<char>, JsonV)>,
    n: int,
    rs: Seq<(Seq<char>, Seq<char>, JsonV)>,
    blobs: Seq<JsonV>,
)
    requires
        0 <= n <= es.len(),
        subst_entries(es, n, rs, blobs) is Ok,
    ensures
        state_entries(es, n, rs, blobs) == subst_entries(es, n, rs, blobs)->Ok_0,
    decreases es, n,
{
    if n > 0 {
        lemma_state_entries_ok(es, n - 1, rs, blobs);
        if !is_new_key(rs, es[n - 1].0) {
            assert(decreases_to!(es => es[n - 1]));
            assert(decreases_to!(es[n - 1] => es[n - 1].1));
            lemma_subst_state_ok(es[n - 1].1, blobs);
        }
    }
}

/// The contents of a list of replacements.
pub open spec fn repl_view(v: Seq<(String, String, Json)>) -> Seq<(Seq<char>, Seq<char>, JsonV)> {
    Seq::new(v.len(), |i: int| (v[i].0@, v[i].1@, v[i].2@))
}

proof fn lemma_repl_prefix_err(es: Seq<(Seq<char>, JsonV)>, blobs: Seq<JsonV>, k: int)
    requires
        0 <= k <= es.len(),
        blob_replacements(es.take(k), blobs) is Err,
    ensures
        blob_replacements(es, blobs) == blob_replacements(es.take(k), blobs),
    decreases es.len(),
{
    if k == es.len() {
        assert(es.take(k) =~= es);
    } else {
        assert(es.drop_last().take(k) =~= es.take(k));
        lemma_repl_prefix_err(es.drop_last(), blobs, k);
    }
}

fn blob_key_base(k: &str) -> (r: Option<String>)
    ensures
        is_blob_key(k@) <==> r is Some,
        r matches Some(b) ==> b@ == blob_base(k@),
{
    proof {
        reveal_strlit("Blob");
    }
    let n = k.unicode_len();
    if n < 4 {
        return None;
    }
    let c0 = k.get_char(n - 4);
    let c1 = k.get_char(n - 3);
    let c2 = k.get_char(n - 2);
    let c3 = k.get_char(n - 1);
    if c0 == 'B' && c1 == 'l' && c2 == 'o' && c3 == 'b' {
        assert(k@.subrange(n - 4, n as int) =~= "Blob"@);
        Some(k.substring_char(0, n - 4).to_string())
    } else {
        assert(k@.subrange(n - 4, n as int)[0] == c0);
        assert(k@.subrange(n - 4, n as int)[1] == c1);
        assert(k@.subrange(n - 4, n as int)[2] == c2);
        assert(k@.subrange(n - 4, n as int)[3] == c3);
        None
    }
}

fn find_replacements(es: &Vec<(String, Json)>, blobs: &[Json]) -> (r: Result<Vec<(String, String, Json)>, FigError>)
    ensures
        match blob_replacements(view_entries(es@), view_elems(blobs@)) {
            Ok(rs) => (r matches Ok(v) && repl_view(v@) == rs),
            Err(m) => (r matches Err(FigError::ZipError(e)) && e@ == m),
        },
{
    let ghost ev = view_entries(es@);
    let ghost bv = view_elems(blobs@);
    let mut out: Vec<(String, String, Json)> = Vec::new();
    let mut i: usize = 0;
    assert(ev.take(0) =~= Seq::<(Seq<char>, JsonV)>::empty());
    assert(repl_view(out@) =~= Seq::<(Seq<char>, Seq<char>, JsonV)>::empty());
    while i < es.len()
        invariant
            ev == view_entries(es@),
            bv == view_elems(blobs@),
            i <= es@.len(),
            blob_replacements(ev.take(i as int), bv) == Ok::<Seq<(Seq<char>, Seq<char>, JsonV)>, Seq<char>>(
                repl_view(out@),
            ),
        decreases es@.len() - i,
    {
        assert(ev.take(i + 1).drop_last() =~= ev.take(i as int));
        assert(ev.take(i + 1).last() == ev[i as int]);
        let key = &es[i].0;
        match blob_key_base(key.as_str()) {
            Some(base) => match es[i].1.as_u64() {
                Some(ix) => {
                    if ix < blobs.len() as u64 {
                        let ixu = ix as usize;
                        assert(blob_ref(ev[i as int], bv.len() as int) == Some(ix as int));
                        match parse_blob(base.as_str(), &blobs[ixu]) {
                            Err(e) => {
                                proof {
                                    lemma_repl_prefix_err(ev, bv, i + 1);
                                }
                                return Err(e);
                            },
                            Ok(Some(p)) => {
                                let ghost pre = out@;
                                out.push((key.clone(), base, p));
                                assert(repl_view(out@) =~= repl_view(pre).push((key@, blob_base(key@), p@)));
                            },
                            Ok(None) => {},
                        }
                    }
                },
                None => {},
            },
            None => {},
        }
        i = i + 1;
    }
    assert(ev.take(es@.len() as int) =~= ev);
    Ok(out)
}

fn has_new_key(rs: &Vec<(String, String, Json)>, k: &str) -> (r: bool)
    ensures
        r == is_new_key(repl_view(rs@), k@),
{
    let mut i: usize = 0;
    while i < rs.len()
        invariant
            i <= rs@.len(),
            forall|j: int| 0 <= j < i ==> repl_view(rs@)[j].1 != k@,
        decreases rs@.len() - i,
    {
        if str_equal(rs[i].1.as_str(), k) {
            assert(repl_view(rs@)[i as int].1 == k@);
            return true;
        }
        i = i + 1;
    }
    false
}

pub(crate) fn remove_key_exec(es: &Vec<(String, Json)>, k: &str) -> (r: Vec<(String, Json)>)
    ensures
        view_entries(r@) == remove_key(view_entries(es@), k@),
{
    let ghost ev = view_entries(es@);
    let mut out: Vec<(String, Json)> = Vec::new();
    let mut i: usize = 0;
    while i < es.len()
        invariant
            ev == view_entries(es@),
            i <= es@.len(),
            view_entries(out@) == remove_key(ev.take(i as int), k@),
        decreases es@.len() - i,
    {
        assert(ev.take(i + 1).drop_last() =~= ev.take(i as int));
        assert(ev.take(i + 1).last() == ev[i as int]);
        if !str_equal(es[i].0.as_str(), k) {
            let e = (es[i].0.clone(), clone_json(&es[i].1));
            let ghost pre = out@;
            out.push(e);
            assert(view_entries(out@) =~= view_entries(pre).push(ev[i as int]));
        }
        i = i + 1;
    }
    assert(ev.take(es@.len() as int) =~= ev);
    out
}

pub(crate) fn insert_key_exec(es: &mut Vec<(String, Json)>, k: String, v: Json)
    ensures
        view_entries(final(es)@) == insert_key(view_entries(old(es)@), k@, v@),
{
    let ghost pre = view_entries(es@);
    match Json::find_entry(es, k.as_str()) {
        Some(i) => {
            let ghost kv = k@;
            let ghost vv = v@;
            es.set(i, (k, v));
            assert(view_entries(es@) =~= pre.update(i as int, (kv, vv)));
        },
        None => {
            let ghost kv = k@;
            let ghost vv = v@;
            es.push((k, v));
            assert(view_entries(es@) =~= pre.push((kv, vv)));
        },
    }
}

fn apply_replacements_exec(es: Vec<(String, Json)>, rs: &Vec<(String, String, Json)>) -> (r: Vec<(String, Json)>)
    ensures
        view_entries(r@) == apply_replacements(view_entries(es@), repl_view(rs@)),
{
    let ghost rv = repl_view(rs@);
    let mut cur = es;
    let mut i: usize = 0;
    while i < rs.len()
        invariant
            rv == repl_view(rs@),
            i <= rs@.len(),
            view_entries(cur@) == apply_replacements(view_entries(es@), rv.take(i as int)),
        decreases rs@.len() - i,
    {
        assert(rv.take(i + 1).drop_last() =~= rv.take(i as int));
        assert(rv.take(i + 1).last() == rv[i as int]);
        let mut next = remove_key_exec(&cur, rs[i].0.as_str());
        insert_key_exec(&mut next, rs[i].1.clone(), clone_json(&rs[i].2));
        cur = next;
        i = i + 1;
    }
    assert(rv.take(rs@.len() as int) =~= rv);
    cur
}

fn subst_walk(v: &Json, blobs: &[Json]) -> (r: (Json, Option<FigError>))
    ensures
        r.0@ == subst_state(v@, view_elems(blobs@)),
        match subst_value(v@, view_elems(blobs@)) {
            Ok(_) => r.1 is None,
            Err(m) => (r.1 matches Some(FigError::ZipError(e)) && e@ == m),
        },
    decreases v,
{
    let ghost bv = view_elems(blobs@);
    match v {
        Json::Array(a) => {
            proof {
                lemma_array_view(*a);
            }
            let ghost xs = view_elems(a@);
            let mut out: Vec<Json> = Vec::new();
            let mut failed: Option<FigError> = None;
            let mut i: usize = 0;
            assert(view_elems(out@) =~= Seq::<JsonV>::empty());
            while i < a.len()
                invariant
                    *v == Json::Array(*a),
                    xs == view_elems(a@),
                    v@ == JsonV::Array(xs),
                    bv == view_elems(blobs@),
                    i <= a@.len(),
                    view_elems(out@) == state_elems(xs, i as int, bv),
                    match subst_elems(xs, i as int, bv) {
                        Ok(_) => failed is None,
                        Err(m) => (failed matches Some(FigError::ZipError(e)) && e@ == m),
                    },
                decreases a@.len() - i,
            {
                assert(xs[i as int] == a@[i as int]@);
                let ghost pre = out@;
                if failed.is_none() {
                    proof {
                        vstd::std_specs::vec::axiom_vec_index_decreases(*a, i as int);
                        assert(decreases_to!(*v => (*v)->Array_0));
                        assert(decreases_to!(*v => a@[i as int]));
                    }
                    let (y, e) = subst_walk(&a[i], blobs);
                    let ghost yv = y@;
                    out.push(y);
                    assert(view_elems(out@) =~= view_elems(pre).push(yv));
                    failed = e;
                } else {
                    let y = clone_json(&a[i]);
                    let ghost yv = y@;
                    out.push(y);
                    assert(view_elems(out@) =~= view_elems(pre).push(yv));
                }
                i = i + 1;
            }
            proof {
                lemma_array_view(out);
            }
            (Json::Array(out), failed)
        },
        Json::Object(es) => {
            proof {
                lemma_object_view(*es);
            }
            let ghost ev = view_entries(es@);
            let rs = match find_replacements(es, blobs) {
                Ok(rs) => rs,
                Err(e) => {
                    return (clone_json(v), Some(e));
                },
            };
            let ghost rv = repl_view(rs@);
            let mut out: Vec<(String, Json)> = Vec::new();
            let mut failed: Option<FigError> = None;
            let mut i: usize = 0;
            assert(view_entries(out@) =~= Seq::<(Seq<char>, JsonV)>::empty());
            while i < es.len()
                invariant
                    *v == Json::Object(*es),
                    ev == view_entries(es@),
                    v@ == JsonV::Object(ev),
                    blob_replacements(ev, bv) == Ok::<Seq<(Seq<char>, Seq<char>, JsonV)>, Seq<char>>(rv),
                    bv == view_elems(blobs@),
                    rv == repl_view(rs@),
                    i <= es@.len(),
                    view_entries(out@) == state_entries(ev, i as int, rv, bv),
                    match subst_entries(ev, i as int, rv, bv) {
                        Ok(_) => failed is None,
                        Err(m) => (failed matches Some(FigError::ZipError(e)) && e@ == m),
                    },
                decreases es@.len() - i,
            {
                assert(ev[i as int] == (es@[i as int].0@, es@[i as int].1@));
                let ghost pre = out@;
                if failed.is_some() || has_new_key(&rs, es[i].0.as_str()) {
                    let e = (es[i].0.clone(), clone_json(&es[i].1));
                    let ghost evv = (e.0@, e.1@);
                    out.push(e);
                    assert(view_entries(out@) =~= view_entries(pre).push(evv));
                } else {
                    proof {
                        vstd::std_specs::vec::axiom_vec_index_decreases(*es, i as int);
                        assert(decreases_to!(*v => (*v)->Object_0));
                        assert(decreases_to!(es@[i as int] => es@[i as int].1));
                        assert(decreases_to!(*v => es@[i as int].1));
                    }
                    let (y, e) = subst_walk(&es[i].1, blobs);
                    let k = es[i].0.clone();
                    let ghost evv = (k@, y@);
                    out.push((k, y));
                    assert(view_entries(out@) =~= view_entries(pre).push(evv));
                    failed = e;
                }
                i = i + 1;
            }
            let done = apply_replacements_exec(out, &rs);
            proof {
                lemma_object_view(done);
            }
            (Json::Object(done), failed)
        },
        _ => (clone_json(v), None),
    }
}

/// Replaces every blob reference in the document by the parsed blob (see
/// `subst_value`). On failure the document keeps what was replaced before
/// the blob that failed (see `subst_state`).
pub fn substitute_blobs(tree: &mut Json, blobs: &[Json]) -> (r: Result<(), FigError>)
    ensures
        final(tree)@ == subst_state(old(tree)@, view_elems(blobs@)),
        match subst_value(old(tree)@, view_elems(blobs@)) {
            Ok(j) => r is Ok && final(tree)@ == j,
            Err(m) => (r matches Err(FigError::ZipError(e)) && e@ == m),
        },
{
    let (t, failed) = subst_walk(tree, blobs);
    proof {
        if subst_value(tree@, view_elems(blobs@)) is Ok {
            lemma_subst_state_ok(tree@, view_elems(blobs@));
        }
    }
    *tree = t;
    match failed {
        None => Ok(()),
        Some(e) => Err(e),
    }
}

/// Each region decoded from its first word `w`: the style is `w` without its
/// lowest bit, and the winding rule is `NONZERO` when the lowest bit is set,
/// `ODD` when it is clear.
pub proof fn lemma_region_word(b: Seq<u8>, off: int, count: nat, scount: int)
    requires
        count > 0,
        crate::blob_parser::spec_regions(b, off, count, scount) is Some,
    ensures
        ({
            let r = crate::blob_parser::spec_regions(b, off, count, scount)->Some_0.0[0];
            let w = crate::chunks::u32_le(b, off);
            &&& r is Object
            &&& r->Object_0.len() == 3
            &&& r->Object_0[1] == ("styleID"@, JsonV::Number(crate::json::JsonNumber::PosInt((w / 2) as u64)))
            &&& w % 2 == 1 ==> r->Object_0[2] == ("windingRule"@, JsonV::Str("NONZERO"@))
            &&& w % 2 == 0 ==> r->Object_0[2] == ("windingRule"@, JsonV::Str("ODD"@))
        }),
{
}

} // verus!
