use vstd::prelude::*;
use crate::childmap::strs;
use crate::chunks::{u32_le, read_u32_le, spec_extract_chunks, extract_chunks};
use crate::compression::{spec_decompressed, decompress_chunk};
use crate::decoder::{SchemaDef, DefV, def_view, kiwi_schema_defs, spec_root_message, decode_succeeds, decode_fig_to_json,
    decode_schema_defs, find_root_message, decoded_document};
use crate::doctor::{FileMetadata, SchemaInfo, NodeChangesSummary, PageBreakdown, BlobSummary, TreeStats};
use crate::header::{zip_magic, is_zip_container};
use crate::json::{Json, JsonV, jget, view_elems, lemma_array_view};
use crate::report::counts;
use crate::structure::{doc_nodes, page_breakdown_of, tree_stats_of, breakdown_matches, tree_stats_match};
use crate::summaries::{node_summary, blob_summary, summarize_nodes, summarize_blobs};
use crate::text::{decimal, push_decimal, push_str};

verus! {

/// True when the bytes start with the ZIP signature.
pub open spec fn spec_is_zip(b: Seq<u8>) -> bool {
    b.len() >= 2 && b.take(2) == zip_magic()
}

/// The decompressed schema chunk of a raw `.fig` file.
pub open spec fn spec_schema_bytes(b: Seq<u8>) -> Option<Seq<u8>> {
    if spec_is_zip(b) {
        None
    } else {
        match spec_extract_chunks(b) {
            Ok((_v, cs)) => spec_decompressed(cs[0]),
            Err(_) => None,
        }
    }
}

/// The decompressed data chunk of a raw `.fig` file.
pub open spec fn spec_data_bytes(b: Seq<u8>) -> Option<Seq<u8>> {
    if spec_is_zip(b) {
        None
    } else {
        match spec_extract_chunks(b) {
            Ok((_v, cs)) => spec_decompressed(cs[1]),
            Err(_) => None,
        }
    }
}

/// True when the bytes of a raw `.fig` file decode to a document: split into
/// chunks, both first chunks decompressed, and the data decoded with the
/// schema.
pub open spec fn spec_document_ok(b: Seq<u8>) -> bool {
    &&& spec_schema_bytes(b) is Some
    &&& spec_data_bytes(b) is Some
    &&& decode_succeeds(spec_schema_bytes(b).unwrap(), spec_data_bytes(b).unwrap())
}

/// The document that a raw `.fig` file decodes to, where it decodes.
pub open spec fn spec_document(b: Seq<u8>) -> JsonV {
    decoded_document(spec_schema_bytes(b).unwrap(), spec_data_bytes(b).unwrap())
}

/// Runs the whole reading pipeline on the bytes of a raw `.fig` file: chunks,
/// decompression, then decoding. `None` for a ZIP container or when a step
/// fails.
pub fn decode_document(bytes: &[u8]) -> (r: Option<Json>)
    ensures
        r is Some <==> spec_document_ok(bytes@),
        r matches Some(d) ==> d@ == spec_document(bytes@),
{
    if is_zip_container(bytes) {
        return None;
    }
    let parsed = match extract_chunks(bytes) {
        Ok(p) => p,
        Err(_) => {
            return None;
        },
    };
    let schema_bytes = match parsed.schema_chunk() {
        Some(s) => match decompress_chunk(s) {
            Ok(b) => b,
            Err(_) => {
                return None;
            },
        },
        None => {
            return None;
        },
    };
    let data_bytes = match parsed.data_chunk() {
        Some(s) => match decompress_chunk(s) {
            Ok(b) => b,
            Err(_) => {
                return None;
            },
        },
        None => {
            return None;
        },
    };
    match decode_fig_to_json(schema_bytes.as_slice(), data_bytes.as_slice()) {
        Ok(j) => Some(j),
        Err(_) => None,
    }
}

/// What `String::from_utf8_lossy` makes of the bytes.
pub uninterp spec fn utf8_lossy(bytes: Seq<u8>) -> Seq<char>;

/// `String::from_utf8_lossy(..).to_string()`: the text of the bytes, each
/// invalid sequence replaced by U+FFFD. Claimed beside the name: valid UTF-8
/// decodes as it is.
#[verifier::external_body]
fn lossy_text(bytes: &[u8]) -> (r: String)
    ensures
        r@ == utf8_lossy(bytes@),
        vstd::utf8::valid_utf8(bytes@) ==> r@ == vstd::utf8::decode_utf8(bytes@),
{
    String::from_utf8_lossy(bytes).to_string()
}

/// The numbers of a byte list separated by `, `.
pub open spec fn joined_bytes(b: Seq<u8>) -> Seq<char>
    decreases b.len(),
{
    if b.len() == 0 {
        Seq::empty()
    } else if b.len() == 1 {
        decimal(b[0] as nat)
    } else {
        joined_bytes(b.drop_last()) + ", "@ + decimal(b.last() as nat)
    }
}

/// The debug form of a byte list: `[1, 2, 3]`.
pub open spec fn debug_bytes(b: Seq<u8>) -> Seq<char> {
    "["@ + joined_bytes(b) + "]"@
}

/// The number of chunks of a raw `.fig` file; 0 for a ZIP container or a file
/// that cannot be split.
pub open spec fn spec_chunk_count(b: Seq<u8>) -> nat {
    if spec_is_zip(b) {
        0
    } else {
        match spec_extract_chunks(b) {
            Ok((_v, cs)) => cs.len(),
            Err(_) => 0,
        }
    }
}

fn push_debug_bytes(out: &mut String, b: &[u8])
    ensures
        final(out)@ == old(out)@ + debug_bytes(b@),
{
    let ghost start = out@;
    push_str(out, "[");
    let mut i: usize = 0;
    while i < b.len()
        invariant
            i <= b@.len(),
            out@ == start + "["@ + joined_bytes(b@.take(i as int)),
        decreases b@.len() - i,
    {
        assert(b@.take(i + 1).drop_last() =~= b@.take(i as int));
        if i > 0 {
            push_str(out, ", ");
        }
        push_decimal(out, b[i] as u64);
        assert(out@ =~= start + "["@ + joined_bytes(b@.take(i + 1)));
        i = i + 1;
    }
    push_str(out, "]");
    assert(b@.take(b@.len() as int) =~= b@);
    assert(out@ =~= start + debug_bytes(b@));
}

/// The file metadata of a raw `.fig` file: its size, its magic header (the
/// text of the first 8 bytes, or the debug form of a shorter file), its
/// version and its number of chunks.
pub fn collect_file_metadata(bytes: &[u8], is_zip: bool, raw_file_size: usize) -> (r: FileMetadata)
    ensures
        r.file_size == bytes@.len(),
        r.magic_header@ == (if bytes@.len() >= 8 { utf8_lossy(bytes@.take(8)) } else { debug_bytes(bytes@) }),
        r.version == (if bytes@.len() >= 12 { u32_le(bytes@, 8) } else { 0 }),
        r.chunk_count == spec_chunk_count(bytes@),
        r.is_zip == is_zip,
        r.raw_file_size == raw_file_size,
{
    let file_size = bytes.len();
    let magic_header = if bytes.len() >= 8 {
        lossy_text(vstd::slice::slice_subrange(bytes, 0, 8))
    } else {
        let mut s = String::new();
        push_debug_bytes(&mut s, bytes);
        s
    };
    assert(bytes@.len() >= 8 ==> bytes@.subrange(0, 8) =~= bytes@.take(8));
    let version = if bytes.len() >= 12 {
        read_u32_le(bytes, 8)
    } else {
        0
    };
    let chunk_count = if is_zip_container(bytes) {
        0
    } else {
        match extract_chunks(bytes) {
            Ok(parsed) => parsed.chunks.len(),
            Err(_) => 0,
        }
    };
    FileMetadata { file_size, magic_header, version, chunk_count, is_zip, raw_file_size }
}

/// The definitions of the schema chunk of a raw `.fig` file, if it decodes.
pub open spec fn spec_schema_defs(b: Seq<u8>) -> Option<Seq<DefV>> {
    match spec_schema_bytes(b) {
        Some(s) => kiwi_schema_defs(s),
        None => None,
    }
}

/// The schema information of a raw `.fig` file: the number of definitions,
/// `Message` when a root message is found (else `Not found`) and every
/// definition's name; `0`, `N/A` and no names when the schema cannot be read.
pub fn collect_schema_info(bytes: &[u8]) -> (r: SchemaInfo)
    ensures
        match spec_schema_defs(bytes@) {
            None => r.definition_count == 0 && r.root_message_type@ == "N/A"@ && r.definition_names@.len() == 0,
            Some(ds) => r.definition_count == ds.len() && r.root_message_type@ == (if spec_root_message(ds) is Some {
                "Message"@
            } else {
                "Not found"@
            }) && strs(r.definition_names@) == ds.map_values(|d: DefV| d.0),
        },
{
    proof {
        reveal_strlit("N/A");
        reveal_strlit("Message");
        reveal_strlit("Not found");
    }
    if is_zip_container(bytes) {
        return SchemaInfo { definition_count: 0, root_message_type: String::from_str("N/A"), definition_names: Vec::new() };
    }
    let parsed = match extract_chunks(bytes) {
        Ok(p) => p,
        Err(_) => {
            return SchemaInfo {
                definition_count: 0,
                root_message_type: String::from_str("N/A"),
                definition_names: Vec::new(),
            };
        },
    };
    let schema_bytes = match parsed.schema_chunk() {
        Some(s) => match decompress_chunk(s) {
            Ok(b) => b,
            Err(_) => {
                return SchemaInfo {
                    definition_count: 0,
                    root_message_type: String::from_str("N/A"),
                    definition_names: Vec::new(),
                };
            },
        },
        None => {
            return SchemaInfo {
                definition_count: 0,
                root_message_type: String::from_str("N/A"),
                definition_names: Vec::new(),
            };
        },
    };
    let defs = match decode_schema_defs(schema_bytes.as_slice()) {
        Some(d) => d,
        None => {
            return SchemaInfo {
                definition_count: 0,
                root_message_type: String::from_str("N/A"),
                definition_names: Vec::new(),
            };
        },
    };
    let ghost ds = defs@.map_values(|d: SchemaDef| def_view(d));
    let root_message_type = match find_root_message(&defs) {
        Some(_) => String::from_str("Message"),
        None => String::from_str("Not found"),
    };
    let mut names: Vec<String> = Vec::new();
    let mut i: usize = 0;
    while i < defs.len()
        invariant
            i <= defs@.len(),
            ds == defs@.map_values(|d: SchemaDef| def_view(d)),
            strs(names@) == ds.take(i as int).map_values(|d: DefV| d.0),
        decreases defs@.len() - i,
    {
        let ghost pre = names@;
        names.push(defs[i].name.clone());
        assert(strs(names@) =~= strs(pre).push(defs@[i as int].name@));
        assert(ds.take(i + 1).map_values(|d: DefV| d.0) =~= ds.take(
            i as int,
        ).map_values(|d: DefV| d.0).push(ds[i as int].0));
        i = i + 1;
    }
    assert(ds.take(defs@.len() as int) =~= ds);
    SchemaInfo { definition_count: defs.len(), root_message_type, definition_names: names }
}

/// The items of the array field `k` of a document.
pub open spec fn doc_array(doc: JsonV, k: Seq<char>) -> Option<Seq<JsonV>> {
    match jget(doc, k) {
        Some(JsonV::Array(xs)) => Some(xs),
        _ => None,
    }
}

/// True when `r` is the node summary of the document: that of its
/// `nodeChanges` array, or empty without one.
pub open spec fn node_summary_matches(doc: JsonV, r: NodeChangesSummary) -> bool {
    match doc_array(doc, "nodeChanges"@) {
        Some(ns) => (r.total_count as nat, counts(r.type_distribution@), strs(r.sample_guids@)) == node_summary(ns),
        None => r.total_count == 0 && r.type_distribution@.len() == 0 && r.sample_guids@.len() == 0,
    }
}

/// True when `r` is the blob summary of the document: that of its `blobs`
/// array, or empty without one.
pub open spec fn blob_summary_matches(doc: JsonV, r: BlobSummary) -> bool {
    match doc_array(doc, "blobs"@) {
        Some(bs) => (r.total_count as nat, counts(r.type_distribution@), strs(r.sample_blobs@)) == blob_summary(bs),
        None => r.total_count == 0 && r.type_distribution@.len() == 0 && r.sample_blobs@.len() == 0,
    }
}

/// The node summary of a decoded document; empty without a `nodeChanges` array.
pub fn node_changes_summary_of(doc: &Json) -> (r: NodeChangesSummary)
    ensures
        node_summary_matches(doc@, r),
{
    match doc.get("nodeChanges") {
        Some(v) => match v.as_array() {
            Some(a) => summarize_nodes(a),
            None => NodeChangesSummary { total_count: 0, type_distribution: Vec::new(), sample_guids: Vec::new() },
        },
        None => NodeChangesSummary { total_count: 0, type_distribution: Vec::new(), sample_guids: Vec::new() },
    }
}

/// The blob summary of a decoded document; empty without a `blobs` array.
pub fn blob_summary_of(doc: &Json) -> (r: BlobSummary)
    ensures
        blob_summary_matches(doc@, r),
{
    match doc.get("blobs") {
        Some(v) => match v.as_array() {
            Some(a) => summarize_blobs(a),
            None => BlobSummary { total_count: 0, type_distribution: Vec::new(), sample_blobs: Vec::new() },
        },
        None => BlobSummary { total_count: 0, type_distribution: Vec::new(), sample_blobs: Vec::new() },
    }
}

/// The node summary of a raw `.fig` file; empty when it cannot be decoded.
pub fn collect_node_changes_summary(bytes: &[u8]) -> (r: NodeChangesSummary)
    ensures
        spec_document_ok(bytes@) ==> node_summary_matches(spec_document(bytes@), r),
        !spec_document_ok(bytes@) ==> r.total_count == 0 && r.type_distribution@.len() == 0
            && r.sample_guids@.len() == 0,
{
    match decode_document(bytes) {
        Some(doc) => node_changes_summary_of(&doc),
        None => NodeChangesSummary { total_count: 0, type_distribution: Vec::new(), sample_guids: Vec::new() },
    }
}

/// The page breakdown of a raw `.fig` file; empty when it cannot be decoded
/// or when a walk down from a page would never end. `verbose` asks the caller to
/// report the counts; the breakdown does not depend on it.
pub fn collect_page_breakdown(bytes: &[u8], verbose: bool) -> (r: PageBreakdown)
    ensures
        spec_document_ok(bytes@) ==> breakdown_matches(spec_document(bytes@), r),
        !spec_document_ok(bytes@) ==> r.page_count == 0 && r.pages@.len() == 0 && r.orphan_count == 0,
{
    match decode_document(bytes) {
        Some(doc) => match page_breakdown_of(&doc) {
            Some(b) => b,
            None => PageBreakdown { page_count: 0, pages: Vec::new(), orphan_count: 0 },
        },
        None => PageBreakdown { page_count: 0, pages: Vec::new(), orphan_count: 0 },
    }
}

/// The blob summary of a raw `.fig` file; empty when it cannot be decoded.
pub fn collect_blob_summary(bytes: &[u8]) -> (r: BlobSummary)
    ensures
        spec_document_ok(bytes@) ==> blob_summary_matches(spec_document(bytes@), r),
        !spec_document_ok(bytes@) ==> r.total_count == 0 && r.type_distribution@.len() == 0
            && r.sample_blobs@.len() == 0,
{
    match decode_document(bytes) {
        Some(doc) => blob_summary_of(&doc),
        None => BlobSummary { total_count: 0, type_distribution: Vec::new(), sample_blobs: Vec::new() },
    }
}

/// The tree statistics of a raw `.fig` file; empty when it cannot be decoded,
/// when a walk down from a page would never end or when the counts overflow.
pub fn collect_tree_stats(bytes: &[u8]) -> (r: TreeStats)
    ensures
        spec_document_ok(bytes@) ==> tree_stats_match(spec_document(bytes@), r),
        !spec_document_ok(bytes@) ==> r.max_depth == 0 && r.total_reachable == 0 && r.nodes_per_page@.len() == 0,
{
    match decode_document(bytes) {
        Some(doc) => match tree_stats_of(&doc) {
            Some(t) => t,
            None => TreeStats { max_depth: 0, total_reachable: 0, nodes_per_page: Vec::new() },
        },
        None => TreeStats { max_depth: 0, total_reachable: 0, nodes_per_page: Vec::new() },
    }
}

} // verus!
