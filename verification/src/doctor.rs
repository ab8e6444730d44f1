use vstd::prelude::*;
use crate::childmap::strs;
use crate::report::{counts, kv, lines, count_lines, sort_desc, push_kv, push_lines, push_count_lines, sort_counts_desc};
use crate::text::push_str;

verus! {

/// What the file header tells: sizes, magic header, version and chunk count.
#[derive(Debug)]
pub struct FileMetadata {
    pub file_size: usize,
    pub magic_header: String,
    pub version: u32,
    pub chunk_count: usize,
    pub is_zip: bool,
    pub raw_file_size: usize,
}

/// What the Kiwi schema chunk holds.
#[derive(Debug)]
pub struct SchemaInfo {
    pub definition_count: usize,
    pub root_message_type: String,
    pub definition_names: Vec<String>,
}

/// Node counts by type, and the first GUIDs seen.
#[derive(Debug)]
pub struct NodeChangesSummary {
    pub total_count: usize,
    pub type_distribution: Vec<(String, usize)>,
    pub sample_guids: Vec<String>,
}

/// One page: its name, GUID and number of direct children.
#[derive(Debug)]
pub struct PageInfo {
    pub name: String,
    pub guid: String,
    pub child_count: usize,
}

/// The pages of the document and the number of nodes outside every page.
#[derive(Debug)]
pub struct PageBreakdown {
    pub page_count: usize,
    pub pages: Vec<PageInfo>,
    pub orphan_count: usize,
}

/// Blob counts by type, and short descriptions of the first blobs.
#[derive(Debug)]
pub struct BlobSummary {
    pub total_count: usize,
    pub type_distribution: Vec<(String, usize)>,
    pub sample_blobs: Vec<String>,
}

/// Depth and size of the document tree.
#[derive(Debug)]
pub struct TreeStats {
    pub max_depth: usize,
    pub total_reachable: usize,
    pub nodes_per_page: Vec<(String, usize)>,
}

/// The "File Metadata" section of the report.
pub open spec fn metadata_text(m: FileMetadata) -> Seq<char> {
    "=== File Metadata ===\n"@ + (if m.is_zip {
        "Container type: ZIP\n"@ + kv("ZIP file size: "@, m.raw_file_size as nat, " bytes\n"@) + kv(
            "Extracted canvas.fig size: "@,
            m.file_size as nat,
            " bytes\n"@,
        )
    } else {
        "Container type: raw .fig\n"@ + kv("File size: "@, m.file_size as nat, " bytes\n"@)
    }) + "Magic header: "@ + m.magic_header@ + "\n"@ + kv("Version: "@, m.version as nat, "\n"@) + kv(
        "Chunk count: "@,
        m.chunk_count as nat,
        "\n"@,
    ) + "\n"@
}

/// The "Kiwi Schema" section; definition names are listed when verbose.
pub open spec fn schema_text(s: SchemaInfo, verbose: bool) -> Seq<char> {
    "=== Kiwi Schema ===\n"@ + kv("Definition count: "@, s.definition_count as nat, "\n"@)
        + "Root message type: "@ + s.root_message_type@ + "\n"@ + (if verbose
        && s.definition_names@.len() > 0 {
        "Definitions:\n"@ + lines(strs(s.definition_names@), "  - "@)
    } else {
        Seq::empty()
    }) + "\n"@
}

/// The "NodeChanges" section: node types by decreasing count; sample GUIDs when verbose.
pub open spec fn nodes_text(n: NodeChangesSummary, verbose: bool) -> Seq<char> {
    "=== NodeChanges ===\n"@ + kv("Total nodes: "@, n.total_count as nat, "\n"@) + "Type distribution:\n"@
        + count_lines(sort_desc(counts(n.type_distribution@))) + (if verbose && n.sample_guids@.len()
        > 0 {
        "Sample GUIDs (first 10):\n"@ + lines(strs(n.sample_guids@), "  "@)
    } else {
        Seq::empty()
    }) + "\n"@
}

/// One line per page: name, GUID and child count.
pub open spec fn page_lines(ps: Seq<PageInfo>) -> Seq<char>
    decreases ps.len(),
{
    if ps.len() == 0 {
        Seq::empty()
    } else {
        page_lines(ps.drop_last()) + "  "@ + ps.last().name@ + " ("@ + ps.last().guid@ + ") — "@
            + kv(Seq::empty(), ps.last().child_count as nat, " children\n"@)
    }
}

/// The "Pages" section.
pub open spec fn pages_text(p: PageBreakdown) -> Seq<char> {
    "=== Pages ===\n"@ + kv("Page count: "@, p.page_count as nat, "\n"@) + kv(
        "Orphaned nodes: "@,
        p.orphan_count as nat,
        "\n"@,
    ) + page_lines(p.pages@) + "\n"@
}

/// The "Blobs" section: blob types in the order of the summary; samples when verbose.
pub open spec fn blobs_text(b: BlobSummary, verbose: bool) -> Seq<char> {
    "=== Blobs ===\n"@ + kv("Total blobs: "@, b.total_count as nat, "\n"@) + (if b.type_distribution@.len()
        > 0 {
        "Type distribution:\n"@ + count_lines(counts(b.type_distribution@))
    } else {
        Seq::empty()
    }) + (if verbose && b.sample_blobs@.len() > 0 {
        "Sample blobs (first 5):\n"@ + lines(strs(b.sample_blobs@), "  "@)
    } else {
        Seq::empty()
    }) + "\n"@
}

/// The "Tree Stats" section.
pub open spec fn tree_text(t: TreeStats) -> Seq<char> {
    "=== Tree Stats ===\n"@ + kv("Max depth: "@, t.max_depth as nat, "\n"@) + kv(
        "Total reachable nodes: "@,
        t.total_reachable as nat,
        "\n"@,
    ) + (if t.nodes_per_page@.len() > 0 {
        "Nodes per page:\n"@ + count_lines(counts(t.nodes_per_page@))
    } else {
        Seq::empty()
    }) + "\n"@
}

/// The whole diagnostic report.
pub open spec fn doctor_text(
    m: FileMetadata,
    s: SchemaInfo,
    n: NodeChangesSummary,
    p: PageBreakdown,
    b: BlobSummary,
    t: TreeStats,
    verbose: bool,
) -> Seq<char> {
    metadata_text(m) + schema_text(s, verbose) + nodes_text(n, verbose) + pages_text(p) + blobs_text(
        b,
        verbose,
    ) + tree_text(t)
}

fn push_metadata(out: &mut String, m: &FileMetadata)
    ensures
        final(out)@ == old(out)@ + metadata_text(*m),
{
    let ghost start = out@;
    push_str(out, "=== File Metadata ===\n");
    if m.is_zip {
        push_str(out, "Container type: ZIP\n");
        push_kv(out, "ZIP file size: ", m.raw_file_size, " bytes\n");
        push_kv(out, "Extracted canvas.fig size: ", m.file_size, " bytes\n");
    } else {
        push_str(out, "Container type: raw .fig\n");
        push_kv(out, "File size: ", m.file_size, " bytes\n");
    }
    push_str(out, "Magic header: ");
    push_str(out, m.magic_header.as_str());
    push_str(out, "\n");
    push_kv(out, "Version: ", m.version as usize, "\n");
    push_kv(out, "Chunk count: ", m.chunk_count, "\n");
    push_str(out, "\n");
    assert(out@ =~= start + metadata_text(*m));
}

fn push_schema(out: &mut String, s: &SchemaInfo, verbose: bool)
    ensures
        final(out)@ == old(out)@ + schema_text(*s, verbose),
{
    let ghost start = out@;
    push_str(out, "=== Kiwi Schema ===\n");
    push_kv(out, "Definition count: ", s.definition_count, "\n");
    push_str(out, "Root message type: ");
    push_str(out, s.root_message_type.as_str());
    push_str(out, "\n");
    let ghost mid = out@;
    if verbose && s.definition_names.len() > 0 {
        push_str(out, "Definitions:\n");
        push_lines(out, &s.definition_names, "  - ");
    }
    assert(verbose && s.definition_names@.len() > 0 ==> out@ =~= mid + ("Definitions:\n"@ + lines(
        strs(s.definition_names@),
        "  - "@,
    )));
    push_str(out, "\n");
    assert(out@ =~= start + schema_text(*s, verbose));
}

fn push_nodes(out: &mut String, n: &NodeChangesSummary, verbose: bool)
    ensures
        final(out)@ == old(out)@ + nodes_text(*n, verbose),
{
    let ghost start = out@;
    push_str(out, "=== NodeChanges ===\n");
    push_kv(out, "Total nodes: ", n.total_count, "\n");
    push_str(out, "Type distribution:\n");
    let sorted = sort_counts_desc(&n.type_distribution);
    push_count_lines(out, &sorted);
    let ghost mid = out@;
    if verbose && n.sample_guids.len() > 0 {
        push_str(out, "Sample GUIDs (first 10):\n");
        push_lines(out, &n.sample_guids, "  ");
    }
    assert(verbose && n.sample_guids@.len() > 0 ==> out@ =~= mid + ("Sample GUIDs (first 10):\n"@
        + lines(strs(n.sample_guids@), "  "@)));
    push_str(out, "\n");
    assert(out@ =~= start + nodes_text(*n, verbose));
}

fn push_pages(out: &mut String, p: &PageBreakdown)
    ensures
        final(out)@ == old(out)@ + pages_text(*p),
{
    let ghost start = out@;
    push_str(out, "=== Pages ===\n");
    push_kv(out, "Page count: ", p.page_count, "\n");
    push_kv(out, "Orphaned nodes: ", p.orphan_count, "\n");
    let ghost mid = out@;
    let mut i: usize = 0;
    while i < p.pages.len()
        invariant
            i <= p.pages@.len(),
            out@ == mid + page_lines(p.pages@.take(i as int)),
        decreases p.pages@.len() - i,
    {
        let page = &p.pages[i];
        push_str(out, "  ");
        push_str(out, page.name.as_str());
        push_str(out, " (");
        push_str(out, page.guid.as_str());
        push_str(out, ") — ");
        push_kv(out, "", page.child_count, " children\n");
        assert(p.pages@.take(i + 1).drop_last() =~= p.pages@.take(i as int));
        assert(""@ =~= Seq::<char>::empty()) by {
            reveal_strlit("");
        }
        assert(out@ =~= mid + page_lines(p.pages@.take(i + 1)));
        i = i + 1;
    }
    assert(p.pages@.take(p.pages@.len() as int) =~= p.pages@);
    push_str(out, "\n");
    assert(out@ =~= start + pages_text(*p));
}

fn push_blobs(out: &mut String, b: &BlobSummary, verbose: bool)
    ensures
        final(out)@ == old(out)@ + blobs_text(*b, verbose),
{
    let ghost start = out@;
    push_str(out, "=== Blobs ===\n");
    push_kv(out, "Total blobs: ", b.total_count, "\n");
    let ghost m1 = out@;
    if b.type_distribution.len() > 0 {
        push_str(out, "Type distribution:\n");
        push_count_lines(out, &b.type_distribution);
    }
    assert(b.type_distribution@.len() > 0 ==> out@ =~= m1 + ("Type distribution:\n"@ + count_lines(
        counts(b.type_distribution@),
    )));
    let ghost m2 = out@;
    if verbose && b.sample_blobs.len() > 0 {
        push_str(out, "Sample blobs (first 5):\n");
        push_lines(out, &b.sample_blobs, "  ");
    }
    assert(verbose && b.sample_blobs@.len() > 0 ==> out@ =~= m2 + ("Sample blobs (first 5):\n"@
        + lines(strs(b.sample_blobs@), "  "@)));
    push_str(out, "\n");
    assert(out@ =~= start + blobs_text(*b, verbose));
}

fn push_tree(out: &mut String, t: &TreeStats)
    ensures
        final(out)@ == old(out)@ + tree_text(*t),
{
    let ghost start = out@;
    push_str(out, "=== Tree Stats ===\n");
    push_kv(out, "Max depth: ", t.max_depth, "\n");
    push_kv(out, "Total reachable nodes: ", t.total_reachable, "\n");
    let ghost m1 = out@;
    if t.nodes_per_page.len() > 0 {
        push_str(out, "Nodes per page:\n");
        push_count_lines(out, &t.nodes_per_page);
    }
    assert(t.nodes_per_page@.len() > 0 ==> out@ =~= m1 + ("Nodes per page:\n"@ + count_lines(
        counts(t.nodes_per_page@),
    )));
    push_str(out, "\n");
    assert(out@ =~= start + tree_text(*t));
}

/// Formats every diagnostic section into the text of the report.
pub fn format_doctor_output(
    file_metadata: &FileMetadata,
    schema_info: &SchemaInfo,
    node_changes_summary: &NodeChangesSummary,
    page_breakdown: &PageBreakdown,
    blob_summary: &BlobSummary,
    tree_stats: &TreeStats,
    verbose: bool,
) -> (r: String)
    ensures
        r@ == doctor_text(
            *file_metadata,
            *schema_info,
            *node_changes_summary,
            *page_breakdown,
            *blob_summary,
            *tree_stats,
            verbose,
        ),
{
    let mut out = String::new();
    push_metadata(&mut out, file_metadata);
    push_schema(&mut out, schema_info, verbose);
    push_nodes(&mut out, node_changes_summary, verbose);
    push_pages(&mut out, page_breakdown);
    push_blobs(&mut out, blob_summary, verbose);
    push_tree(&mut out, tree_stats);
    assert(out@ =~= doctor_text(
        *file_metadata,
        *schema_info,
        *node_changes_summary,
        *page_breakdown,
        *blob_summary,
        *tree_stats,
        verbose,
    ));
    out
}

} // verus!
