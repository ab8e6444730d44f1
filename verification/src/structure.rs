use vstd::prelude::*;
use crate::childmap::{ChildMap, strs, clone_strings, acyclic_graph, graph_rank, lemma_reaches_self, walked_rel};
use crate::doctor::{PageInfo, PageBreakdown, TreeStats};
use crate::json::{Json, JsonV, jget, view_elems};
use crate::nodes::{node_guid, format_node_guid};
use crate::parent_map::{node_children, parent_count, children_rel, build_parent_map};
use crate::reach::{reachable_from, subtree_depth, compute_subtree_stats_ranked, collect_reachable_ranked, lemma_rank,
    lemma_depth_bounds, walk_is_finite};
use crate::report::counts;
use crate::text::str_equal;

verus! {

/// The GUID of the document root.
pub open spec fn root_key() -> Seq<char> {
    "0:0"@
}

/// The nodes of a decoded document: its `nodeChanges` array.
pub open spec fn doc_nodes(doc: JsonV) -> Option<Seq<JsonV>> {
    match jget(doc, "nodeChanges"@) {
        Some(JsonV::Array(xs)) => Some(xs),
        _ => None,
    }
}

/// The last node whose GUID is `k`.
pub open spec fn last_with_guid(ns: Seq<JsonV>, k: Seq<char>) -> Option<JsonV>
    decreases ns.len(),
{
    if ns.len() == 0 {
        None
    } else if node_guid(ns.last()) == Some(k) {
        Some(ns.last())
    } else {
        last_with_guid(ns.drop_last(), k)
    }
}

/// The name of a page node, or `Unnamed`.
pub open spec fn page_name(node: JsonV) -> Seq<char> {
    match jget(node, "name"@) {
        Some(JsonV::Str(s)) => s,
        _ => "Unnamed"@,
    }
}

/// (name, GUID, number of direct children) of each listed page that is a node.
pub open spec fn page_infos(ns: Seq<JsonV>, pages: Seq<Seq<char>>) -> Seq<(Seq<char>, Seq<char>, nat)>
    decreases pages.len(),
{
    if pages.len() == 0 {
        Seq::empty()
    } else {
        let rest = page_infos(ns, pages.drop_last());
        let p = pages.last();
        match last_with_guid(ns, p) {
            Some(x) => rest.push((page_name(x), p, node_children(ns, p).len())),
            None => rest,
        }
    }
}

/// The listed pages that are nodes, each followed by the GUIDs reachable from
/// it, page after page.
pub open spec fn pages_reach(ns: Seq<JsonV>, pages: Seq<Seq<char>>) -> Seq<Seq<char>>
    decreases pages.len(),
{
    if pages.len() == 0 {
        Seq::empty()
    } else {
        let rest = pages_reach(ns, pages.drop_last());
        let p = pages.last();
        match last_with_guid(ns, p) {
            Some(_) => rest.push(p) + reachable_from(walked_rel(children_rel(ns), p), parent_count(ns), p),
            None => rest,
        }
    }
}

/// The GUIDs of the nodes that have one, in node order.
pub open spec fn all_guids(ns: Seq<JsonV>) -> Seq<Seq<char>>
    decreases ns.len(),
{
    if ns.len() == 0 {
        Seq::empty()
    } else {
        match node_guid(ns.last()) {
            Some(k) => all_guids(ns.drop_last()).push(k),
            None => all_guids(ns.drop_last()),
        }
    }
}

/// How many of the GUIDs are neither the root nor reachable.
pub open spec fn orphans(gs: Seq<Seq<char>>, reach: Seq<Seq<char>>) -> nat
    decreases gs.len(),
{
    if gs.len() == 0 {
        0
    } else {
        let g = gs.last();
        orphans(gs.drop_last(), reach) + (if g != root_key() && !reach.contains(g) { 1nat } else { 0nat })
    }
}

/// A page as (name, GUID, number of children).
pub open spec fn page_view(p: PageInfo) -> (Seq<char>, Seq<char>, nat) {
    (p.name@, p.guid@, p.child_count as nat)
}

/// The page breakdown of a list of nodes with an acyclic parent relation:
/// the pages under the root, and the number of orphans.
pub open spec fn page_breakdown(ns: Seq<JsonV>) -> (Seq<(Seq<char>, Seq<char>, nat)>, nat) {
    let pages = node_children(ns, root_key());
    (page_infos(ns, pages), orphans(all_guids(ns), pages_reach(ns, pages)))
}

/// The deepest depth over the listed pages, each at depth 1; 0 without pages.
pub open spec fn max_page_depth(g: spec_fn(Seq<char>) -> Seq<Seq<char>>, n: nat, pages: Seq<Seq<char>>) -> int
    decreases pages.len(),
{
    if pages.len() == 0 {
        0
    } else {
        let a = max_page_depth(g, n, pages.drop_last());
        let d = subtree_depth(walked_rel(g, pages.last()), n, pages.last(), 1);
        if d > a { d } else { a }
    }
}

/// The number of listed pages and of the GUIDs reachable from them, counted
/// per page.
pub open spec fn reach_total(g: spec_fn(Seq<char>) -> Seq<Seq<char>>, n: nat, pages: Seq<Seq<char>>) -> int
    decreases pages.len(),
{
    if pages.len() == 0 {
        0
    } else {
        reach_total(g, n, pages.drop_last()) + 1 + reachable_from(walked_rel(g, pages.last()), n, pages.last()).len()
    }
}

/// (page GUID, number of reachable GUIDs) for each listed page.
pub open spec fn page_counts(g: spec_fn(Seq<char>) -> Seq<Seq<char>>, n: nat, pages: Seq<Seq<char>>) -> Seq<
    (Seq<char>, nat),
> {
    pages.map_values(|p: Seq<char>| (p, reachable_from(walked_rel(g, p), n, p).len()))
}

pub(crate) fn find_last_with_guid_pub(nodes: &Vec<Json>, k: &str) -> (r: Option<usize>)
    ensures
        match last_with_guid(view_elems(nodes@), k@) {
            Some(x) => (r matches Some(i) && i < nodes@.len() && nodes@[i as int]@ == x),
            None => r is None,
        },
{
    let ghost ev = view_elems(nodes@);
    let mut i: usize = nodes.len();
    assert(ev.take(i as int) =~= ev);
    while i > 0
        invariant
            ev == view_elems(nodes@),
            i <= nodes@.len(),
            last_with_guid(ev, k@) == last_with_guid(ev.take(i as int), k@),
        decreases i,
    {
        assert(ev.take(i as int).drop_last() =~= ev.take(i - 1));
        assert(ev.take(i as int).last() == nodes@[i - 1]@);
        match format_node_guid(&nodes[i - 1]) {
            Some(g) => {
                if str_equal(g.as_str(), k) {
                    return Some(i - 1);
                }
            },
            None => {},
        }
        i = i - 1;
    }
    None
}

fn page_name_of(node: &Json) -> (r: String)
    ensures
        r@ == page_name(node@),
{
    proof {
        reveal_strlit("Unnamed");
    }
    match node.get("name") {
        Some(v) => match v.as_str() {
            Some(s) => s.to_string(),
            None => String::from_str("Unnamed"),
        },
        None => String::from_str("Unnamed"),
    }
}

fn contains_string(v: &Vec<String>, k: &str) -> (r: bool)
    ensures
        r == strs(v@).contains(k@),
{
    let mut i: usize = 0;
    while i < v.len()
        invariant
            i <= v@.len(),
            forall|j: int| 0 <= j < i ==> strs(v@)[j] != k@,
        decreases v@.len() - i,
    {
        if str_equal(v[i].as_str(), k) {
            assert(strs(v@)[i as int] == k@);
            return true;
        }
        i = i + 1;
    }
    false
}

fn root_pages(m: &ChildMap) -> (r: Vec<String>)
    ensures
        strs(r@) == m.children_of(root_key()),
{
    proof {
        reveal_strlit("0:0");
    }
    match m.get("0:0") {
        Some(v) => clone_strings(v),
        None => Vec::new(),
    }
}

/// Every walk down from a listed page that is a node ends: no GUID on it lies
/// below itself.
pub open spec fn node_page_walks_end(ns: Seq<JsonV>, pages: Seq<Seq<char>>) -> bool {
    forall|i: int|
        0 <= i < pages.len() && #[trigger] last_with_guid(ns, pages[i]) is Some ==> acyclic_graph(
            walked_rel(children_rel(ns), pages[i]),
            parent_count(ns),
        )
}

/// Every walk down from a listed page ends.
pub open spec fn page_walks_end(ns: Seq<JsonV>, pages: Seq<Seq<char>>) -> bool {
    forall|i: int| 0 <= i < pages.len() ==> acyclic_graph(walked_rel(children_rel(ns), #[trigger] pages[i]), parent_count(ns))
}

/// True when `b` is the page breakdown of the document: empty without a
/// `nodeChanges` array or when a walk down from a page that is a node would
/// not end, else the pages in order with their counts and the number of
/// orphans.
pub open spec fn breakdown_matches(doc: JsonV, b: PageBreakdown) -> bool {
    match doc_nodes(doc) {
        Some(ns) if node_page_walks_end(ns, node_children(ns, root_key())) => {
            &&& b.pages@.map_values(|p: PageInfo| page_view(p)) == page_breakdown(ns).0
            &&& b.page_count == b.pages@.len()
            &&& b.orphan_count == page_breakdown(ns).1
        },
        _ => b.page_count == 0 && b.pages@.len() == 0 && b.orphan_count == 0,
    }
}

/// True when `t` is the tree statistics of the document: empty without a
/// `nodeChanges` array, when a walk down from a page would not end or when
/// the counts do not fit in `usize`, else the deepest page, the number of
/// nodes reached and the count under each page.
pub open spec fn tree_stats_match(doc: JsonV, t: TreeStats) -> bool {
    match doc_nodes(doc) {
        Some(ns) if page_walks_end(ns, node_children(ns, root_key())) && parent_count(ns) < usize::MAX && 1 + reach_total(
            children_rel(ns),
            parent_count(ns),
            node_children(ns, root_key()),
        ) <= usize::MAX => {
            let g = children_rel(ns);
            let n = parent_count(ns);
            let pages = node_children(ns, root_key());
            &&& t.max_depth == max_page_depth(g, n, pages)
            &&& t.total_reachable == 1 + reach_total(g, n, pages)
            &&& counts(t.nodes_per_page@) == page_counts(g, n, pages)
        },
        _ => t.max_depth == 0 && t.total_reachable == 0 && t.nodes_per_page@.len() == 0,
    }
}

/// The page breakdown of a decoded document: the pages under the root with
/// their names and numbers of children, and the number of nodes that are
/// neither the root nor reachable from it. `None` when a walk down from a
/// page that is a node would never end.
pub fn page_breakdown_of(doc: &Json) -> (r: Option<PageBreakdown>)
    ensures
        match doc_nodes(doc@) {
            None => (r matches Some(b) && b.page_count == 0 && b.pages@.len() == 0 && b.orphan_count == 0),
            Some(ns) => if node_page_walks_end(ns, node_children(ns, root_key())) {
                r matches Some(b) && b.pages@.map_values(|p: PageInfo| page_view(p)) == page_breakdown(ns).0
                    && b.page_count == b.pages@.len() && b.orphan_count == page_breakdown(ns).1
            } else {
                r is None
            },
        },
{
    let empty = PageBreakdown { page_count: 0, pages: Vec::new(), orphan_count: 0 };
    let nodes = match doc.get("nodeChanges") {
        Some(v) => match v.as_array() {
            Some(a) => a,
            None => {
                return Some(empty);
            },
        },
        None => {
            return Some(empty);
        },
    };
    let ghost ns = view_elems(nodes@);
    proof {
        crate::json::lemma_array_view(*nodes);
    }
    assert(doc_nodes(doc@) == Some(ns));
    let m = build_parent_map(nodes);
    let mut all: Vec<String> = Vec::new();
    let mut i: usize = 0;
    assert(ns.take(0) =~= Seq::<JsonV>::empty());
    assert(strs(all@) =~= Seq::<Seq<char>>::empty());
    while i < nodes.len()
        invariant
            ns == view_elems(nodes@),
            i <= nodes@.len(),
            strs(all@) == all_guids(ns.take(i as int)),
        decreases nodes@.len() - i,
    {
        assert(ns.take(i + 1).drop_last() =~= ns.take(i as int));
        assert(ns.take(i + 1).last() == nodes@[i as int]@);
        match format_node_guid(&nodes[i]) {
            Some(g) => {
                let ghost pre = all@;
                let ghost gv = g@;
                all.push(g);
                assert(strs(all@) =~= strs(pre).push(gv));
            },
            None => {},
        }
        i = i + 1;
    }
    assert(ns.take(nodes@.len() as int) =~= ns);
    let pages = root_pages(&m);
    let ghost pv = strs(pages@);
    let ghost g = m.children_fn();
    let ghost n = m.len();
    assert(m.children_fn()(root_key()) == m.children_of(root_key()));
    assert(children_rel(ns)(root_key()) == node_children(ns, root_key()));
    let mut infos: Vec<PageInfo> = Vec::new();
    let mut reachable: Vec<String> = Vec::new();
    let mut j: usize = 0;
    assert(pv.take(0) =~= Seq::<Seq<char>>::empty());
    assert(infos@.map_values(|p: PageInfo| page_view(p)) =~= Seq::<(Seq<char>, Seq<char>, nat)>::empty());
    assert(strs(reachable@) =~= Seq::<Seq<char>>::empty());
    while j < pages.len()
        invariant
            ns == view_elems(nodes@),
            pv == strs(pages@),
            pv == node_children(ns, root_key()),
            g == m.children_fn(),
            n == m.len(),
            g == children_rel(ns),
            n == parent_count(ns),
            doc_nodes(doc@) == Some(ns),
            j <= pages@.len(),
            node_page_walks_end(ns, pv.take(j as int)),
            infos@.map_values(|p: PageInfo| page_view(p)) == page_infos(ns, pv.take(j as int)),
            strs(reachable@) == pages_reach(ns, pv.take(j as int)),
        decreases pages@.len() - j,
    {
        assert(pv.take(j + 1).drop_last() =~= pv.take(j as int));
        assert(pv.take(j + 1).last() == pages@[j as int]@);
        let pg = &pages[j];
        match find_last_with_guid_pub(nodes, pg.as_str()) {
            Some(ix) => {
                if !walk_is_finite(&m, pg.as_str()) {
                    assert(pv[j as int] == pg@);
                    assert(last_with_guid(ns, pv[j as int]) is Some);
                    assert(!node_page_walks_end(ns, node_children(ns, root_key())));
                    return None;
                }
                let name = page_name_of(&nodes[ix]);
                let child_count: usize = match m.get(pg.as_str()) {
                    Some(c) => c.len(),
                    None => 0,
                };
                assert(child_count == node_children(ns, pg@).len()) by {
                    assert(g(pg@) == m.children_of(pg@));
                }
                let info = PageInfo { name, guid: pg.clone(), child_count };
                let ghost pre_reach = strs(reachable@);
                reachable.push(pg.clone());
                assert(strs(reachable@) =~= pre_reach.push(pg@));
                let ghost pre = infos@;
                infos.push(info);
                assert(infos@.map_values(|p: PageInfo| page_view(p)) =~= pre.map_values(
                    |p: PageInfo| page_view(p),
                ).push(page_view(info)));
                proof {
                    lemma_reaches_self(g, pg@);
                }
                collect_reachable_ranked(pg.as_str(), &m, &mut reachable, Ghost(walked_rel(g, pg@)), Ghost(pg@));
                assert(acyclic_graph(walked_rel(children_rel(ns), pv[j as int]), parent_count(ns)));
            },
            None => {
                assert(last_with_guid(ns, pv[j as int]) is None);
            },
        }
        proof {
            let t1 = pv.take(j + 1);
            assert forall|i: int|
                0 <= i < t1.len() && #[trigger] last_with_guid(ns, t1[i]) is Some implies acyclic_graph(
                walked_rel(children_rel(ns), t1[i]),
                parent_count(ns),
            ) by {
                if i < j {
                    assert(t1[i] == pv.take(j as int)[i]);
                } else {
                    assert(t1[i] == pv[j as int]);
                }
            }
        }
        j = j + 1;
    }
    assert(pv.take(pages@.len() as int) =~= pv);
    let ghost reach = strs(reachable@);
    let mut orphan_count: usize = 0;
    let mut k: usize = 0;
    let ghost gs = strs(all@);
    assert(gs.take(0) =~= Seq::<Seq<char>>::empty());
    while k < all.len()
        invariant
            gs == strs(all@),
            reach == strs(reachable@),
            k <= all@.len(),
            orphan_count == orphans(gs.take(k as int), reach),
            orphan_count <= k,
        decreases all@.len() - k,
    {
        assert(gs.take(k + 1).drop_last() =~= gs.take(k as int));
        assert(gs.take(k + 1).last() == all@[k as int]@);
        proof {
            reveal_strlit("0:0");
        }
        if !str_equal(all[k].as_str(), "0:0") && !contains_string(&reachable, all[k].as_str()) {
            orphan_count = orphan_count + 1;
        }
        k = k + 1;
    }
    assert(gs.take(all@.len() as int) =~= gs);
    let page_count = infos.len();
    Some(PageBreakdown { page_count, pages: infos, orphan_count })
}

/// The tree statistics of a decoded document: the deepest depth below the
/// pages (each page at depth 1), the number of reachable nodes (the root, the
/// pages and the nodes below them), and the number below each page. `None` when
/// a walk down from a page would never end, or when the counts do not fit in
/// a `usize`.
pub fn tree_stats_of(doc: &Json) -> (r: Option<TreeStats>)
    ensures
        match doc_nodes(doc@) {
            None => (r matches Some(t) && t.max_depth == 0 && t.total_reachable == 0 && t.nodes_per_page@.len() == 0),
            Some(ns) => {
                let g = children_rel(ns);
                let n = parent_count(ns);
                let pages = node_children(ns, root_key());
                if page_walks_end(ns, pages) && n < usize::MAX && 1 + reach_total(g, n, pages) <= usize::MAX {
                    r matches Some(t) && t.max_depth == max_page_depth(g, n, pages) && t.total_reachable == 1
                        + reach_total(g, n, pages) && counts(t.nodes_per_page@) == page_counts(g, n, pages)
                } else {
                    r is None
                }
            },
        },
{
    let nodes = match doc.get("nodeChanges") {
        Some(v) => match v.as_array() {
            Some(a) => a,
            None => {
                return Some(TreeStats { max_depth: 0, total_reachable: 0, nodes_per_page: Vec::new() });
            },
        },
        None => {
            return Some(TreeStats { max_depth: 0, total_reachable: 0, nodes_per_page: Vec::new() });
        },
    };
    let ghost ns = view_elems(nodes@);
    proof {
        crate::json::lemma_array_view(*nodes);
    }
    assert(doc_nodes(doc@) == Some(ns));
    let m = build_parent_map(nodes);
    if m.key_count() == usize::MAX {
        return None;
    }
    let pages = root_pages(&m);
    let ghost pv = strs(pages@);
    let ghost g = m.children_fn();
    let ghost n = m.len();
    proof {
        assert(g(root_key()) == m.children_of(root_key()));
        assert(children_rel(ns)(root_key()) == node_children(ns, root_key()));
    }
    let mut max_depth: usize = 0;
    let mut total: usize = 0;
    let mut per_page: Vec<(String, usize)> = Vec::new();
    let mut j: usize = 0;
    let nlen = nodes.len();
    assert(pv.take(0) =~= Seq::<Seq<char>>::empty());
    assert(counts(per_page@) =~= Seq::<(Seq<char>, nat)>::empty());
    assert(page_counts(g, n, pv.take(0)) =~= Seq::<(Seq<char>, nat)>::empty());
    while j < pages.len()
        invariant
            pv == strs(pages@),
            pv == g(root_key()),
            pv == node_children(ns, root_key()),
            ns == view_elems(nodes@),
            doc_nodes(doc@) == Some(ns),
            g == m.children_fn(),
            n == m.len(),
            g == children_rel(ns),
            n == parent_count(ns),
            n <= nlen,
            n < usize::MAX,
            page_walks_end(ns, pv.take(j as int)),
            j <= pages@.len(),
            max_depth == max_page_depth(g, n, pv.take(j as int)),
            total == reach_total(g, n, pv.take(j as int)),
            1 + total <= usize::MAX,
            counts(per_page@) == page_counts(g, n, pv.take(j as int)),
        decreases pages@.len() - j,
    {
        assert(pv.take(j + 1).drop_last() =~= pv.take(j as int));
        assert(pv.take(j + 1).last() == pages@[j as int]@);
        let pg = &pages[j];
        if !walk_is_finite(&m, pg.as_str()) {
            assert(pv[j as int] == pg@);
            return None;
        }
        let ghost w = walked_rel(g, pg@);
        proof {
            lemma_rank(w, n);
            lemma_depth_bounds(w, n, w(pg@), graph_rank(w, n)(pg@), 2);
            lemma_reaches_self(g, pg@);
        }
        let mut page_nodes: Vec<String> = Vec::new();
        let depth = compute_subtree_stats_ranked(pg.as_str(), &m, &mut page_nodes, 1, Ghost(w), Ghost(pg@));
        assert(strs(page_nodes@) =~= reachable_from(w, n, pg@));
        proof {
            let t1 = pv.take(j + 1);
            assert forall|i: int| 0 <= i < t1.len() implies acyclic_graph(
                walked_rel(children_rel(ns), #[trigger] t1[i]),
                parent_count(ns),
            ) by {
                if i < j {
                    assert(t1[i] == pv.take(j as int)[i]);
                } else {
                    assert(t1[i] == pv[j as int]);
                }
            }
        }
        let cnt = page_nodes.len();
        if cnt >= usize::MAX - 1 - total {
            proof {
                lemma_reach_total_grows(g, n, pv, j as int + 1);
                assert(reach_total(g, n, pv.take(j + 1)) == total + 1 + cnt);
            }
            return None;
        }
        if depth > max_depth {
            max_depth = depth;
        }
        total = total + 1 + cnt;
        let ghost pre = per_page@;
        per_page.push((pg.clone(), cnt));
        assert(counts(per_page@) =~= counts(pre).push((pg@, cnt as nat)));
        assert(page_counts(g, n, pv.take(j + 1)) =~= page_counts(g, n, pv.take(j as int)).push((pg@, cnt as nat)));
        j = j + 1;
    }
    assert(pv.take(pages@.len() as int) =~= pv);
    Some(TreeStats { max_depth, total_reachable: total + 1, nodes_per_page: per_page })
}

proof fn lemma_reach_total_grows(g: spec_fn(Seq<char>) -> Seq<Seq<char>>, n: nat, pv: Seq<Seq<char>>, k: int)
    requires
        0 <= k <= pv.len(),
    ensures
        reach_total(g, n, pv.take(k)) <= reach_total(g, n, pv),
    decreases pv.len() - k,
{
    if k < pv.len() {
        lemma_reach_total_grows(g, n, pv, k + 1);
        assert(pv.take(k + 1).drop_last() =~= pv.take(k));
    } else {
        assert(pv.take(k) =~= pv);
    }
}

} // verus!
