use vstd::prelude::*;
use vstd::string::StrSliceExecFns;
use crate::blobs::{remove_key, insert_key, remove_key_exec, insert_key_exec};
use crate::childmap::{ChildMap, strs, acyclic_graph, graph_rank, ranked, reaches, walked_rel, lemma_reaches_self,
    lemma_reaches_child};
use crate::error::FigError;
use crate::json::{Json, JsonV, jget, jas_u64, jis_object, view_elems, view_entries, lemma_array_view,
    lemma_object_view, clone_json};
use crate::nodes::{guid_text, guid_string, node_guid};
use crate::structure::last_with_guid;
use crate::text::push_str;
use crate::reach::walks_end_within;

verus! {

/// The GUID text of a GUID object, or the error for a missing object or a
/// missing part; `what` names the holder in the messages.
pub open spec fn strict_guid_of(g: Option<JsonV>, missing: Seq<char>, bad_session: Seq<char>, bad_local: Seq<char>) -> Result<
    Seq<char>,
    Seq<char>,
> {
    match g {
        Some(o) => if jis_object(o) {
            match jget(o, "sessionID"@) {
                Some(s) => match jas_u64(s) {
                    Some(a) => match jget(o, "localID"@) {
                        Some(l) => match jas_u64(l) {
                            Some(b) => Ok(guid_text(a, b)),
                            None => Err(bad_local),
                        },
                        None => Err(bad_local),
                    },
                    None => Err(bad_session),
                },
                None => Err(bad_session),
            }
        } else {
            Err(missing)
        },
        None => Err(missing),
    }
}

/// The GUID of a node, or why it cannot be read.
pub open spec fn spec_format_guid(node: JsonV) -> Result<Seq<char>, Seq<char>> {
    strict_guid_of(
        jget(node, "guid"@),
        "Node missing guid field"@,
        "Invalid sessionID in guid"@,
        "Invalid localID in guid"@,
    )
}

/// The GUID of the parent named by a `parentIndex` value, or why it cannot be read.
pub open spec fn spec_format_parent_guid(parent_index: JsonV) -> Result<Seq<char>, Seq<char>> {
    strict_guid_of(
        jget(parent_index, "guid"@),
        "parentIndex missing guid field"@,
        "Invalid sessionID in parentIndex"@,
        "Invalid localID in parentIndex"@,
    )
}

fn strict_guid(g: Option<&Json>, missing: &str, bad_session: &str, bad_local: &str) -> (r: Result<String, FigError>)
    ensures
        match strict_guid_of(
            match g {
                Some(x) => Some(x@),
                None => None,
            },
            missing@,
            bad_session@,
            bad_local@,
        ) {
            Ok(t) => (r matches Ok(s) && s@ == t),
            Err(m) => (r matches Err(FigError::ZipError(e)) && e@ == m),
        },
{
    let o = match g {
        Some(o) => o,
        None => {
            return Err(FigError::ZipError(missing.to_string()));
        },
    };
    if !o.is_object() {
        return Err(FigError::ZipError(missing.to_string()));
    }
    let a = match o.get("sessionID") {
        Some(s) => match s.as_u64() {
            Some(a) => a,
            None => {
                return Err(FigError::ZipError(bad_session.to_string()));
            },
        },
        None => {
            return Err(FigError::ZipError(bad_session.to_string()));
        },
    };
    let b = match o.get("localID") {
        Some(l) => match l.as_u64() {
            Some(b) => b,
            None => {
                return Err(FigError::ZipError(bad_local.to_string()));
            },
        },
        None => {
            return Err(FigError::ZipError(bad_local.to_string()));
        },
    };
    Ok(guid_string(a, b))
}

/// Formats a node's `guid` object as `session:local`.
pub fn format_guid(node: &Json) -> (r: Result<String, FigError>)
    ensures
        match spec_format_guid(node@) {
            Ok(t) => (r matches Ok(s) && s@ == t),
            Err(m) => (r matches Err(FigError::ZipError(e)) && e@ == m),
        },
{
    strict_guid(node.get("guid"), "Node missing guid field", "Invalid sessionID in guid", "Invalid localID in guid")
}

/// Formats the `guid` object of a `parentIndex` value as `session:local`.
pub fn format_parent_guid(parent_index: &Json) -> (r: Result<String, FigError>)
    ensures
        match spec_format_parent_guid(parent_index@) {
            Ok(t) => (r matches Ok(s) && s@ == t),
            Err(m) => (r matches Err(FigError::ZipError(e)) && e@ == m),
        },
{
    strict_guid(
        parent_index.get("guid"),
        "parentIndex missing guid field",
        "Invalid sessionID in parentIndex",
        "Invalid localID in parentIndex",
    )
}

/// Strict lexicographic order of texts by code point, the order of their
/// UTF-8 bytes.
pub open spec fn text_lt(a: Seq<char>, b: Seq<char>) -> bool
    decreases a.len(),
{
    if b.len() == 0 {
        false
    } else if a.len() == 0 {
        true
    } else if a[0] != b[0] {
        a[0] < b[0]
    } else {
        text_lt(a.subrange(1, a.len() as int), b.subrange(1, b.len() as int))
    }
}

/// Neither text comes first.
pub proof fn lemma_text_lt_total(a: Seq<char>, b: Seq<char>)
    ensures
        !text_lt(a, b) && !text_lt(b, a) ==> a == b,
        !(text_lt(a, b) && text_lt(b, a)),
    decreases a.len(),
{
    if a.len() > 0 && b.len() > 0 && a[0] == b[0] {
        lemma_text_lt_total(a.subrange(1, a.len() as int), b.subrange(1, b.len() as int));
        if !text_lt(a, b) && !text_lt(b, a) {
            assert(a =~= seq![a[0]] + a.subrange(1, a.len() as int));
            assert(b =~= seq![b[0]] + b.subrange(1, b.len() as int));
        }
    } else if a.len() == 0 && b.len() == 0 {
        assert(a =~= b);
    }
}

/// The order is transitive.
pub proof fn lemma_text_lt_trans(a: Seq<char>, b: Seq<char>, c: Seq<char>)
    requires
        text_lt(a, b),
        text_lt(b, c),
    ensures
        text_lt(a, c),
    decreases a.len(),
{
    if a.len() > 0 && b.len() > 0 && c.len() > 0 && a[0] == b[0] && b[0] == c[0] {
        lemma_text_lt_trans(
            a.subrange(1, a.len() as int),
            b.subrange(1, b.len() as int),
            c.subrange(1, c.len() as int),
        );
    }
}

/// A proper prefix comes first: a text is before itself followed by any
/// non-empty text, and never after it.
pub proof fn lemma_text_lt_prefix(a: Seq<char>, s: Seq<char>)
    requires
        s.len() > 0,
    ensures
        text_lt(a, a + s),
        !text_lt(a + s, a),
    decreases a.len(),
{
    let b = a + s;
    if a.len() > 0 {
        assert(b[0] == a[0]);
        assert(b.subrange(1, b.len() as int) =~= a.subrange(1, a.len() as int) + s);
        lemma_text_lt_prefix(a.subrange(1, a.len() as int), s);
    }
}

/// Otherwise the first character in which the texts differ decides, by code
/// point.
pub proof fn lemma_text_lt_first_difference(a: Seq<char>, b: Seq<char>, i: int)
    requires
        0 <= i < a.len(),
        i < b.len(),
        a.take(i) == b.take(i),
        a[i] < b[i],
    ensures
        text_lt(a, b),
        !text_lt(b, a),
    decreases i,
{
    if i > 0 {
        assert(a[0] == a.take(i)[0] && b[0] == b.take(i)[0]);
        let a1 = a.subrange(1, a.len() as int);
        let b1 = b.subrange(1, b.len() as int);
        assert(a1.take(i - 1) =~= a.take(i).subrange(1, i));
        assert(b1.take(i - 1) =~= b.take(i).subrange(1, i));
        assert(a1[i - 1] == a[i] && b1[i - 1] == b[i]);
        lemma_text_lt_first_difference(a1, b1, i - 1);
    }
}

/// No text comes before itself.
pub proof fn lemma_text_lt_irreflexive(a: Seq<char>)
    ensures
        !text_lt(a, a),
{
    lemma_text_lt_total(a, a);
}

/// Compares two texts in `text_lt` order.
pub fn text_less(a: &str, b: &str) -> (r: bool)
    ensures
        r == text_lt(a@, b@),
{
    let la = a.unicode_len();
    let lb = b.unicode_len();
    let mut i: usize = 0;
    assert(a@.subrange(0, la as int) =~= a@);
    assert(b@.subrange(0, lb as int) =~= b@);
    assert(a@.take(0) =~= b@.take(0));
    while i < la && i < lb
        invariant
            la == a@.len(),
            lb == b@.len(),
            i <= la,
            i <= lb,
            a@.take(i as int) == b@.take(i as int),
            text_lt(a@, b@) == text_lt(a@.subrange(i as int, la as int), b@.subrange(i as int, lb as int)),
        decreases la - i,
    {
        let ca = a.get_char(i);
        let cb = b.get_char(i);
        let ghost sa = a@.subrange(i as int, la as int);
        let ghost sb = b@.subrange(i as int, lb as int);
        assert(sa[0] == ca && sb[0] == cb);
        if ca != cb {
            return ca < cb;
        }
        assert(sa.subrange(1, sa.len() as int) =~= a@.subrange(i + 1, la as int));
        assert(sb.subrange(1, sb.len() as int) =~= b@.subrange(i + 1, lb as int));
        assert(a@.take(i + 1) =~= a@.take(i as int).push(ca));
        assert(b@.take(i + 1) =~= b@.take(i as int).push(cb));
        i = i + 1;
    }
    i < lb
}

/// Inserts `x` after every pair whose position does not come after its own.
pub open spec fn insert_by_pos(s: Seq<(Seq<char>, Seq<char>)>, x: (Seq<char>, Seq<char>)) -> Seq<
    (Seq<char>, Seq<char>),
>
    decreases s.len(),
{
    if s.len() == 0 {
        seq![x]
    } else if text_lt(x.0, s.last().0) {
        insert_by_pos(s.drop_last(), x).push(s.last())
    } else {
        s.push(x)
    }
}

/// The (position, GUID) pairs ordered by position; pairs with equal
/// positions keep their order (a stable sort).
pub open spec fn sort_by_pos(s: Seq<(Seq<char>, Seq<char>)>) -> Seq<(Seq<char>, Seq<char>)>
    decreases s.len(),
{
    if s.len() == 0 {
        Seq::empty()
    } else {
        insert_by_pos(sort_by_pos(s.drop_last()), s.last())
    }
}

/// No pair comes before a pair whose position is lower.
pub open spec fn sorted_by_pos(s: Seq<(Seq<char>, Seq<char>)>) -> bool {
    forall|i: int, j: int| 0 <= i < j < s.len() ==> !text_lt(s[j].0, s[i].0)
}

proof fn lemma_insert_by_pos_at(s: Seq<(Seq<char>, Seq<char>)>, x: (Seq<char>, Seq<char>), p: int)
    requires
        0 <= p <= s.len(),
        forall|j: int| p <= j < s.len() ==> text_lt(x.0, #[trigger] s[j].0),
        p > 0 ==> !text_lt(x.0, s[p - 1].0),
    ensures
        insert_by_pos(s, x) == s.take(p).push(x) + s.skip(p),
    decreases s.len(),
{
    if s.len() == 0 {
        assert(s.take(p).push(x) + s.skip(p) =~= seq![x]);
    } else if p == s.len() {
        assert(s.take(p).push(x) + s.skip(p) =~= s.push(x));
    } else {
        let d = s.drop_last();
        assert(text_lt(x.0, s[s.len() - 1].0));
        lemma_insert_by_pos_at(d, x, p);
        assert(s.take(p).push(x) + s.skip(p) =~= (d.take(p).push(x) + d.skip(p)).push(s.last()));
    }
}

proof fn lemma_insert_by_pos_props(s: Seq<(Seq<char>, Seq<char>)>, x: (Seq<char>, Seq<char>))
    requires
        sorted_by_pos(s),
    ensures
        sorted_by_pos(insert_by_pos(s, x)),
        insert_by_pos(s, x).to_multiset() == s.to_multiset().insert(x),
        insert_by_pos(s, x).len() == s.len() + 1,
    decreases s.len(),
{
    broadcast use vstd::seq_lib::group_seq_properties;
    if s.len() == 0 {
        assert(seq![x] =~= Seq::<(Seq<char>, Seq<char>)>::empty().push(x));
    } else if text_lt(x.0, s.last().0) {
        let d = s.drop_last();
        assert(s =~= d.push(s.last()));
        lemma_insert_by_pos_props(d, x);
        let r = insert_by_pos(d, x);
        assert forall|i: int, j: int| 0 <= i < j < r.push(s.last()).len() implies !text_lt(
            r.push(s.last())[j].0,
            r.push(s.last())[i].0,
        ) by {
            if j == r.len() {
                assert(r.contains(r[i]));
                assert(r.to_multiset().count(r[i]) > 0);
                if r[i] == x {
                    lemma_text_lt_total(x.0, s.last().0);
                } else {
                    assert(d.to_multiset().count(r[i]) > 0);
                    assert(d.contains(r[i]));
                    let k = choose|k: int| 0 <= k < d.len() && d[k] == r[i];
                    assert(s[k] == d[k]);
                }
            }
        }
    } else {
        assert forall|i: int, j: int| 0 <= i < j < s.push(x).len() implies !text_lt(
            s.push(x)[j].0,
            s.push(x)[i].0,
        ) by {
            if j == s.len() && i < s.len() - 1 {
                if text_lt(x.0, s[i].0) {
                    lemma_text_lt_total(s[i].0, s.last().0);
                    if text_lt(s[i].0, s.last().0) {
                        lemma_text_lt_trans(x.0, s[i].0, s.last().0);
                    }
                }
            }
        }
    }
}

/// The stable sort by position orders the pairs and keeps the same pairs.
pub proof fn lemma_sort_by_pos_props(s: Seq<(Seq<char>, Seq<char>)>)
    ensures
        sorted_by_pos(sort_by_pos(s)),
        sort_by_pos(s).to_multiset() == s.to_multiset(),
        sort_by_pos(s).len() == s.len(),
    decreases s.len(),
{
    broadcast use vstd::seq_lib::group_seq_properties;
    if s.len() > 0 {
        lemma_sort_by_pos_props(s.drop_last());
        lemma_insert_by_pos_props(sort_by_pos(s.drop_last()), s.last());
        assert(s =~= s.drop_last().push(s.last()));
    }
}

/// The contents of a list of (position, GUID) pairs.
pub open spec fn pairs_view(v: Seq<(String, String)>) -> Seq<(Seq<char>, Seq<char>)> {
    v.map_values(|p: (String, String)| (p.0@, p.1@))
}

/// Sorts (position, GUID) pairs by position, keeping the order of equal
/// positions.
pub fn sort_children_by_position(v: &Vec<(String, String)>) -> (r: Vec<(String, String)>)
    ensures
        pairs_view(r@) == sort_by_pos(pairs_view(v@)),
{
    let ghost sv = pairs_view(v@);
    let mut out: Vec<(String, String)> = Vec::new();
    let mut i: usize = 0;
    while i < v.len()
        invariant
            i <= v@.len(),
            sv == pairs_view(v@),
            pairs_view(out@) == sort_by_pos(sv.take(i as int)),
        decreases v@.len() - i,
    {
        let x = (v[i].0.clone(), v[i].1.clone());
        let ghost xs = (x.0@, x.1@);
        let ghost so = pairs_view(out@);
        proof {
            lemma_sort_by_pos_props(sv.take(i as int));
        }
        let mut p: usize = out.len();
        while p > 0 && text_less(x.0.as_str(), out[p - 1].0.as_str())
            invariant
                p <= out@.len(),
                so == pairs_view(out@),
                xs == (x.0@, x.1@),
                sorted_by_pos(so),
                forall|j: int| p <= j < so.len() ==> text_lt(xs.0, #[trigger] so[j].0),
            decreases p,
        {
            assert(so[p - 1].0 == out@[p - 1].0@);
            p = p - 1;
        }
        proof {
            if p > 0 {
                assert(so[p - 1].0 == out@[p - 1].0@);
            }
            lemma_insert_by_pos_at(so, xs, p as int);
        }
        out.insert(p, x);
        assert(pairs_view(out@) =~= so.take(p as int).push(xs) + so.skip(p as int));
        assert(sv.take(i + 1).drop_last() =~= sv.take(i as int));
        i = i + 1;
    }
    assert(sv.take(v@.len() as int) =~= sv);
    out
}

/// The position text of a `parentIndex` value, or empty.
pub open spec fn pos_of(parent_index: JsonV) -> Seq<char> {
    match jget(parent_index, "position"@) {
        Some(JsonV::Str(s)) => s,
        _ => Seq::empty(),
    }
}

/// The first node whose GUID cannot be read.
pub open spec fn guid_error(ns: Seq<JsonV>) -> Option<Seq<char>>
    decreases ns.len(),
{
    if ns.len() == 0 {
        None
    } else {
        match guid_error(ns.drop_last()) {
            Some(m) => Some(m),
            None => match spec_format_guid(ns.last()) {
                Err(m) => Some(m),
                Ok(_) => None,
            },
        }
    }
}

/// The first node with a `parentIndex` whose parent GUID cannot be read.
pub open spec fn parent_error(ns: Seq<JsonV>) -> Option<Seq<char>>
    decreases ns.len(),
{
    if ns.len() == 0 {
        None
    } else {
        match parent_error(ns.drop_last()) {
            Some(m) => Some(m),
            None => match jget(ns.last(), "parentIndex"@) {
                Some(pi) => match spec_format_parent_guid(pi) {
                    Err(m) => Some(m),
                    Ok(_) => None,
                },
                None => None,
            },
        }
    }
}

/// Why the nodes cannot form a tree: every GUID is read first, then every
/// parent GUID.
pub open spec fn tree_input_error(ns: Seq<JsonV>) -> Option<Seq<char>> {
    match guid_error(ns) {
        Some(m) => Some(m),
        None => parent_error(ns),
    }
}

/// (position, GUID) of each node whose parent is `k`, in node order.
pub open spec fn pos_children(ns: Seq<JsonV>, k: Seq<char>) -> Seq<(Seq<char>, Seq<char>)>
    decreases ns.len(),
{
    if ns.len() == 0 {
        Seq::empty()
    } else {
        let rest = pos_children(ns.drop_last(), k);
        let x = ns.last();
        match jget(x, "parentIndex"@) {
            Some(pi) => match (spec_format_parent_guid(pi), spec_format_guid(x)) {
                (Ok(p), Ok(c)) => if p == k {
                    rest.push((pos_of(pi), c))
                } else {
                    rest
                },
                _ => rest,
            },
            None => rest,
        }
    }
}

/// The children of each GUID, in node order.
pub open spec fn tree_rel(ns: Seq<JsonV>) -> spec_fn(Seq<char>) -> Seq<Seq<char>> {
    |k: Seq<char>| pos_children(ns, k).map_values(|p: (Seq<char>, Seq<char>)| p.1)
}

/// The children of `k` ordered by position.
pub open spec fn sorted_kids(ns: Seq<JsonV>, k: Seq<char>) -> Seq<Seq<char>> {
    sort_by_pos(pos_children(ns, k)).map_values(|p: (Seq<char>, Seq<char>)| p.1)
}

/// The parent relation where the walk from the root `0:0` goes.
pub open spec fn tree_walk(ns: Seq<JsonV>) -> spec_fn(Seq<char>) -> Seq<Seq<char>> {
    walked_rel(tree_rel(ns), "0:0"@)
}

/// The height bound of a GUID in the walked part of the parent relation.
pub open spec fn tree_rank(ns: Seq<JsonV>, k: Seq<char>) -> nat {
    graph_rank(tree_walk(ns), ns.len())(k)
}

/// A node object without its `parentIndex`, with `children` set when it has
/// any.
pub open spec fn attach(es: Seq<(Seq<char>, JsonV)>, kids: Seq<JsonV>) -> JsonV {
    let es2 = remove_key(es, "parentIndex"@);
    if kids.len() > 0 {
        JsonV::Object(insert_key(es2, "children"@, JsonV::Array(kids)))
    } else {
        JsonV::Object(es2)
    }
}

/// The subtree rooted at `k`: the last node with that GUID, without its
/// `parentIndex`, with its children (ordered by position) built the same way.
pub open spec fn tree_node_spec(ns: Seq<JsonV>, k: Seq<char>) -> Result<JsonV, Seq<char>>
    decreases tree_rank(ns, k) + 1, 0int,
{
    match last_with_guid(ns, k) {
        None => Err("Node "@ + k + " not found"@),
        Some(x) => match x {
            JsonV::Object(es) => {
                let cs = sorted_kids(ns, k);
                match tree_forest(ns, cs, tree_rank(ns, k), cs.len() as int) {
                    Err(m) => Err(m),
                    Ok(kids) => Ok(attach(es, kids)),
                }
            },
            _ => Ok(x),
        },
    }
}

/// The subtrees of the first `i` GUIDs of `cs`, each ranked below `b`.
pub open spec fn tree_forest(ns: Seq<JsonV>, cs: Seq<Seq<char>>, b: nat, i: int) -> Result<Seq<JsonV>, Seq<char>>
    decreases b, i + 1,
{
    if i <= 0 || i > cs.len() {
        Ok(Seq::empty())
    } else if tree_rank(ns, cs[i - 1]) >= b {
        Ok(Seq::empty())
    } else {
        match tree_forest(ns, cs, b, i - 1) {
            Err(m) => Err(m),
            Ok(front) => match tree_node_spec(ns, cs[i - 1]) {
                Err(m) => Err(m),
                Ok(t) => Ok(front.push(t)),
            },
        }
    }
}

/// The document tree that the nodes form, rooted at `0:0`.
pub open spec fn build_tree_spec(ns: Seq<JsonV>) -> Result<JsonV, Seq<char>> {
    match tree_input_error(ns) {
        Some(m) => Err(m),
        None => tree_node_spec(ns, "0:0"@),
    }
}

proof fn lemma_guid_ok(ns: Seq<JsonV>)
    requires
        guid_error(ns) is None,
    ensures
        forall|i: int| 0 <= i < ns.len() ==> #[trigger] spec_format_guid(ns[i]) is Ok,
    decreases ns.len(),
{
    if ns.len() > 0 {
        lemma_guid_ok(ns.drop_last());
        assert forall|i: int| 0 <= i < ns.len() implies #[trigger] spec_format_guid(ns[i]) is Ok by {
            if i < ns.len() - 1 {
                assert(ns.drop_last()[i] == ns[i]);
            }
        }
    }
}

proof fn lemma_guid_error_prefix(ns: Seq<JsonV>, i: int)
    requires
        0 <= i <= ns.len(),
        guid_error(ns.take(i)) is Some,
    ensures
        guid_error(ns) == guid_error(ns.take(i)),
    decreases ns.len(),
{
    if i == ns.len() {
        assert(ns.take(i) =~= ns);
    } else {
        assert(ns.drop_last().take(i) =~= ns.take(i));
        lemma_guid_error_prefix(ns.drop_last(), i);
    }
}

proof fn lemma_parent_error_prefix(ns: Seq<JsonV>, i: int)
    requires
        0 <= i <= ns.len(),
        parent_error(ns.take(i)) is Some,
    ensures
        parent_error(ns) == parent_error(ns.take(i)),
    decreases ns.len(),
{
    if i == ns.len() {
        assert(ns.take(i) =~= ns);
    } else {
        assert(ns.drop_last().take(i) =~= ns.take(i));
        lemma_parent_error_prefix(ns.drop_last(), i);
    }
}

fn pos_text(parent_index: &Json) -> (r: String)
    ensures
        r@ == pos_of(parent_index@),
{
    match parent_index.get("position") {
        Some(v) => match v.as_str() {
            Some(s) => s.to_string(),
            None => String::new(),
        },
        None => String::new(),
    }
}

/// The GUIDs of the children of each parent, and their positions, in node order.
fn build_position_maps(nodes: &Vec<Json>) -> (r: Result<(ChildMap, ChildMap), FigError>)
    requires
        guid_error(view_elems(nodes@)) is None,
    ensures
        match parent_error(view_elems(nodes@)) {
            Some(m) => (r matches Err(FigError::ZipError(e)) && e@ == m),
            None => (r matches Ok((g, p)) && (forall|k: Seq<char>| #[trigger] g.children_of(k) == tree_rel(view_elems(nodes@))(k))
                && (forall|k: Seq<char>| #[trigger] p.children_of(k) == pos_children(view_elems(nodes@), k).map_values(
                    |q: (Seq<char>, Seq<char>)| q.0,
                )) && (forall|k: Seq<char>| #[trigger] g.has_key(k) == p.has_key(k))),
        },
{
    let ghost ns = view_elems(nodes@);
    proof {
        lemma_guid_ok(ns);
    }
    let mut g = ChildMap::new();
    let mut p = ChildMap::new();
    let mut i: usize = 0;
    while i < nodes.len()
        invariant
            ns == view_elems(nodes@),
            i <= nodes@.len(),
            forall|j: int| 0 <= j < ns.len() ==> #[trigger] spec_format_guid(ns[j]) is Ok,
            parent_error(ns.take(i as int)) is None,
            forall|k: Seq<char>| #[trigger] g.children_of(k) == pos_children(ns.take(i as int), k).map_values(
                |q: (Seq<char>, Seq<char>)| q.1,
            ),
            forall|k: Seq<char>| #[trigger] p.children_of(k) == pos_children(ns.take(i as int), k).map_values(
                |q: (Seq<char>, Seq<char>)| q.0,
            ),
            forall|k: Seq<char>| #[trigger] g.has_key(k) == (pos_children(ns.take(i as int), k).len() > 0),
            forall|k: Seq<char>| #[trigger] p.has_key(k) == (pos_children(ns.take(i as int), k).len() > 0),
        decreases nodes@.len() - i,
    {
        let ghost pre = ns.take(i as int);
        assert(ns.take(i + 1).drop_last() =~= pre);
        assert(ns.take(i + 1).last() == nodes@[i as int]@);
        assert(spec_format_guid(ns[i as int]) is Ok);
        match nodes[i].get("parentIndex") {
            Some(pi) => {
                let par = match format_parent_guid(pi) {
                    Ok(x) => x,
                    Err(e) => {
                        proof {
                            lemma_parent_error_prefix(ns, i + 1);
                        }
                        return Err(e);
                    },
                };
                let c = match format_guid(&nodes[i]) {
                    Ok(x) => x,
                    Err(e) => {
                        return Err(e);
                    },
                };
                let pos = pos_text(pi);
                let ghost pv = par@;
                let ghost item = (pos@, c@);
                g.push_child(par.clone(), c);
                p.push_child(par, pos);
                proof {
                    assert forall|k: Seq<char>| #[trigger] g.children_of(k) == pos_children(ns.take(i + 1), k).map_values(
                        |q: (Seq<char>, Seq<char>)| q.1,
                    ) by {
                        if k == pv {
                            assert(pos_children(ns.take(i + 1), k) == pos_children(pre, k).push(item));
                            assert(pos_children(pre, k).push(item).map_values(|q: (Seq<char>, Seq<char>)| q.1)
                                =~= pos_children(pre, k).map_values(|q: (Seq<char>, Seq<char>)| q.1).push(item.1));
                        }
                    }
                    assert forall|k: Seq<char>| #[trigger] p.children_of(k) == pos_children(ns.take(i + 1), k).map_values(
                        |q: (Seq<char>, Seq<char>)| q.0,
                    ) by {
                        if k == pv {
                            assert(pos_children(ns.take(i + 1), k) == pos_children(pre, k).push(item));
                            assert(pos_children(pre, k).push(item).map_values(|q: (Seq<char>, Seq<char>)| q.0)
                                =~= pos_children(pre, k).map_values(|q: (Seq<char>, Seq<char>)| q.0).push(item.0));
                        }
                    }
                }
            },
            None => {},
        }
        i = i + 1;
    }
    assert(ns.take(nodes@.len() as int) =~= ns);
    proof {
        assert forall|k: Seq<char>| #[trigger] g.children_of(k) == tree_rel(ns)(k) by {}
        assert forall|k: Seq<char>| #[trigger] g.has_key(k) == p.has_key(k) by {}
    }
    Ok((g, p))
}

proof fn lemma_sorted_kids_below(ns: Seq<JsonV>, k: Seq<char>)
    requires
        acyclic_graph(tree_walk(ns), ns.len()),
        reaches(tree_rel(ns), "0:0"@, k),
    ensures
        forall|i: int| 0 <= i < sorted_kids(ns, k).len() ==> #[trigger] tree_rank(ns, sorted_kids(ns, k)[i])
            < tree_rank(ns, k),
        forall|i: int| 0 <= i < sorted_kids(ns, k).len() ==> tree_rel(ns)(k).contains(#[trigger] sorted_kids(ns, k)[i]),
{
    let pc = pos_children(ns, k);
    let g = tree_rel(ns);
    let w = tree_walk(ns);
    let rank = graph_rank(w, ns.len());
    assert(ranked(w, ns.len(), rank));
    assert(w(k) == g(k));
    lemma_sort_by_pos_props(pc);
    let sp = sort_by_pos(pc);
    assert forall|i: int| 0 <= i < sorted_kids(ns, k).len() implies #[trigger] tree_rank(ns, sorted_kids(ns, k)[i])
        < tree_rank(ns, k) by {
        broadcast use vstd::seq_lib::group_seq_properties;
        assert(sp.contains(sp[i]));
        assert(sp.to_multiset().count(sp[i]) > 0);
        assert(pc.to_multiset().count(sp[i]) > 0);
        assert(pc.contains(sp[i]));
        let j = choose|j: int| 0 <= j < pc.len() && pc[j] == sp[i];
        assert(g(k) == pc.map_values(|q: (Seq<char>, Seq<char>)| q.1));
        assert(g(k)[j] == sp[i].1);
        assert(w(k)[j] == g(k)[j]);
        assert(rank(w(k)[j]) < rank(k));
    }
    assert forall|i: int| 0 <= i < sorted_kids(ns, k).len() implies g(k).contains(#[trigger] sorted_kids(ns, k)[i]) by {
        broadcast use vstd::seq_lib::group_seq_properties;
        assert(sp.contains(sp[i]));
        assert(sp.to_multiset().count(sp[i]) > 0);
        assert(pc.to_multiset().count(sp[i]) > 0);
        assert(pc.contains(sp[i]));
        let j = choose|j: int| 0 <= j < pc.len() && pc[j] == sp[i];
        assert(g(k) == pc.map_values(|q: (Seq<char>, Seq<char>)| q.1));
        assert(g(k)[j] == sp[i].1);
    }
}

proof fn lemma_forest_err(ns: Seq<JsonV>, cs: Seq<Seq<char>>, b: nat, i: int, j: int)
    requires
        0 <= i <= j <= cs.len(),
        forall|t: int| 0 <= t < cs.len() ==> #[trigger] tree_rank(ns, cs[t]) < b,
        tree_forest(ns, cs, b, i) is Err,
    ensures
        tree_forest(ns, cs, b, j) == tree_forest(ns, cs, b, i),
    decreases j - i,
{
    if j > i {
        lemma_forest_err(ns, cs, b, i, j - 1);
        assert(tree_rank(ns, cs[j - 1]) < b);
    }
}

fn zip_pairs(ps: &Vec<String>, gs: &Vec<String>) -> (r: Vec<(String, String)>)
    requires
        ps@.len() == gs@.len(),
    ensures
        pairs_view(r@) == Seq::new(ps@.len(), |i: int| (ps@[i]@, gs@[i]@)),
{
    let mut out: Vec<(String, String)> = Vec::new();
    let mut i: usize = 0;
    while i < ps.len()
        invariant
            ps@.len() == gs@.len(),
            i <= ps@.len(),
            pairs_view(out@) == Seq::new(i as nat, |t: int| (ps@[t]@, gs@[t]@)),
        decreases ps@.len() - i,
    {
        let ghost pre = out@;
        let a = ps[i].clone();
        let b = gs[i].clone();
        out.push((a, b));
        assert(pairs_view(out@) =~= pairs_view(pre).push((a@, b@)));
        assert(pairs_view(out@) =~= Seq::new((i + 1) as nat, |t: int| (ps@[t]@, gs@[t]@)));
        i = i + 1;
    }
    out
}

fn not_found_message(k: &str) -> (r: String)
    ensures
        r@ == "Node "@ + k@ + " not found"@,
{
    let mut s = String::from_str("Node ");
    push_str(&mut s, k);
    push_str(&mut s, " not found");
    proof {
        reveal_strlit("Node ");
        reveal_strlit(" not found");
    }
    s
}

fn build_node(k: &str, nodes: &Vec<Json>, g: &ChildMap, p: &ChildMap) -> (r: Result<Json, FigError>)
    requires
        acyclic_graph(tree_walk(view_elems(nodes@)), nodes@.len()),
        reaches(tree_rel(view_elems(nodes@)), "0:0"@, k@),
        forall|x: Seq<char>| #[trigger] g.children_of(x) == tree_rel(view_elems(nodes@))(x),
        forall|x: Seq<char>| #[trigger] p.children_of(x) == pos_children(view_elems(nodes@), x).map_values(
            |q: (Seq<char>, Seq<char>)| q.0,
        ),
        forall|x: Seq<char>| #[trigger] g.has_key(x) == p.has_key(x),
    ensures
        match tree_node_spec(view_elems(nodes@), k@) {
            Ok(j) => (r matches Ok(x) && x@ == j),
            Err(m) => (r matches Err(FigError::ZipError(e)) && e@ == m),
        },
    decreases tree_rank(view_elems(nodes@), k@),
{
    let ghost ns = view_elems(nodes@);
    let ix = match crate::structure::find_last_with_guid_pub(nodes, k) {
        Some(ix) => ix,
        None => {
            return Err(FigError::ZipError(not_found_message(k)));
        },
    };
    match &nodes[ix] {
        Json::Object(es) => {
            proof {
                lemma_object_view(*es);
                lemma_sorted_kids_below(ns, k@);
            }
            let ghost sk = sorted_kids(ns, k@);
            let ghost rk = tree_rank(ns, k@);
            let ghost ev = view_entries(es@);
            assert(tree_node_spec(ns, k@) == match tree_forest(ns, sk, rk, sk.len() as int) {
                Err(m) => Err(m),
                Ok(kids) => Ok(attach(ev, kids)),
            });
            let mut es2 = remove_key_exec(es, "parentIndex");
            let mut kids: Vec<Json> = Vec::new();
            match g.get(k) {
                Some(gs) => {
                    let ps = match p.get(k) {
                        Some(ps) => ps,
                        None => {
                            return Err(FigError::ZipError(not_found_message(k)));
                        },
                    };
                    let ghost pc = pos_children(ns, k@);
                    assert(strs(gs@) == pc.map_values(|q: (Seq<char>, Seq<char>)| q.1));
                    assert(strs(ps@) == pc.map_values(|q: (Seq<char>, Seq<char>)| q.0));
                    assert(ps@.len() == strs(ps@).len());
                    assert(gs@.len() == strs(gs@).len());
                    let pairs = zip_pairs(ps, gs);
                    assert(pairs_view(pairs@) =~= pc) by {
                        assert forall|t: int| 0 <= t < pc.len() implies pairs_view(pairs@)[t] == pc[t] by {
                            assert(strs(ps@)[t] == ps@[t]@);
                            assert(strs(gs@)[t] == gs@[t]@);
                        }
                    }
                    let sorted = sort_children_by_position(&pairs);
                    assert(sk =~= pairs_view(sorted@).map_values(|q: (Seq<char>, Seq<char>)| q.1));
                    let mut i: usize = 0;
                    assert(view_elems(kids@) =~= Seq::<JsonV>::empty());
                    while i < sorted.len()
                        invariant
                            ns == view_elems(nodes@),
                            acyclic_graph(tree_walk(ns), nodes@.len()),
                            reaches(tree_rel(ns), "0:0"@, k@),
                            forall|t: int| 0 <= t < sk.len() ==> tree_rel(ns)(k@).contains(#[trigger] sk[t]),
                            forall|x: Seq<char>| #[trigger] g.children_of(x) == tree_rel(ns)(x),
                            forall|x: Seq<char>| #[trigger] p.children_of(x) == pos_children(ns, x).map_values(
                                |q: (Seq<char>, Seq<char>)| q.0,
                            ),
                            forall|x: Seq<char>| #[trigger] g.has_key(x) == p.has_key(x),
                            sk == sorted_kids(ns, k@),
                            rk == tree_rank(ns, k@),
                            tree_node_spec(ns, k@) == match tree_forest(ns, sk, rk, sk.len() as int) {
                                Err(m) => Err(m),
                                Ok(kids) => Ok(attach(ev, kids)),
                            },
                            sk == pairs_view(sorted@).map_values(|q: (Seq<char>, Seq<char>)| q.1),
                            forall|t: int| 0 <= t < sk.len() ==> #[trigger] tree_rank(ns, sk[t]) < rk,
                            i <= sorted@.len(),
                            tree_forest(ns, sk, rk, i as int) == Ok::<Seq<JsonV>, Seq<char>>(view_elems(kids@)),
                        decreases sorted@.len() - i,
                    {
                        let c = &sorted[i].1;
                        assert(c@ == sk[i as int]);
                        assert(tree_rank(ns, sk[i as int]) < rk);
                        proof {
                            lemma_reaches_child(tree_rel(ns), "0:0"@, k@, sk[i as int]);
                        }
                        match build_node(c.as_str(), nodes, g, p) {
                            Err(e) => {
                                proof {
                                    assert(tree_forest(ns, sk, rk, i + 1)->Err_0 == tree_node_spec(ns, sk[i as int])->Err_0);
                                    lemma_forest_err(ns, sk, rk, i + 1, sk.len() as int);
                                }
                                return Err(e);
                            },
                            Ok(t) => {
                                let ghost pre = kids@;
                                kids.push(t);
                                assert(view_elems(kids@) =~= view_elems(pre).push(t@));
                            },
                        }
                        i = i + 1;
                    }
                },
                None => {
                    assert(sk.len() == 0) by {
                        lemma_sort_by_pos_props(pos_children(ns, k@));
                        assert(g.children_of(k@).len() == 0);
                    }
                    assert(view_elems(kids@) =~= Seq::<JsonV>::empty());
                },
            }
            assert(tree_forest(ns, sk, rk, sk.len() as int) == Ok::<Seq<JsonV>, Seq<char>>(view_elems(kids@)));
            if kids.len() > 0 {
                proof {
                    lemma_array_view(kids);
                }
                insert_key_exec(&mut es2, String::from_str("children"), Json::Array(kids));
                proof {
                    reveal_strlit("children");
                }
            }
            proof {
                lemma_object_view(es2);
                reveal_strlit("parentIndex");
            }
            Ok(Json::Object(es2))
        },
        other => Ok(clone_json(other)),
    }
}

/// Builds the document tree from the flat list of nodes: every node is
/// placed under the node named by its `parentIndex`, children ordered by
/// their position text, `parentIndex` dropped, starting from the root `0:0`.
/// Every GUID is read first, then every parent GUID; the first one that
/// cannot be read is the error.
pub fn build_tree(node_changes: Vec<Json>) -> (r: Result<Json, FigError>)
    requires
        tree_input_error(view_elems(node_changes@)) is None ==> acyclic_graph(
            tree_walk(view_elems(node_changes@)),
            node_changes@.len(),
        ),
    ensures
        match build_tree_spec(view_elems(node_changes@)) {
            Ok(j) => (r matches Ok(x) && x@ == j),
            Err(m) => (r matches Err(FigError::ZipError(e)) && e@ == m),
        },
{
    let ghost ns = view_elems(node_changes@);
    let (g, p) = match tree_maps(&node_changes) {
        Ok(x) => x,
        Err(e) => {
            return Err(e);
        },
    };
    proof {
        reveal_strlit("0:0");
        lemma_reaches_self(tree_rel(ns), "0:0"@);
    }
    build_node("0:0", &node_changes, &g, &p)
}

/// Builds the document tree as `build_tree` does, first testing what
/// `build_tree` requires: `None` when the nodes are well formed but a walk
/// down from the root `0:0` would never end.
pub fn build_tree_checked(node_changes: Vec<Json>) -> (r: Option<Result<Json, FigError>>)
    ensures
        r is None <==> (tree_input_error(view_elems(node_changes@)) is None && !acyclic_graph(
            tree_walk(view_elems(node_changes@)),
            node_changes@.len(),
        )),
        r matches Some(x) ==> match build_tree_spec(view_elems(node_changes@)) {
            Ok(j) => (x matches Ok(t) && t@ == j),
            Err(m) => (x matches Err(FigError::ZipError(e)) && e@ == m),
        },
{
    let ghost ns = view_elems(node_changes@);
    let (g, _p) = match tree_maps(&node_changes) {
        Ok(x) => x,
        Err(e) => {
            return Some(Err(e));
        },
    };
    proof {
        reveal_strlit("0:0");
    }
    let fine = walks_end_within(&g, "0:0", node_changes.len());
    assert(g.children_fn() =~= tree_rel(ns));
    if !fine {
        return None;
    }
    Some(build_tree(node_changes))
}

/// The parent-to-children and parent-to-positions maps of well-formed nodes,
/// or the first GUID that cannot be read.
fn tree_maps(nodes: &Vec<Json>) -> (r: Result<(ChildMap, ChildMap), FigError>)
    ensures
        match tree_input_error(view_elems(nodes@)) {
            Some(m) => (r matches Err(FigError::ZipError(e)) && e@ == m),
            None => (r matches Ok((g, p)) && (forall|k: Seq<char>| #[trigger] g.children_of(k) == tree_rel(view_elems(nodes@))(k))
                && (forall|k: Seq<char>| #[trigger] p.children_of(k) == pos_children(view_elems(nodes@), k).map_values(
                    |q: (Seq<char>, Seq<char>)| q.0,
                )) && (forall|k: Seq<char>| #[trigger] g.has_key(k) == p.has_key(k))),
        },
{
    let ghost ns = view_elems(nodes@);
    let mut i: usize = 0;
    while i < nodes.len()
        invariant
            ns == view_elems(nodes@),
            i <= nodes@.len(),
            guid_error(ns.take(i as int)) is None,
        decreases nodes@.len() - i,
    {
        assert(ns.take(i + 1).drop_last() =~= ns.take(i as int));
        assert(ns.take(i + 1).last() == nodes@[i as int]@);
        match format_guid(&nodes[i]) {
            Ok(_) => {},
            Err(e) => {
                proof {
                    lemma_guid_error_prefix(ns, i + 1);
                }
                return Err(e);
            },
        }
        i = i + 1;
    }
    assert(ns.take(nodes@.len() as int) =~= ns);
    build_position_maps(nodes)
}

} // verus!
