use vstd::prelude::*;
use crate::childmap::ChildMap;
use crate::json::{Json, JsonV, view_elems};
use crate::nodes::{node_guid, parent_guid, format_node_guid, get_parent_guid};

verus! {

/// The GUIDs of the nodes whose parent is `k`, in node order; a node counts
/// when both its GUID and its parent's GUID can be read.
pub open spec fn node_children(ns: Seq<JsonV>, k: Seq<char>) -> Seq<Seq<char>>
    decreases ns.len(),
{
    if ns.len() == 0 {
        Seq::empty()
    } else {
        let rest = node_children(ns.drop_last(), k);
        let x = ns.last();
        if parent_guid(x) == Some(k) && node_guid(x) is Some {
            rest.push(node_guid(x).unwrap())
        } else {
            rest
        }
    }
}

/// The number of distinct parents among the nodes.
pub open spec fn parent_count(ns: Seq<JsonV>) -> nat
    decreases ns.len(),
{
    if ns.len() == 0 {
        0
    } else {
        let rest = parent_count(ns.drop_last());
        let x = ns.last();
        if parent_guid(x) is Some && node_guid(x) is Some
            && node_children(ns.drop_last(), parent_guid(x).unwrap()).len() == 0 {
            rest + 1
        } else {
            rest
        }
    }
}

/// The parent-to-children relation of the nodes, as a function.
pub open spec fn children_rel(ns: Seq<JsonV>) -> spec_fn(Seq<char>) -> Seq<Seq<char>> {
    |k: Seq<char>| node_children(ns, k)
}

/// Maps each parent GUID to the GUIDs of its children, in node order.
pub fn build_parent_map(nodes: &Vec<Json>) -> (m: ChildMap)
    ensures
        m.children_fn() == children_rel(view_elems(nodes@)),
        m.len() == parent_count(view_elems(nodes@)),
        m.len() <= nodes@.len(),
{
    let ghost ns = view_elems(nodes@);
    let mut m = ChildMap::new();
    let mut i: usize = 0;
    while i < nodes.len()
        invariant
            ns == view_elems(nodes@),
            i <= nodes@.len(),
            forall|k: Seq<char>| #[trigger] m.children_of(k) == node_children(ns.take(i as int), k),
            forall|k: Seq<char>| #[trigger] m.has_key(k) == (node_children(ns.take(i as int), k).len() > 0),
            m.len() == parent_count(ns.take(i as int)),
            m.len() <= i,
        decreases nodes@.len() - i,
    {
        let ghost pre = ns.take(i as int);
        assert(ns.take(i + 1).drop_last() =~= pre);
        assert(ns.take(i + 1).last() == nodes@[i as int]@);
        match get_parent_guid(&nodes[i]) {
            Some(p) => match format_node_guid(&nodes[i]) {
                Some(c) => {
                    m.push_child(p, c);
                },
                None => {},
            },
            None => {},
        }
        i = i + 1;
    }
    assert(ns.take(nodes@.len() as int) =~= ns);
    assert(m.children_fn() =~= children_rel(ns));
    m
}

} // verus!
