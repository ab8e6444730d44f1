use vstd::prelude::*;
use crate::json::{Json, JsonV, jget, jas_u64, jis_object};
use crate::text::{decimal, push_decimal, push_char};

verus! {

/// `session:local`, the text form of a GUID.
pub open spec fn guid_text(session: u64, local: u64) -> Seq<char> {
    decimal(session as nat) + seq![':'] + decimal(local as nat)
}

/// The text form of a GUID object `{sessionID, localID}`, when both fields are
/// non-negative integers.
pub open spec fn guid_fields(g: JsonV) -> Option<Seq<char>> {
    if !jis_object(g) {
        None
    } else {
        match (jget(g, "sessionID"@), jget(g, "localID"@)) {
            (Some(s), Some(l)) => match (jas_u64(s), jas_u64(l)) {
                (Some(a), Some(b)) => Some(guid_text(a, b)),
                _ => None,
            },
            _ => None,
        }
    }
}

/// The GUID of a node, from its `guid` field.
pub open spec fn node_guid(node: JsonV) -> Option<Seq<char>> {
    match jget(node, "guid"@) {
        Some(g) => guid_fields(g),
        None => None,
    }
}

/// The GUID of a node's parent, from its `parentIndex.guid` field.
pub open spec fn parent_guid(node: JsonV) -> Option<Seq<char>> {
    match jget(node, "parentIndex"@) {
        Some(p) => match jget(p, "guid"@) {
            Some(g) => guid_fields(g),
            None => None,
        },
        None => None,
    }
}

/// `session:local` as a string.
pub fn guid_string(session: u64, local: u64) -> (r: String)
    ensures
        r@ == guid_text(session, local),
{
    let mut s = String::new();
    push_decimal(&mut s, session);
    push_char(&mut s, ':');
    push_decimal(&mut s, local);
    assert(s@ =~= guid_text(session, local));
    s
}

/// Formats a GUID object as `session:local`.
pub fn format_guid_fields(g: &Json) -> (r: Option<String>)
    ensures
        match guid_fields(g@) {
            Some(t) => (r matches Some(s) && s@ == t),
            None => r is None,
        },
{
    if !g.is_object() {
        return None;
    }
    let s = match g.get("sessionID") {
        Some(v) => v,
        None => return None,
    };
    let l = match g.get("localID") {
        Some(v) => v,
        None => return None,
    };
    let a = match s.as_u64() {
        Some(v) => v,
        None => return None,
    };
    let b = match l.as_u64() {
        Some(v) => v,
        None => return None,
    };
    Some(guid_string(a, b))
}

/// Formats a node's GUID as `session:local`.
pub fn format_node_guid(node: &Json) -> (r: Option<String>)
    ensures
        match node_guid(node@) {
            Some(t) => (r matches Some(s) && s@ == t),
            None => r is None,
        },
{
    match node.get("guid") {
        Some(g) => format_guid_fields(g),
        None => None,
    }
}

/// Formats the GUID of a node's parent as `session:local`.
pub fn get_parent_guid(node: &Json) -> (r: Option<String>)
    ensures
        match parent_guid(node@) {
            Some(t) => (r matches Some(s) && s@ == t),
            None => r is None,
        },
{
    match node.get("parentIndex") {
        Some(p) => match p.get("guid") {
            Some(g) => format_guid_fields(g),
            None => None,
        },
        None => None,
    }
}

} // verus!
