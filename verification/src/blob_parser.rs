use vstd::prelude::*;
use crate::chunks::{u32_le, read_u32_le};
use crate::float_bits::{f32_bits_to_json, f32_json};
use crate::json::{Json, JsonNumber, JsonV, view_elems, lemma_array_view, lemma_object_view};

verus! {

/// The JSON number for the little-endian single-precision float at `off`.
pub open spec fn f32_at(b: Seq<u8>, off: int) -> JsonV {
    f32_json(u32_le(b, off) as u32)
}

/// The JSON number for the little-endian `u32` at `off`.
pub open spec fn u32_at(b: Seq<u8>, off: int) -> JsonV {
    JsonV::Number(JsonNumber::PosInt(u32_le(b, off) as u64))
}

/// The letter of a path command type.
pub open spec fn command_letter(t: u8) -> Seq<char> {
    if t == 0 {
        "Z"@
    } else if t == 1 {
        "M"@
    } else if t == 2 {
        "L"@
    } else if t == 3 {
        "Q"@
    } else {
        "C"@
    }
}

/// The number of coordinates that follow a path command type.
pub open spec fn command_arity(t: u8) -> int {
    if t == 0 {
        0
    } else if t == 1 || t == 2 {
        2
    } else if t == 3 {
        4
    } else {
        6
    }
}

/// The `k` floats stored from `off` on.
pub open spec fn coords(b: Seq<u8>, off: int, k: int) -> Seq<JsonV> {
    Seq::new(k as nat, |i: int| f32_at(b, off + 4 * i))
}

/// The flat list of path commands encoded from `off` on: each command is a
/// type byte (0 to 4) followed by its coordinates; an unknown type or a
/// truncated command makes the whole list invalid.
pub open spec fn command_items(b: Seq<u8>, off: int) -> Option<Seq<JsonV>>
    decreases b.len() - off,
{
    if off < 0 || off >= b.len() {
        Some(Seq::empty())
    } else {
        let t = b[off];
        let p = off + 1;
        let k = command_arity(t);
        if t > 4 || p + 4 * k > b.len() {
            None
        } else {
            match command_items(b, p + 4 * k) {
                Some(rest) => Some(seq![JsonV::Str(command_letter(t))] + coords(b, p, k) + rest),
                None => None,
            }
        }
    }
}

fn push_coords(out: &mut Vec<Json>, b: &[u8], off: usize, k: usize)
    requires
        off + 4 * k <= b@.len(),
    ensures
        view_elems(final(out)@) == view_elems(old(out)@) + coords(b@, off as int, k as int),
{
    let lenb = b.len();
    let mut i: usize = 0;
    while i < k
        invariant
            i <= k,
            lenb == b@.len(),
            off + 4 * k <= b@.len(),
            view_elems(out@) == view_elems(old(out)@) + coords(b@, off as int, i as int),
        decreases k - i,
    {
        let ghost pre = out@;
        let x = f32_bits_to_json(read_u32_le(b, off + 4 * i));
        out.push(x);
        assert(view_elems(out@) =~= view_elems(old(out)@) + coords(b@, off as int, i + 1)) by {
            assert(view_elems(out@) =~= view_elems(pre).push(x@));
        }
        i = i + 1;
    }
}

fn command_string(t: u8) -> (r: String)
    requires
        t <= 4,
    ensures
        r@ == command_letter(t),
{
    proof {
        reveal_strlit("Z");
        reveal_strlit("M");
        reveal_strlit("L");
        reveal_strlit("Q");
        reveal_strlit("C");
    }
    if t == 0 {
        String::from_str("Z")
    } else if t == 1 {
        String::from_str("M")
    } else if t == 2 {
        String::from_str("L")
    } else if t == 3 {
        String::from_str("Q")
    } else {
        String::from_str("C")
    }
}

/// Decodes binary path commands into the flat list
/// `["M", x, y, "L", x, y, "Q", cx, cy, x, y, "C", ..., "Z"]`.
/// Returns `None` for an unknown command type or a truncated command.
pub fn parse_commands(bytes: &[u8]) -> (r: Option<Json>)
    ensures
        match command_items(bytes@, 0) {
            Some(items) => (r matches Some(j) && j@ == JsonV::Array(items)),
            None => r is None,
        },
{
    let mut commands: Vec<Json> = Vec::new();
    let mut offset: usize = 0;
    let n = bytes.len();
    while offset < n
        invariant
            n == bytes@.len(),
            offset <= n,
            command_items(bytes@, 0) == match command_items(bytes@, offset as int) {
                Some(rest) => Some(view_elems(commands@) + rest),
                None => None,
            },
        decreases n - offset,
    {
        let t = bytes[offset];
        let p = offset + 1;
        let k: usize = if t == 0 {
            0
        } else if t == 1 || t == 2 {
            2
        } else if t == 3 {
            4
        } else {
            6
        };
        if t > 4 || k > (n - p) / 4 {
            return None;
        }
        let ghost pre = commands@;
        let letter = Json::Str(command_string(t));
        commands.push(letter);
        assert(view_elems(commands@) =~= view_elems(pre).push(JsonV::Str(command_letter(t))));
        push_coords(&mut commands, bytes, p, k);
        proof {
            let rest = command_items(bytes@, p + 4 * k);
            assert(view_elems(pre) + (seq![JsonV::Str(command_letter(t))] + coords(bytes@, p as int, k as int))
                =~= view_elems(pre).push(JsonV::Str(command_letter(t))) + coords(bytes@, p as int, k as int));
            if rest is Some {
                assert(view_elems(pre) + (seq![JsonV::Str(command_letter(t))] + coords(bytes@, p as int, k as int)
                    + rest.unwrap()) =~= view_elems(commands@) + rest.unwrap());
            }
        }
        offset = p + 4 * k;
    }
    assert(view_elems(commands@) + Seq::<JsonV>::empty() =~= view_elems(commands@));
    proof {
        lemma_array_view(commands);
    }
    Some(Json::Array(commands))
}

/// A vertex: style, then position.
pub open spec fn vertex_json(b: Seq<u8>, off: int) -> JsonV {
    JsonV::Object(seq![("styleID"@, u32_at(b, off)), ("x"@, f32_at(b, off + 4)), ("y"@, f32_at(b, off + 8))])
}

/// A segment end: vertex index and tangent.
pub open spec fn end_json(b: Seq<u8>, off: int) -> JsonV {
    JsonV::Object(seq![("dx"@, f32_at(b, off + 4)), ("dy"@, f32_at(b, off + 8)), ("vertex"@, u32_at(b, off))])
}

/// A segment: style, start and end.
pub open spec fn segment_json(b: Seq<u8>, off: int) -> JsonV {
    JsonV::Object(seq![("end"@, end_json(b, off + 16)), ("start"@, end_json(b, off + 4)), ("styleID"@, u32_at(b, off))])
}

/// The winding rule packed in the lowest bit of a region's first word.
pub open spec fn winding_rule(w: int) -> Seq<char> {
    if w % 2 == 1 { "NONZERO"@ } else { "ODD"@ }
}

/// `count` vertices stored from `off` on, 12 bytes each, and the offset after them.
pub open spec fn spec_vertices(b: Seq<u8>, off: int, count: nat) -> Option<(Seq<JsonV>, int)>
    decreases count,
{
    if count == 0 {
        Some((Seq::empty(), off))
    } else if off + 12 > b.len() {
        None
    } else {
        match spec_vertices(b, off + 12, (count - 1) as nat) {
            Some((vs, o)) => Some((seq![vertex_json(b, off)] + vs, o)),
            None => None,
        }
    }
}

/// `count` segments stored from `off` on, 28 bytes each, whose vertex indices
/// must lie below `vcount`, and the offset after them.
pub open spec fn spec_segments(b: Seq<u8>, off: int, count: nat, vcount: int) -> Option<(Seq<JsonV>, int)>
    decreases count,
{
    if count == 0 {
        Some((Seq::empty(), off))
    } else if off + 28 > b.len() {
        None
    } else if u32_le(b, off + 4) >= vcount || u32_le(b, off + 16) >= vcount {
        None
    } else {
        match spec_segments(b, off + 28, (count - 1) as nat, vcount) {
            Some((ss, o)) => Some((seq![segment_json(b, off)] + ss, o)),
            None => None,
        }
    }
}

/// `count` segment indices stored from `off` on, each below `scount`.
pub open spec fn spec_indices(b: Seq<u8>, off: int, count: nat, scount: int) -> Option<Seq<JsonV>>
    decreases count,
{
    if count == 0 {
        Some(Seq::empty())
    } else if u32_le(b, off) >= scount {
        None
    } else {
        match spec_indices(b, off + 4, (count - 1) as nat, scount) {
            Some(xs) => Some(seq![u32_at(b, off)] + xs),
            None => None,
        }
    }
}

/// `count` loops stored from `off` on, each an index count followed by that
/// many segment indices, and the offset after them.
pub open spec fn spec_loops(b: Seq<u8>, off: int, count: nat, scount: int) -> Option<(Seq<JsonV>, int)>
    decreases count,
{
    if count == 0 {
        Some((Seq::empty(), off))
    } else if off + 4 > b.len() {
        None
    } else {
        let k = u32_le(b, off);
        let p = off + 4;
        if p + 4 * k > b.len() {
            None
        } else {
            match spec_indices(b, p, k as nat, scount) {
                None => None,
                Some(xs) => match spec_loops(b, p + 4 * k, (count - 1) as nat, scount) {
                    Some((ls, o)) => Some((seq![JsonV::Object(seq![("segments"@, JsonV::Array(xs))])] + ls, o)),
                    None => None,
                },
            }
        }
    }
}

/// `count` regions stored from `off` on, each a word holding style and
/// winding rule, a loop count and the loops, and the offset after them.
pub open spec fn spec_regions(b: Seq<u8>, off: int, count: nat, scount: int) -> Option<(Seq<JsonV>, int)>
    decreases count,
{
    if count == 0 {
        Some((Seq::empty(), off))
    } else if off + 8 > b.len() {
        None
    } else {
        let w = u32_le(b, off);
        match spec_loops(b, off + 8, u32_le(b, off + 4) as nat, scount) {
            None => None,
            Some((ls, o1)) => match spec_regions(b, o1, (count - 1) as nat, scount) {
                Some((rs, o)) => Some((
                    seq![
                        JsonV::Object(
                            seq![
                                ("loops"@, JsonV::Array(ls)),
                                ("styleID"@, JsonV::Number(JsonNumber::PosInt((w / 2) as u64))),
                                ("windingRule"@, JsonV::Str(winding_rule(w))),
                            ],
                        ),
                    ] + rs,
                    o,
                )),
                None => None,
            },
        }
    }
}

/// The vector network encoded in `b`: a header of vertex, segment and region
/// counts, then the vertices, the segments and the regions.
pub open spec fn spec_vector_network(b: Seq<u8>) -> Option<JsonV> {
    if b.len() < 12 {
        None
    } else {
        let vc = u32_le(b, 0);
        let sc = u32_le(b, 4);
        let rc = u32_le(b, 8);
        match spec_vertices(b, 12, vc as nat) {
            None => None,
            Some((vs, o1)) => match spec_segments(b, o1, sc as nat, vc) {
                None => None,
                Some((ss, o2)) => match spec_regions(b, o2, rc as nat, sc) {
                    None => None,
                    Some((rs, _o3)) => Some(
                        JsonV::Object(
                            seq![
                                ("regions"@, JsonV::Array(rs)),
                                ("segments"@, JsonV::Array(ss)),
                                ("vertices"@, JsonV::Array(vs)),
                            ],
                        ),
                    ),
                },
            },
        }
    }
}

fn obj1(k1: &str, v1: Json) -> (r: Json)
    ensures
        r@ == JsonV::Object(seq![(k1@, v1@)]),
{
    let mut es: Vec<(String, Json)> = Vec::new();
    let e1 = (k1.to_string(), v1);
    es.push(e1);
    proof {
        lemma_object_view(es);
    }
    let r = Json::Object(es);
    assert(r@->Object_0 =~= seq![(k1@, v1@)]);
    r
}

fn obj3(k1: &str, v1: Json, k2: &str, v2: Json, k3: &str, v3: Json) -> (r: Json)
    ensures
        r@ == JsonV::Object(seq![(k1@, v1@), (k2@, v2@), (k3@, v3@)]),
{
    let mut es: Vec<(String, Json)> = Vec::new();
    let e1 = (k1.to_string(), v1);
    let e2 = (k2.to_string(), v2);
    let e3 = (k3.to_string(), v3);
    es.push(e1);
    es.push(e2);
    es.push(e3);
    proof {
        lemma_object_view(es);
    }
    let r = Json::Object(es);
    assert(r@->Object_0 =~= seq![(k1@, v1@), (k2@, v2@), (k3@, v3@)]);
    r
}

fn u32_json(x: u32) -> (r: Json)
    ensures
        r@ == JsonV::Number(JsonNumber::PosInt(x as u64)),
{
    Json::Number(JsonNumber::PosInt(x as u64))
}

fn parse_vertices(b: &[u8], off: usize, count: usize) -> (r: Option<(Vec<Json>, usize)>)
    ensures
        match spec_vertices(b@, off as int, count as nat) {
            Some((vs, o)) => (r matches Some((v, o2)) && view_elems(v@) == vs && o2 == o),
            None => r is None,
        },
{
    let n = b.len();
    let mut out: Vec<Json> = Vec::new();
    let mut offset = off;
    let mut i: usize = 0;
    while i < count
        invariant
            n == b@.len(),
            i <= count,
            spec_vertices(b@, off as int, count as nat) == match spec_vertices(b@, offset as int, (count - i) as nat) {
                Some((vs, o)) => Some((view_elems(out@) + vs, o)),
                None => None,
            },
        decreases count - i,
    {
        if offset > n || n - offset < 12 {
            return None;
        }
        let style = u32_json(read_u32_le(b, offset));
        let x = f32_bits_to_json(read_u32_le(b, offset + 4));
        let y = f32_bits_to_json(read_u32_le(b, offset + 8));
        let v = obj3("styleID", style, "x", x, "y", y);
        let ghost pre = out@;
        out.push(v);
        proof {
            assert(view_elems(out@) =~= view_elems(pre).push(vertex_json(b@, offset as int)));
            match spec_vertices(b@, offset + 12, (count - i - 1) as nat) {
                Some((vs, o)) => {
                    assert(view_elems(pre) + (seq![vertex_json(b@, offset as int)] + vs) =~= view_elems(out@) + vs);
                },
                None => {},
            }
        }
        offset = offset + 12;
        i = i + 1;
    }
    assert(view_elems(out@) + Seq::<JsonV>::empty() =~= view_elems(out@));
    Some((out, offset))
}

fn parse_segments(b: &[u8], off: usize, count: usize, vcount: usize) -> (r: Option<(Vec<Json>, usize)>)
    ensures
        match spec_segments(b@, off as int, count as nat, vcount as int) {
            Some((ss, o)) => (r matches Some((v, o2)) && view_elems(v@) == ss && o2 == o),
            None => r is None,
        },
{
    let n = b.len();
    let mut out: Vec<Json> = Vec::new();
    let mut offset = off;
    let mut i: usize = 0;
    while i < count
        invariant
            n == b@.len(),
            i <= count,
            spec_segments(b@, off as int, count as nat, vcount as int) == match spec_segments(
                b@,
                offset as int,
                (count - i) as nat,
                vcount as int,
            ) {
                Some((ss, o)) => Some((view_elems(out@) + ss, o)),
                None => None,
            },
        decreases count - i,
    {
        if offset > n || n - offset < 28 {
            return None;
        }
        let style = read_u32_le(b, offset);
        let sv = read_u32_le(b, offset + 4);
        let sdx = f32_bits_to_json(read_u32_le(b, offset + 8));
        let sdy = f32_bits_to_json(read_u32_le(b, offset + 12));
        let ev = read_u32_le(b, offset + 16);
        let edx = f32_bits_to_json(read_u32_le(b, offset + 20));
        let edy = f32_bits_to_json(read_u32_le(b, offset + 24));
        if sv as usize >= vcount || ev as usize >= vcount {
            return None;
        }
        let start = obj3("dx", sdx, "dy", sdy, "vertex", u32_json(sv));
        let end = obj3("dx", edx, "dy", edy, "vertex", u32_json(ev));
        let seg = obj3("end", end, "start", start, "styleID", u32_json(style));
        let ghost pre = out@;
        out.push(seg);
        proof {
            assert(view_elems(out@) =~= view_elems(pre).push(segment_json(b@, offset as int)));
            match spec_segments(b@, offset + 28, (count - i - 1) as nat, vcount as int) {
                Some((ss, o)) => {
                    assert(view_elems(pre) + (seq![segment_json(b@, offset as int)] + ss) =~= view_elems(out@) + ss);
                },
                None => {},
            }
        }
        offset = offset + 28;
        i = i + 1;
    }
    assert(view_elems(out@) + Seq::<JsonV>::empty() =~= view_elems(out@));
    Some((out, offset))
}

fn parse_indices(b: &[u8], off: usize, count: usize, scount: usize) -> (r: Option<Vec<Json>>)
    requires
        off + 4 * count <= b@.len(),
    ensures
        match spec_indices(b@, off as int, count as nat, scount as int) {
            Some(xs) => (r matches Some(v) && view_elems(v@) == xs),
            None => r is None,
        },
{
    let n = b.len();
    let mut out: Vec<Json> = Vec::new();
    let mut offset = off;
    let mut i: usize = 0;
    while i < count
        invariant
            n == b@.len(),
            i <= count,
            offset == off + 4 * i,
            off + 4 * count <= n,
            spec_indices(b@, off as int, count as nat, scount as int) == match spec_indices(
                b@,
                offset as int,
                (count - i) as nat,
                scount as int,
            ) {
                Some(xs) => Some(view_elems(out@) + xs),
                None => None,
            },
        decreases count - i,
    {
        let idx = read_u32_le(b, offset);
        if idx as usize >= scount {
            return None;
        }
        let ghost pre = out@;
        out.push(u32_json(idx));
        proof {
            assert(view_elems(out@) =~= view_elems(pre).push(u32_at(b@, offset as int)));
            match spec_indices(b@, offset + 4, (count - i - 1) as nat, scount as int) {
                Some(xs) => {
                    assert(view_elems(pre) + (seq![u32_at(b@, offset as int)] + xs) =~= view_elems(out@) + xs);
                },
                None => {},
            }
        }
        offset = offset + 4;
        i = i + 1;
    }
    assert(view_elems(out@) + Seq::<JsonV>::empty() =~= view_elems(out@));
    Some(out)
}

fn parse_loops(b: &[u8], off: usize, count: usize, scount: usize) -> (r: Option<(Vec<Json>, usize)>)
    ensures
        match spec_loops(b@, off as int, count as nat, scount as int) {
            Some((ls, o)) => (r matches Some((v, o2)) && view_elems(v@) == ls && o2 == o),
            None => r is None,
        },
{
    let n = b.len();
    let mut out: Vec<Json> = Vec::new();
    let mut offset = off;
    let mut i: usize = 0;
    while i < count
        invariant
            n == b@.len(),
            i <= count,
            spec_loops(b@, off as int, count as nat, scount as int) == match spec_loops(
                b@,
                offset as int,
                (count - i) as nat,
                scount as int,
            ) {
                Some((ls, o)) => Some((view_elems(out@) + ls, o)),
                None => None,
            },
        decreases count - i,
    {
        if offset > n || n - offset < 4 {
            return None;
        }
        let k = read_u32_le(b, offset) as usize;
        let p = offset + 4;
        if k > (n - p) / 4 {
            return None;
        }
        let idx = match parse_indices(b, p, k, scount) {
            Some(v) => v,
            None => {
                return None;
            },
        };
        let ghost xs = view_elems(idx@);
        proof {
            lemma_array_view(idx);
        }
        let lp = obj1("segments", Json::Array(idx));
        let ghost pre = out@;
        out.push(lp);
        proof {
            let lj = JsonV::Object(seq![("segments"@, JsonV::Array(xs))]);
            assert(view_elems(out@) =~= view_elems(pre).push(lj));
            match spec_loops(b@, p + 4 * k, (count - i - 1) as nat, scount as int) {
                Some((ls, o)) => {
                    assert(view_elems(pre) + (seq![lj] + ls) =~= view_elems(out@) + ls);
                },
                None => {},
            }
        }
        offset = p + 4 * k;
        i = i + 1;
    }
    assert(view_elems(out@) + Seq::<JsonV>::empty() =~= view_elems(out@));
    Some((out, offset))
}

fn winding_string(w: u32) -> (r: String)
    ensures
        r@ == winding_rule(w as int),
{
    if w % 2 == 1 {
        String::from_str("NONZERO")
    } else {
        String::from_str("ODD")
    }
}

fn parse_regions(b: &[u8], off: usize, count: usize, scount: usize) -> (r: Option<(Vec<Json>, usize)>)
    ensures
        match spec_regions(b@, off as int, count as nat, scount as int) {
            Some((rs, o)) => (r matches Some((v, o2)) && view_elems(v@) == rs && o2 == o),
            None => r is None,
        },
{
    let n = b.len();
    let mut out: Vec<Json> = Vec::new();
    let mut offset = off;
    let mut i: usize = 0;
    while i < count
        invariant
            n == b@.len(),
            i <= count,
            spec_regions(b@, off as int, count as nat, scount as int) == match spec_regions(
                b@,
                offset as int,
                (count - i) as nat,
                scount as int,
            ) {
                Some((rs, o)) => Some((view_elems(out@) + rs, o)),
                None => None,
            },
        decreases count - i,
    {
        if offset > n || n - offset < 8 {
            return None;
        }
        let w = read_u32_le(b, offset);
        let lc = read_u32_le(b, offset + 4) as usize;
        let (loops, o1) = match parse_loops(b, offset + 8, lc, scount) {
            Some(x) => x,
            None => {
                return None;
            },
        };
        let ghost ls = view_elems(loops@);
        proof {
            lemma_array_view(loops);
        }
        let region = obj3(
            "loops",
            Json::Array(loops),
            "styleID",
            u32_json(w / 2),
            "windingRule",
            Json::Str(winding_string(w)),
        );
        let ghost rj = JsonV::Object(
            seq![
                ("loops"@, JsonV::Array(ls)),
                ("styleID"@, JsonV::Number(JsonNumber::PosInt((w / 2) as u64))),
                ("windingRule"@, JsonV::Str(winding_rule(w as int))),
            ],
        );
        assert(region@ == rj);
        let ghost pre = out@;
        out.push(region);
        proof {
            assert(view_elems(out@) =~= view_elems(pre).push(rj));
            match spec_regions(b@, o1 as int, (count - i - 1) as nat, scount as int) {
                Some((rs, o)) => {
                    assert(view_elems(pre) + (seq![rj] + rs) =~= view_elems(out@) + rs);
                },
                None => {},
            }
        }
        offset = o1;
        i = i + 1;
    }
    assert(view_elems(out@) + Seq::<JsonV>::empty() =~= view_elems(out@));
    Some((out, offset))
}

/// Decodes a binary vector network into
/// `{"regions": [...], "segments": [...], "vertices": [...]}`. Returns `None`
/// for truncated data or an index out of range.
pub fn parse_vector_network(bytes: &[u8]) -> (r: Option<Json>)
    ensures
        match spec_vector_network(bytes@) {
            Some(j) => (r matches Some(x) && x@ == j),
            None => r is None,
        },
{
    if bytes.len() < 12 {
        return None;
    }
    let vc = read_u32_le(bytes, 0) as usize;
    let sc = read_u32_le(bytes, 4) as usize;
    let rc = read_u32_le(bytes, 8) as usize;
    let (vs, o1) = match parse_vertices(bytes, 12, vc) {
        Some(x) => x,
        None => {
            return None;
        },
    };
    let (ss, o2) = match parse_segments(bytes, o1, sc, vc) {
        Some(x) => x,
        None => {
            return None;
        },
    };
    let (rs, _o3) = match parse_regions(bytes, o2, rc, sc) {
        Some(x) => x,
        None => {
            return None;
        },
    };
    proof {
        lemma_array_view(vs);
        lemma_array_view(ss);
        lemma_array_view(rs);
    }
    Some(obj3("regions", Json::Array(rs), "segments", Json::Array(ss), "vertices", Json::Array(vs)))
}

} // verus!
