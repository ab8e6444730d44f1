use vstd::prelude::*;
use vstd::string::StrSliceExecFns;
use crate::json::{Json, JsonNumber, JsonV, jget, view_elems, lemma_array_view, lemma_object_view};
use crate::canvas::{name_of, kids_of, node_name, lemma_kids_smaller, pair_view, last_guid, lookup_guid_name, document_of,
    canvases_of, first_named, last_named, type_text, find_layer, find_node_by_name, get_canvas, get_document, node_type,
    hash_hex, hash_to_hex};
use crate::tree::{text_lt, text_less, lemma_text_lt_total, lemma_text_lt_trans};
use crate::text::str_equal;
use crate::nodes::{guid_text, guid_string};
use crate::summaries::{u64_or_zero, u64_field_or_zero_pub};
use crate::text::{push_char, push_str};

verus! {

/// The path of a node named `name` below a node at `path`: names joined by `/`.
pub open spec fn child_path(path: Seq<char>, name: Seq<char>) -> Seq<char> {
    if path.len() == 0 {
        name
    } else {
        path + seq!['/'] + name
    }
}

/// Position of the last `/` of `p`, or -1.
pub open spec fn last_slash(p: Seq<char>) -> int
    decreases p.len(),
{
    if p.len() == 0 {
        -1
    } else if p.last() == '/' {
        p.len() - 1
    } else {
        last_slash(p.drop_last())
    }
}

pub proof fn lemma_last_slash(p: Seq<char>)
    ensures
        -1 <= last_slash(p) < p.len(),
        last_slash(p) >= 0 ==> p[last_slash(p)] == '/',
        forall|i: int| last_slash(p) < i < p.len() ==> p[i] != '/',
    decreases p.len(),
{
    if p.len() > 0 && p.last() != '/' {
        lemma_last_slash(p.drop_last());
        assert forall|i: int| last_slash(p) < i < p.len() implies p[i] != '/' by {
            if i < p.len() - 1 {
                assert(p.drop_last()[i] == p[i]);
            }
        }
    }
}

/// The last `k` components of a `/`-separated path, joined by `/`.
pub open spec fn last_components(p: Seq<char>, k: nat) -> Seq<char>
    decreases p.len(),
{
    if k == 0 {
        Seq::empty()
    } else if last_slash(p) < 0 {
        p
    } else if k == 1 {
        p.skip(last_slash(p) + 1)
    } else {
        proof {
            lemma_last_slash(p);
        }
        last_components(p.take(last_slash(p)), (k - 1) as nat) + seq!['/'] + p.skip(last_slash(p) + 1)
    }
}

/// The next-to-last component of a `/`-separated path, if it has two.
pub open spec fn parent_component(p: Seq<char>) -> Option<Seq<char>> {
    if last_slash(p) < 0 {
        None
    } else {
        let q = p.take(last_slash(p));
        Some(q.skip(last_slash(q) + 1))
    }
}

fn find_last_slash(s: &str) -> (r: Option<usize>)
    ensures
        match r {
            Some(i) => i == last_slash(s@),
            None => last_slash(s@) < 0,
        },
{
    let n = s.unicode_len();
    let mut i: usize = n;
    assert(s@.take(n as int) =~= s@);
    while i > 0
        invariant
            i <= n,
            n == s@.len(),
            last_slash(s@) == last_slash(s@.take(i as int)),
        decreases i,
    {
        let c = s.get_char(i - 1);
        assert(s@.take(i as int).last() == c);
        if c == '/' {
            return Some(i - 1);
        }
        assert(s@.take(i as int).drop_last() =~= s@.take(i - 1));
        i = i - 1;
    }
    None
}

/// The path of a child named `name` of the node at `path`.
pub fn child_path_of(path: &str, name: &str) -> (r: String)
    ensures
        r@ == child_path(path@, name@),
{
    let mut out = path.to_string();
    if path.unicode_len() > 0 {
        push_char(&mut out, '/');
    }
    push_str(&mut out, name);
    out
}

/// The last `k` components of a `/`-separated path (see `last_components`).
pub fn last_path_components(p: &str, k: usize) -> (r: String)
    ensures
        r@ == last_components(p@, k as nat),
    decreases p@.len(),
{
    if k == 0 {
        return String::new();
    }
    match find_last_slash(p) {
        None => p.to_string(),
        Some(j) => {
            proof {
                lemma_last_slash(p@);
            }
            let n = p.unicode_len();
            let tail = p.substring_char(j + 1, n);
            assert(tail@ =~= p@.skip(j + 1));
            if k == 1 {
                tail.to_string()
            } else {
                let head = p.substring_char(0, j);
                assert(head@ =~= p@.take(j as int));
                let mut out = last_path_components(head, k - 1);
                push_char(&mut out, '/');
                push_str(&mut out, tail);
                out
            }
        },
    }
}

/// The next-to-last component of a `/`-separated path, if it has two.
pub fn parent_of_path(p: &str) -> (r: Option<String>)
    ensures
        match parent_component(p@) {
            Some(t) => (r matches Some(s) && s@ == t),
            None => r is None,
        },
{
    match find_last_slash(p) {
        None => None,
        Some(j) => {
            proof {
                lemma_last_slash(p@);
            }
            let head = p.substring_char(0, j);
            assert(head@ =~= p@.take(j as int));
            let m = head.unicode_len();
            match find_last_slash(head) {
                None => {
                    proof {
                        lemma_last_slash(head@);
                    }
                    assert(head@.skip(last_slash(head@) + 1) =~= head@);
                    assert(parent_component(p@) == Some(head@));
                    Some(head.to_string())
                },
                Some(t) => {
                    proof {
                        lemma_last_slash(head@);
                    }
                    let last = head.substring_char(t + 1, m);
                    assert(last@ =~= head@.skip(t + 1));
                    assert(parent_component(p@) == Some(last@));
                    Some(last.to_string())
                },
            }
        },
    }
}

/// Every node below `v` with its path, in pre-order: a node's path is its
/// parent's path and its own name (`?` where it has none).
pub open spec fn path_walk(v: JsonV, path: Seq<char>) -> Seq<(JsonV, Seq<char>)>
    decreases v, 0int,
{
    let here = child_path(path, name_of(v));
    let ks = kids_of(v);
    if ks.len() == 0 {
        seq![(v, here)]
    } else {
        proof {
            lemma_kids_smaller(v);
        }
        seq![(v, here)] + path_walk_in(ks, here, ks.len() as int)
    }
}

/// The walks below the first `n` nodes of `xs`, all children of `path`.
pub open spec fn path_walk_in(xs: Seq<JsonV>, path: Seq<char>, n: int) -> Seq<(JsonV, Seq<char>)>
    decreases xs, n,
{
    if n <= 0 || n > xs.len() {
        Seq::empty()
    } else {
        proof {
            assert(decreases_to!(xs => xs[n - 1]));
        }
        path_walk_in(xs, path, n - 1) + path_walk(xs[n - 1], path)
    }
}

/// The contents of a list of (node, path) pairs.
pub open spec fn walk_view(v: Seq<(&Json, String)>) -> Seq<(JsonV, Seq<char>)> {
    v.map_values(|p: (&Json, String)| (p.0@, p.1@))
}

fn walk_exec<'a>(v: &'a Json, path: &str, out: &mut Vec<(&'a Json, String)>)
    ensures
        walk_view(final(out)@) == walk_view(old(out)@) + path_walk(v@, path@),
    decreases v,
{
    let here = child_path_of(path, node_name(v));
    let ghost start = walk_view(out@);
    let ghost pre = out@;
    out.push((v, here.clone()));
    let ghost mid = walk_view(out@);
    assert(mid =~= start + seq![(v@, here@)]);
    match v {
        Json::Object(es) => {
            proof {
                lemma_object_view(*es);
            }
            match Json::find_entry(es, "children") {
                Some(j) => match &es[j].1 {
                    Json::Array(a) => {
                        proof {
                            lemma_array_view(*a);
                        }
                        let ghost ks = view_elems(a@);
                        assert(ks == kids_of(v@));
                        let mut i: usize = 0;
                        while i < a.len()
                            invariant
                                *v == Json::Object(*es),
                                j < es@.len(),
                                es@[j as int].1 == Json::Array(*a),
                                ks == view_elems(a@),
                                i <= a@.len(),
                                walk_view(out@) == mid + path_walk_in(ks, here@, i as int),
                            decreases a@.len() - i,
                        {
                            proof {
                                vstd::std_specs::vec::axiom_vec_index_decreases(*es, j as int);
                                vstd::std_specs::vec::axiom_vec_index_decreases(*a, i as int);
                                assert(decreases_to!(*v => (*v)->Object_0));
                                assert(decreases_to!(es@[j as int] => es@[j as int].1));
                                assert(decreases_to!(es@[j as int].1 => (es@[j as int].1)->Array_0));
                                assert(decreases_to!(*v => a@[i as int]));
                            }
                            walk_exec(&a[i], here.as_str(), out);
                            assert(walk_view(out@) =~= mid + path_walk_in(ks, here@, i + 1));
                            i = i + 1;
                        }
                        if a.len() == 0 {
                            assert(walk_view(out@) =~= mid);
                        }
                    },
                    _ => {
                        assert(walk_view(out@) =~= mid);
                    },
                },
                None => {
                    assert(walk_view(out@) =~= mid);
                },
            }
        },
        _ => {
            assert(walk_view(out@) =~= mid);
        },
    }
}

/// Every node below `root` with its path, in pre-order (see `path_walk`).
pub fn walk_with_paths(root: &Json) -> (r: Vec<(&Json, String)>)
    ensures
        walk_view(r@) == path_walk(root@, Seq::empty()),
{
    let mut out: Vec<(&Json, String)> = Vec::new();
    walk_exec(root, "", &mut out);
    proof {
        reveal_strlit("");
    }
    assert(walk_view(out@) =~= Seq::<(JsonV, Seq<char>)>::empty() + path_walk(root@, Seq::empty()));
    out
}

/// The text an enum-like field holds: the `value` text of an object, or a
/// plain text.
pub open spec fn value_text(t: JsonV) -> Option<Seq<char>> {
    match t {
        JsonV::Object(_) => match jget(t, "value"@) {
            Some(JsonV::Str(s)) => Some(s),
            _ => None,
        },
        JsonV::Str(s) => Some(s),
        _ => None,
    }
}

/// The enum-like text of field `k` of `v`.
pub open spec fn field_text(v: JsonV, k: Seq<char>) -> Option<Seq<char>> {
    match jget(v, k) {
        Some(t) => value_text(t),
        None => None,
    }
}

/// An optional text, the empty text standing for none.
pub open spec fn or_empty(o: Option<Seq<char>>) -> Seq<char> {
    match o {
        Some(s) => s,
        None => Seq::empty(),
    }
}

/// The contents of an optional text.
pub open spec fn opt_text(r: Option<String>) -> Option<Seq<char>> {
    match r {
        Some(s) => Some(s@),
        None => None,
    }
}

/// The items of field `k` when it is an array; none otherwise.
pub open spec fn array_at(v: JsonV, k: Seq<char>) -> Seq<JsonV> {
    match jget(v, k) {
        Some(JsonV::Array(xs)) => xs,
        _ => Seq::empty(),
    }
}

/// Field `k` when it is a number.
pub open spec fn number_at(v: JsonV, k: Seq<char>) -> Option<JsonNumber> {
    match jget(v, k) {
        Some(JsonV::Number(n)) => Some(n),
        _ => None,
    }
}

/// The dash that stands for a missing value.
pub open spec fn dash() -> Seq<char> {
    seq!['\u{2014}']
}

/// The enum-like text of a field value (see `value_text`).
pub fn value_text_of(t: &Json) -> (r: Option<String>)
    ensures
        opt_text(r) == value_text(t@),
{
    match t {
        Json::Object(_) => match t.get("value") {
            Some(x) => match x.as_str() {
                Some(s) => Some(s.to_string()),
                None => None,
            },
            None => None,
        },
        Json::Str(s) => Some(s.clone()),
        _ => None,
    }
}

/// The enum-like text of field `k` of `v` (see `field_text`).
pub fn field_value_text(v: &Json, k: &str) -> (r: Option<String>)
    ensures
        opt_text(r) == field_text(v@, k@),
{
    match v.get(k) {
        Some(t) => value_text_of(t),
        None => None,
    }
}

fn text_or_empty(o: Option<String>) -> (r: String)
    ensures
        r@ == or_empty(opt_text(o)),
{
    match o {
        Some(s) => s,
        None => String::new(),
    }
}

/// The items of field `k` of `v` when it is an array.
pub fn array_field<'a>(v: &'a Json, k: &str) -> (r: &'a [Json])
    ensures
        view_elems(r@) == array_at(v@, k@),
{
    match v.get(k) {
        Some(x) => match x.as_array() {
            Some(a) => a.as_slice(),
            None => {
                let e: &[Json] = &[];
                assert(view_elems(e@) =~= Seq::<JsonV>::empty());
                e
            },
        },
        None => {
            let e: &[Json] = &[];
            assert(view_elems(e@) =~= Seq::<JsonV>::empty());
            e
        },
    }
}

/// Field `k` of `v` when it is a number.
pub fn number_field(v: &Json, k: &str) -> (r: Option<JsonNumber>)
    ensures
        r == number_at(v@, k@),
{
    match v.get(k) {
        Some(Json::Number(n)) => Some(*n),
        _ => None,
    }
}

fn dash_text() -> (r: String)
    ensures
        r@ == dash(),
{
    let mut s = String::new();
    push_char(&mut s, '\u{2014}');
    assert(s@ =~= dash());
    s
}

/// The name recorded last for GUID `k` in a list of (GUID, name) pairs.
pub open spec fn guid_name(guids: Seq<(Seq<char>, Seq<char>)>, k: Seq<char>) -> Option<Seq<char>> {
    if last_guid(guids, k) >= 0 {
        Some(guids[last_guid(guids, k)].1)
    } else {
        None
    }
}

/// The GUID text of a `transitionNodeID` object, missing parts read as 0.
pub open spec fn target_key(tid: JsonV) -> Seq<char> {
    guid_text(u64_or_zero(jget(tid, "sessionID"@)), u64_or_zero(jget(tid, "localID"@)))
}

/// Where an action leads, as a node's details show it: the name of the node
/// its `transitionNodeID` names, `GUID:` and the GUID where no node has it,
/// or a dash without a target.
pub open spec fn node_action_dest(action: JsonV, guids: Seq<(Seq<char>, Seq<char>)>) -> Seq<char> {
    match jget(action, "transitionNodeID"@) {
        Some(tid) => match guid_name(guids, target_key(tid)) {
            Some(n) => n,
            None => "GUID:"@ + target_key(tid),
        },
        None => dash(),
    }
}

/// Where an action leads, as the list of interactions shows it: the name of
/// the target node, a dash for the null GUID `0:0`, `GUID:` and the GUID of
/// an unknown node; without a target, `URL:` and the `connectionURL`, or a
/// dash.
pub open spec fn interaction_dest(action: JsonV, guids: Seq<(Seq<char>, Seq<char>)>) -> Seq<char> {
    match jget(action, "transitionNodeID"@) {
        Some(tid) => match guid_name(guids, target_key(tid)) {
            Some(n) => n,
            None => if u64_or_zero(jget(tid, "sessionID"@)) == 0 && u64_or_zero(jget(tid, "localID"@)) == 0 {
                dash()
            } else {
                "GUID:"@ + target_key(tid)
            },
        },
        None => match jget(action, "connectionURL"@) {
            Some(JsonV::Str(u)) => "URL:"@ + u,
            _ => dash(),
        },
    }
}

fn target_name(tid: &Json, guids: &Vec<(String, String)>) -> (r: (Option<String>, u64, u64, String))
    ensures
        opt_text(r.0) == guid_name(pair_view(guids@), target_key(tid@)),
        r.1 == u64_or_zero(jget(tid@, "sessionID"@)),
        r.2 == u64_or_zero(jget(tid@, "localID"@)),
        r.3@ == "GUID:"@ + target_key(tid@),
{
    let sid = u64_field_or_zero_pub(tid, "sessionID");
    let lid = u64_field_or_zero_pub(tid, "localID");
    let key = guid_string(sid, lid);
    let found = lookup_guid_name(guids, key.as_str());
    let mut tagged = String::from_str("GUID:");
    push_str(&mut tagged, key.as_str());
    (found, sid, lid, tagged)
}

/// Where an action leads, as a node's details show it (see `node_action_dest`).
pub fn node_action_destination(action: &Json, guids: &Vec<(String, String)>) -> (r: String)
    ensures
        r@ == node_action_dest(action@, pair_view(guids@)),
{
    match action.get("transitionNodeID") {
        Some(tid) => {
            let (found, _sid, _lid, tagged) = target_name(tid, guids);
            match found {
                Some(n) => n,
                None => tagged,
            }
        },
        None => dash_text(),
    }
}

/// Where an action leads, as the list of interactions shows it (see
/// `interaction_dest`).
pub fn interaction_destination(action: &Json, guids: &Vec<(String, String)>) -> (r: String)
    ensures
        r@ == interaction_dest(action@, pair_view(guids@)),
{
    match action.get("transitionNodeID") {
        Some(tid) => {
            let (found, sid, lid, tagged) = target_name(tid, guids);
            match found {
                Some(n) => n,
                None => if sid == 0 && lid == 0 {
                    dash_text()
                } else {
                    tagged
                },
            }
        },
        None => match action.get("connectionURL") {
            Some(Json::Str(u)) => {
                let mut s = String::from_str("URL:");
                push_str(&mut s, u.as_str());
                proof {
                    reveal_strlit("URL:");
                }
                s
            },
            _ => dash_text(),
        },
    }
}

/// One action of a prototype interaction, as the list of interactions shows
/// it: the running number of its interaction, the node that holds it and the
/// next-to-last component of that node's path, the trigger event, the
/// connection and navigation types, where it leads, the transition type and
/// the transition duration in seconds.
pub struct InteractionRow {
    pub count: u64,
    pub name: String,
    pub parent: String,
    pub event: String,
    pub connection: String,
    pub navigation: String,
    pub destination: String,
    pub transition: String,
    pub duration: Option<JsonNumber>,
}

/// The contents of an `InteractionRow`.
pub struct InteractionRowV {
    pub count: u64,
    pub name: Seq<char>,
    pub parent: Seq<char>,
    pub event: Seq<char>,
    pub connection: Seq<char>,
    pub navigation: Seq<char>,
    pub destination: Seq<char>,
    pub transition: Seq<char>,
    pub duration: Option<JsonNumber>,
}

impl View for InteractionRow {
    type V = InteractionRowV;

    open spec fn view(&self) -> InteractionRowV {
        InteractionRowV {
            count: self.count,
            name: self.name@,
            parent: self.parent@,
            event: self.event@,
            connection: self.connection@,
            navigation: self.navigation@,
            destination: self.destination@,
            transition: self.transition@,
            duration: self.duration,
        }
    }
}

/// A count held in 64 bits, stopping at the largest value.
pub open spec fn sat_u64(n: nat) -> u64 {
    if n > u64::MAX {
        u64::MAX
    } else {
        n as u64
    }
}

/// The trigger event of an interaction, or the empty text.
pub open spec fn interaction_event(inter: JsonV) -> Seq<char> {
    or_empty(
        match jget(inter, "event"@) {
            Some(e) => field_text(e, "interactionType"@),
            None => None,
        },
    )
}

/// The next-to-last component of a path, or a dash.
pub open spec fn parent_text(path: Seq<char>) -> Seq<char> {
    match parent_component(path) {
        Some(p) => p,
        None => dash(),
    }
}

/// The row of one action of the `count`-th interaction.
pub open spec fn action_row(
    action: JsonV,
    count: nat,
    name: Seq<char>,
    parent: Seq<char>,
    event: Seq<char>,
    guids: Seq<(Seq<char>, Seq<char>)>,
) -> InteractionRowV {
    InteractionRowV {
        count: sat_u64(count),
        name: name,
        parent: parent,
        event: event,
        connection: or_empty(field_text(action, "connectionType"@)),
        navigation: or_empty(field_text(action, "navigationType"@)),
        destination: interaction_dest(action, guids),
        transition: or_empty(field_text(action, "transitionType"@)),
        duration: number_at(action, "transitionDuration"@),
    }
}

/// The rows of the actions of the `count`-th interaction, in order.
pub open spec fn actions_rows(
    inter: JsonV,
    count: nat,
    name: Seq<char>,
    parent: Seq<char>,
    guids: Seq<(Seq<char>, Seq<char>)>,
) -> Seq<InteractionRowV> {
    let acts = array_at(inter, "actions"@);
    Seq::new(acts.len(), |k: int| action_row(acts[k], count, name, parent, interaction_event(inter), guids))
}

/// The rows of the first `n` interactions `xs` of one node, numbered on from
/// `before`.
pub open spec fn inters_rows(
    xs: Seq<JsonV>,
    n: int,
    before: nat,
    name: Seq<char>,
    parent: Seq<char>,
    guids: Seq<(Seq<char>, Seq<char>)>,
) -> Seq<InteractionRowV>
    decreases n,
{
    if n <= 0 || n > xs.len() {
        Seq::empty()
    } else {
        inters_rows(xs, n - 1, before, name, parent, guids) + actions_rows(
            xs[n - 1],
            (before + n) as nat,
            name,
            parent,
            guids,
        )
    }
}

/// The prototype interactions of a node.
pub open spec fn interactions_of(node: JsonV) -> Seq<JsonV> {
    array_at(node, "prototypeInteractions"@)
}

/// How many interactions the nodes of a walk hold.
pub open spec fn interaction_total(w: Seq<(JsonV, Seq<char>)>) -> nat
    decreases w.len(),
{
    if w.len() == 0 {
        0
    } else {
        interaction_total(w.drop_last()) + interactions_of(w.last().0).len()
    }
}

/// The rows of every action of every interaction of the nodes of a walk,
/// interactions numbered from 1 in walk order.
pub open spec fn walk_rows(w: Seq<(JsonV, Seq<char>)>, guids: Seq<(Seq<char>, Seq<char>)>) -> Seq<InteractionRowV>
    decreases w.len(),
{
    if w.len() == 0 {
        Seq::empty()
    } else {
        let xs = interactions_of(w.last().0);
        walk_rows(w.drop_last(), guids) + inters_rows(
            xs,
            xs.len() as int,
            interaction_total(w.drop_last()),
            name_of(w.last().0),
            parent_text(w.last().1),
            guids,
        )
    }
}

/// The contents of a list of rows.
pub open spec fn rows_view(v: Seq<InteractionRow>) -> Seq<InteractionRowV> {
    v.map_values(|x: InteractionRow| x@)
}

fn parent_or_dash(path: &str) -> (r: String)
    ensures
        r@ == parent_text(path@),
{
    match parent_of_path(path) {
        Some(p) => p,
        None => dash_text(),
    }
}

fn event_of(inter: &Json) -> (r: String)
    ensures
        r@ == interaction_event(inter@),
{
    match inter.get("event") {
        Some(e) => text_or_empty(field_value_text(e, "interactionType")),
        None => String::new(),
    }
}

fn push_action_rows(
    inter: &Json,
    count: u64,
    ghost_count: Ghost<nat>,
    name: &String,
    parent: &String,
    guids: &Vec<(String, String)>,
    out: &mut Vec<InteractionRow>,
)
    requires
        count == sat_u64(ghost_count@),
    ensures
        rows_view(final(out)@) == rows_view(old(out)@) + actions_rows(
            inter@,
            ghost_count@,
            name@,
            parent@,
            pair_view(guids@),
        ),
{
    let event = event_of(inter);
    let acts = array_field(inter, "actions");
    let ghost g = pair_view(guids@);
    let ghost want = actions_rows(inter@, ghost_count@, name@, parent@, g);
    let ghost start = rows_view(out@);
    let mut k: usize = 0;
    while k < acts.len()
        invariant
            k <= acts@.len(),
            view_elems(acts@) == array_at(inter@, "actions"@),
            want == actions_rows(inter@, ghost_count@, name@, parent@, g),
            g == pair_view(guids@),
            event@ == interaction_event(inter@),
            count == sat_u64(ghost_count@),
            rows_view(out@) == start + want.take(k as int),
        decreases acts@.len() - k,
    {
        let a = &acts[k];
        let row = InteractionRow {
            count: count,
            name: name.clone(),
            parent: parent.clone(),
            event: event.clone(),
            connection: text_or_empty(field_value_text(a, "connectionType")),
            navigation: text_or_empty(field_value_text(a, "navigationType")),
            destination: interaction_destination(a, guids),
            transition: text_or_empty(field_value_text(a, "transitionType")),
            duration: number_field(a, "transitionDuration"),
        };
        assert(row@ == want[k as int]);
        let ghost pre = out@;
        out.push(row);
        assert(rows_view(out@) =~= rows_view(pre).push(row@));
        assert(want.take(k + 1) =~= want.take(k as int).push(want[k as int]));
        k = k + 1;
    }
    assert(want.take(acts@.len() as int) =~= want);
}

/// Every action of every prototype interaction below `root` (see
/// `walk_rows`), and how many interactions there are; `guids` is the GUID
/// map of the document.
pub fn interaction_rows(root: &Json, guids: &Vec<(String, String)>) -> (r: (Vec<InteractionRow>, u64))
    ensures
        rows_view(r.0@) == walk_rows(path_walk(root@, Seq::empty()), pair_view(guids@)),
        r.1 == sat_u64(interaction_total(path_walk(root@, Seq::empty()))),
{
    let w = walk_with_paths(root);
    let ghost wv = walk_view(w@);
    let ghost g = pair_view(guids@);
    let mut out: Vec<InteractionRow> = Vec::new();
    let mut count: u64 = 0;
    let mut i: usize = 0;
    assert(wv.take(0) =~= Seq::<(JsonV, Seq<char>)>::empty());
    while i < w.len()
        invariant
            i <= w@.len(),
            wv == walk_view(w@),
            g == pair_view(guids@),
            rows_view(out@) == walk_rows(wv.take(i as int), g),
            count == sat_u64(interaction_total(wv.take(i as int))),
        decreases w@.len() - i,
    {
        let node = w[i].0;
        let name = node_name(node).to_string();
        let parent = parent_or_dash(w[i].1.as_str());
        let xs = array_field(node, "prototypeInteractions");
        let ghost before = interaction_total(wv.take(i as int));
        let ghost start = rows_view(out@);
        assert(wv[i as int] == (node@, w@[i as int].1@));
        let mut j: usize = 0;
        while j < xs.len()
            invariant
                j <= xs@.len(),
                view_elems(xs@) == interactions_of(node@),
                g == pair_view(guids@),
                name@ == name_of(node@),
                parent@ == parent_text(w@[i as int].1@),
                rows_view(out@) == start + inters_rows(view_elems(xs@), j as int, before, name@, parent@, g),
                count == sat_u64((before + j) as nat),
            decreases xs@.len() - j,
        {
            count = count.saturating_add(1);
            push_action_rows(&xs[j], count, Ghost((before + j + 1) as nat), &name, &parent, guids, &mut out);
            assert(rows_view(out@) =~= start + inters_rows(view_elems(xs@), j + 1, before, name@, parent@, g));
            j = j + 1;
        }
        assert(wv.take(i + 1).drop_last() =~= wv.take(i as int));
        assert(wv.take(i + 1).last() == wv[i as int]);
        i = i + 1;
    }
    assert(wv.take(w@.len() as int) =~= wv);
    (out, count)
}

/// A query that found nothing: the named layer, or the named node.
#[derive(Debug, Clone, Copy, PartialEq, Eq, Structural)]
pub enum QueryError {
    LayerNotFound,
    NodeNotFound,
}

/// The contents of an optional reference to a document.
pub open spec fn opt_json(r: Option<&Json>) -> Option<JsonV> {
    match r {
        Some(x) => Some(x@),
        None => None,
    }
}

/// The contents of an optional name.
pub open spec fn opt_name(r: Option<&str>) -> Option<Seq<char>> {
    match r {
        Some(x) => Some(x@),
        None => None,
    }
}

/// The first layer (direct child of the first page) named `name`.
pub open spec fn layer_of(data: JsonV, name: Seq<char>) -> Option<JsonV> {
    if canvases_of(data).len() == 0 {
        None
    } else {
        let ks = kids_of(canvases_of(data)[0]);
        let i = first_named(ks, name);
        if i >= 0 {
            Some(ks[i])
        } else {
            None
        }
    }
}

/// The node a query searches: the named layer, or the whole document.
pub open spec fn search_root_of(data: JsonV, layer: Option<Seq<char>>) -> Option<JsonV> {
    match layer {
        Some(l) => layer_of(data, l),
        None => Some(document_of(data)),
    }
}

/// The node a tree listing starts from: the named layer; or the data itself
/// when it is a page (type `CANVAS`); or the first page, or the document when
/// there is no page.
pub open spec fn tree_root_of(data: JsonV, layer: Option<Seq<char>>) -> Option<JsonV> {
    match layer {
        Some(l) => layer_of(data, l),
        None => if type_text(data) == "CANVAS"@ {
            Some(data)
        } else if canvases_of(data).len() > 0 {
            Some(canvases_of(data)[0])
        } else {
            Some(document_of(data))
        },
    }
}

/// The node named `name` that a query for it settles on, within the named
/// layer or the whole document.
pub open spec fn node_lookup(data: JsonV, name: Seq<char>, layer: Option<Seq<char>>) -> Result<JsonV, QueryError> {
    match search_root_of(data, layer) {
        None => Err(QueryError::LayerNotFound),
        Some(root) => match last_named(root, name) {
            Some(n) => Ok(n),
            None => Err(QueryError::NodeNotFound),
        },
    }
}

fn layer_named<'a>(data: &'a Json, name: &str) -> (r: Option<&'a Json>)
    ensures
        opt_json(r) == layer_of(data@, name@),
{
    find_layer(data, name)
}

/// The node a query searches (see `search_root_of`).
pub fn search_root<'a>(data: &'a Json, layer: Option<&str>) -> (r: Option<&'a Json>)
    ensures
        opt_json(r) == search_root_of(data@, opt_name(layer)),
{
    match layer {
        Some(l) => layer_named(data, l),
        None => Some(get_document(data)),
    }
}

/// The node a tree listing starts from (see `tree_root_of`).
pub fn tree_root<'a>(data: &'a Json, layer: Option<&str>) -> (r: Option<&'a Json>)
    ensures
        opt_json(r) == tree_root_of(data@, opt_name(layer)),
{
    proof {
        reveal_strlit("CANVAS");
    }
    match layer {
        Some(l) => layer_named(data, l),
        None => if str_equal(node_type(data).as_str(), "CANVAS") {
            Some(data)
        } else {
            match get_canvas(data) {
                Some(c) => Some(c),
                None => Some(get_document(data)),
            }
        },
    }
}

/// The node named `name` within the named layer or the whole document (see
/// `node_lookup`).
pub fn find_node<'a>(data: &'a Json, name: &str, layer: Option<&str>) -> (r: Result<&'a Json, QueryError>)
    ensures
        match node_lookup(data@, name@, opt_name(layer)) {
            Ok(n) => (r matches Ok(x) && x@ == n),
            Err(e) => r == Err::<&Json, QueryError>(e),
        },
{
    match search_root(data, layer) {
        None => Err(QueryError::LayerNotFound),
        Some(root) => match find_node_by_name(root, name) {
            Some(n) => Ok(n),
            None => Err(QueryError::NodeNotFound),
        },
    }
}

/// One action of an interaction, as a node's details show it: connection
/// and navigation types, where it leads, its URL, transition type, duration
/// in seconds and easing.
pub struct ActionDetail {
    pub connection: String,
    pub navigation: String,
    pub destination: String,
    pub url: String,
    pub transition: String,
    pub duration: Option<JsonNumber>,
    pub easing: Option<String>,
}

/// The contents of an `ActionDetail`.
pub struct ActionDetailV {
    pub connection: Seq<char>,
    pub navigation: Seq<char>,
    pub destination: Seq<char>,
    pub url: Seq<char>,
    pub transition: Seq<char>,
    pub duration: Option<JsonNumber>,
    pub easing: Option<Seq<char>>,
}

impl View for ActionDetail {
    type V = ActionDetailV;

    open spec fn view(&self) -> ActionDetailV {
        ActionDetailV {
            connection: self.connection@,
            navigation: self.navigation@,
            destination: self.destination@,
            url: self.url@,
            transition: self.transition@,
            duration: self.duration,
            easing: opt_text(self.easing),
        }
    }
}

/// The details of one action.
pub open spec fn action_detail(a: JsonV, guids: Seq<(Seq<char>, Seq<char>)>) -> ActionDetailV {
    ActionDetailV {
        connection: or_empty(field_text(a, "connectionType"@)),
        navigation: or_empty(field_text(a, "navigationType"@)),
        destination: node_action_dest(a, guids),
        url: or_empty(
            match jget(a, "connectionURL"@) {
                Some(JsonV::Str(u)) => Some(u),
                _ => None,
            },
        ),
        transition: or_empty(field_text(a, "transitionType"@)),
        duration: number_at(a, "transitionDuration"@),
        easing: field_text(a, "easingType"@),
    }
}

/// Each interaction of a node: its trigger event and the details of its
/// actions.
pub open spec fn node_interactions_of(node: JsonV, guids: Seq<(Seq<char>, Seq<char>)>) -> Seq<
    (Seq<char>, Seq<ActionDetailV>),
> {
    interactions_of(node).map_values(
        |i: JsonV|
            (interaction_event(i), array_at(i, "actions"@).map_values(|a: JsonV| action_detail(a, guids))),
    )
}

/// The contents of a list of interactions with their action details.
pub open spec fn details_view(v: Seq<(String, Vec<ActionDetail>)>) -> Seq<(Seq<char>, Seq<ActionDetailV>)> {
    v.map_values(|p: (String, Vec<ActionDetail>)| (p.0@, p.1@.map_values(|d: ActionDetail| d@)))
}

fn action_details(inter: &Json, guids: &Vec<(String, String)>) -> (r: Vec<ActionDetail>)
    ensures
        r@.map_values(|d: ActionDetail| d@) == array_at(inter@, "actions"@).map_values(
            |a: JsonV| action_detail(a, pair_view(guids@)),
        ),
{
    let acts = array_field(inter, "actions");
    let ghost want = array_at(inter@, "actions"@).map_values(|a: JsonV| action_detail(a, pair_view(guids@)));
    let mut out: Vec<ActionDetail> = Vec::new();
    let mut k: usize = 0;
    while k < acts.len()
        invariant
            k <= acts@.len(),
            view_elems(acts@) == array_at(inter@, "actions"@),
            want == array_at(inter@, "actions"@).map_values(|a: JsonV| action_detail(a, pair_view(guids@))),
            out@.map_values(|d: ActionDetail| d@) == want.take(k as int),
        decreases acts@.len() - k,
    {
        let a = &acts[k];
        let url = match a.get("connectionURL") {
            Some(Json::Str(u)) => u.clone(),
            _ => String::new(),
        };
        let d = ActionDetail {
            connection: text_or_empty(field_value_text(a, "connectionType")),
            navigation: text_or_empty(field_value_text(a, "navigationType")),
            destination: node_action_destination(a, guids),
            url: url,
            transition: text_or_empty(field_value_text(a, "transitionType")),
            duration: number_field(a, "transitionDuration"),
            easing: field_value_text(a, "easingType"),
        };
        assert(d@ == want[k as int]);
        let ghost pre = out@;
        out.push(d);
        assert(out@.map_values(|d: ActionDetail| d@) =~= pre.map_values(|d: ActionDetail| d@).push(d@));
        assert(want.take(k + 1) =~= want.take(k as int).push(want[k as int]));
        k = k + 1;
    }
    assert(want.take(acts@.len() as int) =~= want);
    out
}

/// Each prototype interaction of a node with the details of its actions
/// (see `node_interactions_of`); `guids` is the GUID map of the document.
pub fn node_interactions(node: &Json, guids: &Vec<(String, String)>) -> (r: Vec<(String, Vec<ActionDetail>)>)
    ensures
        details_view(r@) == node_interactions_of(node@, pair_view(guids@)),
{
    let xs = array_field(node, "prototypeInteractions");
    let ghost want = node_interactions_of(node@, pair_view(guids@));
    let mut out: Vec<(String, Vec<ActionDetail>)> = Vec::new();
    let mut j: usize = 0;
    while j < xs.len()
        invariant
            j <= xs@.len(),
            view_elems(xs@) == interactions_of(node@),
            want == node_interactions_of(node@, pair_view(guids@)),
            details_view(out@) == want.take(j as int),
        decreases xs@.len() - j,
    {
        let ev = event_of(&xs[j]);
        let ds = action_details(&xs[j], guids);
        let ghost pre = out@;
        out.push((ev, ds));
        assert(details_view(out@) =~= details_view(pre).push((ev@, ds@.map_values(|d: ActionDetail| d@))));
        assert(want.take(j + 1) =~= want.take(j as int).push(want[j as int]));
        j = j + 1;
    }
    assert(want.take(xs@.len() as int) =~= want);
    out
}

/// The depth below a node at depth `d`, stopping at the largest value.
pub open spec fn next_depth(d: usize) -> usize {
    if d == usize::MAX {
        d
    } else {
        (d + 1) as usize
    }
}

/// The nodes a tree listing shows below `v` at depth `depth`, with their
/// depths, in pre-order: none deeper than `max`.
pub open spec fn tree_rows_of(v: JsonV, depth: usize, max: Option<usize>) -> Seq<(JsonV, usize)>
    decreases v, 0int,
{
    if max is Some && depth > max->0 {
        Seq::empty()
    } else {
        let ks = kids_of(v);
        if ks.len() == 0 {
            seq![(v, depth)]
        } else {
            proof {
                lemma_kids_smaller(v);
            }
            seq![(v, depth)] + tree_rows_in(ks, ks.len() as int, next_depth(depth), max)
        }
    }
}

/// The rows below the first `n` nodes of `xs`, all at depth `depth`.
pub open spec fn tree_rows_in(xs: Seq<JsonV>, n: int, depth: usize, max: Option<usize>) -> Seq<(JsonV, usize)>
    decreases xs, n,
{
    if n <= 0 || n > xs.len() {
        Seq::empty()
    } else {
        proof {
            assert(decreases_to!(xs => xs[n - 1]));
        }
        tree_rows_in(xs, n - 1, depth, max) + tree_rows_of(xs[n - 1], depth, max)
    }
}

/// The contents of a list of (node, depth) rows.
pub open spec fn depth_view(v: Seq<(&Json, usize)>) -> Seq<(JsonV, usize)> {
    v.map_values(|p: (&Json, usize)| (p.0@, p.1))
}

fn tree_rows_exec<'a>(v: &'a Json, depth: usize, max: Option<usize>, out: &mut Vec<(&'a Json, usize)>)
    ensures
        depth_view(final(out)@) == depth_view(old(out)@) + tree_rows_of(v@, depth, max),
    decreases v,
{
    let ghost start = depth_view(out@);
    match max {
        Some(m) => {
            if depth > m {
                assert(depth_view(out@) =~= start + tree_rows_of(v@, depth, max));
                return;
            }
        },
        None => {},
    }
    let ghost pre = out@;
    out.push((v, depth));
    let ghost mid = depth_view(out@);
    assert(mid =~= start + seq![(v@, depth)]);
    let below = depth.saturating_add(1);
    assert(below == next_depth(depth));
    match v {
        Json::Object(es) => {
            proof {
                lemma_object_view(*es);
            }
            match Json::find_entry(es, "children") {
                Some(j) => match &es[j].1 {
                    Json::Array(a) => {
                        proof {
                            lemma_array_view(*a);
                        }
                        let ghost ks = view_elems(a@);
                        assert(ks == kids_of(v@));
                        let mut i: usize = 0;
                        while i < a.len()
                            invariant
                                *v == Json::Object(*es),
                                j < es@.len(),
                                es@[j as int].1 == Json::Array(*a),
                                ks == view_elems(a@),
                                i <= a@.len(),
                                below == next_depth(depth),
                                depth_view(out@) == mid + tree_rows_in(ks, i as int, below, max),
                            decreases a@.len() - i,
                        {
                            proof {
                                vstd::std_specs::vec::axiom_vec_index_decreases(*es, j as int);
                                vstd::std_specs::vec::axiom_vec_index_decreases(*a, i as int);
                                assert(decreases_to!(*v => (*v)->Object_0));
                                assert(decreases_to!(es@[j as int] => es@[j as int].1));
                                assert(decreases_to!(es@[j as int].1 => (es@[j as int].1)->Array_0));
                                assert(decreases_to!(*v => a@[i as int]));
                            }
                            tree_rows_exec(&a[i], below, max, out);
                            assert(depth_view(out@) =~= mid + tree_rows_in(ks, i + 1, below, max));
                            i = i + 1;
                        }
                        if a.len() == 0 {
                            assert(depth_view(out@) =~= mid);
                        }
                    },
                    _ => {
                        assert(depth_view(out@) =~= mid);
                    },
                },
                None => {
                    assert(depth_view(out@) =~= mid);
                },
            }
        },
        _ => {
            assert(depth_view(out@) =~= mid);
        },
    }
}

/// The nodes a tree listing from `root` shows, with their depths (see
/// `tree_rows_of`).
pub fn tree_rows(root: &Json, max_depth: Option<usize>) -> (r: Vec<(&Json, usize)>)
    ensures
        depth_view(r@) == tree_rows_of(root@, 0, max_depth),
{
    let mut out: Vec<(&Json, usize)> = Vec::new();
    tree_rows_exec(root, 0, max_depth, &mut out);
    assert(depth_view(out@) =~= Seq::<(JsonV, usize)>::empty() + tree_rows_of(root@, 0, max_depth));
    out
}

/// The entries of a walk whose node is a text node.
pub open spec fn text_entries(w: Seq<(JsonV, Seq<char>)>) -> Seq<(JsonV, Seq<char>)>
    decreases w.len(),
{
    if w.len() == 0 {
        Seq::empty()
    } else if type_text(w.last().0) == "TEXT"@ {
        text_entries(w.drop_last()).push(w.last())
    } else {
        text_entries(w.drop_last())
    }
}

/// The text nodes below `root` with their paths, in pre-order.
pub fn text_nodes(root: &Json) -> (r: Vec<(&Json, String)>)
    ensures
        walk_view(r@) == text_entries(path_walk(root@, Seq::empty())),
{
    let w = walk_with_paths(root);
    let ghost wv = walk_view(w@);
    let mut out: Vec<(&Json, String)> = Vec::new();
    let mut i: usize = 0;
    assert(wv.take(0) =~= Seq::<(JsonV, Seq<char>)>::empty());
    while i < w.len()
        invariant
            i <= w@.len(),
            wv == walk_view(w@),
            walk_view(out@) == text_entries(wv.take(i as int)),
        decreases w@.len() - i,
    {
        assert(wv.take(i + 1).drop_last() =~= wv.take(i as int));
        assert(wv.take(i + 1).last() == wv[i as int]);
        let t = node_type(w[i].0);
        proof {
            reveal_strlit("TEXT");
        }
        if str_equal(t.as_str(), "TEXT") {
            let ghost pre = out@;
            out.push((w[i].0, w[i].1.clone()));
            assert(walk_view(out@) =~= walk_view(pre).push(wv[i as int]));
        }
        i = i + 1;
    }
    assert(wv.take(w@.len() as int) =~= wv);
    out
}

/// The first `n` characters of a text.
pub fn first_chars(s: &str, n: usize) -> (r: String)
    ensures
        r@ == s@.take(if n < s@.len() { n as int } else { s@.len() as int }),
{
    let len = s.unicode_len();
    let end = if n < len { n } else { len };
    s.substring_char(0, end).to_string()
}

/// The hexadecimal text of the hash of an image fill's `image`, if it has one.
pub open spec fn fill_image_hex(fp: JsonV) -> Option<Seq<char>> {
    match jget(fp, "image"@) {
        Some(img) => Some(
            hash_hex(
                match jget(img, "hash"@) {
                    Some(h) => h,
                    None => JsonV::Null,
                },
            ),
        ),
        None => None,
    }
}

/// The use of an image file by a fill of a node at `path`: an `IMAGE` fill
/// whose image hash is not empty names the file of that hash with `.png`.
pub open spec fn fill_use(fp: JsonV, path: Seq<char>, node: JsonV) -> Seq<(Seq<char>, Seq<char>, JsonV)> {
    if field_text(fp, "type"@) == Some("IMAGE"@) {
        match fill_image_hex(fp) {
            Some(h) => if h.len() > 0 {
                seq![(h + ".png"@, path, node)]
            } else {
                Seq::empty()
            },
            None => Seq::empty(),
        }
    } else {
        Seq::empty()
    }
}

/// The image uses of the first `n` fills of a node.
pub open spec fn fills_uses(fills: Seq<JsonV>, n: int, path: Seq<char>, node: JsonV) -> Seq<
    (Seq<char>, Seq<char>, JsonV),
>
    decreases n,
{
    if n <= 0 || n > fills.len() {
        Seq::empty()
    } else {
        fills_uses(fills, n - 1, path, node) + fill_use(fills[n - 1], path, node)
    }
}

/// The image uses of the fills of the nodes of a walk, in order: (file
/// name, node path, node).
pub open spec fn image_uses_of(w: Seq<(JsonV, Seq<char>)>) -> Seq<(Seq<char>, Seq<char>, JsonV)>
    decreases w.len(),
{
    if w.len() == 0 {
        Seq::empty()
    } else {
        let fills = array_at(w.last().0, "fillPaints"@);
        image_uses_of(w.drop_last()) + fills_uses(fills, fills.len() as int, w.last().1, w.last().0)
    }
}

/// The contents of a list of image uses.
pub open spec fn uses_view(v: Seq<(String, String, &Json)>) -> Seq<(Seq<char>, Seq<char>, JsonV)> {
    v.map_values(|u: (String, String, &Json)| (u.0@, u.1@, u.2@))
}

fn push_fill_use<'a>(fp: &Json, path: &String, node: &'a Json, out: &mut Vec<(String, String, &'a Json)>)
    ensures
        uses_view(final(out)@) == uses_view(old(out)@) + fill_use(fp@, path@, node@),
{
    let ghost start = uses_view(out@);
    proof {
        reveal_strlit("IMAGE");
        reveal_strlit(".png");
    }
    let is_image = match field_value_text(fp, "type") {
        Some(t) => str_equal(t.as_str(), "IMAGE"),
        None => false,
    };
    if !is_image {
        assert(uses_view(out@) =~= start + fill_use(fp@, path@, node@));
        return;
    }
    match fp.get("image") {
        Some(img) => {
            let h = match img.get("hash") {
                Some(x) => hash_to_hex(x),
                None => hash_to_hex(&Json::Null),
            };
            if h.unicode_len() > 0 {
                let mut f = h;
                push_str(&mut f, ".png");
                let ghost pre = out@;
                out.push((f, path.clone(), node));
                assert(uses_view(out@) =~= uses_view(pre).push((f@, path@, node@)));
            }
        },
        None => {},
    }
    assert(uses_view(out@) =~= start + fill_use(fp@, path@, node@));
}

/// Every use of an image file by an `IMAGE` fill below `root`, in walk
/// order (see `image_uses_of`).
pub fn image_uses(root: &Json) -> (r: Vec<(String, String, &Json)>)
    ensures
        uses_view(r@) == image_uses_of(path_walk(root@, Seq::empty())),
{
    let w = walk_with_paths(root);
    let ghost wv = walk_view(w@);
    let mut out: Vec<(String, String, &Json)> = Vec::new();
    let mut i: usize = 0;
    assert(wv.take(0) =~= Seq::<(JsonV, Seq<char>)>::empty());
    while i < w.len()
        invariant
            i <= w@.len(),
            wv == walk_view(w@),
            uses_view(out@) == image_uses_of(wv.take(i as int)),
        decreases w@.len() - i,
    {
        let node = w[i].0;
        let fills = array_field(node, "fillPaints");
        let ghost start = uses_view(out@);
        assert(wv[i as int] == (node@, w@[i as int].1@));
        let mut k: usize = 0;
        while k < fills.len()
            invariant
                i < w@.len(),
                node == w@[i as int].0,
                k <= fills@.len(),
                view_elems(fills@) == array_at(node@, "fillPaints"@),
                uses_view(out@) == start + fills_uses(view_elems(fills@), k as int, w@[i as int].1@, node@),
            decreases fills@.len() - k,
        {
            push_fill_use(&fills[k], &w[i].1, node, &mut out);
            assert(uses_view(out@) =~= start + fills_uses(view_elems(fills@), k + 1, w@[i as int].1@, node@));
            k = k + 1;
        }
        assert(wv.take(i + 1).drop_last() =~= wv.take(i as int));
        assert(wv.take(i + 1).last() == wv[i as int]);
        i = i + 1;
    }
    assert(wv.take(w@.len() as int) =~= wv);
    out
}

/// The positions among the first `n` uses at which file `f` is used from a
/// node path not seen with it before.
pub open spec fn kept_uses(us: Seq<(Seq<char>, Seq<char>, JsonV)>, f: Seq<char>, n: int) -> Seq<int>
    decreases n,
{
    if n <= 0 || n > us.len() {
        Seq::empty()
    } else {
        let prev = kept_uses(us, f, n - 1);
        if us[n - 1].0 == f && !(exists|k: int| 0 <= k < prev.len() && us[prev[k]].1 == us[n - 1].1) {
            prev.push(n - 1)
        } else {
            prev
        }
    }
}

proof fn lemma_kept_bounds(us: Seq<(Seq<char>, Seq<char>, JsonV)>, f: Seq<char>, n: int)
    requires
        0 <= n <= us.len(),
    ensures
        forall|k: int| 0 <= k < kept_uses(us, f, n).len() ==> 0 <= #[trigger] kept_uses(us, f, n)[k] < n,
        (forall|j: int| 0 <= j < n ==> us[j].0 != f) ==> kept_uses(us, f, n).len() == 0,
    decreases n,
{
    if n > 0 {
        lemma_kept_bounds(us, f, n - 1);
        let prev = kept_uses(us, f, n - 1);
        assert forall|k: int| 0 <= k < kept_uses(us, f, n).len() implies 0 <= #[trigger] kept_uses(us, f, n)[k] < n by {
            if k < prev.len() {
                assert(kept_uses(us, f, n)[k] == prev[k]);
            }
        }
    }
}

/// The contents of a list of image groups: file names with use positions.
pub open spec fn groups_view(v: Seq<(String, Vec<usize>)>) -> Seq<(Seq<char>, Seq<int>)> {
    v.map_values(|g: (String, Vec<usize>)| (g.0@, g.1@.map_values(|x: usize| x as int)))
}

/// The file names of the groups are in strictly increasing order.
#[verifier::opaque]
pub open spec fn groups_sorted(g: Seq<(Seq<char>, Seq<int>)>) -> bool {
    forall|a: int, b: int| 0 <= a < b < g.len() ==> text_lt(#[trigger] g[a].0, #[trigger] g[b].0)
}

/// Every file used among the first `n` uses has a group.
#[verifier::opaque]
pub open spec fn groups_cover(g: Seq<(Seq<char>, Seq<int>)>, us: Seq<(Seq<char>, Seq<char>, JsonV)>, n: int) -> bool {
    forall|j: int| 0 <= j < n ==> exists|a: int| 0 <= a < g.len() && #[trigger] g[a].0 == #[trigger] us[j].0
}

/// Every group is for a file used among the first `n` uses.
#[verifier::opaque]
pub open spec fn groups_used(g: Seq<(Seq<char>, Seq<int>)>, us: Seq<(Seq<char>, Seq<char>, JsonV)>, n: int) -> bool {
    forall|a: int| 0 <= a < g.len() ==> exists|j: int| 0 <= j < n && #[trigger] us[j].0 == #[trigger] g[a].0
}

/// Every group holds the kept positions of its file among the first `n` uses.
#[verifier::opaque]
pub open spec fn groups_kept(g: Seq<(Seq<char>, Seq<int>)>, us: Seq<(Seq<char>, Seq<char>, JsonV)>, n: int) -> bool {
    forall|a: int| 0 <= a < g.len() ==> #[trigger] g[a].1 == kept_uses(us, g[a].0, n)
}

/// The groups describe the first `n` uses: file names in strictly
/// increasing order, exactly the files used, each with its kept positions.
pub open spec fn groups_ok(g: Seq<(Seq<char>, Seq<int>)>, us: Seq<(Seq<char>, Seq<char>, JsonV)>, n: int) -> bool {
    &&& groups_sorted(g)
    &&& groups_cover(g, us, n)
    &&& groups_used(g, us, n)
    &&& groups_kept(g, us, n)
}

fn path_seen(us: &Vec<(String, String, &Json)>, idx: &Vec<usize>, p: &String) -> (r: bool)
    requires
        forall|k: int| 0 <= k < idx@.len() ==> #[trigger] idx@[k] < us@.len(),
    ensures
        r == exists|k: int| 0 <= k < idx@.len() && uses_view(us@)[idx@[k] as int].1 == p@,
{
    let mut k: usize = 0;
    while k < idx.len()
        invariant
            k <= idx@.len(),
            forall|t: int| 0 <= t < idx@.len() ==> #[trigger] idx@[t] < us@.len(),
            forall|t: int| 0 <= t < k ==> uses_view(us@)[#[trigger] idx@[t] as int].1 != p@,
        decreases idx@.len() - k,
    {
        if str_equal(us[idx[k]].1.as_str(), p.as_str()) {
            assert(uses_view(us@)[idx@[k as int] as int].1 == p@);
            return true;
        }
        k = k + 1;
    }
    false
}

fn find_group(g: &Vec<(String, Vec<usize>)>, f: &String) -> (p: usize)
    ensures
        p <= g@.len(),
        forall|a: int| 0 <= a < p ==> text_lt(#[trigger] groups_view(g@)[a].0, f@),
        p < g@.len() ==> !text_lt(groups_view(g@)[p as int].0, f@),
{
    let ghost gv = groups_view(g@);
    let mut p: usize = 0;
    while p < g.len() && text_less(g[p].0.as_str(), f.as_str())
        invariant
            p <= g@.len(),
            gv == groups_view(g@),
            forall|a: int| 0 <= a < p ==> text_lt(#[trigger] gv[a].0, f@),
        decreases g@.len() - p,
    {
        p = p + 1;
    }
    p
}

proof fn lemma_groups_update(
    gv: Seq<(Seq<char>, Seq<int>)>,
    gv2: Seq<(Seq<char>, Seq<int>)>,
    uv: Seq<(Seq<char>, Seq<char>, JsonV)>,
    i: int,
    p: int,
)
    requires
        0 <= i < uv.len(),
        0 <= p < gv.len(),
        gv2.len() == gv.len(),
        gv[p].0 == uv[i].0,
        gv2[p] == (gv[p].0, kept_uses(uv, uv[i].0, i + 1)),
        forall|a: int| 0 <= a < gv.len() && a != p ==> #[trigger] gv2[a] == gv[a],
        groups_ok(gv, uv, i),
    ensures
        groups_ok(gv2, uv, i + 1),
{
    let f = uv[i].0;
    assert(groups_sorted(gv2)) by {
        reveal(groups_sorted);
        assert forall|a: int, b: int| 0 <= a < b < gv2.len() implies text_lt(#[trigger] gv2[a].0, #[trigger] gv2[b].0) by {
            assert(gv2[a].0 == gv[a].0);
            assert(gv2[b].0 == gv[b].0);
        }
    }
    assert(groups_kept(gv2, uv, i + 1)) by {
        reveal(groups_kept);
        reveal(groups_sorted);
        assert forall|a: int| 0 <= a < gv2.len() implies #[trigger] gv2[a].1 == kept_uses(uv, gv2[a].0, i + 1) by {
            if a != p {
                assert(gv2[a] == gv[a]);
                lemma_text_lt_total(f, f);
                if a < p {
                    assert(text_lt(gv[a].0, gv[p].0));
                } else {
                    assert(text_lt(gv[p].0, gv[a].0));
                }
                assert(gv[a].0 != f);
                assert(gv[a].1 == kept_uses(uv, gv[a].0, i));
            }
        }
    }
    assert(groups_cover(gv2, uv, i + 1)) by {
        reveal(groups_cover);
        assert forall|j: int| 0 <= j < i + 1 implies exists|a: int| 0 <= a < gv2.len() && #[trigger] gv2[a].0 == #[trigger] uv[j].0 by {
            if j == i {
                assert(gv2[p].0 == uv[j].0);
            } else {
                let a = choose|a: int| 0 <= a < gv.len() && gv[a].0 == uv[j].0;
                assert(gv2[a].0 == gv[a].0);
            }
        }
    }
    assert(groups_used(gv2, uv, i + 1)) by {
        reveal(groups_used);
        assert forall|a: int| 0 <= a < gv2.len() implies exists|j: int| 0 <= j < i + 1 && #[trigger] uv[j].0 == #[trigger] gv2[a].0 by {
            assert(gv2[a].0 == gv[a].0);
            let j = choose|j: int| 0 <= j < i && uv[j].0 == gv[a].0;
            assert(uv[j].0 == gv2[a].0);
        }
    }
}

fn extend_group(us: &Vec<(String, String, &Json)>, g: &mut Vec<(String, Vec<usize>)>, p: usize, i: usize)
    requires
        i < us@.len(),
        p < old(g)@.len(),
        groups_view(old(g)@)[p as int].0 == uses_view(us@)[i as int].0,
        groups_ok(groups_view(old(g)@), uses_view(us@), i as int),
    ensures
        groups_ok(groups_view(final(g)@), uses_view(us@), i + 1),
{
    let ghost uv = uses_view(us@);
    let ghost gv = groups_view(g@);
    let ghost f = uv[i as int].0;
    let ghost old_g = g@;
    proof {
        lemma_kept_bounds(uv, f, i as int);
    }
    let ghost prev = kept_uses(uv, f, i as int);
    assert(gv[p as int].1 == prev) by {
        reveal(groups_kept);
    }
    assert forall|k: int| 0 <= k < g@[p as int].1@.len() implies #[trigger] g@[p as int].1@[k] as int == prev[k] by {
        assert(gv[p as int].1[k] == g@[p as int].1@[k] as int);
    }
    let seen = path_seen(us, &g[p].1, &us[i].1);
    assert(seen == exists|k: int| 0 <= k < prev.len() && uv[prev[k]].1 == uv[i as int].1) by {
        if seen {
            let k = choose|k: int| 0 <= k < g@[p as int].1@.len() && uv[g@[p as int].1@[k] as int].1 == us@[i as int].1@;
            assert(prev[k] == g@[p as int].1@[k] as int);
        }
    }
    if !seen {
        let mut entry = g.remove(p);
        let ghost e0 = entry;
        entry.1.push(i);
        g.insert(p, entry);
        assert(groups_view(g@)[p as int].1 =~= prev.push(i as int));
    }
    let ghost gv2 = groups_view(g@);
    assert forall|a: int| 0 <= a < gv.len() && a != p implies #[trigger] gv2[a] == gv[a] by {
        assert(g@[a] == old_g[a]);
    }
    assert(gv2[p as int] == (gv[p as int].0, kept_uses(uv, f, i + 1)));
    proof {
        lemma_groups_update(gv, gv2, uv, i as int, p as int);
    }
}

proof fn lemma_new_file(gv: Seq<(Seq<char>, Seq<int>)>, uv: Seq<(Seq<char>, Seq<char>, JsonV)>, i: int, p: int, f: Seq<char>)
    requires
        0 <= i < uv.len(),
        0 <= p <= gv.len(),
        f == uv[i].0,
        groups_ok(gv, uv, i),
        forall|a: int| 0 <= a < p ==> text_lt(#[trigger] gv[a].0, f),
        p < gv.len() ==> !text_lt(gv[p].0, f) && gv[p].0 != f,
    ensures
        forall|j: int| 0 <= j < i ==> uv[j].0 != f,
        forall|a: int| p <= a < gv.len() ==> text_lt(f, #[trigger] gv[a].0),
{
    reveal(groups_sorted);
    reveal(groups_cover);
    if p < gv.len() {
        lemma_text_lt_total(gv[p].0, f);
    }
    assert forall|a: int| p <= a < gv.len() implies text_lt(f, #[trigger] gv[a].0) by {
        if a > p {
            lemma_text_lt_trans(f, gv[p].0, gv[a].0);
        }
    }
    assert forall|j: int| 0 <= j < i implies uv[j].0 != f by {
        if uv[j].0 == f {
            let a = choose|a: int| 0 <= a < gv.len() && gv[a].0 == uv[j].0;
            lemma_text_lt_total(f, f);
            if a < p {
                assert(text_lt(gv[a].0, f));
            } else {
                assert(text_lt(f, gv[a].0));
            }
        }
    }
}

proof fn lemma_groups_insert(gv: Seq<(Seq<char>, Seq<int>)>, uv: Seq<(Seq<char>, Seq<char>, JsonV)>, i: int, p: int)
    requires
        0 <= i < uv.len(),
        0 <= p <= gv.len(),
        groups_ok(gv, uv, i),
        forall|a: int| 0 <= a < p ==> text_lt(#[trigger] gv[a].0, uv[i].0),
        p < gv.len() ==> !text_lt(gv[p].0, uv[i].0) && gv[p].0 != uv[i].0,
    ensures
        groups_ok(gv.insert(p, (uv[i].0, seq![i])), uv, i + 1),
{
    let f = uv[i].0;
    let gv2 = gv.insert(p, (f, seq![i]));
    lemma_new_file(gv, uv, i, p, f);
    lemma_kept_bounds(uv, f, i);
    assert(kept_uses(uv, f, i + 1) =~= seq![i]);
    assert(groups_kept(gv2, uv, i + 1)) by {
        reveal(groups_kept);
        assert forall|a: int| 0 <= a < gv2.len() implies #[trigger] gv2[a].1 == kept_uses(uv, gv2[a].0, i + 1) by {
            if a < p {
                assert(gv2[a] == gv[a]);
                lemma_text_lt_total(gv[a].0, f);
            } else if a > p {
                assert(gv2[a] == gv[a - 1]);
                lemma_text_lt_total(f, gv[a - 1].0);
            }
        }
    }
    assert(groups_cover(gv2, uv, i + 1)) by {
        reveal(groups_cover);
        assert forall|j: int| 0 <= j < i + 1 implies exists|a: int| 0 <= a < gv2.len() && #[trigger] gv2[a].0 == #[trigger] uv[j].0 by {
            if j == i {
                assert(gv2[p].0 == uv[j].0);
            } else {
                let a = choose|a: int| 0 <= a < gv.len() && gv[a].0 == uv[j].0;
                if a < p {
                    assert(gv2[a].0 == gv[a].0);
                } else {
                    assert(gv2[a + 1].0 == gv[a].0);
                }
            }
        }
    }
    assert(groups_used(gv2, uv, i + 1)) by {
        reveal(groups_used);
        assert forall|a: int| 0 <= a < gv2.len() implies exists|j: int| 0 <= j < i + 1 && #[trigger] uv[j].0 == #[trigger] gv2[a].0 by {
            if a == p {
                assert(uv[i].0 == gv2[a].0);
            } else if a < p {
                assert(gv2[a].0 == gv[a].0);
                let j = choose|j: int| 0 <= j < i && uv[j].0 == gv[a].0;
                assert(uv[j].0 == gv2[a].0);
            } else {
                assert(gv2[a].0 == gv[a - 1].0);
                let j = choose|j: int| 0 <= j < i && uv[j].0 == gv[a - 1].0;
                assert(uv[j].0 == gv2[a].0);
            }
        }
    }
    assert(groups_sorted(gv2)) by {
        reveal(groups_sorted);
        assert forall|a: int, b: int| 0 <= a < b < gv2.len() implies text_lt(#[trigger] gv2[a].0, #[trigger] gv2[b].0) by {
            if b < p {
                assert(gv2[a] == gv[a] && gv2[b] == gv[b]);
            } else if b == p {
                assert(gv2[a] == gv[a]);
            } else if a == p {
                assert(gv2[b] == gv[b - 1]);
            } else if a < p {
                assert(gv2[a] == gv[a] && gv2[b] == gv[b - 1]);
                lemma_text_lt_trans(gv[a].0, f, gv[b - 1].0);
            } else {
                assert(gv2[a] == gv[a - 1] && gv2[b] == gv[b - 1]);
            }
        }
    }
}

fn insert_group(us: &Vec<(String, String, &Json)>, g: &mut Vec<(String, Vec<usize>)>, p: usize, i: usize)
    requires
        i < us@.len(),
        p <= old(g)@.len(),
        groups_ok(groups_view(old(g)@), uses_view(us@), i as int),
        forall|a: int| 0 <= a < p ==> text_lt(#[trigger] groups_view(old(g)@)[a].0, uses_view(us@)[i as int].0),
        p < old(g)@.len() ==> !text_lt(groups_view(old(g)@)[p as int].0, uses_view(us@)[i as int].0)
            && groups_view(old(g)@)[p as int].0 != uses_view(us@)[i as int].0,
    ensures
        groups_ok(groups_view(final(g)@), uses_view(us@), i + 1),
{
    let ghost uv = uses_view(us@);
    let ghost gv = groups_view(g@);
    let ghost old_g = g@;
    let mut idx: Vec<usize> = Vec::new();
    idx.push(i);
    let entry = (us[i].0.clone(), idx);
    assert(entry.1@.map_values(|x: usize| x as int) =~= seq![i as int]);
    g.insert(p, entry);
    assert(g@ == old_g.insert(p as int, entry));
    let ghost want = gv.insert(p as int, (uv[i as int].0, seq![i as int]));
    assert forall|a: int| 0 <= a < want.len() implies #[trigger] groups_view(g@)[a] == want[a] by {
        if a < p {
            assert(g@[a] == old_g[a]);
        } else if a > p {
            assert(g@[a] == old_g[a - 1]);
        }
    }
    assert(groups_view(g@) =~= want);
    proof {
        lemma_groups_insert(gv, uv, i as int, p as int);
    }
}

/// The image files used, in increasing name order, each with the positions
/// of its uses from distinct node paths (see `kept_uses`).
pub fn group_image_uses(us: &Vec<(String, String, &Json)>) -> (r: Vec<(String, Vec<usize>)>)
    ensures
        groups_ok(groups_view(r@), uses_view(us@), us@.len() as int),
{
    let mut g: Vec<(String, Vec<usize>)> = Vec::new();
    let mut i: usize = 0;
    assert(groups_ok(groups_view(g@), uses_view(us@), 0)) by {
        reveal(groups_sorted);
        reveal(groups_cover);
        reveal(groups_used);
        reveal(groups_kept);
    }
    while i < us.len()
        invariant
            i <= us@.len(),
            groups_ok(groups_view(g@), uses_view(us@), i as int),
        decreases us@.len() - i,
    {
        let p = find_group(&g, &us[i].0);
        if p < g.len() && str_equal(g[p].0.as_str(), us[i].0.as_str()) {
            extend_group(us, &mut g, p, i);
        } else {
            insert_group(us, &mut g, p, i);
        }
        i = i + 1;
    }
    g
}

/// Some pair of `s` has key `k`.
pub open spec fn has_key(s: Seq<(Seq<char>, Seq<char>)>, k: Seq<char>) -> bool {
    exists|i: int| 0 <= i < s.len() && s[i].0 == k
}

/// The pairs whose key has not come before, in order.
pub open spec fn first_seen(ps: Seq<(Seq<char>, Seq<char>)>) -> Seq<(Seq<char>, Seq<char>)>
    decreases ps.len(),
{
    if ps.len() == 0 {
        Seq::empty()
    } else {
        let rest = first_seen(ps.drop_last());
        if has_key(rest, ps.last().0) {
            rest
        } else {
            rest.push(ps.last())
        }
    }
}

/// The (key, note) pairs whose key has not come before, in order: the first
/// note seen for each key. No two of them share a key.
pub fn first_seen_pairs(ps: &Vec<(String, String)>) -> (r: Vec<(String, String)>)
    ensures
        pair_view(r@) == first_seen(pair_view(ps@)),
        forall|a: int, b: int| 0 <= a < b < r@.len() ==> (#[trigger] r@[a]).0@ != (#[trigger] r@[b]).0@,
{
    let ghost pv = pair_view(ps@);
    let mut out: Vec<(String, String)> = Vec::new();
    let mut i: usize = 0;
    assert(pv.take(0) =~= Seq::<(Seq<char>, Seq<char>)>::empty());
    while i < ps.len()
        invariant
            i <= ps@.len(),
            pv == pair_view(ps@),
            pair_view(out@) == first_seen(pv.take(i as int)),
            forall|a: int, b: int| 0 <= a < b < out@.len() ==> (#[trigger] out@[a]).0@ != (#[trigger] out@[b]).0@,
        decreases ps@.len() - i,
    {
        assert(pv.take(i + 1).drop_last() =~= pv.take(i as int));
        assert(pv.take(i + 1).last() == pv[i as int]);
        let ghost ov = pair_view(out@);
        let mut found = false;
        let mut k: usize = 0;
        while k < out.len()
            invariant
                k <= out@.len(),
                ov == pair_view(out@),
                i < ps@.len(),
                found == exists|t: int| 0 <= t < k && ov[t].0 == ps@[i as int].0@,
            decreases out@.len() - k,
        {
            assert(ov[k as int].0 == out@[k as int].0@);
            if str_equal(out[k].0.as_str(), ps[i].0.as_str()) {
                found = true;
            }
            k = k + 1;
        }
        assert(found == has_key(ov, pv[i as int].0));
        if !found {
            let ghost pre = out@;
            out.push((ps[i].0.clone(), ps[i].1.clone()));
            assert(pair_view(out@) =~= ov.push(pv[i as int]));
            assert forall|a: int, b: int| 0 <= a < b < out@.len() implies (#[trigger] out@[a]).0@ != (#[trigger] out@[b]).0@ by {
                if b == pre.len() {
                    assert(ov[a].0 == out@[a].0@);
                }
            }
        }
        i = i + 1;
    }
    assert(pv.take(ps@.len() as int) =~= pv);
    out
}

/// The non-empty `/`-separated components of a path, in order.
pub open spec fn path_keys(p: Seq<char>) -> Seq<Seq<char>>
    decreases p.len(),
{
    let j = last_slash(p);
    if j < 0 {
        if p.len() > 0 {
            seq![p]
        } else {
            Seq::empty()
        }
    } else {
        proof {
            lemma_last_slash(p);
        }
        let last = p.skip(j + 1);
        if last.len() > 0 {
            path_keys(p.take(j)).push(last)
        } else {
            path_keys(p.take(j))
        }
    }
}

/// The value of a decimal digit.
pub open spec fn digit_value(c: char) -> int {
    c as int - '0' as int
}

/// A text of decimal digits only.
pub open spec fn all_digits(d: Seq<char>) -> bool {
    forall|i: int| 0 <= i < d.len() ==> '0' <= #[trigger] d[i] <= '9'
}

/// The number a text of decimal digits writes.
pub open spec fn digits_value(d: Seq<char>) -> nat
    decreases d.len(),
{
    if d.len() == 0 {
        0
    } else {
        (digits_value(d.drop_last()) * 10 + digit_value(d.last())) as nat
    }
}

/// The index a pointer component names: an optional `+` and decimal digits
/// of a value that fits in `usize`.
pub open spec fn parse_index(k: Seq<char>) -> Option<usize> {
    let d = if k.len() > 0 && k[0] == '+' {
        k.skip(1)
    } else {
        k
    };
    if d.len() > 0 && all_digits(d) && digits_value(d) <= usize::MAX {
        Some(digits_value(d) as usize)
    } else {
        None
    }
}

proof fn lemma_digits_grow(d: Seq<char>, k: int)
    requires
        0 <= k <= d.len(),
        all_digits(d),
    ensures
        digits_value(d.take(k)) <= digits_value(d),
    decreases d.len() - k,
{
    if k < d.len() {
        assert(d.take(k + 1).drop_last() =~= d.take(k));
        lemma_digits_grow(d, k + 1);
        assert('0' <= d[k] <= '9');
    } else {
        assert(d.take(k) =~= d);
    }
}

fn parse_index_exec(k: &str) -> (r: Option<usize>)
    ensures
        r == parse_index(k@),
{
    let n = k.unicode_len();
    let start: usize = if n > 0 && k.get_char(0) == '+' {
        1
    } else {
        0
    };
    let ghost d = if k@.len() > 0 && k@[0] == '+' {
        k@.skip(1)
    } else {
        k@
    };
    assert(d =~= k@.skip(start as int));
    assert(parse_index(k@) == (if d.len() > 0 && all_digits(d) && digits_value(d) <= usize::MAX {
        Some(digits_value(d) as usize)
    } else {
        None::<usize>
    }));
    if start == n {
        return None;
    }
    let mut val: usize = 0;
    let mut i: usize = start;
    assert(d.take(0) =~= Seq::<char>::empty());
    while i < n
        invariant
            start <= i <= n,
            n == k@.len(),
            d == k@.skip(start as int),
            parse_index(k@) == (if d.len() > 0 && all_digits(d) && digits_value(d) <= usize::MAX {
                Some(digits_value(d) as usize)
            } else {
                None::<usize>
            }),
            all_digits(d.take(i - start)),
            val == digits_value(d.take(i - start)),
        decreases n - i,
    {
        let c = k.get_char(i);
        assert(d[i - start] == c);
        assert(d.take(i - start + 1).drop_last() =~= d.take(i - start));
        if c < '0' || c > '9' {
            assert(!all_digits(d));
            return None;
        }
        let dv = (c as u32 - '0' as u32) as usize;
        assert(dv == digit_value(c));
        assert(all_digits(d.take(i - start + 1)));
        assert(d.take(i - start + 1).last() == c);
        assert(digits_value(d.take(i - start + 1)) == val * 10 + dv);
        match val.checked_mul(10) {
            Some(m) => match m.checked_add(dv) {
                Some(v) => {
                    val = v;
                },
                None => {
                    proof {
                        if all_digits(d) {
                            lemma_digits_grow(d, i - start + 1);
                        }
                    }
                    return None;
                },
            },
            None => {
                proof {
                    if all_digits(d) {
                        lemma_digits_grow(d, i - start + 1);
                    }
                }
                return None;
            },
        }
        i = i + 1;
    }
    assert(d.take(n - start) =~= d);
    Some(val)
}

/// The contents of a list of texts.
pub open spec fn texts_view(v: Seq<String>) -> Seq<Seq<char>> {
    v.map_values(|s: String| s@)
}

fn path_keys_exec(p: &str) -> (r: Vec<String>)
    ensures
        texts_view(r@) == path_keys(p@),
    decreases p@.len(),
{
    match find_last_slash(p) {
        None => {
            if p.unicode_len() > 0 {
                let mut v: Vec<String> = Vec::new();
                v.push(p.to_string());
                assert(texts_view(v@) =~= seq![p@]);
                v
            } else {
                let v: Vec<String> = Vec::new();
                assert(texts_view(v@) =~= Seq::<Seq<char>>::empty());
                v
            }
        },
        Some(j) => {
            proof {
                lemma_last_slash(p@);
            }
            let n = p.unicode_len();
            let last = p.substring_char(j + 1, n);
            assert(last@ =~= p@.skip(j + 1));
            let head = p.substring_char(0, j);
            assert(head@ =~= p@.take(j as int));
            let mut ks = path_keys_exec(head);
            if last.unicode_len() > 0 {
                let ghost pre = ks@;
                ks.push(last.to_string());
                assert(texts_view(ks@) =~= texts_view(pre).push(last@));
            }
            ks
        },
    }
}

/// One step of a pointer: an index component picks an item of an array, any
/// other component a field of an object; anything else, or a missing item,
/// leaves nothing.
pub open spec fn pointer_step(cur: Option<JsonV>, key: Seq<char>) -> Option<JsonV> {
    match cur {
        None => None,
        Some(v) => match parse_index(key) {
            Some(i) => match v {
                JsonV::Array(xs) => if i < xs.len() {
                    Some(xs[i as int])
                } else {
                    None
                },
                _ => None,
            },
            None => jget(v, key),
        },
    }
}

/// Where the steps `keys` lead from `v`.
pub open spec fn pointer_walk(v: Option<JsonV>, keys: Seq<Seq<char>>) -> Option<JsonV>
    decreases keys.len(),
{
    if keys.len() == 0 {
        v
    } else {
        pointer_step(pointer_walk(v, keys.drop_last()), keys.last())
    }
}

/// The part of `node` a pointer such as `/fillPaints/0` names: the node
/// itself without a pointer; `None` where the pointer leads nowhere.
pub open spec fn pointer_target_of(node: JsonV, ptr: Option<Seq<char>>) -> Option<JsonV> {
    match ptr {
        None => Some(node),
        Some(p) => pointer_walk(Some(node), path_keys(p)),
    }
}

fn pointer_step_exec<'a>(cur: Option<&'a Json>, key: &str) -> (r: Option<&'a Json>)
    ensures
        opt_json(r) == pointer_step(opt_json(cur), key@),
{
    match cur {
        None => None,
        Some(v) => match parse_index_exec(key) {
            Some(i) => match v {
                Json::Array(xs) => {
                    proof {
                        lemma_array_view(*xs);
                    }
                    if i < xs.len() {
                        Some(&xs[i])
                    } else {
                        None
                    }
                },
                _ => None,
            },
            None => v.get(key),
        },
    }
}

/// The part of `node` a pointer names (see `pointer_target_of`).
pub fn pointer_target<'a>(node: &'a Json, ptr: Option<&str>) -> (r: Option<&'a Json>)
    ensures
        opt_json(r) == pointer_target_of(node@, opt_name(ptr)),
{
    match ptr {
        None => Some(node),
        Some(p) => {
            let keys = path_keys_exec(p);
            let ghost kv = texts_view(keys@);
            let mut cur: Option<&'a Json> = Some(node);
            let mut i: usize = 0;
            assert(kv.take(0) =~= Seq::<Seq<char>>::empty());
            while i < keys.len()
                invariant
                    i <= keys@.len(),
                    kv == texts_view(keys@),
                    opt_json(cur) == pointer_walk(Some(node@), kv.take(i as int)),
                decreases keys@.len() - i,
            {
                assert(kv.take(i + 1).drop_last() =~= kv.take(i as int));
                assert(kv.take(i + 1).last() == keys@[i as int]@);
                cur = pointer_step_exec(cur, keys[i].as_str());
                i = i + 1;
            }
            assert(kv.take(keys@.len() as int) =~= kv);
            cur
        },
    }
}

/// Field `k` of `v` holds the text `t`, plainly or as the `value` of an
/// enum object.
pub open spec fn holds_text(v: JsonV, k: Seq<char>, t: Seq<char>) -> bool {
    ||| jget(v, k) == Some(JsonV::Str(t))
    ||| (jget(v, k) matches Some(JsonV::Object(es)) && jget(JsonV::Object(es), "value"@) == Some(JsonV::Str(t)))
}

/// The details of an action show what its fields hold: the connection,
/// navigation and transition types are the texts of `connectionType`,
/// `navigationType` and `transitionType` (empty where the field is missing),
/// the URL is the text of `connectionURL` and the duration the number in
/// `transitionDuration`.
pub proof fn lemma_action_detail_fields(a: JsonV, guids: Seq<(Seq<char>, Seq<char>)>, t: Seq<char>)
    ensures
        holds_text(a, "connectionType"@, t) ==> action_detail(a, guids).connection == t,
        holds_text(a, "navigationType"@, t) ==> action_detail(a, guids).navigation == t,
        holds_text(a, "transitionType"@, t) ==> action_detail(a, guids).transition == t,
        jget(a, "connectionType"@) is None ==> action_detail(a, guids).connection == Seq::<char>::empty(),
        jget(a, "navigationType"@) is None ==> action_detail(a, guids).navigation == Seq::<char>::empty(),
        jget(a, "transitionType"@) is None ==> action_detail(a, guids).transition == Seq::<char>::empty(),
        jget(a, "connectionURL"@) == Some(JsonV::Str(t)) ==> action_detail(a, guids).url == t,
        jget(a, "connectionURL"@) is None ==> action_detail(a, guids).url == Seq::<char>::empty(),
        forall|x: JsonNumber| #![auto] jget(a, "transitionDuration"@) == Some(JsonV::Number(x)) ==> action_detail(a, guids).duration == Some(x),
        jget(a, "transitionDuration"@) is None ==> action_detail(a, guids).duration is None,
{
}

/// The rows of the interaction list show what an action's fields hold, as
/// the node details do.
pub proof fn lemma_action_row_fields(
    action: JsonV,
    count: nat,
    name: Seq<char>,
    parent: Seq<char>,
    event: Seq<char>,
    guids: Seq<(Seq<char>, Seq<char>)>,
    t: Seq<char>,
)
    ensures
        holds_text(action, "connectionType"@, t) ==> action_row(action, count, name, parent, event, guids).connection == t,
        holds_text(action, "navigationType"@, t) ==> action_row(action, count, name, parent, event, guids).navigation == t,
        holds_text(action, "transitionType"@, t) ==> action_row(action, count, name, parent, event, guids).transition == t,
        jget(action, "transitionType"@) is None ==> action_row(action, count, name, parent, event, guids).transition
            == Seq::<char>::empty(),
        forall|x: JsonNumber| #![auto] jget(action, "transitionDuration"@) == Some(JsonV::Number(x)) ==> action_row(
            action,
            count,
            name,
            parent,
            event,
            guids,
        ).duration == Some(x),
{
}

} // verus!
