use vstd::prelude::*;
use crate::childmap::{ChildMap, strs, acyclic_graph, graph_rank, ranked, reaches, walked_rel, lemma_reaches_self,
    lemma_reaches_child, is_walk};



verus! {

/// Every GUID in `cs` ranks below `b` in an acyclic map.
pub open spec fn below(g: spec_fn(Seq<char>) -> Seq<Seq<char>>, n: nat, cs: Seq<Seq<char>>, b: nat) -> bool {
    acyclic_graph(g, n) && forall|i: int| 0 <= i < cs.len() ==> #[trigger] graph_rank(g, n)(cs[i]) < b
}

/// The GUIDs reachable from the list `cs`, in depth-first pre-order: each GUID
/// of `cs` in turn, followed by the GUIDs reachable from it.
pub open spec fn reach_list(g: spec_fn(Seq<char>) -> Seq<Seq<char>>, n: nat, cs: Seq<Seq<char>>, b: nat) -> Seq<Seq<char>>
    decreases b, cs.len(),
{
    if cs.len() == 0 || !below(g, n, cs, b) {
        Seq::empty()
    } else {
        let c = cs.last();
        let r = graph_rank(g, n)(c);
        proof {
            assert(graph_rank(g, n)(cs[cs.len() - 1]) < b);
        }
        reach_list(g, n, cs.drop_last(), b) + seq![c] + reach_list(g, n, g(c), r)
    }
}

/// The GUIDs below `node` in an acyclic map, in depth-first pre-order.
pub open spec fn reachable_from(g: spec_fn(Seq<char>) -> Seq<Seq<char>>, n: nat, node: Seq<char>) -> Seq<Seq<char>> {
    reach_list(g, n, g(node), graph_rank(g, n)(node))
}

/// The deepest depth in the subtrees of the list `cs` whose roots sit at depth
/// `d`; `d - 1` for an empty list.
pub open spec fn depth_list(g: spec_fn(Seq<char>) -> Seq<Seq<char>>, n: nat, cs: Seq<Seq<char>>, b: nat, d: int) -> int
    decreases b, cs.len(),
{
    if cs.len() == 0 || !below(g, n, cs, b) {
        d - 1
    } else {
        let c = cs.last();
        let r = graph_rank(g, n)(c);
        proof {
            assert(graph_rank(g, n)(cs[cs.len() - 1]) < b);
        }
        let rest = depth_list(g, n, cs.drop_last(), b, d);
        let here = depth_list(g, n, g(c), r, d + 1);
        let mine = if here > d { here } else { d };
        if rest > mine { rest } else { mine }
    }
}

/// The deepest depth in the subtree of `node`, which sits at depth `d`.
pub open spec fn subtree_depth(g: spec_fn(Seq<char>) -> Seq<Seq<char>>, n: nat, node: Seq<char>, d: int) -> int {
    let here = depth_list(g, n, g(node), graph_rank(g, n)(node), d + 1);
    if here > d { here } else { d }
}

pub proof fn lemma_rank(g: spec_fn(Seq<char>) -> Seq<Seq<char>>, n: nat)
    requires
        acyclic_graph(g, n),
    ensures
        ranked(g, n, graph_rank(g, n)),
{
}

pub proof fn lemma_children_below(g: spec_fn(Seq<char>) -> Seq<Seq<char>>, n: nat, node: Seq<char>)
    requires
        acyclic_graph(g, n),
    ensures
        below(g, n, g(node), graph_rank(g, n)(node)),
{
    lemma_rank(g, n);
    let cs = g(node);
    assert forall|i: int| 0 <= i < cs.len() implies #[trigger] graph_rank(g, n)(cs[i]) < graph_rank(g, n)(node) by {
        assert(graph_rank(g, n)(g(node)[i]) < graph_rank(g, n)(node));
    }
}

/// Bounds on `depth_list`: between `d - 1` and `d + b - 1`.
pub proof fn lemma_depth_bounds(g: spec_fn(Seq<char>) -> Seq<Seq<char>>, n: nat, cs: Seq<Seq<char>>, b: nat, d: int)
    ensures
        d - 1 <= depth_list(g, n, cs, b, d) <= d + b - 1,
    decreases b, cs.len(),
{
    if cs.len() > 0 && below(g, n, cs, b) {
        let c = cs.last();
        assert(graph_rank(g, n)(cs[cs.len() - 1]) < b);
        lemma_depth_bounds(g, n, cs.drop_last(), b, d);
        lemma_depth_bounds(g, n, g(c), graph_rank(g, n)(c), d + 1);
    }
}

proof fn lemma_below_prefix(g: spec_fn(Seq<char>) -> Seq<Seq<char>>, n: nat, cs: Seq<Seq<char>>, b: nat, i: int)
    requires
        below(g, n, cs, b),
        0 <= i <= cs.len(),
    ensures
        below(g, n, cs.take(i), b),
{
    assert forall|j: int| 0 <= j < cs.take(i).len() implies #[trigger] graph_rank(g, n)(cs.take(i)[j]) < b by {
        assert(cs.take(i)[j] == cs[j]);
    }
}

proof fn lemma_depth_list_shift(g: spec_fn(Seq<char>) -> Seq<Seq<char>>, n: nat, cs: Seq<Seq<char>>, b: nat, d: int)
    ensures
        depth_list(g, n, cs, b, d) == d + depth_list(g, n, cs, b, 0),
    decreases b, cs.len(),
{
    if cs.len() > 0 && below(g, n, cs, b) {
        let c = cs.last();
        let r = graph_rank(g, n)(c);
        assert(graph_rank(g, n)(cs[cs.len() - 1]) < b);
        lemma_depth_list_shift(g, n, cs.drop_last(), b, d);
        lemma_depth_list_shift(g, n, g(c), r, d + 1);
        lemma_depth_list_shift(g, n, g(c), r, 1);
    }
}

proof fn lemma_depth_list_ge(g: spec_fn(Seq<char>) -> Seq<Seq<char>>, n: nat, cs: Seq<Seq<char>>, b: nat, d: int, i: int)
    requires
        below(g, n, cs, b),
        0 <= i < cs.len(),
    ensures
        depth_list(g, n, cs, b, d) >= subtree_depth(g, n, cs[i], d),
    decreases cs.len(),
{
    let c = cs.last();
    assert(graph_rank(g, n)(cs[cs.len() - 1]) < b);
    if i < cs.len() - 1 {
        lemma_below_prefix(g, n, cs, b, cs.len() - 1);
        assert(cs.take(cs.len() - 1) =~= cs.drop_last());
        assert(cs.drop_last()[i] == cs[i]);
        lemma_depth_list_ge(g, n, cs.drop_last(), b, d, i);
    }
}

proof fn lemma_depth_list_attained(g: spec_fn(Seq<char>) -> Seq<Seq<char>>, n: nat, cs: Seq<Seq<char>>, b: nat, d: int)
    requires
        below(g, n, cs, b),
        cs.len() > 0,
    ensures
        exists|i: int| 0 <= i < cs.len() && depth_list(g, n, cs, b, d) == #[trigger] subtree_depth(g, n, cs[i], d),
    decreases cs.len(),
{
    let c = cs.last();
    let k = cs.len() - 1;
    assert(graph_rank(g, n)(cs[k]) < b);
    assert(cs[k] == c);
    if cs.len() == 1 {
        assert(depth_list(g, n, cs.drop_last(), b, d) == d - 1);
        lemma_depth_bounds(g, n, g(c), graph_rank(g, n)(c), d + 1);
        assert(depth_list(g, n, cs, b, d) == subtree_depth(g, n, cs[k], d));
    } else {
        lemma_below_prefix(g, n, cs, b, k);
        assert(cs.take(k) =~= cs.drop_last());
        lemma_depth_list_attained(g, n, cs.drop_last(), b, d);
        let j = choose|j: int| 0 <= j < cs.drop_last().len() && depth_list(g, n, cs.drop_last(), b, d) == #[trigger] subtree_depth(g, n, cs.drop_last()[j], d);
        assert(cs.drop_last()[j] == cs[j]);
        if depth_list(g, n, cs, b, d) == subtree_depth(g, n, cs[j], d) {
        } else {
            assert(depth_list(g, n, cs, b, d) == subtree_depth(g, n, cs[k], d));
        }
    }
}

/// The height of `node`: the deepest depth below it, counted from 0.
pub open spec fn subtree_height(g: spec_fn(Seq<char>) -> Seq<Seq<char>>, n: nat, node: Seq<char>) -> int {
    subtree_depth(g, n, node, 0)
}

/// The height law of subtrees: the deepest depth below a node at depth `d` is
/// `d` plus its height; a node without children has height 0 and nothing
/// below it, and otherwise its height is one more than the greatest height of
/// its children.
pub proof fn lemma_subtree_height(g: spec_fn(Seq<char>) -> Seq<Seq<char>>, n: nat, node: Seq<char>, d: int)
    requires
        acyclic_graph(g, n),
    ensures
        subtree_depth(g, n, node, d) == d + subtree_height(g, n, node),
        g(node).len() == 0 ==> subtree_height(g, n, node) == 0 && reachable_from(g, n, node).len() == 0,
        forall|i: int| 0 <= i < g(node).len() ==> subtree_height(g, n, node) >= 1 + subtree_height(g, n, #[trigger] g(node)[i]),
        g(node).len() > 0 ==> exists|i: int| 0 <= i < g(node).len() && subtree_height(g, n, node) == 1
            + subtree_height(g, n, #[trigger] g(node)[i]),
{
    let cs = g(node);
    let b = graph_rank(g, n)(node);
    lemma_children_below(g, n, node);
    lemma_depth_list_shift(g, n, cs, b, d + 1);
    lemma_depth_list_shift(g, n, cs, b, 1);
    assert forall|i: int| 0 <= i < cs.len() implies subtree_depth(g, n, node, 0) >= 1 + subtree_depth(g, n, #[trigger] g(node)[i], 0) by {
        lemma_depth_list_ge(g, n, cs, b, 1, i);
        lemma_depth_list_shift(g, n, g(cs[i]), graph_rank(g, n)(cs[i]), 2);
        lemma_depth_list_shift(g, n, g(cs[i]), graph_rank(g, n)(cs[i]), 1);
    }
    if cs.len() > 0 {
        lemma_depth_list_attained(g, n, cs, b, 1);
        let i = choose|i: int| 0 <= i < cs.len() && depth_list(g, n, cs, b, 1) == #[trigger] subtree_depth(g, n, cs[i], 1);
        lemma_depth_list_shift(g, n, g(cs[i]), graph_rank(g, n)(cs[i]), 2);
        lemma_depth_list_shift(g, n, g(cs[i]), graph_rank(g, n)(cs[i]), 1);
        lemma_depth_bounds(g, n, g(cs[i]), graph_rank(g, n)(cs[i]), 1);
        assert(subtree_depth(g, n, node, 0) == 1 + subtree_depth(g, n, g(node)[i], 0));
    } else {
        assert(depth_list(g, n, cs, b, 1) == 0);
    }
}

/// The map agrees with `g` wherever a walk down from `s` goes, and `k` is on
/// such a walk.
pub open spec fn agrees_below(m: ChildMap, g: spec_fn(Seq<char>) -> Seq<Seq<char>>, s: Seq<char>, k: Seq<char>) -> bool {
    &&& forall|x: Seq<char>| reaches(m.children_fn(), s, x) ==> #[trigger] g(x) == m.children_of(x)
    &&& reaches(m.children_fn(), s, k)
}

pub(crate) fn collect_reachable_ranked(
    root: &str,
    parent_to_children: &ChildMap,
    reachable: &mut Vec<String>,
    Ghost(g): Ghost<spec_fn(Seq<char>) -> Seq<Seq<char>>>,
    Ghost(s): Ghost<Seq<char>>,
)
    requires
        acyclic_graph(g, parent_to_children.len()),
        agrees_below(*parent_to_children, g, s, root@),
    ensures
        strs(final(reachable)@) == strs(old(reachable)@) + reachable_from(g, parent_to_children.len(), root@),
    decreases graph_rank(g, parent_to_children.len())(root@),
{
    let ghost f = parent_to_children.children_fn();
    let ghost n = parent_to_children.len();
    let ghost b = graph_rank(g, n)(root@);
    proof {
        lemma_children_below(g, n, root@);
        assert(g(root@) == parent_to_children.children_of(root@));
    }
    match parent_to_children.get(root) {
        Some(children) => {
            let ghost cs = strs(children@);
            let ghost start = strs(reachable@);
            let mut i: usize = 0;
            while i < children.len()
                invariant
                    f == parent_to_children.children_fn(),
                    n == parent_to_children.len(),
                    acyclic_graph(g, n),
                    agrees_below(*parent_to_children, g, s, root@),
                    cs == strs(children@),
                    cs == g(root@),
                    b == graph_rank(g, n)(root@),
                    below(g, n, cs, b),
                    i <= children@.len(),
                    strs(reachable@) == start + reach_list(g, n, cs.take(i as int), b),
                decreases children@.len() - i,
            {
                let child = &children[i];
                let ghost pre = reachable@;
                reachable.push(child.clone());
                assert(strs(reachable@) =~= strs(pre).push(child@));
                proof {
                    lemma_below_prefix(g, n, cs, b, i + 1);
                    assert(cs.take(i + 1).drop_last() =~= cs.take(i as int));
                    assert(cs.take(i + 1).last() == child@);
                    assert(graph_rank(g, n)(cs[i as int]) < b);
                    assert(f(root@) == cs);
                    assert(f(root@).contains(child@));
                    lemma_reaches_child(f, s, root@, child@);
                }
                collect_reachable_ranked(child.as_str(), parent_to_children, reachable, Ghost(g), Ghost(s));
                proof {
                    assert(strs(reachable@) =~= start + reach_list(g, n, cs.take(i + 1), b));
                }
                i = i + 1;
            }
            assert(cs.take(children@.len() as int) =~= cs);
        },
        None => {
            assert(strs(reachable@) =~= strs(old(reachable)@) + reachable_from(g, n, root@));
        },
    }
}

/// Appends to `reachable` every GUID below `root`, in depth-first pre-order.
pub fn collect_reachable(root: &str, parent_to_children: &ChildMap, reachable: &mut Vec<String>)
    requires
        acyclic_graph(walked_rel(parent_to_children.children_fn(), root@), parent_to_children.len()),
    ensures
        strs(final(reachable)@) == strs(old(reachable)@) + reachable_from(
            walked_rel(parent_to_children.children_fn(), root@),
            parent_to_children.len(),
            root@,
        ),
{
    proof {
        lemma_reaches_self(parent_to_children.children_fn(), root@);
    }
    collect_reachable_ranked(
        root,
        parent_to_children,
        reachable,
        Ghost(walked_rel(parent_to_children.children_fn(), root@)),
        Ghost(root@),
    )
}

pub(crate) fn compute_subtree_stats_ranked(
    node: &str,
    parent_to_children: &ChildMap,
    reachable: &mut Vec<String>,
    current_depth: usize,
    Ghost(g): Ghost<spec_fn(Seq<char>) -> Seq<Seq<char>>>,
    Ghost(s): Ghost<Seq<char>>,
) -> (r: usize)
    requires
        acyclic_graph(g, parent_to_children.len()),
        agrees_below(*parent_to_children, g, s, node@),
        subtree_depth(g, parent_to_children.len(), node@, current_depth as int) <= usize::MAX,
    ensures
        strs(final(reachable)@) == strs(old(reachable)@) + reachable_from(g, parent_to_children.len(), node@),
        r == subtree_depth(g, parent_to_children.len(), node@, current_depth as int),
    decreases graph_rank(g, parent_to_children.len())(node@),
{
    let ghost f = parent_to_children.children_fn();
    let ghost n = parent_to_children.len();
    let ghost b = graph_rank(g, n)(node@);
    let ghost d = current_depth as int;
    proof {
        lemma_children_below(g, n, node@);
        assert(g(node@) == parent_to_children.children_of(node@));
    }
    let mut max_depth = current_depth;
    match parent_to_children.get(node) {
        Some(children) => {
            let ghost cs = strs(children@);
            let ghost start = strs(reachable@);
            let mut i: usize = 0;
            while i < children.len()
                invariant
                    f == parent_to_children.children_fn(),
                    n == parent_to_children.len(),
                    acyclic_graph(g, n),
                    agrees_below(*parent_to_children, g, s, node@),
                    cs == strs(children@),
                    cs == g(node@),
                    b == graph_rank(g, n)(node@),
                    d == current_depth,
                    subtree_depth(g, n, node@, d) <= usize::MAX,
                    below(g, n, cs, b),
                    i <= children@.len(),
                    strs(reachable@) == start + reach_list(g, n, cs.take(i as int), b),
                    max_depth as int == (if depth_list(g, n, cs.take(i as int), b, d + 1) > d {
                        depth_list(g, n, cs.take(i as int), b, d + 1)
                    } else {
                        d
                    }),
                decreases children@.len() - i,
            {
                let child = &children[i];
                let ghost pre = reachable@;
                reachable.push(child.clone());
                assert(strs(reachable@) =~= strs(pre).push(child@));
                proof {
                    lemma_below_prefix(g, n, cs, b, i + 1);
                    assert(cs.take(i + 1).drop_last() =~= cs.take(i as int));
                    assert(cs.take(i + 1).last() == child@);
                    assert(graph_rank(g, n)(cs[i as int]) < b);
                    lemma_depth_list_ge(g, n, cs, b, d + 1, i as int);
                    lemma_depth_bounds(g, n, g(cs[i as int]), graph_rank(g, n)(cs[i as int]), d + 2);
                    assert(f(node@) == cs);
                    assert(f(node@).contains(child@));
                    lemma_reaches_child(f, s, node@, child@);
                }
                let child_depth = compute_subtree_stats_ranked(
                    child.as_str(),
                    parent_to_children,
                    reachable,
                    current_depth + 1,
                    Ghost(g),
                    Ghost(s),
                );
                if child_depth > max_depth {
                    max_depth = child_depth;
                }
                proof {
                    assert(strs(reachable@) =~= start + reach_list(g, n, cs.take(i + 1), b));
                }
                i = i + 1;
            }
            assert(cs.take(children@.len() as int) =~= cs);
        },
        None => {
            assert(strs(reachable@) =~= strs(old(reachable)@) + reachable_from(g, n, node@));
        },
    }
    max_depth
}

/// Appends to `reachable` every GUID below `node`, in depth-first pre-order
/// (what `collect_reachable` appends), and returns the deepest depth in the
/// subtree of `node`, which sits at depth `current_depth`: `current_depth`
/// plus the height of `node` (see `lemma_subtree_height`).
pub fn compute_subtree_stats(
    node: &str,
    parent_to_children: &ChildMap,
    reachable: &mut Vec<String>,
    current_depth: usize,
) -> (r: usize)
    requires
        acyclic_graph(walked_rel(parent_to_children.children_fn(), node@), parent_to_children.len()),
        current_depth + subtree_height(walked_rel(parent_to_children.children_fn(), node@), parent_to_children.len(), node@)
            <= usize::MAX,
    ensures
        strs(final(reachable)@) == strs(old(reachable)@) + reachable_from(
            walked_rel(parent_to_children.children_fn(), node@),
            parent_to_children.len(),
            node@,
        ),
        r == subtree_depth(
            walked_rel(parent_to_children.children_fn(), node@),
            parent_to_children.len(),
            node@,
            current_depth as int,
        ),
        r == current_depth + subtree_height(
            walked_rel(parent_to_children.children_fn(), node@),
            parent_to_children.len(),
            node@,
        ),
{
    let ghost w = walked_rel(parent_to_children.children_fn(), node@);
    proof {
        lemma_subtree_height(w, parent_to_children.len(), node@, current_depth as int);
        lemma_reaches_self(parent_to_children.children_fn(), node@);
    }
    compute_subtree_stats_ranked(node, parent_to_children, reachable, current_depth, Ghost(w), Ghost(node@))
}

/// The length of the longest walk down from `k`, looking at most `f` steps
/// deep.
pub open spec fn walk_len(g: spec_fn(Seq<char>) -> Seq<Seq<char>>, k: Seq<char>, f: nat) -> nat
    decreases f, 0nat,
{
    if f == 0 {
        0
    } else {
        walk_len_list(g, g(k), (f - 1) as nat)
    }
}

/// The greatest `1 + walk_len(c, f)` over the GUIDs `c` of the list; 0 for an
/// empty list.
pub open spec fn walk_len_list(g: spec_fn(Seq<char>) -> Seq<Seq<char>>, cs: Seq<Seq<char>>, f: nat) -> nat
    decreases f, cs.len() + 1,
{
    if cs.len() == 0 {
        0
    } else {
        let a = walk_len_list(g, cs.drop_last(), f);
        let b = 1 + walk_len(g, cs.last(), f);
        if a > b { a } else { b }
    }
}

proof fn lemma_walk_len_list_ge(g: spec_fn(Seq<char>) -> Seq<Seq<char>>, cs: Seq<Seq<char>>, f: nat, i: int)
    requires
        0 <= i < cs.len(),
    ensures
        walk_len_list(g, cs, f) >= 1 + walk_len(g, cs[i], f),
    decreases cs.len(),
{
    if i < cs.len() - 1 {
        assert(cs.drop_last()[i] == cs[i]);
        lemma_walk_len_list_ge(g, cs.drop_last(), f, i);
    }
}

proof fn lemma_walk_len_list_le(g: spec_fn(Seq<char>) -> Seq<Seq<char>>, cs: Seq<Seq<char>>, f: nat, b: nat)
    requires
        forall|i: int| 0 <= i < cs.len() ==> 1 + walk_len(g, #[trigger] cs[i], f) <= b,
    ensures
        walk_len_list(g, cs, f) <= b,
    decreases cs.len(),
{
    if cs.len() > 0 {
        let d = cs.drop_last();
        assert forall|i: int| 0 <= i < d.len() implies 1 + walk_len(g, #[trigger] d[i], f) <= b by {
            assert(d[i] == cs[i]);
        }
        lemma_walk_len_list_le(g, d, f, b);
        assert(cs.last() == cs[cs.len() - 1]);
    }
}

proof fn lemma_walk_len_bound(g: spec_fn(Seq<char>) -> Seq<Seq<char>>, k: Seq<char>, f: nat)
    ensures
        walk_len(g, k, f) <= f,
    decreases f,
{
    if f > 0 {
        let cs = g(k);
        assert forall|i: int| 0 <= i < cs.len() implies 1 + walk_len(g, #[trigger] cs[i], (f - 1) as nat) <= f by {
            lemma_walk_len_bound(g, cs[i], (f - 1) as nat);
        }
        lemma_walk_len_list_le(g, cs, (f - 1) as nat, f);
    }
}

proof fn lemma_walk_len_step(g: spec_fn(Seq<char>) -> Seq<Seq<char>>, k: Seq<char>, f: nat)
    requires
        walk_len(g, k, f) < f,
    ensures
        walk_len(g, k, f + 1) == walk_len(g, k, f),
    decreases f, 0nat,
{
    lemma_walk_len_list_step(g, g(k), (f - 1) as nat);
}

proof fn lemma_walk_len_list_step(g: spec_fn(Seq<char>) -> Seq<Seq<char>>, cs: Seq<Seq<char>>, f: nat)
    requires
        walk_len_list(g, cs, f) < f + 1,
    ensures
        walk_len_list(g, cs, f + 1) == walk_len_list(g, cs, f),
    decreases f, cs.len() + 1,
{
    if cs.len() > 0 {
        let c = cs.last();
        lemma_walk_len_list_ge(g, cs, f, cs.len() - 1);
        assert(cs[cs.len() - 1] == c);
        lemma_walk_len_list_step(g, cs.drop_last(), f);
        lemma_walk_len_step(g, c, f);
    }
}

proof fn lemma_walk_len_settled(g: spec_fn(Seq<char>) -> Seq<Seq<char>>, k: Seq<char>, f: nat, f2: nat)
    requires
        walk_len(g, k, f) < f,
        f <= f2,
    ensures
        walk_len(g, k, f2) == walk_len(g, k, f),
    decreases f2 - f,
{
    if f < f2 {
        lemma_walk_len_step(g, k, f);
        lemma_walk_len_settled(g, k, f + 1, f2);
    }
}

proof fn lemma_walk_len_walk(g: spec_fn(Seq<char>) -> Seq<Seq<char>>, p: Seq<Seq<char>>, f: nat)
    requires
        is_walk(g, p),
        p.len() >= 1,
        p.len() - 1 <= f,
    ensures
        walk_len(g, p[0], f) >= (p.len() - 1) + walk_len(g, p.last(), (f - (p.len() - 1)) as nat),
    decreases p.len(),
{
    if p.len() > 1 {
        let q = p.drop_first();
        assert forall|i: int| 0 <= i < q.len() - 1 implies #[trigger] g(q[i]).contains(q[i + 1]) by {
            assert(q[i] == p[i + 1] && q[i + 1] == p[i + 2]);
            assert(g(p[i + 1]).contains(p[i + 2]));
        }
        assert(is_walk(g, q));
        lemma_walk_len_walk(g, q, (f - 1) as nat);
        assert(g(p[0]).contains(p[1]));
        let j = choose|j: int| 0 <= j < g(p[0]).len() && #[trigger] g(p[0])[j] == p[1];
        lemma_walk_len_list_ge(g, g(p[0]), (f - 1) as nat, j);
        assert(q[0] == p[1]);
        assert(q.last() == p.last());
    }
}

proof fn lemma_walk_short(g: spec_fn(Seq<char>) -> Seq<Seq<char>>, s: Seq<char>, n: nat, p: Seq<Seq<char>>)
    requires
        walk_len(g, s, n + 1) <= n,
        is_walk(g, p),
        p.len() >= 1,
        p[0] == s,
    ensures
        p.len() - 1 <= n,
        walk_len(g, p.last(), (n + 1 - (p.len() - 1)) as nat) <= n - (p.len() - 1),
{
    if p.len() - 1 > n {
        let q = p.take(n + 2int);
        assert forall|i: int| 0 <= i < q.len() - 1 implies #[trigger] g(q[i]).contains(q[i + 1]) by {
            assert(q[i] == p[i] && q[i + 1] == p[i + 1]);
            assert(g(p[i]).contains(p[i + 1]));
        }
        lemma_walk_len_walk(g, q, n + 1);
    } else {
        lemma_walk_len_walk(g, p, n + 1);
    }
}

proof fn lemma_walk_len_ranked(
    g: spec_fn(Seq<char>) -> Seq<Seq<char>>,
    s: Seq<char>,
    n: nat,
    r: spec_fn(Seq<char>) -> nat,
    k: Seq<char>,
    f: nat,
)
    requires
        ranked(walked_rel(g, s), n, r),
        reaches(g, s, k),
    ensures
        walk_len(g, k, f) <= r(k),
    decreases f,
{
    if f > 0 {
        let cs = g(k);
        assert(walked_rel(g, s)(k) == cs);
        assert forall|i: int| 0 <= i < cs.len() implies 1 + walk_len(g, #[trigger] cs[i], (f - 1) as nat) <= r(k) by {
            assert(cs.contains(cs[i]));
            lemma_reaches_child(g, s, k, cs[i]);
            lemma_walk_len_ranked(g, s, n, r, cs[i], (f - 1) as nat);
            assert(r(walked_rel(g, s)(k)[i]) < r(k));
        }
        lemma_walk_len_list_le(g, cs, (f - 1) as nat, r(k));
    }
}

/// Walks down from `s` are finite, in the sense of `acyclic_graph`, exactly
/// when the longest walk within `n + 1` steps has at most `n` steps.
proof fn lemma_walk_len_acyclic(g: spec_fn(Seq<char>) -> Seq<Seq<char>>, s: Seq<char>, n: nat)
    ensures
        acyclic_graph(walked_rel(g, s), n) <==> walk_len(g, s, n + 1) <= n,
{
    let w = walked_rel(g, s);
    if acyclic_graph(w, n) {
        let r = graph_rank(w, n);
        lemma_reaches_self(g, s);
        lemma_walk_len_ranked(g, s, n, r, s, n + 1);
    }
    if walk_len(g, s, n + 1) <= n {
        let rank = |x: Seq<char>| if reaches(g, s, x) { walk_len(g, x, n + 1) } else { 0 };
        assert forall|k: Seq<char>| #[trigger] rank(k) <= n by {
            if reaches(g, s, k) {
                let p = choose|p: Seq<Seq<char>>| #[trigger] is_walk(g, p) && p.len() > 0 && p[0] == s && p.last() == k;
                lemma_walk_short(g, s, n, p);
                let l = (p.len() - 1) as nat;
                lemma_walk_len_settled(g, k, (n + 1 - l) as nat, n + 1);
            }
        }
        assert forall|k: Seq<char>, j: int| 0 <= j < w(k).len() implies rank(#[trigger] w(k)[j]) < rank(k) by {
            if reaches(g, s, k) {
                let c = g(k)[j];
                assert(w(k) == g(k));
                assert(g(k).contains(c));
                lemma_reaches_child(g, s, k, c);
                let p = choose|p: Seq<Seq<char>>| #[trigger] is_walk(g, p) && p.len() > 0 && p[0] == s && p.last() == k;
                let q = p.push(c);
                assert forall|i: int| 0 <= i < q.len() - 1 implies #[trigger] g(q[i]).contains(q[i + 1]) by {
                    if i < p.len() - 1 {
                        assert(q[i] == p[i] && q[i + 1] == p[i + 1]);
                        assert(g(p[i]).contains(p[i + 1]));
                    } else {
                        assert(q[i] == k && q[i + 1] == c);
                    }
                }
                lemma_walk_short(g, s, n, q);
                let l = (q.len() - 1) as nat;
                assert(q.last() == c);
                lemma_walk_len_settled(g, c, (n + 1 - l) as nat, n);
                lemma_walk_len_settled(g, c, (n + 1 - l) as nat, n + 1);
                lemma_walk_len_list_ge(g, g(k), n, j);
            }
        }
        assert(ranked(w, n, rank));
    }
}

fn walk_len_exec(m: &ChildMap, k: &str, f: u128) -> (r: u128)
    ensures
        r == walk_len(m.children_fn(), k@, f as nat),
    decreases f,
{
    let ghost g = m.children_fn();
    if f == 0 {
        return 0;
    }
    proof {
        lemma_walk_len_bound(g, k@, f as nat);
    }
    match m.get(k) {
        Some(children) => {
            let ghost cs = strs(children@);
            assert(cs == g(k@));
            let mut best: u128 = 0;
            let mut i: usize = 0;
            assert(cs.take(0) =~= Seq::<Seq<char>>::empty());
            while i < children.len()
                invariant
                    g == m.children_fn(),
                    cs == strs(children@),
                    cs == g(k@),
                    0 < f,
                    walk_len_list(g, cs, (f - 1) as nat) <= f,
                    i <= children@.len(),
                    best == walk_len_list(g, cs.take(i as int), (f - 1) as nat),
                decreases children@.len() - i,
            {
                assert(cs.take(i + 1).drop_last() =~= cs.take(i as int));
                assert(cs.take(i + 1).last() == cs[i as int]);
                let h = walk_len_exec(m, children[i].as_str(), f - 1);
                proof {
                    lemma_walk_len_list_ge(g, cs, (f - 1) as nat, i as int);
                }
                if h + 1 > best {
                    best = h + 1;
                }
                i = i + 1;
            }
            assert(cs.take(children@.len() as int) =~= cs);
            best
        },
        None => {
            assert(g(k@).len() == 0);
            0
        },
    }
}

/// Decides whether every walk down from `s` is finite: no GUID below `s`
/// (or `s` itself) lies below itself.
pub fn walk_is_finite(m: &ChildMap, s: &str) -> (r: bool)
    ensures
        r == acyclic_graph(walked_rel(m.children_fn(), s@), m.len()),
{
    walks_end_within(m, s, m.key_count())
}

/// Decides whether the walks down from `s` can be ranked within `n`.
pub fn walks_end_within(m: &ChildMap, s: &str, n: usize) -> (r: bool)
    ensures
        r == acyclic_graph(walked_rel(m.children_fn(), s@), n as nat),
{
    let f = n as u128;
    proof {
        lemma_walk_len_acyclic(m.children_fn(), s@, n as nat);
    }
    walk_len_exec(m, s, f + 1) <= f
}

} // verus!
