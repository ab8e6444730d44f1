use vstd::prelude::*;
use crate::text::str_equal;

verus! {

/// The contents of a vector of strings.
pub open spec fn strs(v: Seq<String>) -> Seq<Seq<char>> {
    v.map_values(|s: String| s@)
}

/// Position of the first entry whose key is `k` in `e`, or -1.
pub open spec fn first_index(e: Seq<(Seq<char>, Seq<Seq<char>>)>, k: Seq<char>) -> int
    decreases e.len(),
{
    if e.len() == 0 {
        -1
    } else if first_index(e.drop_last(), k) >= 0 {
        first_index(e.drop_last(), k)
    } else if e.last().0 == k {
        e.len() - 1
    } else {
        -1
    }
}

/// A map from a parent GUID to the GUIDs of its children, in insertion order.
#[derive(Debug)]
pub struct ChildMap {
    entries: Vec<(String, Vec<String>)>,
}

pub proof fn lemma_first_index(e: Seq<(Seq<char>, Seq<Seq<char>>)>, k: Seq<char>)
    ensures
        -1 <= first_index(e, k) < e.len(),
        first_index(e, k) >= 0 ==> e[first_index(e, k)].0 == k,
        first_index(e, k) >= 0 ==> forall|j: int| 0 <= j < first_index(e, k) ==> e[j].0 != k,
        first_index(e, k) < 0 ==> forall|j: int| 0 <= j < e.len() ==> e[j].0 != k,
    decreases e.len(),
{
    if e.len() > 0 {
        let d = e.drop_last();
        lemma_first_index(d, k);
        assert forall|j: int| 0 <= j < d.len() implies d[j] == e[j] by {}
    }
}

proof fn lemma_rank_choice(m: ChildMap)
    requires
        m.acyclic(),
    ensures
        m.ranked_by(m.rank()),
{
}

pub proof fn lemma_first_index_char(e: Seq<(Seq<char>, Seq<Seq<char>>)>, k: Seq<char>, i: int)
    requires
        0 <= i < e.len(),
        e[i].0 == k,
        forall|j: int| 0 <= j < i ==> e[j].0 != k,
    ensures
        first_index(e, k) == i,
{
    lemma_first_index(e, k);
}

pub proof fn lemma_first_index_none(e: Seq<(Seq<char>, Seq<Seq<char>>)>, k: Seq<char>)
    requires
        forall|j: int| 0 <= j < e.len() ==> e[j].0 != k,
    ensures
        first_index(e, k) == -1,
{
    lemma_first_index(e, k);
}

/// A copy of a vector of strings.
pub fn clone_strings(src: &Vec<String>) -> (r: Vec<String>)
    ensures
        strs(r@) == strs(src@),
{
    let mut l: Vec<String> = Vec::new();
    let mut j: usize = 0;
    while j < src.len()
        invariant
            j <= src@.len(),
            strs(l@) == strs(src@).take(j as int),
        decreases src@.len() - j,
    {
        let ghost pre = l@;
        let s = src[j].clone();
        l.push(s);
        assert(l@ == pre.push(src@[j as int]));
        assert(strs(l@) =~= strs(pre).push(src@[j as int]@));
        assert(strs(src@).take(j + 1) =~= strs(src@).take(j as int).push(src@[j as int]@));
        j = j + 1;
    }
    assert(strs(src@).take(src@.len() as int) =~= strs(src@));
    l
}

/// `rank` decreases from every GUID to each of its children in `g` and stays
/// within `n`.
pub open spec fn ranked(g: spec_fn(Seq<char>) -> Seq<Seq<char>>, n: nat, rank: spec_fn(Seq<char>) -> nat) -> bool {
    &&& forall|k: Seq<char>| #[trigger] rank(k) <= n
    &&& forall|k: Seq<char>, j: int| 0 <= j < g(k).len() ==> rank(#[trigger] g(k)[j]) < rank(k)
}

/// The parent-to-children relation `g` has no cycle: some ranking within `n` exists.
pub open spec fn acyclic_graph(g: spec_fn(Seq<char>) -> Seq<Seq<char>>, n: nat) -> bool {
    exists|rank: spec_fn(Seq<char>) -> nat| ranked(g, n, rank)
}

/// A ranking of an acyclic relation.
pub open spec fn graph_rank(g: spec_fn(Seq<char>) -> Seq<Seq<char>>, n: nat) -> spec_fn(Seq<char>) -> nat {
    choose|rank: spec_fn(Seq<char>) -> nat| ranked(g, n, rank)
}

/// `p` walks down the relation: each GUID is a child of the one before.
pub open spec fn is_walk(g: spec_fn(Seq<char>) -> Seq<Seq<char>>, p: Seq<Seq<char>>) -> bool {
    forall|i: int| 0 <= i < p.len() - 1 ==> #[trigger] g(p[i]).contains(p[i + 1])
}

/// `k` is `s` or lies below it in the relation.
pub open spec fn reaches(g: spec_fn(Seq<char>) -> Seq<Seq<char>>, s: Seq<char>, k: Seq<char>) -> bool {
    exists|p: Seq<Seq<char>>| #[trigger] is_walk(g, p) && p.len() > 0 && p[0] == s && p.last() == k
}

/// The relation kept where a walk down from `s` goes: the children of `s`
/// and of every GUID below it; no children elsewhere.
pub open spec fn walked_rel(g: spec_fn(Seq<char>) -> Seq<Seq<char>>, s: Seq<char>) -> spec_fn(Seq<char>) -> Seq<Seq<char>> {
    |k: Seq<char>| if reaches(g, s, k) { g(k) } else { Seq::empty() }
}

/// A GUID reaches itself.
pub proof fn lemma_reaches_self(g: spec_fn(Seq<char>) -> Seq<Seq<char>>, s: Seq<char>)
    ensures
        reaches(g, s, s),
{
    let p = seq![s];
    assert(is_walk(g, p));
}

/// A child of a GUID that `s` reaches is reached as well.
pub proof fn lemma_reaches_child(g: spec_fn(Seq<char>) -> Seq<Seq<char>>, s: Seq<char>, k: Seq<char>, c: Seq<char>)
    requires
        reaches(g, s, k),
        g(k).contains(c),
    ensures
        reaches(g, s, c),
{
    let p = choose|p: Seq<Seq<char>>| #[trigger] is_walk(g, p) && p.len() > 0 && p[0] == s && p.last() == k;
    let q = p.push(c);
    assert forall|i: int| 0 <= i < q.len() - 1 implies #[trigger] g(q[i]).contains(q[i + 1]) by {
        if i < p.len() - 1 {
            assert(q[i] == p[i] && q[i + 1] == p[i + 1]);
            assert(g(p[i]).contains(p[i + 1]));
        } else {
            assert(q[i] == k && q[i + 1] == c);
        }
    }
    assert(is_walk(g, q));
}

/// Sum of a list of heights.
pub open spec fn total(h: Seq<usize>) -> int
    decreases h.len(),
{
    if h.len() == 0 { 0 } else { total(h.drop_last()) + h.last() }
}

proof fn lemma_total_update(h: Seq<usize>, i: int, v: usize)
    requires
        0 <= i < h.len(),
    ensures
        total(h.update(i, v)) == total(h) - h[i] + v,
    decreases h.len(),
{
    if i < h.len() - 1 {
        assert(h.update(i, v).drop_last() =~= h.drop_last().update(i, v));
        lemma_total_update(h.drop_last(), i, v);
    } else {
        assert(h.update(i, v).drop_last() =~= h.drop_last());
    }
}

proof fn lemma_total_bound(h: Seq<usize>, n: int)
    requires
        forall|i: int| 0 <= i < h.len() ==> h[i] <= n,
        n >= 0,
    ensures
        0 <= total(h) <= h.len() * n,
    decreases h.len(),
{
    if h.len() > 0 {
        let d = h.drop_last();
        assert forall|i: int| 0 <= i < d.len() implies d[i] <= n by {
            assert(d[i] == h[i]);
        }
        lemma_total_bound(d, n);
        assert(h.len() * n == d.len() * n + n) by (nonlinear_arith)
            requires h.len() == d.len() + 1;
    }
}

impl ChildMap {
    /// The entries as (key, children) contents.
    pub closed spec fn entries_view(&self) -> Seq<(Seq<char>, Seq<Seq<char>>)> {
        self.entries@.map_values(|e: (String, Vec<String>)| (e.0@, strs(e.1@)))
    }

    /// The children recorded for `k`; empty when `k` has no entry.
    pub open spec fn children_of(&self, k: Seq<char>) -> Seq<Seq<char>> {
        let i = first_index(self.entries_view(), k);
        if i >= 0 { self.entries_view()[i].1 } else { Seq::empty() }
    }

    /// True when `k` has an entry.
    pub open spec fn has_key(&self, k: Seq<char>) -> bool {
        first_index(self.entries_view(), k) >= 0
    }

    /// The number of entries.
    pub open spec fn len(&self) -> nat {
        self.entries_view().len()
    }

    /// The children of each GUID, as a function.
    pub open spec fn children_fn(&self) -> spec_fn(Seq<char>) -> Seq<Seq<char>> {
        |k: Seq<char>| self.children_of(k)
    }

    /// `rank` decreases from every parent to each of its children and stays
    /// within the number of entries.
    pub open spec fn ranked_by(&self, rank: spec_fn(Seq<char>) -> nat) -> bool {
        ranked(self.children_fn(), self.len(), rank)
    }

    /// No GUID is its own descendant.
    pub open spec fn acyclic(&self) -> bool {
        acyclic_graph(self.children_fn(), self.len())
    }

    /// A ranking of an acyclic map.
    pub open spec fn rank(&self) -> spec_fn(Seq<char>) -> nat {
        graph_rank(self.children_fn(), self.len())
    }

    /// The height recorded for `k` in `h`: that of its first entry, else 0.
    pub open spec fn height(&self, h: Seq<usize>, k: Seq<char>) -> nat {
        let i = first_index(self.entries_view(), k);
        if 0 <= i < h.len() { h[i] as nat } else { 0 }
    }

    /// Entry `i` is the first entry of its key.
    pub open spec fn is_first(&self, i: int) -> bool {
        first_index(self.entries_view(), self.entries_view()[i].0) == i
    }

    /// Every first entry is higher than each of its children, and no height
    /// exceeds the number of entries.
    pub open spec fn settled(&self, h: Seq<usize>) -> bool {
        &&& h.len() == self.len()
        &&& forall|i: int| 0 <= i < h.len() ==> h[i] <= self.len()
        &&& forall|i: int, j: int|
            0 <= i < h.len() && self.is_first(i) && 0 <= j < self.entries_view()[i].1.len()
                ==> h[i] > self.height(h, #[trigger] self.entries_view()[i].1[j])
    }

    proof fn lemma_settled_ranks(&self, h: Seq<usize>)
        requires
            self.settled(h),
        ensures
            self.acyclic(),
    {
        let rank = |k: Seq<char>| self.height(h, k);
        assert forall|k: Seq<char>, j: int| 0 <= j < self.children_of(k).len() implies rank(
            #[trigger] self.children_of(k)[j],
        ) < rank(k) by {
            let i = first_index(self.entries_view(), k);
            lemma_first_index(self.entries_view(), k);
            assert(self.is_first(i));
            assert(h[i] > self.height(h, self.entries_view()[i].1[j]));
        }
        assert forall|k: Seq<char>| #[trigger] rank(k) <= self.len() by {
            lemma_first_index(self.entries_view(), k);
        }
        assert(self.ranked_by(rank));
    }

    /// Decides whether the map is acyclic, by raising each parent's height
    /// above its children's until nothing changes or a height passes the
    /// number of entries.
    pub fn is_acyclic(&self) -> (r: bool)
        ensures
            r == self.acyclic(),
    {
        let n = self.entries.len();
        let ghost ev = self.entries_view();
        let mut h: Vec<usize> = Vec::new();
        let mut z: usize = 0;
        while z < n
            invariant
                z <= n,
                h@.len() == z,
                forall|i: int| 0 <= i < z ==> h@[i] == 0,
            decreases n - z,
        {
            h.push(0);
            z = z + 1;
        }
        let ghost ranked = self.acyclic();
        let ghost rank = self.rank();
        proof {
            if ranked {
                lemma_rank_choice(*self);
            }
            lemma_total_bound(h@, n as int);
        }
        loop
            invariant
                n == self.len(),
                ev == self.entries_view(),
                h@.len() == n,
                forall|i: int| 0 <= i < n ==> h@[i] <= n,
                ranked == self.acyclic(),
                ranked ==> self.ranked_by(rank),
                ranked ==> forall|i: int| 0 <= i < n && self.is_first(i) ==> h@[i] <= rank(ev[i].0),
                ranked ==> forall|i: int| 0 <= i < n && !self.is_first(i) ==> h@[i] == 0,
                0 <= total(h@) <= n * n,
            decreases n * n - total(h@),
        {
            let ghost start = h@;
            let mut changed = false;
            let mut i: usize = 0;
            while i < n
                invariant
                    n == self.len(),
                    ev == self.entries_view(),
                    i <= n,
                    h@.len() == n,
                    forall|a: int| 0 <= a < n ==> h@[a] <= n,
                    ranked == self.acyclic(),
                    ranked ==> self.ranked_by(rank),
                    ranked ==> forall|a: int| 0 <= a < n && self.is_first(a) ==> h@[a] <= rank(ev[a].0),
                    ranked ==> forall|a: int| 0 <= a < n && !self.is_first(a) ==> h@[a] == 0,
                    !changed ==> h@ == start,
                    changed ==> total(h@) > total(start),
                    total(h@) >= total(start),
                    !changed ==> forall|a: int, j: int|
                        0 <= a < i && self.is_first(a) && 0 <= j < ev[a].1.len()
                            ==> h@[a] > self.height(h@, #[trigger] ev[a].1[j]),
                decreases n - i,
            {
                let first = self.find(self.entries[i].0.as_str());
                if first == Some(i) {
                    let children = &self.entries[i].1;
                    let mut j: usize = 0;
                    while j < children.len()
                        invariant
                            n == self.len(),
                            ev == self.entries_view(),
                            i < n,
                            self.is_first(i as int),
                            strs(children@) == ev[i as int].1,
                            j <= children@.len(),
                            h@.len() == n,
                            forall|a: int| 0 <= a < n ==> h@[a] <= n,
                            ranked == self.acyclic(),
                            ranked ==> self.ranked_by(rank),
                            ranked ==> forall|a: int| 0 <= a < n && self.is_first(a) ==> h@[a] <= rank(ev[a].0),
                            ranked ==> forall|a: int| 0 <= a < n && !self.is_first(a) ==> h@[a] == 0,
                            !changed ==> h@ == start,
                            changed ==> total(h@) > total(start),
                            total(h@) >= total(start),
                            !changed ==> forall|a: int, b: int|
                                0 <= a < i && self.is_first(a) && 0 <= b < ev[a].1.len()
                                    ==> h@[a] > self.height(h@, #[trigger] ev[a].1[b]),
                            !changed ==> forall|b: int|
                                0 <= b < j ==> h@[i as int] > self.height(h@, #[trigger] ev[i as int].1[b]),
                        decreases children@.len() - j,
                    {
                        let c = &children[j];
                        let hc: usize = match self.find(c.as_str()) {
                            Some(ci) => h[ci],
                            None => 0,
                        };
                        assert(hc == self.height(h@, ev[i as int].1[j as int]));
                        if h[i] <= hc {
                            proof {
                                if ranked {
                                    assert(self.children_of(ev[i as int].0) == ev[i as int].1);
                                    assert(self.children_fn()(ev[i as int].0) == self.children_of(ev[i as int].0));
                                    assert(rank(self.children_fn()(ev[i as int].0)[j as int]) < rank(ev[i as int].0));
                                    assert(rank(self.children_of(ev[i as int].0)[j as int]) < rank(ev[i as int].0));
                                    let ck = ev[i as int].1[j as int];
                                    let ci = first_index(ev, ck);
                                    lemma_first_index(ev, ck);
                                    if ci >= 0 {
                                        assert(ev[ci].0 == ck);
                                        assert(self.is_first(ci));
                                    }
                                    assert(rank(ck) <= n);
                                }
                            }
                            if hc >= n {
                                return false;
                            }
                            let ghost before = h@;
                            h.set(i, hc + 1);
                            proof {
                                lemma_total_update(before, i as int, (hc + 1) as usize);
                            }
                            changed = true;
                        }
                        j = j + 1;
                    }
                }
                i = i + 1;
            }
            if !changed {
                proof {
                    assert(self.settled(h@));
                    self.lemma_settled_ranks(h@);
                }
                return true;
            }
            proof {
                lemma_total_bound(h@, n as int);
            }
        }
    }

    /// The number of entries.
    pub fn key_count(&self) -> (r: usize)
        ensures
            r == self.len(),
    {
        self.entries.len()
    }

    /// An empty map.
    pub fn new() -> (r: Self)
        ensures
            r.len() == 0,
            forall|k: Seq<char>| !r.has_key(k),
    {
        let r = ChildMap { entries: Vec::new() };
        assert(r.entries_view() =~= Seq::empty());
        r
    }

    fn find(&self, k: &str) -> (r: Option<usize>)
        ensures
            r matches Some(i) ==> i as int == first_index(self.entries_view(), k@) && i < self.entries@.len(),
            r is None ==> first_index(self.entries_view(), k@) == -1,
    {
        let mut i: usize = 0;
        while i < self.entries.len()
            invariant
                i <= self.entries@.len(),
                forall|j: int| 0 <= j < i ==> self.entries_view()[j].0 != k@,
            decreases self.entries@.len() - i,
        {
            if str_equal(self.entries[i].0.as_str(), k) {
                proof {
                    lemma_first_index_char(self.entries_view(), k@, i as int);
                }
                return Some(i);
            }
            i = i + 1;
        }
        proof {
            lemma_first_index_none(self.entries_view(), k@);
        }
        None
    }

    /// The children recorded for `k`, if `k` has an entry.
    pub fn get(&self, k: &str) -> (r: Option<&Vec<String>>)
        ensures
            self.has_key(k@) ==> (r matches Some(v) && strs(v@) == self.children_of(k@)),
            !self.has_key(k@) ==> r is None,
    {
        match self.find(k) {
            Some(i) => Some(&self.entries[i].1),
            None => None,
        }
    }

    /// Sets the children of `k`, replacing those it had.
    pub fn insert(&mut self, k: String, children: Vec<String>)
        ensures
            final(self).children_of(k@) == strs(children@),
            final(self).has_key(k@),
            forall|k2: Seq<char>| k2 != k@ ==> final(self).children_of(k2) == old(self).children_of(k2)
                && final(self).has_key(k2) == old(self).has_key(k2),
            final(self).len() == old(self).len() + (if old(self).has_key(k@) { 0int } else { 1int }),
    {
        let ghost old_e = self.entries_view();
        match self.find(k.as_str()) {
            Some(i) => {
                self.entries.set(i, (k, children));
                proof {
                    let e = self.entries_view();
                    assert(e =~= old_e.update(i as int, (e[i as int].0, e[i as int].1)));
                    lemma_first_index(old_e, e[i as int].0);
                    lemma_first_index_char(e, e[i as int].0, i as int);
                    assert forall|k2: Seq<char>| k2 != e[i as int].0 implies first_index(e, k2)
                        == first_index(old_e, k2) && self.children_of(k2) == old(self).children_of(k2) by {
                        lemma_first_index(old_e, k2);
                        if first_index(old_e, k2) >= 0 {
                            lemma_first_index_char(e, k2, first_index(old_e, k2));
                            assert(e[first_index(old_e, k2)] == old_e[first_index(old_e, k2)]);
                        } else {
                            lemma_first_index_none(e, k2);
                        }
                    }
                }
            },
            None => {
                let ghost kv = k@;
                self.entries.push((k, children));
                proof {
                    let e = self.entries_view();
                    assert(e.drop_last() =~= old_e);
                    assert forall|k2: Seq<char>| k2 != kv implies first_index(e, k2)
                        == first_index(old_e, k2) && self.children_of(k2) == old(self).children_of(k2) by {
                        lemma_first_index(old_e, k2);
                        if first_index(old_e, k2) >= 0 {
                            assert(e[first_index(old_e, k2)] == old_e[first_index(old_e, k2)]);
                        }
                    }
                }
            },
        }
    }

    /// Appends `child` to the children of `k`, creating the entry when needed.
    pub fn push_child(&mut self, k: String, child: String)
        ensures
            final(self).children_of(k@) == old(self).children_of(k@).push(child@),
            final(self).has_key(k@),
            forall|k2: Seq<char>| k2 != k@ ==> final(self).children_of(k2) == old(self).children_of(k2)
                && final(self).has_key(k2) == old(self).has_key(k2),
            final(self).len() == old(self).len() + (if old(self).has_key(k@) { 0int } else { 1int }),
    {
        let mut list: Vec<String> = match self.find(k.as_str()) {
            Some(i) => {
                clone_strings(&self.entries[i].1)
            },
            None => Vec::new(),
        };
        let ghost before = strs(list@);
        list.push(child);
        assert(strs(list@) =~= before.push(child@));
        proof {
            if !self.has_key(k@) {
                assert(before =~= Seq::<Seq<char>>::empty());
            }
        }
        self.insert(k, list);
    }
}

} // verus!
