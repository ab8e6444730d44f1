use vstd::prelude::*;
use crate::childmap::strs;
use crate::text::{decimal, push_decimal, push_str};

verus! {

/// A (name, count) pair as mathematical values.
pub open spec fn counts(v: Seq<(String, usize)>) -> Seq<(Seq<char>, nat)> {
    v.map_values(|p: (String, usize)| (p.0@, p.1 as nat))
}

/// `label`, the decimal form of `n`, then `suffix`.
pub open spec fn kv(label: Seq<char>, n: nat, suffix: Seq<char>) -> Seq<char> {
    label + decimal(n) + suffix
}

/// One line per item: `prefix`, the item, a newline.
pub open spec fn lines(xs: Seq<Seq<char>>, prefix: Seq<char>) -> Seq<char>
    decreases xs.len(),
{
    if xs.len() == 0 {
        Seq::empty()
    } else {
        lines(xs.drop_last(), prefix) + prefix + xs.last() + "\n"@
    }
}

/// One line per pair: two spaces, the name, `: `, the count, a newline.
pub open spec fn count_lines(ps: Seq<(Seq<char>, nat)>) -> Seq<char>
    decreases ps.len(),
{
    if ps.len() == 0 {
        Seq::empty()
    } else {
        count_lines(ps.drop_last()) + "  "@ + ps.last().0 + ": "@ + decimal(ps.last().1) + "\n"@
    }
}

/// Appends one line per item.
pub fn push_lines(out: &mut String, xs: &Vec<String>, prefix: &str)
    ensures
        final(out)@ == old(out)@ + lines(strs(xs@), prefix@),
{
    let ghost start = out@;
    let ghost s = strs(xs@);
    let mut i: usize = 0;
    while i < xs.len()
        invariant
            i <= xs@.len(),
            s == strs(xs@),
            out@ == start + lines(s.take(i as int), prefix@),
        decreases xs@.len() - i,
    {
        push_str(out, prefix);
        push_str(out, xs[i].as_str());
        push_str(out, "\n");
        assert(s.take(i + 1).drop_last() =~= s.take(i as int));
        assert(out@ =~= start + lines(s.take(i + 1), prefix@));
        i = i + 1;
    }
    assert(s.take(xs@.len() as int) =~= s);
}

/// Appends one `  name: count` line per pair.
pub fn push_count_lines(out: &mut String, ps: &Vec<(String, usize)>)
    ensures
        final(out)@ == old(out)@ + count_lines(counts(ps@)),
{
    let ghost start = out@;
    let ghost s = counts(ps@);
    let mut i: usize = 0;
    while i < ps.len()
        invariant
            i <= ps@.len(),
            s == counts(ps@),
            out@ == start + count_lines(s.take(i as int)),
        decreases ps@.len() - i,
    {
        push_str(out, "  ");
        push_str(out, ps[i].0.as_str());
        push_str(out, ": ");
        push_decimal(out, ps[i].1 as u64);
        push_str(out, "\n");
        assert(s.take(i + 1).drop_last() =~= s.take(i as int));
        assert(out@ =~= start + count_lines(s.take(i + 1)));
        i = i + 1;
    }
    assert(s.take(ps@.len() as int) =~= s);
}

/// Appends `label`, the decimal form of `n`, then `suffix`.
pub fn push_kv(out: &mut String, label: &str, n: usize, suffix: &str)
    ensures
        final(out)@ == old(out)@ + kv(label@, n as nat, suffix@),
{
    push_str(out, label);
    push_decimal(out, n as u64);
    push_str(out, suffix);
    assert(final(out)@ =~= old(out)@ + kv(label@, n as nat, suffix@));
}

/// Inserts `x` into a list kept in non-increasing order of counts, after every
/// element whose count is at least that of `x`.
pub open spec fn insert_desc(s: Seq<(Seq<char>, nat)>, x: (Seq<char>, nat)) -> Seq<(Seq<char>, nat)>
    decreases s.len(),
{
    if s.len() == 0 {
        seq![x]
    } else if s.last().1 >= x.1 {
        s.push(x)
    } else {
        insert_desc(s.drop_last(), x).push(s.last())
    }
}

/// The list ordered by non-increasing count; pairs with equal counts keep
/// their order (a stable sort).
pub open spec fn sort_desc(s: Seq<(Seq<char>, nat)>) -> Seq<(Seq<char>, nat)>
    decreases s.len(),
{
    if s.len() == 0 {
        Seq::empty()
    } else {
        insert_desc(sort_desc(s.drop_last()), s.last())
    }
}

/// The count of every pair is at least that of the pairs after it.
pub open spec fn is_sorted_desc(s: Seq<(Seq<char>, nat)>) -> bool {
    forall|i: int, j: int| 0 <= i < j < s.len() ==> s[i].1 >= s[j].1
}

proof fn lemma_insert_desc_at(s: Seq<(Seq<char>, nat)>, x: (Seq<char>, nat), p: int)
    requires
        0 <= p <= s.len(),
        forall|j: int| p <= j < s.len() ==> s[j].1 < x.1,
        p > 0 ==> s[p - 1].1 >= x.1,
    ensures
        insert_desc(s, x) == s.take(p).push(x) + s.skip(p),
    decreases s.len(),
{
    if s.len() == 0 {
        assert(s.take(p).push(x) + s.skip(p) =~= seq![x]);
    } else if p == s.len() {
        assert(s.take(p).push(x) + s.skip(p) =~= s.push(x));
    } else {
        let d = s.drop_last();
        lemma_insert_desc_at(d, x, p);
        assert(s.take(p).push(x) + s.skip(p) =~= (d.take(p).push(x) + d.skip(p)).push(s.last()));
    }
}

pub proof fn lemma_insert_desc_props(s: Seq<(Seq<char>, nat)>, x: (Seq<char>, nat))
    requires
        is_sorted_desc(s),
    ensures
        is_sorted_desc(insert_desc(s, x)),
        insert_desc(s, x).to_multiset() == s.to_multiset().insert(x),
        insert_desc(s, x).len() == s.len() + 1,
    decreases s.len(),
{
    broadcast use vstd::seq_lib::group_seq_properties;
    if s.len() == 0 {
        assert(seq![x] =~= Seq::<(Seq<char>, nat)>::empty().push(x));
    } else if s.last().1 >= x.1 {
    } else {
        let d = s.drop_last();
        assert(s =~= d.push(s.last()));
        lemma_insert_desc_props(d, x);
        let r = insert_desc(d, x);
        assert forall|i: int, j: int| 0 <= i < j < r.push(s.last()).len() implies r.push(s.last())[i].1
            >= r.push(s.last())[j].1 by {
            if j == r.len() {
                assert(r.contains(r[i]));
                assert(r.to_multiset().count(r[i]) > 0);
                if r[i] == x {
                } else {
                    assert(d.to_multiset().count(r[i]) > 0);
                    assert(d.contains(r[i]));
                    let k = choose|k: int| 0 <= k < d.len() && d[k] == r[i];
                    assert(s[k] == d[k]);
                }
            }
        }
    }
}

/// The stable descending sort orders by count and keeps the same pairs.
pub proof fn lemma_sort_desc_props(s: Seq<(Seq<char>, nat)>)
    ensures
        is_sorted_desc(sort_desc(s)),
        sort_desc(s).to_multiset() == s.to_multiset(),
    decreases s.len(),
{
    broadcast use vstd::seq_lib::group_seq_properties;
    if s.len() > 0 {
        lemma_sort_desc_props(s.drop_last());
        lemma_insert_desc_props(sort_desc(s.drop_last()), s.last());
        assert(s =~= s.drop_last().push(s.last()));
    }
}

/// Stable sort of (name, count) pairs by non-increasing count.
pub fn sort_counts_desc(v: &Vec<(String, usize)>) -> (r: Vec<(String, usize)>)
    ensures
        counts(r@) == sort_desc(counts(v@)),
{
    let ghost sv = counts(v@);
    let mut out: Vec<(String, usize)> = Vec::new();
    let mut i: usize = 0;
    while i < v.len()
        invariant
            i <= v@.len(),
            sv == counts(v@),
            counts(out@) == sort_desc(sv.take(i as int)),
        decreases v@.len() - i,
    {
        let x = (v[i].0.clone(), v[i].1);
        let ghost xs = (x.0@, x.1 as nat);
        let ghost so = counts(out@);
        proof {
            lemma_sort_desc_props(sv.take(i as int));
        }
        let mut p: usize = out.len();
        while p > 0 && out[p - 1].1 < x.1
            invariant
                p <= out@.len(),
                so == counts(out@),
                xs == (x.0@, x.1 as nat),
                is_sorted_desc(so),
                forall|j: int| p <= j < so.len() ==> so[j].1 < xs.1,
            decreases p,
        {
            assert(so[p - 1].1 == out@[p - 1].1);
            p = p - 1;
        }
        proof {
            lemma_insert_desc_at(so, xs, p as int);
        }
        out.insert(p, x);
        assert(counts(out@) =~= so.take(p as int).push(xs) + so.skip(p as int));
        assert(sv.take(i + 1).drop_last() =~= sv.take(i as int));
        i = i + 1;
    }
    assert(sv.take(v@.len() as int) =~= sv);
    out
}

} // verus!
