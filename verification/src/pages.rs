use vstd::prelude::*;
use vstd::string::StrSliceExecFns;
use crate::json::{Json, JsonV};
use crate::canvas::{name_of, canvases_of, get_all_canvases, node_name};
use crate::canvas_query::texts_view;
use crate::image_hash::{text_contains, contains_text};
use crate::text::{decimal, lemma_decimal_injective, push_char, push_decimal, push_str, str_equal};

verus! {

/// A page the tools list: one whose name does not mark it internal.
pub open spec fn listed_page(p: JsonV) -> bool {
    !text_contains(name_of(p), "Internal Only"@)
}

/// The listed pages among `ps`, in order.
pub open spec fn listed(ps: Seq<JsonV>) -> Seq<JsonV>
    decreases ps.len(),
{
    if ps.len() == 0 {
        Seq::empty()
    } else if listed_page(ps.last()) {
        listed(ps.drop_last()).push(ps.last())
    } else {
        listed(ps.drop_last())
    }
}

/// The contents of a list of references to documents.
pub open spec fn refs_view(v: Seq<&Json>) -> Seq<JsonV> {
    v.map_values(|x: &Json| x@)
}

/// The pages of the data that the tools list, in order: those whose name
/// does not contain `Internal Only`.
pub fn listed_pages(data: &Json) -> (r: Vec<&Json>)
    ensures
        refs_view(r@) == listed(canvases_of(data@)),
{
    let all = get_all_canvases(data);
    let ghost cs = canvases_of(data@);
    assert(refs_view(all@) =~= cs);
    let mut out: Vec<&Json> = Vec::new();
    let mut i: usize = 0;
    assert(cs.take(0) =~= Seq::<JsonV>::empty());
    while i < all.len()
        invariant
            i <= all@.len(),
            cs == canvases_of(data@),
            refs_view(all@) == cs,
            refs_view(out@) == listed(cs.take(i as int)),
        decreases all@.len() - i,
    {
        assert(cs.take(i + 1).drop_last() =~= cs.take(i as int));
        assert(cs.take(i + 1).last() == cs[i as int]);
        assert(cs[i as int] == all@[i as int]@);
        proof {
            reveal_strlit("Internal Only");
        }
        if !contains_text(node_name(all[i]), "Internal Only") {
            let ghost pre = out@;
            out.push(all[i]);
            assert(refs_view(out@) =~= refs_view(pre).push(cs[i as int]));
        }
        i = i + 1;
    }
    assert(cs.take(all@.len() as int) =~= cs);
    out
}

/// Some text of `s` is `t`.
pub open spec fn has_text(s: Seq<Seq<char>>, t: Seq<char>) -> bool {
    exists|i: int| 0 <= i < s.len() && s[i] == t
}

/// A folder name with a numeric suffix: `base_k`.
pub open spec fn suffixed(base: Seq<char>, k: nat) -> Seq<char> {
    base + seq!['_'] + decimal(k)
}

/// `k` is the least suffix from 1 on that makes a name not in `used`.
pub open spec fn least_free(used: Seq<Seq<char>>, base: Seq<char>, k: nat) -> bool {
    &&& k >= 1
    &&& !has_text(used, suffixed(base, k))
    &&& forall|j: nat| 1 <= j < k ==> has_text(used, #[trigger] suffixed(base, j))
}

/// The folder a page gets: its own name when no earlier page took it, else
/// that name with the least numeric suffix `_1`, `_2`, ... not taken.
pub open spec fn free_folder(used: Seq<Seq<char>>, base: Seq<char>) -> Seq<char> {
    if !has_text(used, base) {
        base
    } else {
        suffixed(base, choose|k: nat| least_free(used, base, k))
    }
}

proof fn lemma_suffixes_fit(used: Seq<Seq<char>>, base: Seq<char>, n: nat)
    requires
        forall|j: nat| 1 <= j <= n ==> has_text(used, #[trigger] suffixed(base, j)),
    ensures
        n <= used.len(),
{
    broadcast use vstd::seq_lib::seq_to_set_is_finite;

    let s = Seq::new(n, |i: int| suffixed(base, (i + 1) as nat));
    assert(s.no_duplicates()) by {
        assert forall|a: int, b: int| 0 <= a < s.len() && 0 <= b < s.len() && a != b implies s[a] != s[b] by {
            if s[a] == s[b] {
                let k: int = base.len() as int + 1;
                assert(s[a].skip(k) =~= decimal((a + 1) as nat));
                assert(s[b].skip(k) =~= decimal((b + 1) as nat));
                lemma_decimal_injective((a + 1) as nat, (b + 1) as nat);
            }
        }
    }
    s.unique_seq_to_set();
    assert(s.to_set().subset_of(used.to_set())) by {
        assert forall|x: Seq<char>| s.to_set().contains(x) implies used.to_set().contains(x) by {
            let i = choose|i: int| 0 <= i < s.len() && s[i] == x;
            assert(has_text(used, suffixed(base, (i + 1) as nat)));
            let t = choose|t: int| 0 <= t < used.len() && used[t] == suffixed(base, (i + 1) as nat);
            assert(used.contains(x));
        }
    }
    used.lemma_cardinality_of_set();
    vstd::set_lib::lemma_len_subset(s.to_set(), used.to_set());
}

fn has_name(used: &Vec<String>, t: &str) -> (r: bool)
    ensures
        r == has_text(texts_view(used@), t@),
{
    let ghost uv = texts_view(used@);
    let mut i: usize = 0;
    while i < used.len()
        invariant
            i <= used@.len(),
            uv == texts_view(used@),
            forall|k: int| 0 <= k < i ==> uv[k] != t@,
        decreases used@.len() - i,
    {
        if str_equal(used[i].as_str(), t) {
            assert(uv[i as int] == t@);
            return true;
        }
        i = i + 1;
    }
    false
}

/// The folder a page named `base` gets when `used` are taken (see
/// `free_folder`); it is never one of them.
pub fn unique_folder(used: &Vec<String>, base: &str) -> (r: String)
    requires
        used@.len() < usize::MAX,
    ensures
        r@ == free_folder(texts_view(used@), base@),
        !has_text(texts_view(used@), r@),
{
    let ghost uv = texts_view(used@);
    if !has_name(used, base) {
        return base.to_string();
    }
    let mut counter: usize = 1;
    loop
        invariant
            uv == texts_view(used@),
            used@.len() < usize::MAX,
            has_text(uv, base@),
            1 <= counter <= used@.len() + 1,
            forall|j: nat| 1 <= j < counter ==> has_text(uv, #[trigger] suffixed(base@, j)),
        decreases used@.len() + 1 - counter,
    {
        let mut cand = base.to_string();
        push_char(&mut cand, '_');
        push_decimal(&mut cand, counter as u64);
        assert(cand@ =~= suffixed(base@, counter as nat));
        if !has_name(used, cand.as_str()) {
            proof {
                assert(least_free(uv, base@, counter as nat));
                let k = choose|k: nat| least_free(uv, base@, k);
                if k < counter {
                    assert(has_text(uv, suffixed(base@, k)));
                } else if k > counter {
                    assert(has_text(uv, suffixed(base@, counter as nat)));
                }
                assert(k == counter);
            }
            return cand;
        }
        proof {
            assert forall|j: nat| 1 <= j <= counter implies has_text(uv, #[trigger] suffixed(base@, j)) by {
                if j < counter {
                } else {
                    assert(suffixed(base@, j) == cand@);
                }
            }
            lemma_suffixes_fit(uv, base@, counter as nat);
        }
        counter = counter + 1;
    }
}

/// The folders that pages named `names` get in turn: each the folder
/// name made from its page name, made unique against the earlier ones.
pub open spec fn page_folders_of(names: Seq<Seq<char>>) -> Seq<Seq<char>>
    decreases names.len(),
{
    if names.len() == 0 {
        Seq::empty()
    } else {
        let prev = page_folders_of(names.drop_last());
        prev.push(free_folder(prev, crate::cli::folder_name(names.last())))
    }
}

/// The folders that pages with these names get, in order (see
/// `page_folders_of`); no two are the same.
pub fn page_folders(names: &Vec<String>) -> (r: Vec<String>)
    requires
        names@.len() < usize::MAX,
    ensures
        texts_view(r@) == page_folders_of(texts_view(names@)),
        forall|a: int, b: int| 0 <= a < b < r@.len() ==> (#[trigger] r@[a])@ != (#[trigger] r@[b])@,
{
    let ghost nv = texts_view(names@);
    let mut out: Vec<String> = Vec::new();
    let mut i: usize = 0;
    assert(nv.take(0) =~= Seq::<Seq<char>>::empty());
    while i < names.len()
        invariant
            i <= names@.len(),
            names@.len() < usize::MAX,
            nv == texts_view(names@),
            out@.len() == i,
            texts_view(out@) == page_folders_of(nv.take(i as int)),
            forall|a: int, b: int| 0 <= a < b < out@.len() ==> (#[trigger] out@[a])@ != (#[trigger] out@[b])@,
        decreases names@.len() - i,
    {
        assert(nv.take(i + 1).drop_last() =~= nv.take(i as int));
        assert(nv.take(i + 1).last() == names@[i as int]@);
        let base = crate::cli::sanitize_folder_name(names[i].as_str());
        let f = unique_folder(&out, base.as_str());
        let ghost pre = out@;
        out.push(f);
        assert(texts_view(out@) =~= texts_view(pre).push(f@));
        assert forall|a: int, b: int| 0 <= a < b < out@.len() implies (#[trigger] out@[a])@ != (#[trigger] out@[b])@ by {
            if b == pre.len() {
                assert(texts_view(pre)[a] == pre[a]@);
            }
        }
        i = i + 1;
    }
    assert(nv.take(names@.len() as int) =~= nv);
    out
}

/// The `index.md` text listing the pages with their folders: a heading, a
/// table header, and one numbered row per page.
pub open spec fn index_text(pages: Seq<(Seq<char>, Seq<char>)>) -> Seq<char>
    decreases pages.len(),
{
    if pages.len() == 0 {
        "# Pages\n\n| # | Page Name | Folder | Children |\n|---|-----------|--------|----------|\n"@
    } else {
        index_text(pages.drop_last()) + "| "@ + decimal(pages.len()) + " | "@ + pages.last().0 + " | "@
            + pages.last().1 + " | - |\n"@
    }
}

/// The `index.md` text for pages given as (name, folder) (see `index_text`).
pub fn index_markdown(pages: &Vec<(String, String)>) -> (r: String)
    requires
        pages@.len() < u64::MAX,
    ensures
        r@ == index_text(crate::canvas::pair_view(pages@)),
{
    let ghost pv = crate::canvas::pair_view(pages@);
    let mut out = String::from_str("# Pages\n\n| # | Page Name | Folder | Children |\n|---|-----------|--------|----------|\n");
    let mut i: usize = 0;
    assert(pv.take(0) =~= Seq::<(Seq<char>, Seq<char>)>::empty());
    while i < pages.len()
        invariant
            i <= pages@.len(),
            pages@.len() < u64::MAX,
            pv == crate::canvas::pair_view(pages@),
            out@ == index_text(pv.take(i as int)),
        decreases pages@.len() - i,
    {
        assert(pv.take(i + 1).drop_last() =~= pv.take(i as int));
        assert(pv.take(i + 1).last() == (pages@[i as int].0@, pages@[i as int].1@));
        push_str(&mut out, "| ");
        push_decimal(&mut out, (i + 1) as u64);
        push_str(&mut out, " | ");
        push_str(&mut out, pages[i].0.as_str());
        push_str(&mut out, " | ");
        push_str(&mut out, pages[i].1.as_str());
        push_str(&mut out, " | - |\n");
        assert(out@ =~= index_text(pv.take(i + 1)));
        i = i + 1;
    }
    assert(pv.take(pages@.len() as int) =~= pv);
    out
}

} // verus!
