use vstd::prelude::*;
use vstd::string::StrSliceExecFns;
use crate::text::push_char;

verus! {

/// What `str::to_lowercase` makes of the text.
pub uninterp spec fn unicode_lowercase(s: Seq<char>) -> Seq<char>;

/// The ASCII lower-case form of a character; other characters unchanged.
pub open spec fn ascii_lower(c: char) -> char {
    if 'A' <= c <= 'Z' { ((c as u32) + 32) as char } else { c }
}

/// `str::to_lowercase`: the Unicode lower-case mapping of the text, which
/// on ASCII text lowers the letters A to Z and keeps every other character.
/// No character maps to an ASCII capital letter in the Unicode lower-case
/// mappings, so none is left in the result.
#[verifier::external_body]
pub(crate) fn to_lowercase(s: &str) -> (r: String)
    ensures
        r@ == unicode_lowercase(s@),
        forall|i: int| 0 <= i < r@.len() ==> !is_ascii_capital(#[trigger] r@[i]),
        (forall|i: int| 0 <= i < s@.len() ==> (s@[i] as u32) < 128) ==> r@ == s@.map_values(
            |c: char| ascii_lower(c),
        ),
{
    s.to_lowercase()
}

/// An ASCII capital letter.
pub open spec fn is_ascii_capital(c: char) -> bool {
    'A' <= c <= 'Z'
}

/// No character of the text is an ASCII capital letter.
pub open spec fn no_capitals(t: Seq<char>) -> bool {
    forall|i: int| 0 <= i < t.len() ==> !is_ascii_capital(#[trigger] t[i])
}

/// The folder name of an ASCII page name: its letters lowered one by one,
/// then kept and joined as in `folder_name`.
pub open spec fn ascii_folder_name(name: Seq<char>) -> Seq<char> {
    join_underscore(underscore_words(folder_chars(name.map_values(|c: char| ascii_lower(c)))))
}

/// A character kept in a folder name: ASCII letter or digit, `_` or `-`.
pub open spec fn folder_char(c: char) -> bool {
    ('a' <= c <= 'z') || ('A' <= c <= 'Z') || ('0' <= c <= '9') || c == '_' || c == '-'
}

/// The characters kept in a folder name, spaces turned into underscores.
pub open spec fn folder_chars(s: Seq<char>) -> Seq<char>
    decreases s.len(),
{
    if s.len() == 0 {
        Seq::empty()
    } else {
        let c = if s.last() == ' ' { '_' } else { s.last() };
        if folder_char(c) {
            folder_chars(s.drop_last()).push(c)
        } else {
            folder_chars(s.drop_last())
        }
    }
}

/// The non-empty runs of the text between underscores, in order.
pub open spec fn underscore_words(s: Seq<char>) -> Seq<Seq<char>>
    decreases s.len(),
{
    if s.len() == 0 {
        Seq::empty()
    } else {
        let ws = underscore_words(s.drop_last());
        let c = s.last();
        if c == '_' {
            ws
        } else if s.len() >= 2 && s[s.len() - 2] != '_' {
            ws.update(ws.len() - 1, ws.last().push(c))
        } else {
            ws.push(seq![c])
        }
    }
}

/// The words joined with single underscores.
pub open spec fn join_underscore(ws: Seq<Seq<char>>) -> Seq<char>
    decreases ws.len(),
{
    if ws.len() == 0 {
        Seq::empty()
    } else if ws.len() == 1 {
        ws[0]
    } else {
        join_underscore(ws.drop_last()) + seq!['_'] + ws.last()
    }
}

/// A page name as a folder name: lower-cased, spaces made underscores, only
/// ASCII letters, digits, `_` and `-` kept, runs of underscores collapsed and
/// underscores at either end dropped.
pub open spec fn folder_name(name: Seq<char>) -> Seq<char> {
    join_underscore(underscore_words(folder_chars(unicode_lowercase(name))))
}

proof fn lemma_words_nonempty(s: Seq<char>)
    ensures
        forall|i: int| 0 <= i < underscore_words(s).len() ==> #[trigger] underscore_words(s)[i].len() > 0,
        s.len() > 0 && s.last() != '_' ==> underscore_words(s).len() > 0,
    decreases s.len(),
{
    if s.len() > 0 {
        lemma_words_nonempty(s.drop_last());
        let d = s.drop_last();
        if s.len() >= 2 && s[s.len() - 2] != '_' {
            assert(d.last() == s[s.len() - 2]);
        }
    }
}

/// Turns a page name into a folder name (see `folder_name`): only lower-case
/// ASCII letters, digits, `_` and `-`, as `ascii_folder_name` says for an
/// ASCII name.
pub fn sanitize_folder_name(name: &str) -> (r: String)
    ensures
        r@ == folder_name(name@),
        (forall|i: int| 0 <= i < name@.len() ==> (name@[i] as u32) < 128) ==> r@ == ascii_folder_name(name@),
        clean_folder_text(r@),
        no_capitals(r@),
{
    proof {
        lemma_folder_name_clean(name@);
    }
    let lower = to_lowercase(name);
    proof {
        lemma_folder_chars_no_capitals(lower@);
        lemma_words_no_capitals(folder_chars(lower@));
        lemma_join_no_capitals(underscore_words(folder_chars(lower@)));
    }
    let l = lower.as_str();
    let n = l.unicode_len();
    let mut kept = String::new();
    let mut i: usize = 0;
    while i < n
        invariant
            n == l@.len(),
            i <= n,
            kept@ == folder_chars(l@.take(i as int)),
        decreases n - i,
    {
        let c0 = l.get_char(i);
        let c = if c0 == ' ' { '_' } else { c0 };
        assert(l@.take(i + 1).drop_last() =~= l@.take(i as int));
        if ('a' <= c && c <= 'z') || ('A' <= c && c <= 'Z') || ('0' <= c && c <= '9') || c == '_' || c == '-' {
            push_char(&mut kept, c);
        }
        i = i + 1;
    }
    assert(l@.take(n as int) =~= l@);
    let k = kept.as_str();
    let m = k.unicode_len();
    let ghost ks = k@;
    let mut out = String::new();
    let mut j: usize = 0;
    let mut in_word = false;
    while j < m
        invariant
            m == ks.len(),
            ks == k@,
            j <= m,
            in_word == (j > 0 && ks[j - 1] != '_'),
            forall|w: int| 0 <= w < underscore_words(ks.take(j as int)).len() ==> #[trigger] underscore_words(
                ks.take(j as int),
            )[w].len() > 0,
            in_word ==> underscore_words(ks.take(j as int)).len() > 0,
            out@ == join_underscore(underscore_words(ks.take(j as int))),
        decreases m - j,
    {
        let c = k.get_char(j);
        let ghost pre = ks.take(j as int);
        let ghost ws = underscore_words(pre);
        assert(ks.take(j + 1).drop_last() =~= pre);
        assert(ks.take(j + 1).last() == c);
        if c == '_' {
            in_word = false;
        } else if in_word {
            assert(ks.take(j + 1)[j - 1] == ks[j - 1]);
            push_char(&mut out, c);
            proof {
                let w2 = ws.update(ws.len() - 1, ws.last().push(c));
                if ws.len() == 1 {
                    assert(w2.len() == 1);
                    assert(join_underscore(w2) == w2[0]);
                } else {
                    assert(w2.drop_last() =~= ws.drop_last());
                }
                assert(out@ =~= join_underscore(w2));
            }
            in_word = true;
        } else {
            if j > 0 {
                assert(ks.take(j + 1)[j - 1] == ks[j - 1]);
            }
            if out.as_str().unicode_len() > 0 {
                push_char(&mut out, '_');
            }
            push_char(&mut out, c);
            proof {
                let w2 = ws.push(seq![c]);
                assert(w2.drop_last() =~= ws);
                if ws.len() == 0 {
                    assert(join_underscore(w2) == w2[0]);
                    assert(out@ =~= seq![c]);
                } else {
                    assert(join_underscore(ws).len() > 0) by {
                        lemma_join_nonempty(ws);
                    }
                    assert(out@ =~= join_underscore(ws) + seq!['_'] + seq![c]);
                }
            }
            in_word = true;
        }
        proof {
            lemma_words_nonempty(ks.take(j + 1));
        }
        j = j + 1;
    }
    assert(ks.take(m as int) =~= ks);
    out
}

proof fn lemma_folder_chars_no_capitals(s: Seq<char>)
    requires
        no_capitals(s),
    ensures
        no_capitals(folder_chars(s)),
    decreases s.len(),
{
    if s.len() > 0 {
        let d = s.drop_last();
        assert forall|i: int| 0 <= i < d.len() implies !is_ascii_capital(#[trigger] d[i]) by {
            assert(d[i] == s[i]);
        }
        lemma_folder_chars_no_capitals(d);
        assert(!is_ascii_capital(s[s.len() - 1]));
        let prev = folder_chars(d);
        assert forall|i: int| 0 <= i < folder_chars(s).len() implies !is_ascii_capital(#[trigger] folder_chars(s)[i]) by {
            if i < prev.len() {
                assert(folder_chars(s)[i] == prev[i]);
            }
        }
    }
}

proof fn lemma_words_no_capitals(s: Seq<char>)
    requires
        no_capitals(s),
    ensures
        forall|w: int, i: int|
            0 <= w < underscore_words(s).len() && 0 <= i < underscore_words(s)[w].len() ==> !is_ascii_capital(
                #[trigger] underscore_words(s)[w][i],
            ),
    decreases s.len(),
{
    if s.len() > 0 {
        let d = s.drop_last();
        assert forall|i: int| 0 <= i < d.len() implies !is_ascii_capital(#[trigger] d[i]) by {
            assert(d[i] == s[i]);
        }
        lemma_words_no_capitals(d);
        lemma_words_nonempty(d);
        let ws = underscore_words(d);
        let c = s.last();
        assert(!is_ascii_capital(c)) by {
            assert(c == s[s.len() - 1]);
        }
        if c != '_' && s.len() >= 2 && s[s.len() - 2] != '_' {
            assert(d.last() == s[s.len() - 2]);
            let w2 = ws.update(ws.len() - 1, ws.last().push(c));
            assert forall|w: int, i: int| 0 <= w < w2.len() && 0 <= i < w2[w].len() implies !is_ascii_capital(
                #[trigger] w2[w][i],
            ) by {
                if w == ws.len() - 1 && i == ws.last().len() {
                } else if w == ws.len() - 1 {
                    assert(w2[w][i] == ws[w][i]);
                } else {
                    assert(w2[w] == ws[w]);
                }
            }
        } else if c != '_' {
            let w2 = ws.push(seq![c]);
            assert forall|w: int, i: int| 0 <= w < w2.len() && 0 <= i < w2[w].len() implies !is_ascii_capital(
                #[trigger] w2[w][i],
            ) by {
                if w < ws.len() {
                    assert(w2[w] == ws[w]);
                }
            }
        }
    }
}

proof fn lemma_join_no_capitals(ws: Seq<Seq<char>>)
    requires
        forall|w: int, i: int| 0 <= w < ws.len() && 0 <= i < ws[w].len() ==> !is_ascii_capital(#[trigger] ws[w][i]),
    ensures
        no_capitals(join_underscore(ws)),
    decreases ws.len(),
{
    if ws.len() == 1 {
        assert forall|i: int| 0 <= i < ws[0].len() implies !is_ascii_capital(#[trigger] ws[0][i]) by {}
    } else if ws.len() > 1 {
        let d = ws.drop_last();
        assert forall|w: int, i: int| 0 <= w < d.len() && 0 <= i < d[w].len() implies !is_ascii_capital(
            #[trigger] d[w][i],
        ) by {
            assert(d[w] == ws[w]);
        }
        lemma_join_no_capitals(d);
        let h = join_underscore(d);
        let l = ws.last();
        let t = h + seq!['_'] + l;
        assert(join_underscore(ws) == t);
        assert forall|i: int| 0 <= i < t.len() implies !is_ascii_capital(#[trigger] t[i]) by {
            if i < h.len() {
                assert(t[i] == h[i]);
            } else if i > h.len() {
                assert(t[i] == l[i - h.len() - 1]);
                assert(ws[ws.len() - 1][i - h.len() - 1] == l[i - h.len() - 1]);
            }
        }
    }
}

proof fn lemma_join_nonempty(ws: Seq<Seq<char>>)
    requires
        ws.len() > 0,
        forall|i: int| 0 <= i < ws.len() ==> #[trigger] ws[i].len() > 0,
    ensures
        join_underscore(ws).len() > 0,
    decreases ws.len(),
{
    if ws.len() > 1 {
        lemma_join_nonempty(ws.drop_last());
    }
}

proof fn lemma_folder_chars_kept(s: Seq<char>)
    ensures
        forall|i: int| 0 <= i < folder_chars(s).len() ==> folder_char(#[trigger] folder_chars(s)[i]),
    decreases s.len(),
{
    if s.len() > 0 {
        lemma_folder_chars_kept(s.drop_last());
        let prev = folder_chars(s.drop_last());
        let c = if s.last() == ' ' { '_' } else { s.last() };
        if folder_char(c) {
            assert forall|i: int| 0 <= i < folder_chars(s).len() implies folder_char(#[trigger] folder_chars(s)[i]) by {
                if i < prev.len() {
                    assert(folder_chars(s)[i] == prev[i]);
                }
            }
        }
    }
}

proof fn lemma_words_clean(s: Seq<char>)
    requires
        forall|i: int| 0 <= i < s.len() ==> folder_char(#[trigger] s[i]),
    ensures
        forall|w: int, i: int|
            0 <= w < underscore_words(s).len() && 0 <= i < underscore_words(s)[w].len() ==> #[trigger] underscore_words(
                s,
            )[w][i] != '_' && folder_char(underscore_words(s)[w][i]),
    decreases s.len(),
{
    if s.len() > 0 {
        let d = s.drop_last();
        assert forall|i: int| 0 <= i < d.len() implies folder_char(#[trigger] d[i]) by {
            assert(d[i] == s[i]);
        }
        lemma_words_clean(d);
        lemma_words_nonempty(d);
        let ws = underscore_words(d);
        let c = s.last();
        assert(folder_char(c)) by {
            assert(c == s[s.len() - 1]);
        }
        if c != '_' && s.len() >= 2 && s[s.len() - 2] != '_' {
            assert(d.last() == s[s.len() - 2]);
            let w2 = ws.update(ws.len() - 1, ws.last().push(c));
            assert forall|w: int, i: int| 0 <= w < w2.len() && 0 <= i < w2[w].len() implies #[trigger] w2[w][i]
                != '_' && folder_char(w2[w][i]) by {
                if w == ws.len() - 1 && i == ws.last().len() {
                } else if w == ws.len() - 1 {
                    assert(w2[w][i] == ws[w][i]);
                } else {
                    assert(w2[w] == ws[w]);
                }
            }
        } else if c != '_' {
            let w2 = ws.push(seq![c]);
            assert forall|w: int, i: int| 0 <= w < w2.len() && 0 <= i < w2[w].len() implies #[trigger] w2[w][i]
                != '_' && folder_char(w2[w][i]) by {
                if w < ws.len() {
                    assert(w2[w] == ws[w]);
                }
            }
        }
    }
}

/// A text holds only folder characters, has no two underscores in a row and
/// no underscore at either end.
pub open spec fn clean_folder_text(t: Seq<char>) -> bool {
    &&& forall|i: int| 0 <= i < t.len() ==> folder_char(#[trigger] t[i])
    &&& forall|i: int| 0 <= i < t.len() - 1 ==> !(#[trigger] t[i] == '_' && t[i + 1] == '_')
    &&& t.len() > 0 ==> t[0] != '_' && t[t.len() - 1] != '_'
}

proof fn lemma_join_clean(ws: Seq<Seq<char>>)
    requires
        forall|w: int| 0 <= w < ws.len() ==> #[trigger] ws[w].len() > 0,
        forall|w: int, i: int| 0 <= w < ws.len() && 0 <= i < ws[w].len() ==> #[trigger] ws[w][i] != '_' && folder_char(
            ws[w][i],
        ),
    ensures
        clean_folder_text(join_underscore(ws)),
        ws.len() > 0 ==> join_underscore(ws).len() > 0,
    decreases ws.len(),
{
    if ws.len() == 1 {
        let t = ws[0];
        assert forall|i: int| 0 <= i < t.len() implies folder_char(#[trigger] t[i]) && t[i] != '_' by {
            assert(ws[0][i] == t[i]);
        }
    } else if ws.len() > 1 {
        let d = ws.drop_last();
        assert forall|w: int| 0 <= w < d.len() implies #[trigger] d[w].len() > 0 by {
            assert(d[w] == ws[w]);
        }
        assert forall|w: int, i: int| 0 <= w < d.len() && 0 <= i < d[w].len() implies #[trigger] d[w][i] != '_'
            && folder_char(d[w][i]) by {
            assert(d[w] == ws[w]);
        }
        lemma_join_clean(d);
        let h = join_underscore(d);
        let l = ws.last();
        assert(l.len() > 0) by {
            assert(l == ws[ws.len() - 1]);
        }
        assert forall|i: int| 0 <= i < l.len() implies folder_char(#[trigger] l[i]) && l[i] != '_' by {
            assert(ws[ws.len() - 1][i] == l[i]);
        }
        let t = h + seq!['_'] + l;
        assert(join_underscore(ws) == t);
        assert forall|i: int| 0 <= i < t.len() implies folder_char(#[trigger] t[i]) by {
            if i < h.len() {
                assert(t[i] == h[i]);
            } else if i > h.len() {
                assert(t[i] == l[i - h.len() - 1]);
            }
        }
        assert forall|i: int| 0 <= i < t.len() - 1 implies !(#[trigger] t[i] == '_' && t[i + 1] == '_') by {
            if i + 1 < h.len() {
                assert(t[i] == h[i] && t[i + 1] == h[i + 1]);
            } else if i + 1 == h.len() {
                assert(t[i] == h[h.len() - 1]);
            } else if i == h.len() {
                assert(t[i + 1] == l[0]);
            } else {
                assert(t[i] == l[i - h.len() - 1]);
            }
        }
        assert(t[0] == h[0]);
        assert(t[t.len() - 1] == l[l.len() - 1]);
    }
}

/// A folder name made from any page name holds only ASCII letters, digits,
/// `_` and `-`, never two underscores in a row, and no underscore at either
/// end.
pub proof fn lemma_folder_name_clean(name: Seq<char>)
    ensures
        clean_folder_text(folder_name(name)),
{
    let s = folder_chars(unicode_lowercase(name));
    lemma_folder_chars_kept(unicode_lowercase(name));
    lemma_words_clean(s);
    lemma_words_nonempty(s);
    lemma_join_clean(underscore_words(s));
}

proof fn lemma_folder_chars_same(s: Seq<char>)
    requires
        forall|i: int| 0 <= i < s.len() ==> folder_char(#[trigger] s[i]),
    ensures
        folder_chars(s) == s,
    decreases s.len(),
{
    if s.len() > 0 {
        let d = s.drop_last();
        assert forall|i: int| 0 <= i < d.len() implies folder_char(#[trigger] d[i]) by {
            assert(d[i] == s[i]);
        }
        lemma_folder_chars_same(d);
        assert(folder_char(s[s.len() - 1]));
        assert(d.push(s.last()) =~= s);
    }
}

proof fn lemma_join_extend(ws: Seq<Seq<char>>, c: char)
    requires
        ws.len() > 0,
    ensures
        join_underscore(ws.update(ws.len() - 1, ws.last().push(c))) == join_underscore(ws).push(c),
{
    let w2 = ws.update(ws.len() - 1, ws.last().push(c));
    if ws.len() == 1 {
        assert(join_underscore(w2) == w2[0]);
    } else {
        assert(w2.drop_last() =~= ws.drop_last());
        assert(join_underscore(w2) =~= join_underscore(ws).push(c));
    }
}

proof fn lemma_words_join(s: Seq<char>)
    requires
        forall|i: int| 0 <= i < s.len() - 1 ==> !(#[trigger] s[i] == '_' && s[i + 1] == '_'),
        s.len() > 0 ==> s[0] != '_',
    ensures
        join_underscore(underscore_words(s)) == (if s.len() > 0 && s.last() == '_' { s.drop_last() } else { s }),
    decreases s.len(),
{
    if s.len() > 0 {
        let d = s.drop_last();
        assert forall|i: int| 0 <= i < d.len() - 1 implies !(#[trigger] d[i] == '_' && d[i + 1] == '_') by {
            assert(d[i] == s[i] && d[i + 1] == s[i + 1]);
        }
        if d.len() > 0 {
            assert(d[0] == s[0]);
        }
        lemma_words_join(d);
        lemma_words_nonempty(d);
        let ws = underscore_words(d);
        let c = s.last();
        if c == '_' {
            if d.len() > 0 {
                assert(d.last() == s[s.len() - 2]);
                assert(!(s[s.len() - 2] == '_' && s[s.len() - 1] == '_'));
            }
        } else if s.len() >= 2 && s[s.len() - 2] != '_' {
            assert(d.last() == s[s.len() - 2]);
            lemma_join_extend(ws, c);
            assert(d.push(c) =~= s);
        } else if s.len() == 1 {
            assert(d.len() == 0);
            assert(ws.push(seq![c]).len() == 1);
            assert(join_underscore(ws.push(seq![c])) == seq![c]);
            assert(seq![c] =~= s);
        } else {
            let e = d.drop_last();
            assert(d.last() == s[s.len() - 2]);
            assert(d.len() >= 2) by {
                if d.len() == 1 {
                    assert(d[0] == s[0]);
                }
            }
            assert(e.last() == s[s.len() - 3]);
            assert(!(s[s.len() - 3] == '_' && s[s.len() - 2] == '_'));
            assert forall|i: int| 0 <= i < e.len() - 1 implies !(#[trigger] e[i] == '_' && e[i + 1] == '_') by {
                assert(e[i] == s[i] && e[i + 1] == s[i + 1]);
            }
            assert(e[0] == s[0]);
            lemma_words_nonempty(e);
            assert(underscore_words(d) == underscore_words(e));
            let w2 = ws.push(seq![c]);
            assert(w2.drop_last() =~= ws);
            assert(join_underscore(w2) == join_underscore(ws) + seq!['_'] + seq![c]);
            assert(e + seq!['_'] + seq![c] =~= s);
        }
    }
}

/// Sanitizing a folder name again gives it back, wherever lower-casing leaves
/// it as it is (as `str::to_lowercase` does with lower-case ASCII letters,
/// digits, `_` and `-`, all that a folder name holds).
pub proof fn lemma_folder_name_idempotent(t: Seq<char>)
    requires
        clean_folder_text(t),
        unicode_lowercase(t) == t,
    ensures
        folder_name(t) == t,
{
    lemma_folder_chars_same(t);
    lemma_words_join(t);
}

/// The commands of the canvas query tool, with their options.
#[derive(Debug)]
pub enum Commands {
    Tree { depth: Option<usize>, layer: Option<String> },
    Node { name: String, layer: Option<String> },
    Texts { layer: Option<String> },
    Images { layer: Option<String>, images_dir: Option<String> },
    Interactions { layer: Option<String> },
    Tokens { layer: Option<String> },
    Layers,
    Raw { name: String, path: Option<String> },
    All,
}

/// The output file name of each command.
pub open spec fn command_file(cmd: Commands) -> Seq<char> {
    match cmd {
        Commands::Tree { .. } => "tree.txt"@,
        Commands::Node { .. } => "node.txt"@,
        Commands::Texts { .. } => "texts.txt"@,
        Commands::Images { .. } => "images.txt"@,
        Commands::Interactions { .. } => "interactions.txt"@,
        Commands::Tokens { .. } => "tokens.txt"@,
        Commands::Layers => "layers.txt"@,
        Commands::Raw { .. } => "raw.txt"@,
        Commands::All => "all.txt"@,
    }
}

/// The name of the file that a command's output is saved to.
pub fn cmd_filename(cmd: &Commands) -> (r: &'static str)
    ensures
        r@ == command_file(*cmd),
{
    match cmd {
        Commands::Tree { .. } => "tree.txt",
        Commands::Node { .. } => "node.txt",
        Commands::Texts { .. } => "texts.txt",
        Commands::Images { .. } => "images.txt",
        Commands::Interactions { .. } => "interactions.txt",
        Commands::Tokens { .. } => "tokens.txt",
        Commands::Layers => "layers.txt",
        Commands::Raw { .. } => "raw.txt",
        Commands::All => "all.txt",
    }
}

} // verus!
