use vstd::prelude::*;

verus! {

/// The n-grams of `s` that start at `i` and end at `e` or later: every
/// substring `s[i..e']` with `e <= e'` that holds no space.
pub open spec fn grams_from(s: Seq<char>, i: int, e: int) -> Seq<Seq<char>>
    decreases s.len() + 1 - e,
{
    if e <= i || e > s.len() || s[e - 1] == ' ' {
        Seq::empty()
    } else {
        seq![s.subrange(i, e)] + grams_from(s, i, e + 1)
    }
}

/// Every space-free substring of `s` that starts at `i` or later, by start
/// position and then by length.
pub open spec fn grams_after(s: Seq<char>, i: int) -> Seq<Seq<char>>
    decreases s.len() - i,
{
    if i < 0 || i >= s.len() {
        Seq::empty()
    } else {
        grams_from(s, i, i + 1) + grams_after(s, i + 1)
    }
}

/// The words of `ws` joined by single spaces.
pub open spec fn join(ws: Seq<Seq<char>>) -> Seq<char>
    decreases ws.len(),
{
    if ws.len() == 0 {
        Seq::empty()
    } else if ws.len() == 1 {
        ws[0]
    } else {
        join(ws.drop_last()) + seq![' '] + ws.last()
    }
}

/// The n-gram text of `s`: every contiguous substring of every word, space
/// separated.
pub open spec fn ngrams_of(s: Seq<char>) -> Seq<char> {
    join(grams_after(s, 0))
}

proof fn lemma_join_push(ws: Seq<Seq<char>>, w: Seq<char>)
    ensures
        join(ws.push(w)) == if ws.len() == 0 {
            w
        } else {
            join(ws) + seq![' '] + w
        },
{
    assert(ws.push(w).drop_last() =~= ws);
}

fn push_word(out: &mut String, acc: Ghost<Seq<Seq<char>>>, first: bool, w: &str)
    requires
        old(out)@ == join(acc@),
        first == (acc@.len() == 0),
    ensures
        final(out)@ == join(acc@.push(w@)),
{
    proof {
        lemma_join_push(acc@, w@);
        reveal_strlit(" ");
    }
    if !first {
        out.append(" ");
    }
    out.append(w);
}

/// All contiguous substrings of each space-separated word of `text`, joined
/// by spaces.
pub fn ngrams(text: &str) -> (r: String)
    ensures
        r@ == ngrams_of(text@),
{
    let n = text.unicode_len();
    let mut out = String::new();
    let ghost mut acc: Seq<Seq<char>> = Seq::empty();
    let mut first = true;
    let mut i: usize = 0;
    while i < n
        invariant
            n == text@.len(),
            first == (acc.len() == 0),
            i <= n,
            out@ == join(acc),
            acc + grams_after(text@, i as int) == grams_after(text@, 0),
        decreases n - i,
    {
        let mut e: usize = i;
        assert(grams_after(text@, i as int) == grams_from(text@, i as int, i + 1) + grams_after(
            text@,
            i + 1,
        ));
        while e < n && text.get_char(e) != ' '
            invariant
                n == text@.len(),
                i < n,
                i <= e <= n,
                out@ == join(acc),
                first == (acc.len() == 0),
                acc + grams_from(text@, i as int, e + 1) + grams_after(text@, i + 1)
                    == grams_after(text@, 0),
            decreases n - e,
        {
            let w = text.substring_char(i, e + 1);
            let ghost before = acc;
            push_word(&mut out, Ghost(acc), first, w);
            first = false;
            proof {
                acc = acc.push(w@);
                assert(grams_from(text@, i as int, e + 1) == seq![text@.subrange(i as int, e + 1)]
                    + grams_from(text@, i as int, e + 2));
                assert(before + grams_from(text@, i as int, e + 1) =~= acc + grams_from(
                    text@,
                    i as int,
                    e + 2,
                ));
            }
            e = e + 1;
        }
        assert(grams_from(text@, i as int, e + 1) =~= Seq::<Seq<char>>::empty());
        assert(acc + grams_from(text@, i as int, e + 1) =~= acc);
        i = i + 1;
    }
    assert(grams_after(text@, n as int) =~= Seq::<Seq<char>>::empty());
    assert(acc + grams_after(text@, n as int) =~= acc);
    out
}

/// `c` equals the lower-case ASCII character `t`, ignoring ASCII case.
pub open spec fn char_ci_eq(c: char, t: char) -> bool {
    c == t || ('a' <= t <= 'z' && c as u32 + 32 == t as u32)
}

/// `w` spells the lower-case word `t`, ignoring ASCII case.
pub open spec fn ci_eq(w: Seq<char>, t: Seq<char>) -> bool {
    w.len() == t.len() && forall|i: int| 0 <= i < w.len() ==> char_ci_eq(#[trigger] w[i], t[i])
}

/// The low-signal words that are dropped from titles.
pub open spec fn is_stopword(w: Seq<char>) -> bool {
    ci_eq(w, "a"@) || ci_eq(w, "an"@) || ci_eq(w, "and"@) || ci_eq(w, "at"@) || ci_eq(w, "by"@)
        || ci_eq(w, "for"@) || ci_eq(w, "from"@) || ci_eq(w, "in"@) || ci_eq(w, "of"@) || ci_eq(
        w,
        "on"@,
    ) || ci_eq(w, "or"@) || ci_eq(w, "the"@) || ci_eq(w, "to"@) || ci_eq(w, "with"@)
}

/// The pieces of `s` between single spaces, empty pieces included.
pub open spec fn words(s: Seq<char>) -> Seq<Seq<char>>
    decreases s.len(),
{
    if s.len() == 0 {
        seq![Seq::empty()]
    } else {
        let p = words(s.drop_last());
        if s.last() == ' ' {
            p.push(Seq::empty())
        } else {
            p.drop_last().push(p.last().push(s.last()))
        }
    }
}

/// A word that survives stopword filtering.
pub open spec fn keeps(w: Seq<char>) -> bool {
    w.len() > 0 && !is_stopword(w)
}

/// The words of `ws` that survive stopword filtering, in order.
pub open spec fn kept(ws: Seq<Seq<char>>) -> Seq<Seq<char>>
    decreases ws.len(),
{
    if ws.len() == 0 {
        Seq::empty()
    } else if keeps(ws.last()) {
        kept(ws.drop_last()).push(ws.last())
    } else {
        kept(ws.drop_last())
    }
}

/// `s` with empty words and stopwords removed, single-space separated.
pub open spec fn without_stopwords(s: Seq<char>) -> Seq<char> {
    join(kept(words(s)))
}

fn ci_eq_str(w: &str, t: &str) -> (r: bool)
    ensures
        r == ci_eq(w@, t@),
{
    let n = w.unicode_len();
    let m = t.unicode_len();
    if n != m {
        return false;
    }
    let mut i: usize = 0;
    while i < n
        invariant
            n == w@.len(),
            n == t@.len(),
            i <= n,
            forall|j: int| 0 <= j < i ==> char_ci_eq(#[trigger] w@[j], t@[j]),
        decreases n - i,
    {
        let c = w.get_char(i);
        let d = t.get_char(i);
        let same = c == d || ('a' <= d && d <= 'z' && (c as u32) + 32 == (d as u32));
        if !same {
            return false;
        }
        i = i + 1;
    }
    true
}

fn stopword(w: &str) -> (r: bool)
    ensures
        r == is_stopword(w@),
{
    ci_eq_str(w, "a") || ci_eq_str(w, "an") || ci_eq_str(w, "and") || ci_eq_str(w, "at")
        || ci_eq_str(w, "by") || ci_eq_str(w, "for") || ci_eq_str(w, "from") || ci_eq_str(w, "in")
        || ci_eq_str(w, "of") || ci_eq_str(w, "on") || ci_eq_str(w, "or") || ci_eq_str(w, "the")
        || ci_eq_str(w, "to") || ci_eq_str(w, "with")
}

/// `text` without its stopwords (compared ignoring ASCII case) and without
/// empty words, the remaining words joined by single spaces.
pub fn filter_stopwords(text: &str) -> (r: String)
    ensures
        r@ == without_stopwords(text@),
{
    let ws = kept_words(text);
    let mut out = String::new();
    let mut i: usize = 0;
    assert(views(ws@).take(0) =~= Seq::<Seq<char>>::empty());
    while i < ws.len()
        invariant
            i <= ws@.len(),
            out@ == join(views(ws@).take(i as int)),
        decreases ws@.len() - i,
    {
        push_word(&mut out, Ghost(views(ws@).take(i as int)), i == 0, ws[i].as_str());
        assert(views(ws@).take(i as int).push(ws@[i as int]@) =~= views(ws@).take(i + 1));
        i = i + 1;
    }
    assert(views(ws@).take(i as int) =~= views(ws@));
    out
}

/// `a` and `b` hold the same characters.
pub(crate) fn str_eq(a: &str, b: &str) -> (r: bool)
    ensures
        r == (a@ == b@),
{
    let n = a.unicode_len();
    if n != b.unicode_len() {
        return false;
    }
    let mut i: usize = 0;
    while i < n
        invariant
            n == a@.len(),
            n == b@.len(),
            i <= n,
            forall|j: int| 0 <= j < i ==> a@[j] == b@[j],
        decreases n - i,
    {
        if a.get_char(i) != b.get_char(i) {
            return false;
        }
        i = i + 1;
    }
    assert(a@ =~= b@);
    true
}

/// `p` is a prefix of `s`.
pub(crate) fn starts_with_str(s: &str, p: &str) -> (r: bool)
    ensures
        r == (p@.len() <= s@.len() && s@.subrange(0, p@.len() as int) == p@),
{
    let n = s.unicode_len();
    let m = p.unicode_len();
    if m > n {
        return false;
    }
    let mut i: usize = 0;
    while i < m
        invariant
            n == s@.len(),
            m == p@.len(),
            m <= n,
            i <= m,
            forall|j: int| 0 <= j < i ==> s@[j] == p@[j],
        decreases m - i,
    {
        if s.get_char(i) != p.get_char(i) {
            assert(s@.subrange(0, m as int)[i as int] != p@[i as int]);
            return false;
        }
        i = i + 1;
    }
    assert(s@.subrange(0, m as int) =~= p@);
    true
}

/// The views of a list of strings.
pub open spec fn views(ws: Seq<String>) -> Seq<Seq<char>> {
    ws.map_values(|w: String| w@)
}

/// The pieces of `text` between single spaces, empty pieces included.
pub fn split_words(text: &str) -> (r: Vec<String>)
    ensures
        views(r@) == words(text@),
{
    let n = text.unicode_len();
    let mut out: Vec<String> = Vec::new();
    let mut start: usize = 0;
    let mut j: usize = 0;
    assert(text@.take(0) =~= Seq::<char>::empty());
    assert(text@.subrange(0, 0) =~= Seq::<char>::empty());
    while j < n
        invariant
            n == text@.len(),
            start <= j <= n,
            words(text@.take(j as int)) == views(out@).push(text@.subrange(start as int, j as int)),
        decreases n - j,
    {
        let c = text.get_char(j);
        let ghost prefix = text@.take(j as int + 1);
        assert(prefix.drop_last() =~= text@.take(j as int));
        if c == ' ' {
            let w = text.substring_char(start, j);
            let ghost old_out = out@;
            out.push(w.to_owned());
            assert(views(out@) =~= views(old_out).push(w@));
            start = j + 1;
            assert(text@.subrange(start as int, j + 1) =~= Seq::<char>::empty());
        } else {
            assert(text@.subrange(start as int, j + 1) =~= text@.subrange(start as int, j as int).push(c));
        }
        j = j + 1;
    }
    assert(text@.take(n as int) =~= text@);
    let w = text.substring_char(start, n);
    let ghost old_out = out@;
    out.push(w.to_owned());
    assert(views(out@) =~= views(old_out).push(w@));
    out
}

/// The words of `text` that survive stopword filtering, in order.
pub fn kept_words(text: &str) -> (r: Vec<String>)
    ensures
        views(r@) == kept(words(text@)),
{
    let ws = split_words(text);
    let ghost all = views(ws@);
    let mut out: Vec<String> = Vec::new();
    let mut i: usize = 0;
    assert(all.take(0) =~= Seq::<Seq<char>>::empty());
    while i < ws.len()
        invariant
            all == views(ws@),
            i <= ws@.len(),
            views(out@) == kept(all.take(i as int)),
        decreases ws@.len() - i,
    {
        let w = ws[i].as_str();
        assert(all.take(i + 1).drop_last() =~= all.take(i as int));
        assert(all.take(i + 1).last() == w@);
        if !(w.unicode_len() == 0) && !stopword(w) {
            let ghost old_out = out@;
            out.push(w.to_owned());
            assert(views(out@) =~= views(old_out).push(w@));
        }
        i = i + 1;
    }
    assert(all.take(i as int) =~= all);
    out
}

/// The ASCII lower-case code of `c`.
pub open spec fn folded(c: char) -> int {
    if 'A' <= c <= 'Z' {
        c as u32 + 32
    } else {
        c as u32 as int
    }
}

/// `a` and `b` spell the same word, ignoring ASCII case.
pub open spec fn fold_eq(a: Seq<char>, b: Seq<char>) -> bool {
    a.len() == b.len() && forall|i: int| 0 <= i < a.len() ==> folded(#[trigger] a[i]) == folded(b[i])
}

/// One of the space-separated words of `f` is `t`, ignoring ASCII case.
pub open spec fn has_word(f: Seq<char>, t: Seq<char>) -> bool {
    exists|k: int| 0 <= k < words(f).len() && fold_eq(#[trigger] words(f)[k], t)
}

fn fold_eq_str(a: &str, b: &str) -> (r: bool)
    ensures
        r == fold_eq(a@, b@),
{
    let n = a.unicode_len();
    if n != b.unicode_len() {
        return false;
    }
    let mut i: usize = 0;
    while i < n
        invariant
            n == a@.len(),
            n == b@.len(),
            i <= n,
            forall|j: int| 0 <= j < i ==> folded(#[trigger] a@[j]) == folded(b@[j]),
        decreases n - i,
    {
        let c = a.get_char(i);
        let d = b.get_char(i);
        let fc: u32 = if 'A' <= c && c <= 'Z' { c as u32 + 32 } else { c as u32 };
        let fd: u32 = if 'A' <= d && d <= 'Z' { d as u32 + 32 } else { d as u32 };
        if fc != fd {
            assert(folded(a@[i as int]) != folded(b@[i as int]));
            return false;
        }
        i = i + 1;
    }
    true
}

/// Whether `t` is one of the words of `f`, ignoring ASCII case.
pub fn contains_word(f: &str, t: &str) -> (r: bool)
    ensures
        r == has_word(f@, t@),
{
    let ws = split_words(f);
    let ghost all = views(ws@);
    let mut i: usize = 0;
    while i < ws.len()
        invariant
            all == views(ws@),
            all == words(f@),
            i <= ws@.len(),
            forall|k: int| 0 <= k < i ==> !fold_eq(#[trigger] all[k], t@),
        decreases ws@.len() - i,
    {
        if fold_eq_str(ws[i].as_str(), t) {
            assert(fold_eq(all[i as int], t@));
            return true;
        }
        i = i + 1;
    }
    false
}

} // verus!
