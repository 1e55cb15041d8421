use vstd::prelude::*;

verus! {

/// Characters that make up words: ASCII letters and digits, and every non-ASCII character.
/// Every other ASCII character separates words.
pub open spec fn is_word_char(c: char) -> bool {
    ('a' <= c && c <= 'z') || ('A' <= c && c <= 'Z') || ('0' <= c && c <= '9') || (c as u32) >= 128
}

/// ASCII upper-case letters folded to lower case; other characters kept.
pub open spec fn fold_char(c: char) -> char {
    if 'A' <= c && c <= 'Z' {
        (((c as u32) + 32) as u8) as char
    } else {
        c
    }
}

/// The case-folded words of a text, in order: maximal runs of word characters.
pub open spec fn tokens(s: Seq<char>) -> Seq<Seq<char>>
    decreases s.len(),
{
    if s.len() == 0 {
        Seq::empty()
    } else {
        let prev = tokens(s.drop_last());
        let c = s.last();
        if !is_word_char(c) {
            prev
        } else if s.len() >= 2 && is_word_char(s[s.len() - 2]) {
            prev.update(prev.len() - 1, prev.last().push(fold_char(c)))
        } else {
            prev.push(seq![fold_char(c)])
        }
    }
}

/// How many words of `d` are among the words `q`.
pub open spec fn hits(q: Seq<Seq<char>>, d: Seq<Seq<char>>) -> nat
    decreases d.len(),
{
    if d.len() == 0 {
        0
    } else {
        hits(q, d.drop_last()) + if q.contains(d.last()) {
            1nat
        } else {
            0nat
        }
    }
}

/// Term-frequency relevance of a document to a query: the number of words of its
/// path and its content that occur among the query's words.
pub open spec fn relevance(query: Seq<char>, path: Seq<char>, content: Seq<char>) -> nat {
    hits(tokens(query), tokens(path) + tokens(content))
}

/// The words of `after` that do not occur in `before`, in order: what an edit brought in.
pub open spec fn new_words(before: Seq<char>, after: Seq<char>) -> Seq<Seq<char>> {
    tokens(after).filter(|w: Seq<char>| !tokens(before).contains(w))
}

/// The words held by a list of character vectors.
pub open spec fn token_views(v: Seq<Vec<char>>) -> Seq<Seq<char>> {
    v.map_values(|t: Vec<char>| t@)
}

proof fn lemma_tokens_nonempty(s: Seq<char>)
    requires
        s.len() > 0,
        is_word_char(s.last()),
    ensures
        tokens(s).len() > 0,
    decreases s.len(),
{
    if s.len() >= 2 && is_word_char(s[s.len() - 2]) {
        assert(s.drop_last().last() == s[s.len() - 2]);
        lemma_tokens_nonempty(s.drop_last());
    }
}

proof fn lemma_hits_bound(q: Seq<Seq<char>>, d: Seq<Seq<char>>)
    ensures
        hits(q, d) <= d.len(),
    decreases d.len(),
{
    if d.len() > 0 {
        lemma_hits_bound(q, d.drop_last());
    }
}

fn is_word(c: char) -> (r: bool)
    ensures
        r == is_word_char(c),
{
    ('a' <= c && c <= 'z') || ('A' <= c && c <= 'Z') || ('0' <= c && c <= '9') || (c as u32) >= 128
}

fn fold(c: char) -> (r: char)
    ensures
        r == fold_char(c),
{
    if 'A' <= c && c <= 'Z' {
        (((c as u32) + 32) as u8) as char
    } else {
        c
    }
}

/// Splits the text into its case-folded words.
pub fn tokenize(s: &Vec<char>) -> (r: Vec<Vec<char>>)
    ensures
        token_views(r@) == tokens(s@),
{
    let mut toks: Vec<Vec<char>> = Vec::new();
    let mut i: usize = 0;
    assert(s@.take(0) =~= Seq::<char>::empty());
    assert(token_views(toks@) =~= Seq::<Seq<char>>::empty());
    while i < s.len()
        invariant
            i <= s@.len(),
            token_views(toks@) == tokens(s@.take(i as int)),
        decreases s@.len() - i,
    {
        let c = s[i];
        let ghost pre = s@.take(i as int);
        let ghost cur = s@.take(i + 1);
        assert(cur.drop_last() =~= pre);
        assert(cur.last() == c);
        if is_word(c) {
            if i > 0 && is_word(s[i - 1]) {
                assert(cur[cur.len() - 2] == s@[i - 1]);
                assert(pre.last() == s@[i - 1]);
                proof {
                    lemma_tokens_nonempty(pre);
                }
                let mut last = toks.pop().unwrap();
                let ghost before = last@;
                last.push(fold(c));
                toks.push(last);
                assert(token_views(toks@) =~= tokens(pre).update(
                    tokens(pre).len() - 1,
                    before.push(fold_char(c)),
                ));
            } else {
                let mut t: Vec<char> = Vec::new();
                t.push(fold(c));
                toks.push(t);
                assert(t@ =~= seq![fold_char(c)]);
                assert(token_views(toks@) =~= tokens(pre).push(seq![fold_char(c)]));
            }
        }
        i = i + 1;
    }
    assert(s@.take(i as int) =~= s@);
    toks
}

fn same_chars(a: &Vec<char>, b: &Vec<char>) -> (r: bool)
    ensures
        r == (a@ == b@),
{
    if a.len() != b.len() {
        return false;
    }
    let mut i: usize = 0;
    while i < a.len()
        invariant
            i <= a@.len(),
            a@.len() == b@.len(),
            forall|k: int| 0 <= k < i ==> a@[k] == b@[k],
        decreases a@.len() - i,
    {
        if a[i] != b[i] {
            return false;
        }
        i = i + 1;
    }
    assert(a@ =~= b@);
    true
}

/// Whether the word is among the words.
pub fn contains_word(words: &Vec<Vec<char>>, w: &Vec<char>) -> (r: bool)
    ensures
        r == token_views(words@).contains(w@),
{
    let mut i: usize = 0;
    while i < words.len()
        invariant
            i <= words@.len(),
            forall|k: int| 0 <= k < i ==> words@[k]@ != w@,
        decreases words@.len() - i,
    {
        if same_chars(&words[i], w) {
            assert(token_views(words@)[i as int] == w@);
            return true;
        }
        i = i + 1;
    }
    proof {
        if token_views(words@).contains(w@) {
            let k = choose|k: int| 0 <= k < token_views(words@).len() && token_views(words@)[k] == w@;
            assert(words@[k]@ == w@);
        }
    }
    false
}

pub(crate) fn copy_word(w: &Vec<char>) -> (r: Vec<char>)
    ensures
        r@ == w@,
{
    let mut out: Vec<char> = Vec::new();
    let mut i: usize = 0;
    while i < w.len()
        invariant
            i <= w@.len(),
            out@ == w@.take(i as int),
        decreases w@.len() - i,
    {
        out.push(w[i]);
        assert(w@.take(i + 1) =~= w@.take(i as int).push(w@[i as int]));
        i = i + 1;
    }
    assert(w@.take(i as int) =~= w@);
    out
}

pub(crate) fn copy_words(v: &Vec<Vec<char>>) -> (r: Vec<Vec<char>>)
    ensures
        token_views(r@) == token_views(v@),
{
    let mut out: Vec<Vec<char>> = Vec::new();
    let mut i: usize = 0;
    while i < v.len()
        invariant
            i <= v@.len(),
            token_views(out@) == token_views(v@).take(i as int),
        decreases v@.len() - i,
    {
        let ghost prev = out@;
        let w = copy_word(&v[i]);
        out.push(w);
        assert(token_views(out@) =~= token_views(prev).push(v@[i as int]@));
        assert(token_views(out@) =~= token_views(v@).take(i + 1));
        i = i + 1;
    }
    assert(token_views(v@).take(i as int) =~= token_views(v@));
    out
}

/// The words of `after` that are not among the words `before`, in order.
pub fn words_not_in(before: &Vec<Vec<char>>, after: &Vec<Vec<char>>) -> (r: Vec<Vec<char>>)
    ensures
        token_views(r@) == token_views(after@).filter(|w: Seq<char>| !token_views(before@).contains(w)),
{
    let ghost pred = |w: Seq<char>| !token_views(before@).contains(w);
    let ghost av = token_views(after@);
    let mut out: Vec<Vec<char>> = Vec::new();
    let mut i: usize = 0;
    assert(av.take(0) =~= Seq::<Seq<char>>::empty());
    assert(av.take(0).filter(pred) =~= Seq::<Seq<char>>::empty()) by {
        reveal(Seq::filter);
    }
    assert(token_views(out@) =~= Seq::<Seq<char>>::empty());
    while i < after.len()
        invariant
            i <= after@.len(),
            av == token_views(after@),
            pred == (|w: Seq<char>| !token_views(before@).contains(w)),
            token_views(out@) == av.take(i as int).filter(pred),
        decreases after@.len() - i,
    {
        let w = &after[i];
        assert(av.take(i + 1) =~= av.take(i as int).push(w@));
        proof {
            av.take(i as int).lemma_filter_push(w@, pred);
        }
        if !contains_word(before, w) {
            let ghost prev = out@;
            out.push(copy_word(w));
            assert(token_views(out@) =~= token_views(prev).push(w@));
        }
        i = i + 1;
    }
    assert(av.take(i as int) =~= av);
    out
}

/// How many of the words `d` are among the words `q`.
pub fn count_hits(q: &Vec<Vec<char>>, d: &Vec<Vec<char>>) -> (r: usize)
    ensures
        r == hits(token_views(q@), token_views(d@)),
{
    let mut n: usize = 0;
    let mut i: usize = 0;
    assert(token_views(d@).take(0) =~= Seq::<Seq<char>>::empty());
    while i < d.len()
        invariant
            i <= d@.len(),
            n == hits(token_views(q@), token_views(d@).take(i as int)),
        decreases d@.len() - i,
    {
        let ghost dv = token_views(d@);
        assert(dv.take(i + 1).drop_last() =~= dv.take(i as int));
        assert(dv.take(i + 1).last() == d@[i as int]@);
        proof {
            lemma_hits_bound(token_views(q@), dv.take(i as int));
        }
        if contains_word(q, &d[i]) {
            n = n + 1;
        }
        i = i + 1;
    }
    assert(token_views(d@).take(i as int) =~= token_views(d@));
    n
}

} // verus!
