use vstd::prelude::*;

use crate::delta::{push_str_chars, string_of};
use crate::index::{doc_views, Document, DocumentView};
use crate::text::token_views;

verus! {

/// 2^32, the base of the two-word encoding of numbers.
pub open spec fn two32() -> int {
    0x1_0000_0000
}

/// A number below 2^64 as two words, low word first.
pub open spec fn enc_num(n: int) -> Seq<u32> {
    seq![(n % two32()) as u32, (n / two32()) as u32]
}

/// A text as its length followed by one word per character.
pub open spec fn enc_chars(s: Seq<char>) -> Seq<u32> {
    enc_num(s.len() as int) + s.map_values(|c: char| c as u32)
}

/// A list of documents as its length followed by each document.
pub open spec fn enc_docs(ds: Seq<DocumentView>) -> Seq<u32> {
    enc_num(ds.len() as int) + enc_docs_body(ds)
}

/// The documents one after another, without the count.
pub open spec fn enc_docs_body(ds: Seq<DocumentView>) -> Seq<u32>
    decreases ds.len(),
{
    if ds.len() == 0 {
        Seq::empty()
    } else {
        enc_docs_body(ds.drop_last()) + enc_doc(ds.last())
    }
}

/// A list of texts as its length followed by each text.
pub open spec fn enc_texts(ws: Seq<Seq<char>>) -> Seq<u32> {
    enc_num(ws.len() as int) + enc_texts_body(ws)
}

/// The texts one after another, without the count.
pub open spec fn enc_texts_body(ws: Seq<Seq<char>>) -> Seq<u32>
    decreases ws.len(),
{
    if ws.len() == 0 {
        Seq::empty()
    } else {
        enc_texts_body(ws.drop_last()) + enc_chars(ws.last())
    }
}

/// The words from position `p` on begin with `e`.
pub open spec fn prefix_at(w: Seq<u32>, p: int, e: Seq<u32>) -> bool {
    p + e.len() <= w.len() && w.subrange(p, p + e.len()) == e
}

/// Relies on char::from_u32: `Some` exactly for Unicode scalar values, holding that value.
#[verifier::external_body]
fn char_from_word(u: u32) -> (r: Option<char>)
    ensures
        match r {
            Some(c) => c as u32 == u,
            None => u > 0x10FFFF || (0xD800 <= u && u <= 0xDFFF),
        },
{
    char::from_u32(u)
}

pub(crate) fn write_num(n: u64, out: &mut Vec<u32>)
    ensures
        final(out)@ == old(out)@ + enc_num(n as int),
{
    let lo = (n % 0x1_0000_0000) as u32;
    let hi = (n / 0x1_0000_0000) as u32;
    out.push(lo);
    out.push(hi);
    assert(final(out)@ =~= old(out)@ + enc_num(n as int));
}

/// Reads a number written by `write_num` at position `p`.
pub(crate) fn read_num(w: &Vec<u32>, p: usize) -> (r: Option<(u64, usize)>)
    ensures
        match r {
            Some((v, q)) => p + 2 <= w@.len() && q == p + 2 && enc_num(v as int) == w@.subrange(p as int, q as int),
            None => p + 2 > w@.len(),
        },
        forall|n: int|
            0 <= n < 0x1_0000_0000_0000_0000 && p + 2 <= w@.len() && #[trigger] enc_num(n) == w@.subrange(p as int, p + 2)
                ==> r == Some((n as u64, (p + 2) as usize)),
{
    if p >= w.len() || w.len() - p < 2 {
        return None;
    }
    let lo = w[p] as u64;
    let hi = w[p + 1] as u64;
    let v: u64 = lo + hi * 0x1_0000_0000;
    assert(v as int % two32() == lo as int && v as int / two32() == hi as int) by (nonlinear_arith)
        requires
            v as int == lo as int + hi as int * 0x1_0000_0000,
            0 <= lo < 0x1_0000_0000,
            two32() == 0x1_0000_0000,
    ;
    assert(enc_num(v as int) =~= w@.subrange(p as int, p + 2));
    assert forall|n: int|
        0 <= n < 0x1_0000_0000_0000_0000 && #[trigger] enc_num(n) == w@.subrange(p as int, p + 2) implies n == v as int by {
        assert(enc_num(n)[0] == w@[p as int] && enc_num(n)[1] == w@[p + 1]);
        assert(n == (n % two32()) + (n / two32()) * two32()) by (nonlinear_arith)
            requires
                two32() == 0x1_0000_0000,
                0 <= n,
        ;
    }
    Some((v, p + 2))
}

pub(crate) fn write_chars(s: &Vec<char>, out: &mut Vec<u32>)
    ensures
        final(out)@ == old(out)@ + enc_chars(s@),
{
    write_num(s.len() as u64, out);
    let ghost base = out@;
    let mut i: usize = 0;
    while i < s.len()
        invariant
            i <= s@.len(),
            out@ == base + s@.take(i as int).map_values(|c: char| c as u32),
        decreases s@.len() - i,
    {
        out.push(s[i] as u32);
        assert(s@.take(i + 1).map_values(|c: char| c as u32) =~= s@.take(i as int).map_values(|c: char| c as u32).push(s@[i as int] as u32));
        i = i + 1;
    }
    assert(s@.take(i as int) =~= s@);
    assert(out@ =~= old(out)@ + enc_chars(s@));
}

proof fn lemma_char_word_injective(a: char, b: char)
    requires
        a as u32 == b as u32,
    ensures
        a == b,
{
    assert((a as u32) as char == a);
    assert((b as u32) as char == b);
}

proof fn lemma_char_word_valid(c: char)
    ensures
        !((c as u32) > 0x10FFFF || (0xD800 <= (c as u32) && (c as u32) <= 0xDFFF)),
{
}

/// Reads a text written by `write_chars` at position `p`.
pub(crate) fn read_chars(w: &Vec<u32>, p: usize) -> (r: Option<(Vec<char>, usize)>)
    ensures
        match r {
            Some((s, q)) => p <= q <= w@.len() && w@.subrange(p as int, q as int) == enc_chars(s@),
            None => true,
        },
        forall|t: Seq<char>|
            prefix_at(w@, p as int, #[trigger] enc_chars(t)) ==> (r matches Some((s, q)) && s@ == t && q == p + enc_chars(t).len()),
{
    let wl = w.len();
    let (n, q) = match read_num(w, p) {
        Some(x) => x,
        None => {
            return None;
        },
    };
    assert forall|t: Seq<char>|
        prefix_at(w@, p as int, #[trigger] enc_chars(t)) implies t.len() == n && q + t.len() <= wl by {
        assert(w@.subrange(p as int, p + 2) =~= enc_chars(t).subrange(0, 2));
        assert(enc_chars(t).subrange(0, 2) =~= enc_num(t.len() as int));
    }
    if n > (wl - q) as u64 {
        return None;
    }
    let n = n as usize;
    let mut out: Vec<char> = Vec::new();
    let mut i: usize = 0;
    while i < n
        invariant
            q == p + 2,
            wl == w@.len(),
            q + n <= wl,
            i <= n,
            out@.len() == i,
            forall|k: int| 0 <= k < i ==> (#[trigger] out@[k]) as u32 == w@[q + k],
            forall|t: Seq<char>| prefix_at(w@, p as int, #[trigger] enc_chars(t)) ==> t.len() == n,
        decreases n - i,
    {
        match char_from_word(w[q + i]) {
            Some(c) => {
                out.push(c);
                assert(out@[i as int] == c);
            },
            None => {
                assert forall|t: Seq<char>|
                    !prefix_at(w@, p as int, #[trigger] enc_chars(t)) by {
                    if prefix_at(w@, p as int, enc_chars(t)) {
                        assert(w@.subrange(p as int, p + enc_chars(t).len())[2 + i] == w@[q + i]);
                        assert(enc_chars(t)[2 + i] == w@[q + i]);
                        lemma_char_word_valid(t[i as int]);
                    }
                }
                return None;
            },
        }
        i = i + 1;
    }
    let end = q + n;
    assert(w@.subrange(p as int, end as int) =~= enc_chars(out@));
    assert forall|t: Seq<char>|
        prefix_at(w@, p as int, #[trigger] enc_chars(t)) implies out@ == t by {
        assert forall|k: int| 0 <= k < t.len() implies out@[k] == t[k] by {
            assert(w@.subrange(p as int, p + enc_chars(t).len())[2 + k] == w@[q + k]);
            assert(enc_chars(t)[2 + k] == w@[q + k]);
            lemma_char_word_injective(out@[k], t[k]);
        }
        assert(out@ =~= t);
    }
    Some((out, end))
}


proof fn lemma_texts_body_prefix(ws: Seq<Seq<char>>, j: int)
    requires
        0 <= j <= ws.len(),
    ensures
        enc_texts_body(ws.take(j)).len() <= enc_texts_body(ws).len(),
        enc_texts_body(ws).subrange(0, enc_texts_body(ws.take(j)).len() as int) == enc_texts_body(ws.take(j)),
    decreases ws.len(),
{
    if j == ws.len() {
        assert(ws.take(j) =~= ws);
        assert(enc_texts_body(ws).subrange(0, enc_texts_body(ws).len() as int) =~= enc_texts_body(ws));
    } else {
        assert(ws.drop_last().take(j) =~= ws.take(j));
        lemma_texts_body_prefix(ws.drop_last(), j);
        let a = enc_texts_body(ws.drop_last());
        let b = enc_chars(ws.last());
        assert((a + b).subrange(0, enc_texts_body(ws.take(j)).len() as int) =~= a.subrange(
            0,
            enc_texts_body(ws.take(j)).len() as int,
        ));
    }
}

proof fn lemma_texts_body_len(ws: Seq<Seq<char>>)
    ensures
        enc_texts_body(ws).len() >= ws.len(),
    decreases ws.len(),
{
    if ws.len() > 0 {
        lemma_texts_body_len(ws.drop_last());
    }
}

proof fn lemma_texts_item(t: Seq<Seq<char>>, k: int)
    requires
        0 <= k < t.len(),
    ensures
        2 + enc_texts_body(t.take(k)).len() + enc_chars(t[k]).len() <= enc_texts(t).len(),
        enc_texts(t).subrange(
            2 + enc_texts_body(t.take(k)).len() as int,
            (2 + enc_texts_body(t.take(k)).len() + enc_chars(t[k]).len()) as int,
        ) == enc_chars(t[k]),
{
    lemma_texts_body_prefix(t, k + 1);
    assert(t.take(k + 1).drop_last() =~= t.take(k));
    assert(t.take(k + 1).last() == t[k]);
    let b0 = enc_texts_body(t.take(k));
    let b1 = enc_texts_body(t.take(k + 1));
    let body = enc_texts_body(t);
    let e = enc_texts(t);
    assert(b1 == b0 + enc_chars(t[k]));
    assert(e.subrange(2 + b0.len() as int, 2 + b1.len() as int) =~= body.subrange(b0.len() as int, b1.len() as int));
    assert(body.subrange(b0.len() as int, b1.len() as int) =~= body.subrange(0, b1.len() as int).subrange(
        b0.len() as int,
        b1.len() as int,
    ));
    assert(b1.subrange(b0.len() as int, b1.len() as int) =~= enc_chars(t[k]));
}

pub(crate) fn write_texts(ws: &Vec<Vec<char>>, out: &mut Vec<u32>)
    ensures
        final(out)@ == old(out)@ + enc_texts(token_views(ws@)),
{
    write_num(ws.len() as u64, out);
    let ghost base = out@;
    let ghost tv = token_views(ws@);
    let mut i: usize = 0;
    assert(tv.take(0) =~= Seq::<Seq<char>>::empty());
    assert(out@ =~= base + enc_texts_body(tv.take(0)));
    while i < ws.len()
        invariant
            i <= ws@.len(),
            tv == token_views(ws@),
            out@ == base + enc_texts_body(tv.take(i as int)),
        decreases ws@.len() - i,
    {
        write_chars(&ws[i], out);
        assert(tv.take(i + 1).drop_last() =~= tv.take(i as int));
        assert(out@ =~= base + enc_texts_body(tv.take(i + 1)));
        i = i + 1;
    }
    assert(tv.take(i as int) =~= tv);
    assert(out@ =~= old(out)@ + enc_texts(tv));
}

/// Reads a list of texts written by `write_texts` at position `p`.
pub(crate) fn read_texts(w: &Vec<u32>, p: usize) -> (r: Option<(Vec<Vec<char>>, usize)>)
    ensures
        match r {
            Some((ws, q)) => p <= q <= w@.len() && w@.subrange(p as int, q as int) == enc_texts(token_views(ws@)),
            None => true,
        },
        forall|t: Seq<Seq<char>>|
            prefix_at(w@, p as int, #[trigger] enc_texts(t)) ==> (r matches Some((ws, q)) && token_views(ws@) == t
                && q == p + enc_texts(t).len()),
{
    let wl = w.len();
    let (n, q) = match read_num(w, p) {
        Some(x) => x,
        None => {
            return None;
        },
    };
    assert forall|t: Seq<Seq<char>>| prefix_at(w@, p as int, #[trigger] enc_texts(t)) implies t.len() == n by {
        lemma_texts_body_len(t);
        assert(w@.subrange(p as int, p + 2) =~= enc_texts(t).subrange(0, 2));
        assert(enc_texts(t).subrange(0, 2) =~= enc_num(t.len() as int));
    }
    let mut out: Vec<Vec<char>> = Vec::new();
    let mut cur: usize = q;
    let mut k: u64 = 0;
    assert(w@.subrange(p as int, q as int) =~= enc_num(n as int) + enc_texts_body(token_views(out@)));
    while k < n
        invariant
            q == p + 2,
            wl == w@.len(),
            k <= n,
            q <= cur <= wl,
            out@.len() == k,
            w@.subrange(p as int, cur as int) == enc_num(n as int) + enc_texts_body(token_views(out@)),
            forall|t: Seq<Seq<char>>|
                prefix_at(w@, p as int, #[trigger] enc_texts(t)) ==> t.len() == n && token_views(out@) == t.take(k as int),
        decreases n - k,
    {
        match read_chars(w, cur) {
            Some((s, next)) => {
                let ghost before = out@;
                out.push(s);
                assert(token_views(out@) =~= token_views(before).push(s@));
                assert(token_views(out@).drop_last() =~= token_views(before));
                assert(w@.subrange(p as int, next as int) =~= w@.subrange(p as int, cur as int) + w@.subrange(cur as int, next as int));
                assert forall|t: Seq<Seq<char>>|
                    prefix_at(w@, p as int, #[trigger] enc_texts(t)) implies token_views(out@) == t.take(k + 1) by {
                    lemma_texts_item(t, k as int);
                    assert(t.take(k + 1).drop_last() =~= t.take(k as int));
                    assert(cur == p + 2 + enc_texts_body(t.take(k as int)).len());
                    let lo = (2 + enc_texts_body(t.take(k as int)).len()) as int;
                    let hi = (lo + enc_chars(t[k as int]).len()) as int;
                    assert(w@.subrange(cur as int, cur + enc_chars(t[k as int]).len()) =~= enc_texts(t).subrange(lo, hi));
                    assert(prefix_at(w@, cur as int, enc_chars(t[k as int])));
                    assert(s@ == t[k as int]);
                    assert(token_views(out@) =~= t.take(k + 1));
                }
                cur = next;
            },
            None => {
                assert forall|t: Seq<Seq<char>>| !prefix_at(w@, p as int, #[trigger] enc_texts(t)) by {
                    if prefix_at(w@, p as int, enc_texts(t)) {
                        lemma_texts_item(t, k as int);
                        assert(token_views(out@) == t.take(k as int));
                        assert(w@.subrange(p as int, cur as int).len() == cur - p);
                        assert(cur == p + 2 + enc_texts_body(t.take(k as int)).len());
                        let lo = (2 + enc_texts_body(t.take(k as int)).len()) as int;
                        let hi = (lo + enc_chars(t[k as int]).len()) as int;
                        assert(w@.subrange(cur as int, cur + enc_chars(t[k as int]).len()) =~= enc_texts(t).subrange(lo, hi));
                        assert(prefix_at(w@, cur as int, enc_chars(t[k as int])));
                    }
                }
                return None;
            },
        }
        k = k + 1;
    }
    assert forall|t: Seq<Seq<char>>|
        prefix_at(w@, p as int, #[trigger] enc_texts(t)) implies token_views(out@) == t && cur == p + enc_texts(t).len() by {
        assert(t.take(n as int) =~= t);
    }
    Some((out, cur))
}


proof fn lemma_docs_body_prefix(ws: Seq<DocumentView>, j: int)
    requires
        0 <= j <= ws.len(),
    ensures
        enc_docs_body(ws.take(j)).len() <= enc_docs_body(ws).len(),
        enc_docs_body(ws).subrange(0, enc_docs_body(ws.take(j)).len() as int) == enc_docs_body(ws.take(j)),
    decreases ws.len(),
{
    if j == ws.len() {
        assert(ws.take(j) =~= ws);
        assert(enc_docs_body(ws).subrange(0, enc_docs_body(ws).len() as int) =~= enc_docs_body(ws));
    } else {
        assert(ws.drop_last().take(j) =~= ws.take(j));
        lemma_docs_body_prefix(ws.drop_last(), j);
        let a = enc_docs_body(ws.drop_last());
        let b = enc_doc(ws.last());
        assert((a + b).subrange(0, enc_docs_body(ws.take(j)).len() as int) =~= a.subrange(
            0,
            enc_docs_body(ws.take(j)).len() as int,
        ));
    }
}

proof fn lemma_docs_body_len(ws: Seq<DocumentView>)
    ensures
        enc_docs_body(ws).len() >= ws.len(),
    decreases ws.len(),
{
    if ws.len() > 0 {
        lemma_docs_body_len(ws.drop_last());
        lemma_enc_doc_len(ws.last());
    }
}

proof fn lemma_docs_item(t: Seq<DocumentView>, k: int)
    requires
        0 <= k < t.len(),
    ensures
        2 + enc_docs_body(t.take(k)).len() + enc_doc(t[k]).len() <= enc_docs(t).len(),
        enc_docs(t).subrange(
            2 + enc_docs_body(t.take(k)).len() as int,
            (2 + enc_docs_body(t.take(k)).len() + enc_doc(t[k]).len()) as int,
        ) == enc_doc(t[k]),
{
    lemma_docs_body_prefix(t, k + 1);
    assert(t.take(k + 1).drop_last() =~= t.take(k));
    assert(t.take(k + 1).last() == t[k]);
    let b0 = enc_docs_body(t.take(k));
    let b1 = enc_docs_body(t.take(k + 1));
    let body = enc_docs_body(t);
    let e = enc_docs(t);
    assert(b1 == b0 + enc_doc(t[k]));
    assert(e.subrange(2 + b0.len() as int, 2 + b1.len() as int) =~= body.subrange(b0.len() as int, b1.len() as int));
    assert(body.subrange(b0.len() as int, b1.len() as int) =~= body.subrange(0, b1.len() as int).subrange(
        b0.len() as int,
        b1.len() as int,
    ));
    assert(b1.subrange(b0.len() as int, b1.len() as int) =~= enc_doc(t[k]));
}

pub(crate) fn write_docs(ws: &Vec<Document>, out: &mut Vec<u32>)
    ensures
        final(out)@ == old(out)@ + enc_docs(doc_views(ws@)),
{
    write_num(ws.len() as u64, out);
    let ghost base = out@;
    let ghost tv = doc_views(ws@);
    let mut i: usize = 0;
    assert(tv.take(0) =~= Seq::<DocumentView>::empty());
    assert(out@ =~= base + enc_docs_body(tv.take(0)));
    while i < ws.len()
        invariant
            i <= ws@.len(),
            tv == doc_views(ws@),
            out@ == base + enc_docs_body(tv.take(i as int)),
        decreases ws@.len() - i,
    {
        write_document(&ws[i], out);
        assert(tv.take(i + 1).drop_last() =~= tv.take(i as int));
        assert(out@ =~= base + enc_docs_body(tv.take(i + 1)));
        i = i + 1;
    }
    assert(tv.take(i as int) =~= tv);
    assert(out@ =~= old(out)@ + enc_docs(tv));
}

/// Reads a list of documents written by `write_docs` at position `p`.
pub(crate) fn read_docs(w: &Vec<u32>, p: usize) -> (r: Option<(Vec<Document>, usize)>)
    ensures
        match r {
            Some((ws, q)) => p <= q <= w@.len() && w@.subrange(p as int, q as int) == enc_docs(doc_views(ws@)),
            None => true,
        },
        forall|t: Seq<DocumentView>|
            all_fit(t) && prefix_at(w@, p as int, #[trigger] enc_docs(t)) ==> (r matches Some((ws, q)) && doc_views(ws@) == t
                && q == p + enc_docs(t).len()),
{
    let wl = w.len();
    let (n, q) = match read_num(w, p) {
        Some(x) => x,
        None => {
            return None;
        },
    };
    assert forall|t: Seq<DocumentView>| all_fit(t) && prefix_at(w@, p as int, #[trigger] enc_docs(t)) implies t.len() == n by {
        lemma_docs_body_len(t);
        assert(w@.subrange(p as int, p + 2) =~= enc_docs(t).subrange(0, 2));
        assert(enc_docs(t).subrange(0, 2) =~= enc_num(t.len() as int));
    }
    let mut out: Vec<Document> = Vec::new();
    let mut cur: usize = q;
    let mut k: u64 = 0;
    assert(w@.subrange(p as int, q as int) =~= enc_num(n as int) + enc_docs_body(doc_views(out@)));
    while k < n
        invariant
            q == p + 2,
            wl == w@.len(),
            k <= n,
            q <= cur <= wl,
            out@.len() == k,
            w@.subrange(p as int, cur as int) == enc_num(n as int) + enc_docs_body(doc_views(out@)),
            forall|t: Seq<DocumentView>|
                all_fit(t) && prefix_at(w@, p as int, #[trigger] enc_docs(t)) ==> t.len() == n && doc_views(out@) == t.take(k as int),
        decreases n - k,
    {
        match read_document(w, cur) {
            Some((s, next)) => {
                let ghost before = out@;
                out.push(s);
                assert(doc_views(out@) =~= doc_views(before).push(s@));
                assert(doc_views(out@).drop_last() =~= doc_views(before));
                assert(w@.subrange(p as int, next as int) =~= w@.subrange(p as int, cur as int) + w@.subrange(cur as int, next as int));
                assert forall|t: Seq<DocumentView>|
                    all_fit(t) && prefix_at(w@, p as int, #[trigger] enc_docs(t)) implies doc_views(out@) == t.take(k + 1) by {
                    lemma_docs_item(t, k as int);
                    assert(t.take(k + 1).drop_last() =~= t.take(k as int));
                    assert(cur == p + 2 + enc_docs_body(t.take(k as int)).len());
                    let lo = (2 + enc_docs_body(t.take(k as int)).len()) as int;
                    let hi = (lo + enc_doc(t[k as int]).len()) as int;
                    assert(w@.subrange(cur as int, cur + enc_doc(t[k as int]).len()) =~= enc_docs(t).subrange(lo, hi));
                    assert(prefix_at(w@, cur as int, enc_doc(t[k as int])));
                    assert(s@ == t[k as int]);
                    assert(doc_views(out@) =~= t.take(k + 1));
                }
                cur = next;
            },
            None => {
                assert forall|t: Seq<DocumentView>| !(all_fit(t) && prefix_at(w@, p as int, #[trigger] enc_docs(t))) by {
                    if all_fit(t) && prefix_at(w@, p as int, enc_docs(t)) {
                        lemma_docs_item(t, k as int);
                        assert(doc_views(out@) == t.take(k as int));
                        assert(w@.subrange(p as int, cur as int).len() == cur - p);
                        assert(cur == p + 2 + enc_docs_body(t.take(k as int)).len());
                        let lo = (2 + enc_docs_body(t.take(k as int)).len()) as int;
                        let hi = (lo + enc_doc(t[k as int]).len()) as int;
                        assert(w@.subrange(cur as int, cur + enc_doc(t[k as int]).len()) =~= enc_docs(t).subrange(lo, hi));
                        assert(prefix_at(w@, cur as int, enc_doc(t[k as int])));
                    }
                }
                return None;
            },
        }
        k = k + 1;
    }
    assert forall|t: Seq<DocumentView>|
        all_fit(t) && prefix_at(w@, p as int, #[trigger] enc_docs(t)) implies doc_views(out@) == t && cur == p + enc_docs(t).len() by {
        assert(t.take(n as int) =~= t);
    }
    Some((out, cur))
}


/// A document as its fields in order: project, session, path, position,
/// timestamp, content, and the words its delta brought in.
#[verifier::opaque]
pub open spec fn enc_doc(d: DocumentView) -> Seq<u32> {
    enc_chars(d.project_id) + (enc_chars(d.session_id) + (enc_chars(d.file_path) + (enc_num(d.index as int) + (
    enc_num(d.timestamp_ms as int) + (enc_chars(d.content) + enc_texts(d.added))))))
}

proof fn lemma_enc_doc_len(d: DocumentView)
    ensures
        enc_doc(d).len() >= 1,
{
    reveal(enc_doc);
}

/// The document's numbers fit the machine types that hold them.
pub open spec fn fits(d: DocumentView) -> bool {
    d.index <= usize::MAX && d.timestamp_ms <= u64::MAX
}

/// Every document's numbers fit.
pub open spec fn all_fit(ds: Seq<DocumentView>) -> bool {
    forall|i: int| 0 <= i < ds.len() ==> fits(#[trigger] ds[i])
}

proof fn lemma_prefix_split(w: Seq<u32>, p: int, a: Seq<u32>, b: Seq<u32>)
    requires
        0 <= p,
        prefix_at(w, p, a + b),
    ensures
        prefix_at(w, p, a),
        prefix_at(w, p + a.len(), b),
{
    let whole = w.subrange(p, p + (a + b).len());
    assert(whole == a + b);
    assert(w.subrange(p, p + a.len()) =~= whole.subrange(0, a.len() as int));
    assert(w.subrange(p + a.len(), p + a.len() + b.len()) =~= whole.subrange(a.len() as int, (a.len() + b.len()) as int));
    assert(whole.subrange(0, a.len() as int) =~= a);
    assert(whole.subrange(a.len() as int, (a.len() + b.len()) as int) =~= b);
}

proof fn lemma_doc_parts(w: Seq<u32>, p: int, t: DocumentView)
    requires
        0 <= p,
        prefix_at(w, p, enc_doc(t)),
    ensures
        prefix_at(w, p, enc_chars(t.project_id)),
        prefix_at(w, p + enc_chars(t.project_id).len(), enc_chars(t.session_id)),
        prefix_at(w, p + enc_chars(t.project_id).len() + enc_chars(t.session_id).len(), enc_chars(t.file_path)),
        prefix_at(
            w,
            p + enc_chars(t.project_id).len() + enc_chars(t.session_id).len() + enc_chars(t.file_path).len(),
            enc_num(t.index as int),
        ),
        prefix_at(
            w,
            p + enc_chars(t.project_id).len() + enc_chars(t.session_id).len() + enc_chars(t.file_path).len() + 2,
            enc_num(t.timestamp_ms as int),
        ),
        prefix_at(
            w,
            p + enc_chars(t.project_id).len() + enc_chars(t.session_id).len() + enc_chars(t.file_path).len() + 4,
            enc_chars(t.content),
        ),
        prefix_at(
            w,
            p + enc_chars(t.project_id).len() + enc_chars(t.session_id).len() + enc_chars(t.file_path).len() + 4
                + enc_chars(t.content).len(),
            enc_texts(t.added),
        ),
{
    reveal(enc_doc);
    let r4 = enc_num(t.timestamp_ms as int) + (enc_chars(t.content) + enc_texts(t.added));
    let r3 = enc_num(t.index as int) + r4;
    let r2 = enc_chars(t.file_path) + r3;
    let r1 = enc_chars(t.session_id) + r2;
    let o1 = p + enc_chars(t.project_id).len();
    let o2 = o1 + enc_chars(t.session_id).len();
    let o3 = o2 + enc_chars(t.file_path).len();
    lemma_prefix_split(w, p, enc_chars(t.project_id), r1);
    lemma_prefix_split(w, o1, enc_chars(t.session_id), r2);
    lemma_prefix_split(w, o2, enc_chars(t.file_path), r3);
    lemma_prefix_split(w, o3, enc_num(t.index as int), r4);
    lemma_prefix_split(w, o3 + 2, enc_num(t.timestamp_ms as int), enc_chars(t.content) + enc_texts(t.added));
    lemma_prefix_split(w, o3 + 4, enc_chars(t.content), enc_texts(t.added));
}

proof fn lemma_join(w: Seq<u32>, p: int, m: int, q: int, a: Seq<u32>, b: Seq<u32>)
    requires
        0 <= p <= m <= q <= w.len(),
        w.subrange(p, m) == a,
        w.subrange(m, q) == b,
    ensures
        w.subrange(p, q) == a + b,
{
    assert(w.subrange(p, q) =~= w.subrange(p, m) + w.subrange(m, q));
}

fn write_string(s: &String, out: &mut Vec<u32>)
    ensures
        final(out)@ == old(out)@ + enc_chars(s@),
{
    let mut cs: Vec<char> = Vec::new();
    push_str_chars(s, &mut cs);
    write_chars(&cs, out);
}

pub(crate) fn write_document(d: &Document, out: &mut Vec<u32>)
    ensures
        final(out)@ == old(out)@ + enc_doc(d@),
{
    write_string(&d.project_id, out);
    write_string(&d.session_id, out);
    write_string(&d.file_path, out);
    write_num(d.index as u64, out);
    write_num(d.timestamp_ms, out);
    write_chars(&d.content, out);
    write_texts(&d.added, out);
    reveal(enc_doc);
    assert(out@ =~= old(out)@ + enc_doc(d@));
}

/// Reads a document written by `write_document` at position `p`.
#[verifier::rlimit(80)]
#[verifier::spinoff_prover]
pub(crate) fn read_document(w: &Vec<u32>, p: usize) -> (r: Option<(Document, usize)>)
    ensures
        match r {
            Some((d, q)) => p <= q <= w@.len() && w@.subrange(p as int, q as int) == enc_doc(d@),
            None => true,
        },
        forall|t: DocumentView|
            fits(t) && prefix_at(w@, p as int, #[trigger] enc_doc(t)) ==> (r matches Some((d, q)) && d@ == t
                && q == p + enc_doc(t).len()),
{
    let (project_id, at1) = match read_chars(w, p) {
        Some(x) => x,
        None => {
            assert forall|t: DocumentView| !(fits(t) && prefix_at(w@, p as int, #[trigger] enc_doc(t))) by {
                if fits(t) && prefix_at(w@, p as int, enc_doc(t)) {
                    lemma_doc_parts(w@, p as int, t);
                }
            }
            return None;
        },
    };
    let (session_id, at2) = match read_chars(w, at1) {
        Some(x) => x,
        None => {
            assert forall|t: DocumentView| !(fits(t) && prefix_at(w@, p as int, #[trigger] enc_doc(t))) by {
                if fits(t) && prefix_at(w@, p as int, enc_doc(t)) {
                    lemma_doc_parts(w@, p as int, t);
                }
            }
            return None;
        },
    };
    let (file_path, at3) = match read_chars(w, at2) {
        Some(x) => x,
        None => {
            assert forall|t: DocumentView| !(fits(t) && prefix_at(w@, p as int, #[trigger] enc_doc(t))) by {
                if fits(t) && prefix_at(w@, p as int, enc_doc(t)) {
                    lemma_doc_parts(w@, p as int, t);
                }
            }
            return None;
        },
    };
    let (index, at4) = match read_num(w, at3) {
        Some(x) => x,
        None => {
            assert forall|t: DocumentView| !(fits(t) && prefix_at(w@, p as int, #[trigger] enc_doc(t))) by {
                if fits(t) && prefix_at(w@, p as int, enc_doc(t)) {
                    lemma_doc_parts(w@, p as int, t);
                }
            }
            return None;
        },
    };
    let (timestamp_ms, at5) = match read_num(w, at4) {
        Some(x) => x,
        None => {
            assert forall|t: DocumentView| !(fits(t) && prefix_at(w@, p as int, #[trigger] enc_doc(t))) by {
                if fits(t) && prefix_at(w@, p as int, enc_doc(t)) {
                    lemma_doc_parts(w@, p as int, t);
                }
            }
            return None;
        },
    };
    let (content, at6) = match read_chars(w, at5) {
        Some(x) => x,
        None => {
            assert forall|t: DocumentView| !(fits(t) && prefix_at(w@, p as int, #[trigger] enc_doc(t))) by {
                if fits(t) && prefix_at(w@, p as int, enc_doc(t)) {
                    lemma_doc_parts(w@, p as int, t);
                }
            }
            return None;
        },
    };
    let (added, at7) = match read_texts(w, at6) {
        Some(x) => x,
        None => {
            assert forall|t: DocumentView| !(fits(t) && prefix_at(w@, p as int, #[trigger] enc_doc(t))) by {
                if fits(t) && prefix_at(w@, p as int, enc_doc(t)) {
                    lemma_doc_parts(w@, p as int, t);
                }
            }
            return None;
        },
    };
    if index > usize::MAX as u64 {
        assert forall|t: DocumentView| !(fits(t) && prefix_at(w@, p as int, #[trigger] enc_doc(t))) by {
            if fits(t) && prefix_at(w@, p as int, enc_doc(t)) {
                lemma_doc_parts(w@, p as int, t);
            }
        }
        return None;
    }
    let d = Document {
        project_id: string_of(&project_id),
        session_id: string_of(&session_id),
        file_path: string_of(&file_path),
        index: index as usize,
        timestamp_ms,
        content,
        added,
    };
    proof {
        reveal(enc_doc);
        lemma_join(w@, at5 as int, at6 as int, at7 as int, enc_chars(d@.content), enc_texts(d@.added));
        lemma_join(w@, at4 as int, at5 as int, at7 as int, enc_num(timestamp_ms as int), enc_chars(d@.content) + enc_texts(d@.added));
        let r4 = enc_num(d@.timestamp_ms as int) + (enc_chars(d@.content) + enc_texts(d@.added));
        lemma_join(w@, at3 as int, at4 as int, at7 as int, enc_num(index as int), r4);
        let r3 = enc_num(d@.index as int) + r4;
        lemma_join(w@, at2 as int, at3 as int, at7 as int, enc_chars(d@.file_path), r3);
        let r2 = enc_chars(d@.file_path) + r3;
        lemma_join(w@, at1 as int, at2 as int, at7 as int, enc_chars(d@.session_id), r2);
        let r1 = enc_chars(d@.session_id) + r2;
        lemma_join(w@, p as int, at1 as int, at7 as int, enc_chars(d@.project_id), r1);
    }
    assert forall|t: DocumentView|
        fits(t) && prefix_at(w@, p as int, #[trigger] enc_doc(t)) implies d@ == t && at7 == p + enc_doc(t).len() by {
        lemma_doc_parts(w@, p as int, t);
        reveal(enc_doc);
        assert(d@.project_id == t.project_id);
        assert(d@.index == t.index);
        assert(d@ == t);
    }
    Some((d, at7))
}


/// A word as four bytes, least significant first.
pub open spec fn word_bytes(u: u32) -> Seq<u8> {
    seq![(u % 256) as u8, ((u / 256) % 256) as u8, ((u / 65536) % 256) as u8, (u / 16777216) as u8]
}

/// Words as bytes, four per word.
pub open spec fn bytes_of(ws: Seq<u32>) -> Seq<u8>
    decreases ws.len(),
{
    if ws.len() == 0 {
        Seq::empty()
    } else {
        bytes_of(ws.drop_last()) + word_bytes(ws.last())
    }
}

proof fn lemma_word_of_bytes(u: u32)
    ensures
        u == word_bytes(u)[0] as int + 256 * word_bytes(u)[1] as int + 65536 * word_bytes(u)[2] as int
            + 16777216 * word_bytes(u)[3] as int,
{
    let x = u as int;
    assert(x == x % 256 + 256 * ((x / 256) % 256) + 65536 * ((x / 65536) % 256) + 16777216 * (x / 16777216))
        by (nonlinear_arith)
        requires
            0 <= x < 0x1_0000_0000,
    ;
}

proof fn lemma_bytes_of_len(ws: Seq<u32>)
    ensures
        bytes_of(ws).len() == 4 * ws.len(),
    decreases ws.len(),
{
    if ws.len() > 0 {
        lemma_bytes_of_len(ws.drop_last());
    }
}

proof fn lemma_bytes_of_prefix(ws: Seq<u32>, i: int)
    requires
        0 <= i < ws.len(),
    ensures
        bytes_of(ws).len() == 4 * ws.len(),
        bytes_of(ws).subrange(4 * i, 4 * i + 4) == word_bytes(ws[i]),
    decreases ws.len(),
{
    lemma_bytes_of_len(ws);
    lemma_bytes_of_len(ws.drop_last());
    if i < ws.len() - 1 {
        lemma_bytes_of_prefix(ws.drop_last(), i);
        assert(bytes_of(ws).subrange(4 * i, 4 * i + 4) =~= bytes_of(ws.drop_last()).subrange(4 * i, 4 * i + 4));
    } else {
        assert(bytes_of(ws).subrange(4 * i, 4 * i + 4) =~= word_bytes(ws.last()));
    }
}

pub(crate) fn words_to_bytes(ws: &Vec<u32>) -> (r: Vec<u8>)
    ensures
        r@ == bytes_of(ws@),
{
    let mut out: Vec<u8> = Vec::new();
    let mut i: usize = 0;
    assert(ws@.take(0) =~= Seq::<u32>::empty());
    while i < ws.len()
        invariant
            i <= ws@.len(),
            out@ == bytes_of(ws@.take(i as int)),
        decreases ws@.len() - i,
    {
        let u = ws[i];
        out.push((u % 256) as u8);
        out.push(((u / 256) % 256) as u8);
        out.push(((u / 65536) % 256) as u8);
        out.push((u / 16777216) as u8);
        assert(ws@.take(i + 1).drop_last() =~= ws@.take(i as int));
        assert(out@ =~= bytes_of(ws@.take(i + 1)));
        i = i + 1;
    }
    assert(ws@.take(i as int) =~= ws@);
    out
}

/// Reads the words back from their bytes; `None` when the length is not a multiple of four.
pub(crate) fn bytes_to_words(b: &Vec<u8>) -> (r: Option<Vec<u32>>)
    ensures
        match r {
            Some(ws) => bytes_of(ws@) == b@,
            None => b@.len() % 4 != 0,
        },
        forall|t: Seq<u32>| #[trigger] bytes_of(t) == b@ ==> (r matches Some(ws) && ws@ == t),
{
    if b.len() % 4 != 0 {
        assert forall|t: Seq<u32>| #[trigger] bytes_of(t) != b@ by {
            lemma_bytes_of_len(t);
        }
        return None;
    }
    let bl = b.len();
    let n = bl / 4;
    let mut out: Vec<u32> = Vec::new();
    let mut i: usize = 0;
    assert(out@ =~= Seq::<u32>::empty());
    assert(bytes_of(out@) =~= b@.subrange(0, 0));
    while i < n
        invariant
            n * 4 == b@.len(),
            bl == b@.len(),
            i <= n,
            out@.len() == i,
            bytes_of(out@) == b@.subrange(0, 4 * i),
        decreases n - i,
    {
        let u: u32 = b[4 * i] as u32 + 256 * (b[4 * i + 1] as u32) + 65536 * (b[4 * i + 2] as u32) + 16777216 * (
        b[4 * i + 3] as u32);
        let ghost before = out@;
        assert(word_bytes(u) =~= b@.subrange(4 * i, 4 * i + 4)) by {
            let x = u as int;
            let (b0, b1, b2, b3) = (b@[4 * i] as int, b@[4 * i + 1] as int, b@[4 * i + 2] as int, b@[4 * i + 3] as int);
            assert(x % 256 == b0 && (x / 256) % 256 == b1 && (x / 65536) % 256 == b2 && x / 16777216 == b3)
                by (nonlinear_arith)
                requires
                    x == b0 + 256 * b1 + 65536 * b2 + 16777216 * b3,
                    0 <= b0 < 256,
                    0 <= b1 < 256,
                    0 <= b2 < 256,
                    0 <= b3 < 256,
            ;
        }
        out.push(u);
        assert(out@.drop_last() =~= before);
        assert(b@.subrange(0, 4 * i + 4) =~= b@.subrange(0, 4 * i) + b@.subrange(4 * i, 4 * i + 4));
        i = i + 1;
    }
    assert(b@.subrange(0, 4 * i) =~= b@);
    assert forall|t: Seq<u32>| #[trigger] bytes_of(t) == b@ implies out@ == t by {
        lemma_bytes_of_len(t);
        lemma_bytes_of_len(out@);
        assert forall|k: int| 0 <= k < t.len() implies out@[k] == t[k] by {
            lemma_bytes_of_prefix(t, k);
            lemma_bytes_of_prefix(out@, k);
            lemma_word_of_bytes(t[k]);
            lemma_word_of_bytes(out@[k]);
        }
        assert(out@ =~= t);
    }
    Some(out)
}

} // verus!
