use vstd::prelude::*;

use crate::delta::replay;
use crate::index::{
    file_document, file_documents, indexed, of_other_session, session_documents, DocumentView,
    Session, SessionFile,
};
use crate::query::{is_ranking, matched, score, SearchQuery};
use crate::text::{hits, tokens};

verus! {

proof fn lemma_filter_none(s: Seq<DocumentView>, pred: spec_fn(DocumentView) -> bool)
    requires
        forall|i: int| 0 <= i < s.len() ==> !pred(#[trigger] s[i]),
    ensures
        s.filter(pred) == Seq::<DocumentView>::empty(),
    decreases s.len(),
{
    reveal(Seq::filter);
    if s.len() > 0 {
        lemma_filter_none(s.drop_last(), pred);
    }
}

proof fn lemma_filter_twice(s: Seq<DocumentView>, pred: spec_fn(DocumentView) -> bool)
    ensures
        s.filter(pred).filter(pred) == s.filter(pred),
    decreases s.len(),
{
    reveal(Seq::filter);
    if s.len() > 0 {
        lemma_filter_twice(s.drop_last(), pred);
        let sub = s.drop_last().filter(pred);
        if pred(s.last()) {
            sub.lemma_filter_push(s.last(), pred);
        }
    }
}

proof fn lemma_session_documents_owned(project: Seq<char>, session: Seq<char>, files: Seq<SessionFile>)
    ensures
        forall|i: int|
            0 <= i < session_documents(project, session, files).len() ==> {
                let d = #[trigger] session_documents(project, session, files)[i];
                d.project_id == project && d.session_id == session
            },
    decreases files.len(),
{
    if files.len() > 0 {
        lemma_session_documents_owned(project, session, files.drop_last());
        let a = session_documents(project, session, files.drop_last());
        let b = file_documents(project, session, files.last());
        assert forall|i: int| 0 <= i < (a + b).len() implies {
            let d = #[trigger] (a + b)[i];
            d.project_id == project && d.session_id == session
        } by {
            if i >= a.len() {
                assert((a + b)[i] == b[i - a.len()]);
            }
        }
    }
}

/// Indexing the same session twice leaves the index as indexing it once did:
/// no document is duplicated and every query sees the same documents.
pub proof fn lemma_index_session_idempotent(docs: Seq<DocumentView>, project: Seq<char>, session: Session)
    ensures
        indexed(indexed(docs, project, session), project, session) == indexed(docs, project, session),
{
    let pred = of_other_session(project, session.id@);
    let kept = docs.filter(pred);
    let fresh = session_documents(project, session.id@, session.files@);
    Seq::filter_distributes_over_add(kept, fresh, pred);
    lemma_filter_twice(docs, pred);
    lemma_session_documents_owned(project, session.id@, session.files@);
    lemma_filter_none(fresh, pred);
    assert(kept + Seq::<DocumentView>::empty() =~= kept);
}

/// A query whose project holds no document has no hits.
pub proof fn lemma_unknown_project(docs: Seq<DocumentView>, query: SearchQuery, rank: Seq<int>)
    requires
        forall|i: int| 0 <= i < docs.len() ==> (#[trigger] docs[i]).project_id != query.project_id@,
        is_ranking(docs, query, rank),
    ensures
        rank.len() == 0,
{
    if rank.len() > 0 {
        assert(docs[rank[0]].project_id == query.project_id@);
    }
}

/// Every hit is a document of the query's project whose timestamp lies in the
/// range, and hits come in order of non-increasing score.
pub proof fn lemma_hits_filtered_and_ordered(docs: Seq<DocumentView>, query: SearchQuery, rank: Seq<int>)
    requires
        is_ranking(docs, query, rank),
    ensures
        forall|k: int|
            0 <= k < rank.len() ==> {
                let d = docs[#[trigger] rank[k]];
                &&& d.project_id == query.project_id@
                &&& query.range.start <= d.timestamp_ms < query.range.end
            },
        forall|a: int, b: int|
            0 <= a < b < rank.len() ==> score(query.q@, docs[#[trigger] rank[a]]) >= score(
                query.q@,
                docs[#[trigger] rank[b]],
            ),
{
}

proof fn lemma_hits_positive(q: Seq<Seq<char>>, d: Seq<Seq<char>>)
    ensures
        hits(q, d) > 0 <==> exists|j: int| 0 <= j < d.len() && q.contains(#[trigger] d[j]),
    decreases d.len(),
{
    if d.len() > 0 {
        lemma_hits_positive(q, d.drop_last());
        if hits(q, d.drop_last()) > 0 {
            let j = choose|j: int| 0 <= j < d.drop_last().len() && q.contains(#[trigger] d.drop_last()[j]);
            assert(d[j] == d.drop_last()[j]);
        }
        if q.contains(d.last()) {
            assert(d[d.len() - 1] == d.last());
        }
        if exists|j: int| 0 <= j < d.len() && q.contains(#[trigger] d[j]) {
            let j = choose|j: int| 0 <= j < d.len() && q.contains(#[trigger] d[j]);
            if j < d.len() - 1 {
                assert(d.drop_last()[j] == d[j]);
            }
        }
    }
}

/// Every hit shares a word with the query: a word of its path, or a word that
/// its delta brought in.
pub proof fn lemma_hits_share_a_word(docs: Seq<DocumentView>, query: SearchQuery, rank: Seq<int>, k: int)
    requires
        is_ranking(docs, query, rank),
        0 <= k < rank.len(),
    ensures
        exists|j: int|
            0 <= j < (tokens(docs[rank[k]].file_path) + docs[rank[k]].added).len()
                && tokens(query.q@).contains(
                #[trigger] (tokens(docs[rank[k]].file_path) + docs[rank[k]].added)[j],
            ),
{
    let d = docs[rank[k]];
    lemma_hits_positive(tokens(query.q@), tokens(d.file_path) + d.added);
}

/// The words that a document of a file records as brought in by its delta all
/// occur in its content: a word matches a snapshot only where the snapshot holds it.
pub proof fn lemma_added_words_in_content(project: Seq<char>, session: Seq<char>, f: SessionFile, i: int, w: Seq<char>)
    requires
        0 <= i < f.deltas@.len(),
        file_document(project, session, f, i).added.contains(w),
    ensures
        tokens(file_document(project, session, f, i).content).contains(w),
{
    let d = file_document(project, session, f, i);
    let before = replay(f.deltas@.take(i)).unwrap();
    tokens(d.content).lemma_filter_contains_rev(|x: Seq<char>| !tokens(before).contains(x), w);
}

proof fn lemma_file_documents_in_session(
    project: Seq<char>,
    session: Seq<char>,
    files: Seq<SessionFile>,
    f: int,
    i: int,
)
    requires
        0 <= f < files.len(),
        replay(files[f].deltas@) is Some,
        0 <= i < files[f].deltas@.len(),
    ensures
        session_documents(project, session, files).contains(file_document(project, session, files[f], i)),
    decreases files.len(),
{
    let a = session_documents(project, session, files.drop_last());
    let b = file_documents(project, session, files.last());
    if f < files.len() - 1 {
        assert(files.drop_last()[f] == files[f]);
        lemma_file_documents_in_session(project, session, files.drop_last(), f, i);
        let m = choose|m: int| 0 <= m < a.len() && a[m] == file_document(project, session, files[f], i);
        assert((a + b)[m] == a[m]);
    } else {
        assert(b[i] == file_document(project, session, files[f], i));
        assert((a + b)[a.len() + i] == b[i]);
    }
}

/// Searching a file's path finds every snapshot of that file that a session
/// indexed and whose timestamp lies in the range: one hit per delta.
pub proof fn lemma_path_query_finds_every_delta(
    docs: Seq<DocumentView>,
    project: Seq<char>,
    session: Session,
    f: int,
    i: int,
    query: SearchQuery,
    rank: Seq<int>,
)
    requires
        0 <= f < session.files@.len(),
        replay(session.files@[f].deltas@) is Some,
        0 <= i < session.files@[f].deltas@.len(),
        query.project_id@ == project,
        query.q@ == session.files@[f].path@,
        tokens(session.files@[f].path@).len() > 0,
        query.range.start <= session.files@[f].deltas@[i].timestamp_ms < query.range.end,
        is_ranking(indexed(docs, project, session), query, rank),
    ensures
        exists|k: int|
            0 <= k < rank.len() && indexed(docs, project, session)[#[trigger] rank[k]]
                == file_document(project, session.id@, session.files@[f], i),
{
    let all = indexed(docs, project, session);
    let kept = docs.filter(of_other_session(project, session.id@));
    let fresh = session_documents(project, session.id@, session.files@);
    let d = file_document(project, session.id@, session.files@[f], i);
    lemma_file_documents_in_session(project, session.id@, session.files@, f, i);
    let m = choose|m: int| 0 <= m < fresh.len() && fresh[m] == d;
    let p = kept.len() + m;
    assert(all[p] == d);
    let w = tokens(d.file_path) + d.added;
    assert(w[0] == tokens(d.file_path)[0]);
    assert(tokens(query.q@).contains(w[0]));
    lemma_hits_positive(tokens(query.q@), w);
    assert(matched(query.q@, d));
    assert(rank.contains(p));
    let k = choose|k: int| 0 <= k < rank.len() && rank[k] == p;
    assert(all[rank[k]] == d);
}

} // verus!
