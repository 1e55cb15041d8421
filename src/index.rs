use vstd::prelude::*;

use crate::codec::{
    all_fit, bytes_of, bytes_to_words, enc_docs, prefix_at, read_docs, words_to_bytes, write_docs,
};
use crate::delta::{copy_all, push_str_chars, replay, snapshot, Delta};
use crate::query::{
    describes, is_page, is_ranking, matched, page_len, page_start, precedes, score, selected, SearchError,
    SearchQuery, SearchResult,
};
use crate::text::{copy_words, count_hits, new_words, token_views, tokenize, tokens, words_not_in};

verus! {

/// The recorded history of one file within a session.
pub struct SessionFile {
    pub path: String,
    pub deltas: Vec<Delta>,
}

/// A recording session: its identity and the files it touched.
pub struct Session {
    pub id: String,
    pub files: Vec<SessionFile>,
}

/// One searchable document: a file's content as of one delta of a session.
pub struct Document {
    pub project_id: String,
    pub session_id: String,
    pub file_path: String,
    pub index: usize,
    pub timestamp_ms: u64,
    pub content: Vec<char>,
    /// The words that the delta brought into the file.
    pub added: Vec<Vec<char>>,
}

/// What a document holds, as plain mathematical values.
pub struct DocumentView {
    pub project_id: Seq<char>,
    pub session_id: Seq<char>,
    pub file_path: Seq<char>,
    pub index: nat,
    pub timestamp_ms: nat,
    pub content: Seq<char>,
    pub added: Seq<Seq<char>>,
}

impl View for Document {
    type V = DocumentView;

    open spec fn view(&self) -> DocumentView {
        DocumentView {
            project_id: self.project_id@,
            session_id: self.session_id@,
            file_path: self.file_path@,
            index: self.index as nat,
            timestamp_ms: self.timestamp_ms as nat,
            content: self.content@,
            added: token_views(self.added@),
        }
    }
}

impl Document {
    fn duplicate(&self) -> (r: Document)
        ensures
            r@ == self@,
    {
        Document {
            project_id: self.project_id.clone(),
            session_id: self.session_id.clone(),
            file_path: self.file_path.clone(),
            index: self.index,
            timestamp_ms: self.timestamp_ms,
            content: copy_all(&self.content),
            added: copy_words(&self.added),
        }
    }
}

/// What each document of a list holds.
pub open spec fn doc_views(s: Seq<Document>) -> Seq<DocumentView> {
    s.map_values(|d: Document| d@)
}

/// The characters of each text of a list.
pub open spec fn string_views(s: Seq<String>) -> Seq<Seq<char>> {
    s.map_values(|x: String| x@)
}

/// The document for delta `i` of a file: the file's content as of that delta,
/// and the words that were not in the file before it.
pub open spec fn file_document(project: Seq<char>, session: Seq<char>, f: SessionFile, i: int) -> DocumentView {
    DocumentView {
        project_id: project,
        session_id: session,
        file_path: f.path@,
        index: i as nat,
        timestamp_ms: f.deltas@[i].timestamp_ms as nat,
        content: snapshot(f.deltas@, i).unwrap(),
        added: new_words(replay(f.deltas@.take(i)).unwrap(), snapshot(f.deltas@, i).unwrap()),
    }
}

/// The documents of one file: one per delta, in order; none when some delta of
/// the file cannot be applied.
pub open spec fn file_documents(project: Seq<char>, session: Seq<char>, f: SessionFile) -> Seq<
    DocumentView,
> {
    if replay(f.deltas@) is Some {
        Seq::new(f.deltas@.len(), |i: int| file_document(project, session, f, i))
    } else {
        Seq::empty()
    }
}

/// The documents of all the files of a session, file after file.
pub open spec fn session_documents(project: Seq<char>, session: Seq<char>, files: Seq<SessionFile>) -> Seq<
    DocumentView,
>
    decreases files.len(),
{
    if files.len() == 0 {
        Seq::empty()
    } else {
        session_documents(project, session, files.drop_last()) + file_documents(
            project,
            session,
            files.last(),
        )
    }
}

/// The paths of the files whose deltas cannot be replayed, in order.
pub open spec fn skipped_paths(files: Seq<SessionFile>) -> Seq<Seq<char>>
    decreases files.len(),
{
    if files.len() == 0 {
        Seq::empty()
    } else {
        skipped_paths(files.drop_last()) + if replay(files.last().deltas@) is None {
            seq![files.last().path@]
        } else {
            Seq::empty()
        }
    }
}

/// Whether the document was written by another session than `session` of `project`.
pub open spec fn of_other_session(project: Seq<char>, session: Seq<char>) -> spec_fn(DocumentView) -> bool {
    |d: DocumentView| !(d.project_id == project && d.session_id == session)
}

/// The documents after indexing a session: those the session wrote before are
/// replaced by what it holds now; all others stay as they were.
pub open spec fn indexed(docs: Seq<DocumentView>, project: Seq<char>, session: Session) -> Seq<DocumentView> {
    docs.filter(of_other_session(project, session.id@)) + session_documents(
        project,
        session.id@,
        session.files@,
    )
}

/// Appends the documents of one file, or nothing when one of its deltas fails.
fn index_file(project_id: &String, session_id: &String, f: &SessionFile, out: &mut Vec<Document>) -> (ok: bool)
    ensures
        ok == (replay(f.deltas@) is Some),
        doc_views(final(out)@) == doc_views(old(out)@) + file_documents(project_id@, session_id@, *f),
{
    let ghost ds = f.deltas@;
    let mut batch: Vec<Document> = Vec::new();
    let mut cur: Vec<char> = Vec::new();
    let mut prev_words: Vec<Vec<char>> = Vec::new();
    let mut i: usize = 0;
    assert(ds.take(0) =~= Seq::<Delta>::empty());
    assert(token_views(prev_words@) =~= tokens(cur@));
    while i < f.deltas.len()
        invariant
            ds == f.deltas@,
            i <= ds.len(),
            replay(ds.take(i as int)) == Some(cur@),
            token_views(prev_words@) == tokens(cur@),
            doc_views(batch@).len() == i,
            forall|j: int| 0 <= j < i ==> doc_views(batch@)[j] == file_document(project_id@, session_id@, *f, j),
        decreases ds.len() - i,
    {
        assert(ds.take(i + 1).drop_last() =~= ds.take(i as int));
        assert(ds.take(i + 1).last() == ds[i as int]);
        match crate::delta::apply_delta(&cur, &f.deltas[i]) {
            Some(next) => {
                let ghost before_content = cur@;
                cur = next;
                let words = tokenize(&cur);
                let added = words_not_in(&prev_words, &words);
                prev_words = words;
                let d = Document {
                    project_id: project_id.clone(),
                    session_id: session_id.clone(),
                    file_path: f.path.clone(),
                    index: i,
                    timestamp_ms: f.deltas[i].timestamp_ms,
                    content: copy_all(&cur),
                    added,
                };
                let ghost before = batch@;
                batch.push(d);
                assert(doc_views(batch@) =~= doc_views(before).push(d@));
                assert(d@ == file_document(project_id@, session_id@, *f, i as int));
            },
            None => {
                proof {
                    if replay(ds) is Some {
                        crate::delta::lemma_replay_prefix(ds, i + 1);
                    }
                }
                assert(file_documents(project_id@, session_id@, *f) =~= Seq::<DocumentView>::empty());
                assert(doc_views(out@) =~= doc_views(out@) + Seq::<DocumentView>::empty());
                return false;
            },
        }
        i = i + 1;
    }
    assert(ds.take(i as int) =~= ds);
    assert(replay(ds) is Some);
    assert(file_documents(project_id@, session_id@, *f) =~= doc_views(batch@));
    let ghost before = out@;
    let ghost added = batch@;
    out.append(&mut batch);
    assert(doc_views(out@) =~= doc_views(before) + doc_views(added));
    true
}

fn doc_score(d: &Document, qterms: &Vec<Vec<char>>, Ghost(q): Ghost<Seq<char>>) -> (r: (bool, usize))
    requires
        token_views(qterms@) == tokens(q),
    ensures
        r.0 == matched(q, d@),
        r.1 == score(q, d@),
{
    let mut pc: Vec<char> = Vec::new();
    push_str_chars(&d.file_path, &mut pc);
    let path_words = tokenize(&pc);
    let mut terms = copy_words(&path_words);
    let mut ct = tokenize(&d.content);
    let ghost a = terms@;
    let ghost b = ct@;
    terms.append(&mut ct);
    assert(token_views(terms@) =~= token_views(a) + token_views(b));
    let mut keys = copy_words(&path_words);
    let mut ad = copy_words(&d.added);
    let ghost c = keys@;
    let ghost e = ad@;
    keys.append(&mut ad);
    assert(token_views(keys@) =~= token_views(c) + token_views(e));
    (count_hits(qterms, &keys) > 0, count_hits(qterms, &terms))
}

fn result_of(d: &Document) -> (r: SearchResult)
    ensures
        describes(r, d@),
{
    SearchResult {
        project_id: d.project_id.clone(),
        session_id: d.session_id.clone(),
        file_path: d.file_path.clone(),
        index: d.index,
    }
}

spec fn rank_of(ranked: Seq<(usize, usize)>) -> Seq<int> {
    ranked.map_values(|e: (usize, usize)| e.0 as int)
}

/// Why stored bytes could not be opened as an index.
#[derive(Debug, PartialEq, Eq, Structural)]
pub enum OpenError {
    /// The bytes are not the encoding of any list of documents.
    Corrupt,
}

/// An in-memory search index over file snapshots.
pub struct Deltas {
    storage_path: String,
    docs: Vec<Document>,
}

impl View for Deltas {
    type V = Seq<DocumentView>;

    closed spec fn view(&self) -> Seq<DocumentView> {
        doc_views(self.docs@)
    }
}

impl Deltas {
    /// The storage location the index belongs to.
    pub closed spec fn spec_storage_path(&self) -> Seq<char> {
        self.storage_path@
    }

    /// An empty index for the given storage location.
    pub fn at(storage_path: String) -> (r: Deltas)
        ensures
            r@ == Seq::<DocumentView>::empty(),
            r.spec_storage_path() == storage_path@,
    {
        let r = Deltas { storage_path, docs: Vec::new() };
        assert(r@ =~= Seq::<DocumentView>::empty());
        r
    }

    /// Every document's position and timestamp fit the types that store them.
    pub proof fn lemma_documents_fit(&self)
        ensures
            all_fit(self@),
    {
    }

    /// The documents in their storage format: a count, then each document.
    pub fn to_bytes(&self) -> (r: Vec<u8>)
        ensures
            r@ == bytes_of(enc_docs(self@)),
    {
        let mut w: Vec<u32> = Vec::new();
        write_docs(&self.docs, &mut w);
        assert(w@ =~= enc_docs(self@));
        words_to_bytes(&w)
    }

    /// Opens the index stored in `bytes` at the given location. Succeeds exactly
    /// when the bytes are the storage format of some list of documents, and then
    /// holds that list.
    pub fn from_bytes(storage_path: String, bytes: &Vec<u8>) -> (r: Result<Deltas, OpenError>)
        ensures
            r matches Ok(d) ==> bytes_of(enc_docs(d@)) == bytes@ && d.spec_storage_path() == storage_path@,
            forall|ds: Seq<DocumentView>|
                all_fit(ds) && #[trigger] bytes_of(enc_docs(ds)) == bytes@ ==> (r matches Ok(d) && d@ == ds),
    {
        let w = match bytes_to_words(bytes) {
            Some(w) => w,
            None => {
                return Err(OpenError::Corrupt);
            },
        };
        assert forall|ds: Seq<DocumentView>|
            all_fit(ds) && #[trigger] bytes_of(enc_docs(ds)) == bytes@ implies prefix_at(w@, 0, enc_docs(ds))
            && enc_docs(ds).len() == w@.len() by {
            assert(w@ == enc_docs(ds));
            assert(w@.subrange(0, w@.len() as int) =~= w@);
        }
        match read_docs(&w, 0) {
            Some((docs, q)) => {
                if q != w.len() {
                    return Err(OpenError::Corrupt);
                }
                assert(w@.subrange(0, q as int) =~= w@);
                Ok(Deltas { storage_path, docs })
            },
            None => Err(OpenError::Corrupt),
        }
    }

    /// The storage location the index was opened at.
    pub fn storage_path(&self) -> (r: &String)
        ensures
            r@ == self.spec_storage_path(),
    {
        &self.storage_path
    }

    /// How many documents the index holds.
    pub fn len(&self) -> (r: usize)
        ensures
            r == self@.len(),
    {
        self.docs.len()
    }

    /// Indexes every file of the session: one document per delta, holding the
    /// file's content as of that delta and the words that delta brought in, tagged with the project, the session, the
    /// path and the delta's position and timestamp. Documents that the same
    /// session wrote before are replaced, so indexing a session again adds no
    /// duplicates. A file with a delta that cannot be applied is skipped; the
    /// paths of the skipped files are returned, in order.
    pub fn index_session(&mut self, project_id: &String, session: &Session) -> (skipped: Vec<String>)
        ensures
            final(self)@ == indexed(old(self)@, project_id@, *session),
            string_views(skipped@) == skipped_paths(session.files@),
            final(self).spec_storage_path() == old(self).spec_storage_path(),
    {
        let ghost pred = of_other_session(project_id@, session.id@);
        let ghost old_docs = self@;
        let mut batch: Vec<Document> = Vec::new();
        let mut i: usize = 0;
        assert(old_docs.take(0) =~= Seq::<DocumentView>::empty());
        assert(old_docs.take(0).filter(pred) =~= Seq::<DocumentView>::empty()) by {
            reveal(Seq::filter);
        }
        while i < self.docs.len()
            invariant
                old_docs == self@,
                pred == of_other_session(project_id@, session.id@),
                i <= old_docs.len(),
                doc_views(batch@) == old_docs.take(i as int).filter(pred),
            decreases old_docs.len() - i,
        {
            let d = &self.docs[i];
            assert(old_docs.take(i + 1).drop_last() =~= old_docs.take(i as int));
            assert(old_docs.take(i + 1).last() == d@);
            let ghost before = batch@;
            let ghost t = old_docs.take(i + 1);
            assert(t =~= old_docs.take(i as int).push(d@));
            proof {
                old_docs.take(i as int).lemma_filter_push(d@, pred);
            }
            if !(d.project_id == *project_id && d.session_id == session.id) {
                assert(pred(d@));
                assert(t.filter(pred) == old_docs.take(i as int).filter(pred).push(d@));
                batch.push(d.duplicate());
                assert(doc_views(batch@) =~= doc_views(before).push(d@));
            } else {
                assert(!pred(d@));
                assert(t.filter(pred) == old_docs.take(i as int).filter(pred));
            }
            i = i + 1;
        }
        assert(old_docs.take(i as int) =~= old_docs);
        let mut skipped: Vec<String> = Vec::new();
        let mut k: usize = 0;
        let ghost files = session.files@;
        assert(files.take(0) =~= Seq::<SessionFile>::empty());
        assert(doc_views(batch@) =~= old_docs.filter(pred) + session_documents(
            project_id@,
            session.id@,
            files.take(0),
        ));
        assert(string_views(skipped@) =~= skipped_paths(files.take(0)));
        while k < session.files.len()
            invariant
                files == session.files@,
                old_docs == self@,
                k <= files.len(),
                doc_views(batch@) == old_docs.filter(pred) + session_documents(
                    project_id@,
                    session.id@,
                    files.take(k as int),
                ),
                string_views(skipped@) == skipped_paths(files.take(k as int)),
            decreases files.len() - k,
        {
            assert(files.take(k + 1).drop_last() =~= files.take(k as int));
            assert(files.take(k + 1).last() == files[k as int]);
            let f = &session.files[k];
            let ghost before = batch@;
            let ghost sk_before = skipped@;
            let ok = index_file(project_id, &session.id, f, &mut batch);
            if !ok {
                skipped.push(f.path.clone());
                assert(string_views(skipped@) =~= string_views(sk_before) + seq![f.path@]);
            } else {
                assert(string_views(skipped@) =~= string_views(sk_before) + Seq::<Seq<char>>::empty());
            }
            k = k + 1;
        }
        assert(files.take(k as int) =~= files);
        self.docs = batch;
        skipped
    }

    /// Runs the query: the documents of the query's project whose timestamp lies
    /// in the range and where one of the query's words is a word of the path or a
    /// word that the document's delta brought in. They come best score first (the
    /// score counts the query's words in the path and the whole content; ties in
    /// the order the documents were indexed), cut to the page that `offset` and
    /// `limit` select. Fails only when `limit` is zero.
    pub fn search(&self, query: &SearchQuery) -> (r: Result<Vec<SearchResult>, SearchError>)
        ensures
            query.limit == 0 ==> r == Err::<Vec<SearchResult>, SearchError>(SearchError::ZeroLimit),
            query.limit > 0 ==> r is Ok,
            r is Ok ==> exists|rank: Seq<int>|
                is_ranking(self@, *query, rank) && is_page(self@, *query, rank, (r->Ok_0)@),
    {
        if query.limit == 0 {
            return Err(SearchError::ZeroLimit);
        }
        let ghost docs = self@;
        let ghost q = query.q@;
        let mut qc: Vec<char> = Vec::new();
        push_str_chars(&query.q, &mut qc);
        let qterms = tokenize(&qc);
        let mut ranked: Vec<(usize, usize)> = Vec::new();
        let mut p: usize = 0;
        while p < self.docs.len()
            invariant
                docs == self@,
                q == query.q@,
                token_views(qterms@) == tokens(q),
                p <= docs.len(),
                forall|k: int|
                    0 <= k < ranked@.len() ==> {
                        let e = #[trigger] ranked@[k];
                        &&& e.0 < p
                        &&& e.1 == score(q, docs[e.0 as int])
                        &&& selected(*query, docs[e.0 as int])
                    },
                forall|j: int|
                    0 <= j < p && selected(*query, docs[j]) ==> exists|k: int|
                        0 <= k < ranked@.len() && (#[trigger] ranked@[k]).0 == j,
                forall|a: int, b: int|
                    0 <= a < b < ranked@.len() ==> precedes(
                        q,
                        docs,
                        (#[trigger] ranked@[a]).0 as int,
                        (#[trigger] ranked@[b]).0 as int,
                    ),
            decreases docs.len() - p,
        {
            let d = &self.docs[p];
            assert(d@ == docs[p as int]);
            if d.project_id == query.project_id && query.range.start <= d.timestamp_ms
                && d.timestamp_ms < query.range.end {
                let (m, s) = doc_score(d, &qterms, Ghost(q));
                if m {
                    let mut k: usize = 0;
                    while k < ranked.len() && ranked[k].1 >= s
                        invariant
                            k <= ranked@.len(),
                            forall|m: int| 0 <= m < k ==> (#[trigger] ranked@[m]).1 >= s,
                        decreases ranked@.len() - k,
                    {
                        k = k + 1;
                    }
                    let ghost old_ranked = ranked@;
                    ranked.insert(k, (p, s));
                    assert(ranked@ == old_ranked.insert(k as int, (p, s)));
                    assert forall|a: int, b: int| 0 <= a < b < ranked@.len() implies precedes(
                        q,
                        docs,
                        (#[trigger] ranked@[a]).0 as int,
                        (#[trigger] ranked@[b]).0 as int,
                    ) by {
                        if b < k {
                            assert(ranked@[a] == old_ranked[a] && ranked@[b] == old_ranked[b]);
                        } else if b == k {
                            assert(ranked@[a] == old_ranked[a]);
                        } else if a == k {
                            assert(ranked@[b] == old_ranked[b - 1]);
                            assert(old_ranked[k as int].1 < s);
                            if b - 1 > k {
                                assert(precedes(q, docs, old_ranked[k as int].0 as int, old_ranked[b - 1].0 as int));
                            }
                        } else if a < k {
                            assert(ranked@[a] == old_ranked[a] && ranked@[b] == old_ranked[b - 1]);
                        } else {
                            assert(ranked@[a] == old_ranked[a - 1] && ranked@[b] == old_ranked[b - 1]);
                        }
                    }
                    assert forall|j: int|
                        0 <= j < p + 1 && selected(*query, docs[j]) implies exists|m: int|
                            0 <= m < ranked@.len() && (#[trigger] ranked@[m]).0 == j by {
                        if j == p {
                            assert(ranked@[k as int].0 == j);
                        } else {
                            let m = choose|m: int| 0 <= m < old_ranked.len() && (#[trigger] old_ranked[m]).0 == j;
                            if m < k {
                                assert(ranked@[m].0 == j);
                            } else {
                                assert(ranked@[m + 1].0 == j);
                            }
                        }
                    }
                }
            }
            p = p + 1;
        }
        let ghost rank = rank_of(ranked@);
        assert(is_ranking(docs, *query, rank)) by {
            assert forall|j: int| 0 <= j < docs.len() && selected(*query, docs[j]) implies rank.contains(j) by {
                let m = choose|m: int| 0 <= m < ranked@.len() && (#[trigger] ranked@[m]).0 == j;
                assert(rank[m] == j);
            }
            assert forall|a: int, b: int| 0 <= a < b < rank.len() implies precedes(q, docs, #[trigger] rank[a], #[trigger] rank[b]) by {
                assert(precedes(q, docs, ranked@[a].0 as int, ranked@[b].0 as int));
            }
        }
        let start: usize = match query.offset {
            Some(o) => o,
            None => 0,
        };
        let mut out: Vec<SearchResult> = Vec::new();
        if start < ranked.len() {
            let end: usize = if ranked.len() - start < query.limit {
                ranked.len()
            } else {
                start + query.limit
            };
            let mut k: usize = start;
            while k < end
                invariant
                    start <= k <= end <= ranked@.len(),
                    start == page_start(*query),
                    end - start == page_len(ranked@.len() as int, start as int, query.limit as int),
                    out@.len() == k - start,
                    forall|m: int| 0 <= m < out@.len() ==> describes(#[trigger] out@[m], docs[rank[start + m]]),
                    rank == rank_of(ranked@),
                    docs == self@,
                    forall|k: int| 0 <= k < ranked@.len() ==> (#[trigger] ranked@[k]).0 < docs.len(),
                decreases end - k,
            {
                let r = result_of(&self.docs[ranked[k].0]);
                out.push(r);
                k = k + 1;
            }
        }
        assert(is_page(docs, *query, rank, out@));
        Ok(out)
    }
}

} // verus!
