use vstd::prelude::*;

use crate::index::DocumentView;
use crate::text::{hits, relevance, tokens};
use core::ops::Range;

verus! {

/// One read request: a free-text query scoped to a project and to the
/// timestamps `range.start <= t < range.end`, paginated by `offset` and `limit`.
pub struct SearchQuery {
    pub project_id: String,
    pub q: String,
    pub range: Range<u64>,
    pub limit: usize,
    pub offset: Option<usize>,
}

/// One hit: the identity of the matching document.
#[derive(Debug)]
pub struct SearchResult {
    pub project_id: String,
    pub session_id: String,
    pub file_path: String,
    pub index: usize,
}

/// Why a query was refused before it ran.
#[derive(Debug, PartialEq, Eq, Structural)]
pub enum SearchError {
    /// A page of no results would make no progress.
    ZeroLimit,
}

/// Relevance of the document to the query text.
pub open spec fn score(q: Seq<char>, d: DocumentView) -> nat {
    relevance(q, d.file_path, d.content)
}

/// Whether one of the query's words is a word of the document's path or a word
/// that its delta brought in.
pub open spec fn matched(q: Seq<char>, d: DocumentView) -> bool {
    hits(tokens(q), tokens(d.file_path) + d.added) > 0
}

/// Whether the document answers the query: same project, timestamp in range,
/// and matched by the query's words.
pub open spec fn selected(query: SearchQuery, d: DocumentView) -> bool {
    &&& d.project_id == query.project_id@
    &&& query.range.start <= d.timestamp_ms
    &&& d.timestamp_ms < query.range.end
    &&& matched(query.q@, d)
}

/// Document `a` ranks before document `b`: it scores higher, or as high and was indexed earlier.
pub open spec fn precedes(q: Seq<char>, docs: Seq<DocumentView>, a: int, b: int) -> bool {
    score(q, docs[a]) > score(q, docs[b]) || (score(q, docs[a]) == score(q, docs[b]) && a < b)
}

/// `rank` lists the positions of exactly the selected documents, best first.
pub open spec fn is_ranking(docs: Seq<DocumentView>, query: SearchQuery, rank: Seq<int>) -> bool {
    &&& forall|k: int|
        0 <= k < rank.len() ==> 0 <= #[trigger] rank[k] < docs.len() && selected(query, docs[rank[k]])
    &&& forall|p: int| 0 <= p < docs.len() && selected(query, docs[p]) ==> rank.contains(p)
    &&& forall|a: int, b: int|
        0 <= a < b < rank.len() ==> precedes(query.q@, docs, #[trigger] rank[a], #[trigger] rank[b])
}

/// Where the page starts: the offset, or the first hit.
pub open spec fn page_start(query: SearchQuery) -> int {
    match query.offset {
        Some(o) => o as int,
        None => 0,
    }
}

/// How many hits a page holds out of `n`.
pub open spec fn page_len(n: int, start: int, limit: int) -> int {
    if start >= n {
        0
    } else if n - start < limit {
        n - start
    } else {
        limit
    }
}

/// The result names the document.
pub open spec fn describes(r: SearchResult, d: DocumentView) -> bool {
    &&& r.project_id@ == d.project_id
    &&& r.session_id@ == d.session_id
    &&& r.file_path@ == d.file_path
    &&& r.index as nat == d.index
}

/// `res` is the page of the ranking that the query asks for.
pub open spec fn is_page(docs: Seq<DocumentView>, query: SearchQuery, rank: Seq<int>, res: Seq<SearchResult>) -> bool {
    &&& res.len() == page_len(rank.len() as int, page_start(query), query.limit as int)
    &&& forall|k: int|
        0 <= k < res.len() ==> describes(#[trigger] res[k], docs[rank[page_start(query) + k]])
}

} // verus!
