use core::ops::Range;
use delta_search::delta::{apply_operation, reconstruct_chars, string_of};
use delta_search::text::{contains_word, count_hits, tokenize};
use delta_search::{
    reconstruct, Delta, Deltas, OpenError, Operation, ReconstructionError, SearchError, SearchQuery,
    Session, SessionFile,
};

fn ins(o: usize, t: &str, ts: u64) -> Delta {
    Delta {
        operations: vec![Operation::Insert((o, t.to_string()))],
        timestamp_ms: ts,
    }
}

fn chars(s: &str) -> Vec<char> {
    s.chars().collect()
}

fn words(s: &str) -> Vec<String> {
    tokenize(&chars(s))
        .into_iter()
        .map(|w| w.into_iter().collect())
        .collect()
}

fn query(project: &str, q: &str, start: u64, end: u64, limit: usize, offset: Option<usize>) -> SearchQuery {
    SearchQuery {
        project_id: project.to_string(),
        q: q.to_string(),
        range: Range { start, end },
        limit,
        offset,
    }
}

fn hello_world_index() -> Deltas {
    let mut idx = Deltas::at("/tmp/unused".to_string());
    let session = Session {
        id: "s1".to_string(),
        files: vec![SessionFile {
            path: "test.txt".to_string(),
            deltas: vec![ins(0, "Hello", 0), ins(5, " World", 1)],
        }],
    };
    assert!(idx.index_session(&"proj".to_string(), &session).is_empty());
    idx
}

#[test]
fn reconstruct_applies_inserts_and_deletes_in_order() {
    let deltas = vec![
        ins(0, "Hello World", 0),
        Delta {
            operations: vec![
                Operation::Delete((5, 6)),
                Operation::Insert((5, ", there".to_string())),
            ],
            timestamp_ms: 1,
        },
    ];
    assert_eq!(reconstruct(&deltas, 0).unwrap(), "Hello World");
    assert_eq!(reconstruct(&deltas, 1).unwrap(), "Hello, there");
}

#[test]
fn reconstruct_counts_characters_not_bytes() {
    let deltas = vec![ins(0, "héllo", 0), ins(2, "X", 1)];
    assert_eq!(reconstruct(&deltas, 1).unwrap(), "héXllo");
    assert_eq!(reconstruct_chars(&deltas, 1).unwrap(), chars("héXllo"));
}

#[test]
fn reconstruct_twice_gives_the_same_text() {
    let deltas = vec![ins(0, "abc", 0), ins(1, "Z", 5)];
    assert_eq!(reconstruct(&deltas, 1).unwrap(), reconstruct(&deltas, 1).unwrap());
}

#[test]
fn reconstruct_reports_the_first_failing_delta() {
    let deltas = vec![ins(0, "abc", 0), ins(9, "x", 1), ins(0, "y", 2)];
    assert_eq!(reconstruct(&deltas, 0).unwrap(), "abc");
    assert_eq!(reconstruct(&deltas, 2), Err(ReconstructionError { delta_index: 1 }));
}

#[test]
fn delete_past_the_end_fails() {
    let buf = chars("abc");
    assert!(apply_operation(&buf, &Operation::Delete((1, 3))).is_none());
    assert_eq!(apply_operation(&buf, &Operation::Delete((1, 2))).unwrap(), chars("a"));
    assert_eq!(apply_operation(&buf, &Operation::Insert((3, "d".to_string()))).unwrap(), chars("abcd"));
    assert!(apply_operation(&buf, &Operation::Insert((4, "d".to_string()))).is_none());
}

#[test]
fn string_of_keeps_every_character() {
    assert_eq!(string_of(&chars("añb")), "añb");
    assert_eq!(string_of(&Vec::new()), "");
}

#[test]
fn tokenize_splits_on_ascii_punctuation_and_folds_case() {
    assert_eq!(words("Hello, World! test.txt"), vec!["hello", "world", "test", "txt"]);
    assert_eq!(words("  Grüße__X9 "), vec!["grüße", "x9"]);
    assert!(words("").is_empty());
    assert!(words(" .,;").is_empty());
}

#[test]
fn count_hits_counts_document_words_found_in_the_query() {
    let q = tokenize(&chars("hello world"));
    assert_eq!(count_hits(&q, &tokenize(&chars("Hello World hello"))), 3);
    assert_eq!(count_hits(&q, &tokenize(&chars("goodbye"))), 0);
    assert!(contains_word(&q, &chars("world")));
    assert!(!contains_word(&q, &chars("World")));
}

#[test]
fn zero_limit_is_refused() {
    let idx = hello_world_index();
    let r = idx.search(&query("proj", "hello", 0, 10, 0, None));
    assert_eq!(r.unwrap_err(), SearchError::ZeroLimit);
}

#[test]
fn offset_pages_through_the_ranking() {
    let idx = hello_world_index();
    let page = idx.search(&query("proj", "hello world", 0, 10, 1, Some(1))).unwrap();
    assert_eq!(page.len(), 1);
    assert_eq!(page[0].index, 0);
    let first = idx.search(&query("proj", "hello world", 0, 10, 1, None)).unwrap();
    assert_eq!(first.len(), 1);
    assert_eq!(first[0].index, 1);
    assert!(idx.search(&query("proj", "hello world", 0, 10, 5, Some(2))).unwrap().is_empty());
}

#[test]
fn empty_and_reversed_ranges_match_nothing() {
    let idx = hello_world_index();
    assert!(idx.search(&query("proj", "hello", 0, 0, 10, None)).unwrap().is_empty());
    assert!(idx.search(&query("proj", "hello", 5, 1, 10, None)).unwrap().is_empty());
    assert_eq!(idx.search(&query("proj", "world", 1, 2, 10, None)).unwrap().len(), 1);
    assert!(idx.search(&query("proj", "hello", 1, 2, 10, None)).unwrap().is_empty());
}

#[test]
fn unknown_project_gives_no_results() {
    let idx = hello_world_index();
    assert!(idx.search(&query("other", "hello", 0, 10, 10, None)).unwrap().is_empty());
}

#[test]
fn a_word_absent_from_every_snapshot_matches_nothing() {
    let idx = hello_world_index();
    assert!(idx.search(&query("proj", "goodbye", 0, 10, 10, None)).unwrap().is_empty());
    assert!(idx.search(&query("proj", "", 0, 10, 10, None)).unwrap().is_empty());
}

#[test]
fn indexing_a_session_twice_adds_no_duplicates() {
    let mut idx = Deltas::at("/tmp/unused".to_string());
    let session = Session {
        id: "s1".to_string(),
        files: vec![SessionFile {
            path: "a.txt".to_string(),
            deltas: vec![ins(0, "alpha", 0), ins(5, " beta", 1)],
        }],
    };
    idx.index_session(&"p".to_string(), &session);
    let before = idx.search(&query("p", "alpha", 0, 10, 10, None)).unwrap().len();
    assert_eq!(idx.len(), 2);
    idx.index_session(&"p".to_string(), &session);
    assert_eq!(idx.len(), 2);
    assert_eq!(idx.search(&query("p", "alpha", 0, 10, 10, None)).unwrap().len(), before);
    assert_eq!(before, 1);
}

#[test]
fn other_sessions_are_kept_when_one_is_reindexed() {
    let mut idx = Deltas::at("/tmp/unused".to_string());
    let s1 = Session {
        id: "s1".to_string(),
        files: vec![SessionFile { path: "a.txt".to_string(), deltas: vec![ins(0, "one", 0)] }],
    };
    let s2 = Session {
        id: "s2".to_string(),
        files: vec![SessionFile { path: "b.txt".to_string(), deltas: vec![ins(0, "two", 0)] }],
    };
    idx.index_session(&"p".to_string(), &s1);
    idx.index_session(&"p".to_string(), &s2);
    idx.index_session(&"p".to_string(), &s1);
    assert_eq!(idx.len(), 2);
    let r = idx.search(&query("p", "two", 0, 10, 10, None)).unwrap();
    assert_eq!(r.len(), 1);
    assert_eq!(r[0].session_id, "s2");
    assert_eq!(r[0].file_path, "b.txt");
}

#[test]
fn a_file_that_cannot_be_replayed_is_skipped() {
    let mut idx = Deltas::at("/tmp/unused".to_string());
    let session = Session {
        id: "s".to_string(),
        files: vec![
            SessionFile { path: "bad.txt".to_string(), deltas: vec![ins(0, "ok", 0), ins(7, "oops", 1)] },
            SessionFile { path: "good.txt".to_string(), deltas: vec![ins(0, "fine", 0)] },
        ],
    };
    let skipped = idx.index_session(&"p".to_string(), &session);
    assert_eq!(skipped, vec!["bad.txt".to_string()]);
    assert_eq!(idx.len(), 1);
    assert!(idx.search(&query("p", "ok", 0, 10, 10, None)).unwrap().is_empty());
    assert_eq!(idx.search(&query("p", "fine", 0, 10, 10, None)).unwrap()[0].file_path, "good.txt");
}

#[test]
fn path_query_finds_one_hit_per_delta() {
    let mut idx = Deltas::at("/tmp/unused".to_string());
    let session = Session {
        id: "s".to_string(),
        files: vec![SessionFile {
            path: "notes.md".to_string(),
            deltas: vec![ins(0, "x", 0), ins(0, "y", 1), Delta { operations: vec![Operation::Delete((0, 2))], timestamp_ms: 2 }],
        }],
    };
    idx.index_session(&"p".to_string(), &session);
    let mut idxs: Vec<usize> = idx
        .search(&query("p", "notes.md", 0, 100, 10, None))
        .unwrap()
        .iter()
        .map(|r| r.index)
        .collect();
    idxs.sort();
    assert_eq!(idxs, vec![0, 1, 2]);
}

#[test]
fn a_snapshot_matches_on_the_words_its_delta_brought_in() {
    let mut idx = Deltas::at("/tmp/unused".to_string());
    let session = Session {
        id: "s".to_string(),
        files: vec![SessionFile {
            path: "f.txt".to_string(),
            deltas: vec![
                ins(0, "red", 0),
                ins(3, " green", 1),
                Delta { operations: vec![Operation::Delete((0, 4))], timestamp_ms: 2 },
                ins(0, "red ", 3),
            ],
        }],
    };
    idx.index_session(&"p".to_string(), &session);
    let mut red: Vec<usize> = idx
        .search(&query("p", "RED", 0, 10, 10, None))
        .unwrap()
        .iter()
        .map(|r| r.index)
        .collect();
    red.sort();
    assert_eq!(red, vec![0, 3]);
    let green = idx.search(&query("p", "green", 0, 10, 10, None)).unwrap();
    assert_eq!(green.len(), 1);
    assert_eq!(green[0].index, 1);
}

#[test]
fn more_query_words_rank_higher() {
    let idx = hello_world_index();
    let r = idx.search(&query("proj", "world hello", 0, 10, 10, None)).unwrap();
    assert_eq!(r.len(), 2);
    assert_eq!(r[0].index, 1);
    assert_eq!(r[1].index, 0);
}

#[test]
fn storage_path_is_kept() {
    let idx = Deltas::at("/some/where".to_string());
    assert_eq!(idx.storage_path(), "/some/where");
    assert_eq!(idx.len(), 0);
}

#[test]
fn stored_index_reopens_with_the_same_documents() {
    let idx = hello_world_index();
    let bytes = idx.to_bytes();
    let back = Deltas::from_bytes("/else/where".to_string(), &bytes).unwrap();
    assert_eq!(back.len(), 2);
    assert_eq!(back.storage_path(), "/else/where");
    assert_eq!(back.to_bytes(), bytes);
    let r = back.search(&query("proj", "hello world", 0, 10, 10, None)).unwrap();
    assert_eq!(r.len(), 2);
    assert_eq!(r[0].index, 1);
    assert_eq!(r[0].session_id, "s1");
    assert_eq!(r[0].file_path, "test.txt");
    let hello = back.search(&query("proj", "hello", 0, 10, 10, None)).unwrap();
    assert_eq!(hello.len(), 1);
    assert_eq!(hello[0].index, 0);
}

#[test]
fn empty_index_is_a_zero_count() {
    let idx = Deltas::at("x".to_string());
    assert_eq!(idx.to_bytes(), vec![0u8; 8]);
    assert_eq!(Deltas::from_bytes("x".to_string(), &vec![0u8; 8]).unwrap().len(), 0);
}

#[test]
fn stored_layout_is_little_endian_words() {
    let mut idx = Deltas::at("x".to_string());
    let session = Session {
        id: "S".to_string(),
        files: vec![SessionFile { path: "f".to_string(), deltas: vec![ins(0, "é", 7)] }],
    };
    idx.index_session(&"P".to_string(), &session);
    let b = idx.to_bytes();
    let words: Vec<u32> = b.chunks(4).map(|c| u32::from_le_bytes([c[0], c[1], c[2], c[3]])).collect();
    assert_eq!(
        words,
        vec![1, 0, 1, 0, 'P' as u32, 1, 0, 'S' as u32, 1, 0, 'f' as u32, 0, 0, 7, 0, 1, 0, 'é' as u32, 1, 0, 1, 0, 'é' as u32]
    );
}

#[test]
fn damaged_bytes_are_refused() {
    let bytes = hello_world_index().to_bytes();
    assert_eq!(Deltas::from_bytes("x".to_string(), &bytes[..bytes.len() - 1].to_vec()).err(), Some(OpenError::Corrupt));
    assert_eq!(Deltas::from_bytes("x".to_string(), &bytes[..bytes.len() - 4].to_vec()).err(), Some(OpenError::Corrupt));
    let mut longer = bytes.clone();
    longer.extend_from_slice(&[0, 0, 0, 0]);
    assert_eq!(Deltas::from_bytes("x".to_string(), &longer).err(), Some(OpenError::Corrupt));
    let mut bad_char = vec![1u8, 0, 0, 0, 0, 0, 0, 0, 1, 0, 0, 0, 0, 0, 0, 0];
    bad_char.extend_from_slice(&0xD800u32.to_le_bytes());
    assert_eq!(Deltas::from_bytes("x".to_string(), &bad_char).err(), Some(OpenError::Corrupt));
}
