use oxidex::DocMetaData;
use oxidex::DocumentEntry;
use oxidex::Oxidex;
use oxidex::OxidexError;
use oxidex::SearchResult;

fn meta() -> DocMetaData {
    DocMetaData::new(7, 9, 0o644, false)
}

fn add(ix: &mut Oxidex, path: &str, content: &str) {
    let r = ix.add_document(path.to_string(), Ok(content.as_bytes().to_vec()), Ok(meta()));
    assert!(r.is_ok());
}

/// The score the engine ranks by, computed from the exact quantities a
/// search result carries.
fn score(h: &SearchResult) -> f32 {
    (h.term_freq as f32) * ((h.corpus_size as f32) / (h.doc_freq as f32 + 1.0)).log10()
        / (h.token_count as f32).sqrt()
}

#[test]
fn metadata_and_entry_fields() {
    let m = DocMetaData::new(1, 2, 3, true);
    assert_eq!(m.create_time, 1);
    assert_eq!(m.modified_time, 2);
    assert_eq!(m.permissions, 3);
    assert!(m.is_dir);
    let e = DocumentEntry::new(4, "a.txt".to_string(), m, 5);
    assert_eq!(e.id, 4);
    assert_eq!(e.path, "a.txt");
    assert_eq!(e.metadata.create_time, 1);
    assert_eq!(e.token_count, 5);
}

#[test]
fn ids_are_dense_and_never_reused() {
    let mut ix = Oxidex::new();
    add(&mut ix, "a.txt", "one");
    add(&mut ix, "b.txt", "two");
    assert_eq!(ix.get_doc(0).unwrap().id, 0);
    assert_eq!(ix.get_doc(1).unwrap().id, 1);
    assert!(ix.remove_id(0));
    add(&mut ix, "c.txt", "three");
    // The removed id is consumed, not freed: the next document gets 2.
    assert!(ix.get_doc(0).is_none());
    assert_eq!(ix.get_doc(2).unwrap().id, 2);
    assert_eq!(ix.get_doc(2).unwrap().path, "c.txt");
}

#[test]
fn remove_clears_document_and_postings() {
    let mut ix = Oxidex::new();
    add(&mut ix, "a.txt", "cat dog dog");
    add(&mut ix, "b.txt", "dog dog");
    assert!(ix.remove_id(0));
    assert!(ix.get_doc(0).is_none());
    assert!(ix.search("cat".to_string()).is_empty());
    let dogs = ix.search("dog".to_string());
    assert_eq!(dogs.len(), 1);
    assert_eq!(dogs[0].doc_id, 1);
}

#[test]
fn remove_unknown_id_is_a_noop() {
    let mut ix = Oxidex::new();
    add(&mut ix, "a.txt", "cat");
    assert!(!ix.remove_id(5));
    assert!(ix.remove_id(0));
    assert!(!ix.remove_id(0));
    assert!(ix.get_doc(0).is_none());
    assert!(!ix.remove_id(1));
}

#[test]
fn search_unknown_term_returns_empty() {
    let mut ix = Oxidex::new();
    add(&mut ix, "a.txt", "cat dog dog");
    assert!(ix.search("fish".to_string()).is_empty());
    assert!(Oxidex::new().search("cat".to_string()).is_empty());
}

#[test]
fn equal_scores_break_ties_by_ascending_id() {
    let mut ix = Oxidex::new();
    add(&mut ix, "a.txt", "cat");
    add(&mut ix, "b.txt", "cat");
    let r = ix.search("cat".to_string());
    assert_eq!(r.len(), 2);
    assert_eq!(r[0].doc_id, 0);
    assert_eq!(r[1].doc_id, 1);
    assert_eq!(score(&r[0]), score(&r[1]));
}

#[test]
fn scored_search_ranks_both_documents() {
    let mut ix = Oxidex::new();
    add(&mut ix, "a.txt", "cat dog dog");
    add(&mut ix, "b.txt", "dog dog");
    let r = ix.search("dog".to_string());
    assert_eq!(r.len(), 2);
    // Both documents have two "dog" occurrences; df = 2, corpus = 2.
    assert_eq!(r[0].term_freq, 2);
    assert_eq!(r[1].term_freq, 2);
    assert_eq!(r[0].doc_freq, 2);
    assert_eq!(r[0].corpus_size, 2);
    // IDF = log10(2/3) < 0; A is longer, so its score is less negative
    // and A ranks first.
    assert_eq!(r[0].doc_id, 0);
    assert_eq!(r[1].doc_id, 1);
    let s_a = score(&r[0]);
    let s_b = score(&r[1]);
    assert!((s_a - (-0.203)).abs() < 1e-3, "score A was {s_a}");
    assert!((s_b - (-0.249)).abs() < 1e-3, "score B was {s_b}");
    assert!(s_a > s_b);
}

#[test]
fn search_cat_matches_only_first_document() {
    let mut ix = Oxidex::new();
    add(&mut ix, "a.txt", "cat dog dog");
    add(&mut ix, "b.txt", "dog dog");
    let r = ix.search("cat".to_string());
    assert_eq!(r.len(), 1);
    assert_eq!(r[0].doc_id, 0);
    assert_eq!(r[0].term_freq, 1);
    assert_eq!(r[0].doc_freq, 1);
}

#[test]
fn removal_recomputes_scores() {
    let mut ix = Oxidex::new();
    add(&mut ix, "a.txt", "cat dog dog");
    add(&mut ix, "b.txt", "dog dog");
    assert!(ix.remove_id(0));
    assert!(ix.search("cat".to_string()).is_empty());
    let r = ix.search("dog".to_string());
    assert_eq!(r.len(), 1);
    assert_eq!(r[0].doc_id, 1);
    assert_eq!(r[0].corpus_size, 1);
    assert_eq!(r[0].doc_freq, 1);
    let s = score(&r[0]);
    assert!((s - (-0.426)).abs() < 1e-3, "score was {s}");
}

#[test]
fn term_and_document_frequency() {
    let mut ix = Oxidex::new();
    add(&mut ix, "a.txt", "cat dog dog");
    add(&mut ix, "b.txt", "dog dog");
    assert_eq!(ix.term_frequency(&"dog".to_string(), 0), 2);
    assert_eq!(ix.term_frequency(&"dog".to_string(), 1), 2);
    assert_eq!(ix.term_frequency(&"cat".to_string(), 1), 0);
    assert_eq!(ix.term_frequency(&"fish".to_string(), 0), 0);
    assert_eq!(ix.document_frequency(&"dog".to_string()), 2);
    assert_eq!(ix.document_frequency(&"cat".to_string()), 1);
    assert_eq!(ix.document_frequency(&"fish".to_string()), 0);
}

#[test]
fn failed_content_read_mutates_nothing() {
    let mut ix = Oxidex::new();
    let r = ix.add_document("a.txt".to_string(), Err("read failure".to_string()), Ok(meta()));
    match r {
        Err(OxidexError::AddDocumentError(msg)) => assert_eq!(msg, "read failure"),
        Ok(()) => panic!("expected an error"),
    }
    assert!(ix.get_doc(0).is_none());
    add(&mut ix, "b.txt", "cat");
    // The failed call consumed no id.
    assert_eq!(ix.get_doc(0).unwrap().id, 0);
}

#[test]
fn failed_metadata_capture_leaves_no_stray_postings() {
    let mut ix = Oxidex::new();
    let r = ix.add_document(
        "a.txt".to_string(),
        Ok(b"cat dog".to_vec()),
        Err("stat failure".to_string()),
    );
    match r {
        Err(OxidexError::AddDocumentError(msg)) => assert_eq!(msg, "stat failure"),
        Ok(()) => panic!("expected an error"),
    }
    // Registration is atomic: the tokenized content left no index deltas.
    assert!(ix.search("cat".to_string()).is_empty());
    assert!(ix.search("dog".to_string()).is_empty());
    assert!(ix.get_doc(0).is_none());
}

#[test]
fn token_count_counts_all_tokens() {
    let mut ix = Oxidex::new();
    add(&mut ix, "a.txt", "cat dog dog");
    assert_eq!(ix.get_doc(0).unwrap().token_count, 3);
    add(&mut ix, "b.txt", "");
    assert_eq!(ix.get_doc(1).unwrap().token_count, 0);
}

#[test]
fn default_is_empty() {
    let ix = Oxidex::default();
    assert!(ix.get_doc(0).is_none());
    assert!(ix.search("cat".to_string()).is_empty());
}
