use pdf_search::cache::{cache_action, is_stale, load_or_build, CacheAction, CacheError, WEEK_IN_SECONDS};
use pdf_search::document::{build_document, tokenize_data, documents_are_well_formed, DocFreq, Document, Source, Timestamp};
use pdf_search::index::{Score, TermFreq, TermScore};

fn at(secs: u64) -> Timestamp {
    Timestamp { secs, nanos: 0 }
}

fn source(path: &str, text: &str) -> Source {
    Source { path: path.to_string(), text: text.to_string() }
}

fn doc_with_score(path: &str, score: Score, when: Timestamp) -> Document {
    let tf = TermFreq { entries: vec![TermScore { term: "t".to_string(), score }] };
    Document { data: DocFreq::single(path.to_string(), tf), path: path.to_string(), last_modified: when }
}

#[test]
fn doc_freq_single_has_one_entry() {
    let tf = TermFreq { entries: vec![TermScore { term: "a".to_string(), score: Score { num: 1, den: 1 } }] };
    let d = DocFreq::single("p.pdf".to_string(), tf);
    assert_eq!(d.entries.len(), 1);
    assert_eq!(d.entries[0].path, "p.pdf");
    assert_eq!(d.entries[0].terms.entries[0].term, "a");
}

#[test]
fn build_document_indexes_under_its_own_path() {
    let d = build_document("one.pdf".to_string(), "apple banana apple", at(7));
    assert_eq!(d.path, "one.pdf");
    assert_eq!(d.last_modified, at(7));
    assert_eq!(d.data.entries.len(), 1);
    assert_eq!(d.data.entries[0].path, "one.pdf");
    let tf = &d.data.entries[0].terms.entries;
    assert_eq!(tf.len(), 2);
    assert_eq!(tf[0].term, "apple");
    assert_eq!(tf[0].score, Score { num: 4, den: 3 });
    assert_eq!(tf[1].term, "banana");
    assert_eq!(tf[1].score, Score { num: 3, den: 3 });
}

#[test]
fn tokenize_data_builds_one_document_per_source() {
    let docs = tokenize_data(vec![source("a.pdf", "x"), source("b.pdf", ""), source("c.pdf", "y y")], at(1));
    assert_eq!(docs.len(), 3);
    assert_eq!(docs[0].path, "a.pdf");
    assert_eq!(docs[1].path, "b.pdf");
    assert!(docs[1].data.entries[0].terms.entries.is_empty());
    assert_eq!(docs[2].data.entries[0].terms.entries[0].score, Score { num: 3, den: 2 });
    assert!(documents_are_well_formed(&docs));
}

#[test]
fn staleness_is_strictly_more_than_a_week() {
    assert_eq!(WEEK_IN_SECONDS, 604800);
    assert!(!is_stale(at(100), at(100 + 604800)));
    assert!(is_stale(at(100), Timestamp { secs: 100 + 604800, nanos: 1 }));
    assert!(is_stale(at(0), at(604801)));
    assert!(!is_stale(at(1000), at(10)));
    assert!(!is_stale(Timestamp { secs: 5, nanos: 999_999_999 }, at(5 + 604800)));
}

#[test]
fn cache_action_for_each_state() {
    let now = at(2_000_000);
    assert_eq!(cache_action(None, now), Ok(CacheAction::Build));
    let empty: Vec<Document> = Vec::new();
    assert_eq!(cache_action(Some(&empty), now), Err(CacheError::EmptySnapshot));
    let fresh = vec![doc_with_score("a", Score { num: 1, den: 1 }, at(2_000_000 - 10))];
    assert_eq!(cache_action(Some(&fresh), now), Ok(CacheAction::Reuse));
    let stale = vec![doc_with_score("a", Score { num: 1, den: 1 }, at(1))];
    assert_eq!(cache_action(Some(&stale), now), Ok(CacheAction::Rebuild));
    let bad = vec![doc_with_score("a", Score { num: 1, den: 0 }, at(2_000_000))];
    assert!(!documents_are_well_formed(&bad));
    assert_eq!(cache_action(Some(&bad), now), Err(CacheError::Malformed));
}

#[test]
fn load_or_build_without_snapshot_builds_and_saves() {
    let r = load_or_build(None, vec![source("a.pdf", "x y"), source("b.pdf", "z")], at(9)).unwrap();
    assert!(r.save);
    assert_eq!(r.documents.len(), 2);
    assert_eq!(r.documents[0].path, "a.pdf");
    assert_eq!(r.documents[1].path, "b.pdf");
    assert_eq!(r.documents[1].last_modified, at(9));
}

#[test]
fn load_or_build_with_stale_snapshot_rebuilds() {
    let old = vec![doc_with_score("gone.pdf", Score { num: 1, den: 1 }, at(0))];
    let r = load_or_build(Some(old), vec![source("new.pdf", "w")], at(604801)).unwrap();
    assert!(r.save);
    assert_eq!(r.documents.len(), 1);
    assert_eq!(r.documents[0].path, "new.pdf");
    assert_eq!(r.documents[0].last_modified, at(604801));
}

#[test]
fn load_or_build_with_fresh_snapshot_keeps_it() {
    let snap = vec![
        doc_with_score("kept.pdf", Score { num: 5, den: 4 }, at(100)),
        doc_with_score("also.pdf", Score { num: 1, den: 1 }, at(50)),
    ];
    let r = load_or_build(Some(snap), vec![source("other.pdf", "q")], at(200)).unwrap();
    assert!(!r.save);
    assert_eq!(r.documents.len(), 2);
    assert_eq!(r.documents[0].path, "kept.pdf");
    assert_eq!(r.documents[0].data.entries[0].terms.entries[0].score, Score { num: 5, den: 4 });
    assert_eq!(r.documents[1].path, "also.pdf");
}

#[test]
fn load_or_build_rejects_empty_snapshot() {
    let r = load_or_build(Some(Vec::new()), vec![source("a.pdf", "x")], at(1));
    assert!(matches!(r, Err(CacheError::EmptySnapshot)));
}
