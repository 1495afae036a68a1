use pdf_search::document::{build_document, DocFreq, Document, Timestamp};
use pdf_search::index::{Score, TermFreq, TermScore};
use pdf_search::query::{search_query, Idf, Ratio};

fn at(secs: u64) -> Timestamp {
    Timestamp { secs, nanos: 0 }
}

fn doc(path: &str, terms: &[(&str, u64, u64)]) -> Document {
    let entries = terms
        .iter()
        .map(|(t, n, d)| TermScore { term: t.to_string(), score: Score { num: *n, den: *d } })
        .collect();
    Document {
        data: DocFreq::single(path.to_string(), TermFreq { entries }),
        path: path.to_string(),
        last_modified: at(0),
    }
}

fn value(r: &Idf) -> f64 {
    r.tf.num as f64 / r.tf.den as f64
}

#[test]
fn two_documents_scenario() {
    let docs = vec![
        build_document("one.pdf".to_string(), "apple banana apple", at(0)),
        build_document("two.pdf".to_string(), "banana banana", at(0)),
    ];
    let r = search_query(&docs, &"apple".to_string());
    assert_eq!(r.len(), 2);
    assert_eq!(r[0].path, "one.pdf");
    assert_eq!(value(&r[0]), 1.0);
    assert_eq!(r[1].path, "two.pdf");
    assert_eq!(value(&r[1]), 0.0);
    let lines: Vec<String> =
        r.iter().enumerate().map(|(i, e)| format!("{}: {}, {}", i + 1, e.path, value(e))).collect();
    assert_eq!(lines, vec!["1: one.pdf, 1".to_string(), "2: two.pdf, 0".to_string()]);
}

#[test]
fn no_match_scores_zero_in_document_order() {
    let docs = vec![doc("c", &[("x", 1, 1)]), doc("a", &[("y", 3, 2)]), doc("b", &[])];
    let r = search_query(&docs, &"zzz".to_string());
    let paths: Vec<&str> = r.iter().map(|e| e.path.as_str()).collect();
    assert_eq!(paths, vec!["c", "a", "b"]);
    for e in &r {
        assert_eq!(e.tf, Ratio { num: 0, den: 1 });
    }
}

#[test]
fn later_document_is_divided_by_the_first() {
    // s_A = 4/3, s_B = 3/2: B reports (3/2) / (4/3) = 9/8.
    let docs = vec![doc("A", &[("q", 4, 3)]), doc("B", &[("q", 3, 2)])];
    let r = search_query(&docs, &"q".to_string());
    assert_eq!(r.len(), 2);
    assert_eq!(r[0].path, "B");
    assert_eq!(r[0].tf, Ratio { num: 9, den: 8 });
    assert_eq!(r[1].path, "A");
    assert_eq!(r[1].tf, Ratio { num: 12, den: 12 });
}

#[test]
fn first_document_without_the_term_zeroes_everything() {
    let docs = vec![doc("A", &[("other", 1, 1)]), doc("B", &[("q", 3, 2)])];
    let r = search_query(&docs, &"q".to_string());
    assert_eq!(r[0].path, "A");
    assert_eq!(r[1].path, "B");
    assert_eq!(value(&r[0]), 0.0);
    assert_eq!(value(&r[1]), 0.0);
}

#[test]
fn ranking_is_descending_and_stable() {
    let docs = vec![
        doc("a", &[("q", 2, 2)]),
        doc("b", &[("q", 3, 2)]),
        doc("c", &[("q", 1, 1)]),
        doc("d", &[("q", 0, 1)]),
        doc("e", &[("q", 6, 4)]),
    ];
    let r = search_query(&docs, &"q".to_string());
    let paths: Vec<&str> = r.iter().map(|e| e.path.as_str()).collect();
    assert_eq!(paths, vec!["b", "e", "a", "c", "d"]);
    assert_eq!(value(&r[0]), 1.5);
    assert_eq!(value(&r[1]), 1.5);
    assert_eq!(value(&r[2]), 1.0);
    assert_eq!(value(&r[4]), 0.0);
}

#[test]
fn repeated_path_keeps_its_first_score() {
    let docs = vec![doc("a", &[("q", 1, 1)]), doc("b", &[("q", 2, 1)]), doc("a", &[("q", 9, 1)])];
    let r = search_query(&docs, &"q".to_string());
    assert_eq!(r.len(), 2);
    assert_eq!(r[0].path, "b");
    assert_eq!(value(&r[0]), 2.0);
    assert_eq!(r[1].path, "a");
    assert_eq!(value(&r[1]), 1.0);
}

#[test]
fn no_documents_no_results() {
    assert!(search_query(&Vec::new(), &"q".to_string()).is_empty());
}

#[test]
fn query_is_matched_exactly() {
    let docs = vec![doc("a", &[("Apple", 5, 1), ("apple", 2, 1)]), doc("b", &[("apple", 1, 1)])];
    let r = search_query(&docs, &"apple".to_string());
    assert_eq!(r[0].path, "a");
    assert_eq!(value(&r[0]), 1.0);
    assert_eq!(r[1].path, "b");
    assert_eq!(value(&r[1]), 0.5);
}

#[test]
fn results_are_equal_by_path_alone() {
    let a = Idf { path: "p".to_string(), tf: Ratio { num: 1, den: 1 } };
    let b = Idf { path: "p".to_string(), tf: Ratio { num: 7, den: 2 } };
    let c = Idf { path: "q".to_string(), tf: Ratio { num: 1, den: 1 } };
    assert!(a == b);
    assert!(a != c);
}
