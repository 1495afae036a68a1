//! Indexed documents.
use vstd::prelude::*;
use crate::index::{index_data, lemma_term_scores, term_scores, Score, TermFreq};
use crate::lexing::{lower_of, split_into_words, views_of, words};

verus! {

/// A point in time: seconds and nanoseconds since the Unix epoch.
#[derive(Clone, Copy, Debug, PartialEq, Eq, Structural)]
pub struct Timestamp {
    pub secs: u64,
    pub nanos: u32,
}

impl Timestamp {
    /// The time in nanoseconds since the epoch.
    pub open spec fn total_nanos(&self) -> int {
        self.secs * 1_000_000_000 + self.nanos
    }
}

/// The term frequencies of one document, keyed by its path.
#[derive(Clone, Debug)]
pub struct PathTerms {
    pub path: String,
    pub terms: TermFreq,
}

/// A mapping from document paths to term frequencies.
#[derive(Clone, Debug)]
pub struct DocFreq {
    pub entries: Vec<PathTerms>,
}

impl DocFreq {
    /// The entries as paths paired with their term frequencies.
    pub open spec fn view_entries(&self) -> Seq<(Seq<char>, Seq<(Seq<char>, Score)>)> {
        self.entries@.map_values(|e: PathTerms| (e.path@, e.terms.view_entries()))
    }

    /// The mapping with the single entry `path` to `term_freq`.
    pub fn single(path: String, term_freq: TermFreq) -> (r: DocFreq)
        ensures
            r.entries@.len() == 1,
            r.entries@[0].path == path,
            r.entries@[0].terms == term_freq,
            r.view_entries() == seq![(path@, term_freq.view_entries())],
    {
        let mut entries: Vec<PathTerms> = Vec::new();
        entries.push(PathTerms { path, terms: term_freq });
        let r = DocFreq { entries };
        assert(r.view_entries() =~= seq![(r.entries@[0].path@, r.entries@[0].terms.view_entries())]);
        r
    }
}

/// One indexed document.
#[derive(Clone, Debug)]
pub struct Document {
    pub data: DocFreq,
    pub path: String,
    pub last_modified: Timestamp,
}

/// A document's path with the text extracted from it.
#[derive(Clone, Debug)]
pub struct Source {
    pub path: String,
    pub text: String,
}

/// `d` is the document that indexing the text `text` of the file `path` at
/// time `now` yields.
pub open spec fn built_from(d: Document, path: Seq<char>, text: Seq<char>, now: Timestamp) -> bool {
    &&& d.path@ == path
    &&& d.last_modified == now
    &&& d.data.view_entries() == seq![(path, term_scores(words(lower_of(text))))]
}

/// Every score of the term frequencies `tf` has a positive denominator.
pub open spec fn scores_well_formed(tf: Seq<(Seq<char>, Score)>) -> bool {
    forall|j: int| 0 <= j < tf.len() ==> (#[trigger] tf[j]).1.den > 0
}

/// Every score of the document has a positive denominator.
pub open spec fn document_well_formed(d: Document) -> bool {
    forall|i: int|
        0 <= i < d.data.view_entries().len() ==> scores_well_formed(
            (#[trigger] d.data.view_entries()[i]).1,
        )
}

/// Every score of every document has a positive denominator.
pub open spec fn documents_well_formed(docs: Seq<Document>) -> bool {
    forall|i: int| 0 <= i < docs.len() ==> document_well_formed(#[trigger] docs[i])
}

/// Tells whether every score of every document has a positive denominator.
pub fn documents_are_well_formed(docs: &Vec<Document>) -> (r: bool)
    ensures
        r == documents_well_formed(docs@),
{
    let mut i: usize = 0;
    while i < docs.len()
        invariant
            i <= docs@.len(),
            forall|k: int| 0 <= k < i ==> document_well_formed(#[trigger] docs@[k]),
        decreases docs@.len() - i,
    {
        let d = &docs[i];
        let mut e: usize = 0;
        while e < d.data.entries.len()
            invariant
                i < docs@.len(),
                *d == docs@[i as int],
                e <= d.data.entries@.len(),
                forall|m: int|
                    0 <= m < e ==> scores_well_formed((#[trigger] d.data.view_entries()[m]).1),
            decreases d.data.entries@.len() - e,
        {
            let tf = &d.data.entries[e].terms;
            let mut j: usize = 0;
            while j < tf.entries.len()
                invariant
                    i < docs@.len(),
                    *d == docs@[i as int],
                    e < d.data.entries@.len(),
                    j <= tf.entries@.len(),
                    tf == d.data.entries@[e as int].terms,
                    forall|m: int| 0 <= m < j ==> (#[trigger] tf.view_entries()[m]).1.den > 0,
                decreases tf.entries@.len() - j,
            {
                if tf.entries[j].score.den == 0 {
                    assert(tf.view_entries()[j as int].1.den == 0);
                    assert(d.data.view_entries()[e as int].1 == tf.view_entries());
                    assert(!document_well_formed(docs@[i as int]));
                    return false;
                }
                j = j + 1;
            }
            assert(d.data.view_entries()[e as int].1 == tf.view_entries());
            e = e + 1;
        }
        i = i + 1;
    }
    true
}

/// Indexes the text of one document: its words, their term frequencies, kept
/// under the document's own path, stamped with `now`.
pub fn build_document(path: String, text: &str, now: Timestamp) -> (d: Document)
    ensures
        built_from(d, path@, text@, now),
        document_well_formed(d),
{
    let tokens = split_into_words(text);
    let ghost ts = tokens@;
    let tf = index_data(tokens);
    proof {
        assert(views_of(ts) =~= ts.map_values(|w: String| w@));
        if views_of(ts).len() > 0 {
            lemma_term_scores(views_of(ts));
        }
        assert(scores_well_formed(tf.view_entries()));
    }
    let data = DocFreq::single(path.clone(), tf);
    Document { data, path, last_modified: now }
}

/// Indexes every source, in order, all stamped with `now`.
pub fn tokenize_data(sources: Vec<Source>, now: Timestamp) -> (r: Vec<Document>)
    ensures
        r@.len() == sources@.len(),
        forall|i: int|
            0 <= i < r@.len() ==> built_from(
                #[trigger] r@[i],
                sources@[i].path@,
                sources@[i].text@,
                now,
            ),
        documents_well_formed(r@),
{
    let mut documents: Vec<Document> = Vec::new();
    let mut i: usize = 0;
    while i < sources.len()
        invariant
            i <= sources@.len(),
            documents@.len() == i,
            forall|k: int|
                0 <= k < i ==> built_from(
                    #[trigger] documents@[k],
                    sources@[k].path@,
                    sources@[k].text@,
                    now,
                ) && document_well_formed(documents@[k]),
        decreases sources@.len() - i,
    {
        let src = &sources[i];
        let d = build_document(src.path.clone(), src.text.as_str(), now);
        documents.push(d);
        i = i + 1;
    }
    documents
}

} // verus!
