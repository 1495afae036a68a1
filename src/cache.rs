//! The index snapshot and its staleness policy.
use vstd::prelude::*;
use crate::document::{
    built_from, documents_are_well_formed, documents_well_formed, tokenize_data, Document,
    Source, Timestamp,
};

verus! {

/// A snapshot older than this is rebuilt.
pub const WEEK_IN_SECONDS: u64 = 604800;

/// More than a week has passed from `saved` to `now`. A `saved` time after
/// `now` is not stale.
pub open spec fn is_stale_at(saved: Timestamp, now: Timestamp) -> bool {
    now.total_nanos() - saved.total_nanos() > WEEK_IN_SECONDS * 1_000_000_000
}

/// Tells whether more than a week has passed from `saved` to `now`.
pub fn is_stale(saved: Timestamp, now: Timestamp) -> (r: bool)
    ensures
        r == is_stale_at(saved, now),
{
    let a: u128 = saved.secs as u128 * 1_000_000_000 + saved.nanos as u128;
    let b: u128 = now.secs as u128 * 1_000_000_000 + now.nanos as u128;
    b > a && b - a > WEEK_IN_SECONDS as u128 * 1_000_000_000
}

/// What to do with the index snapshot.
#[derive(Clone, Copy, Debug, PartialEq, Eq, Structural)]
pub enum CacheAction {
    /// There is no snapshot: index every document and save the result.
    Build,
    /// The snapshot is stale: index every document again and save the result.
    Rebuild,
    /// The snapshot is fresh: use it as it is.
    Reuse,
}

/// Why a snapshot cannot be used.
#[derive(Clone, Copy, Debug, PartialEq, Eq, Structural)]
pub enum CacheError {
    /// The snapshot holds no document, so it has no timestamp.
    EmptySnapshot,
    /// A score in the snapshot has a zero denominator.
    Malformed,
}

/// The action owed for `snapshot` (`None` when there is none) at time `now`.
pub open spec fn action_for(snapshot: Option<Seq<Document>>, now: Timestamp) -> Result<
    CacheAction,
    CacheError,
> {
    match snapshot {
        None => Ok(CacheAction::Build),
        Some(docs) => if docs.len() == 0 {
            Err(CacheError::EmptySnapshot)
        } else if !documents_well_formed(docs) {
            Err(CacheError::Malformed)
        } else if is_stale_at(docs[0].last_modified, now) {
            Ok(CacheAction::Rebuild)
        } else {
            Ok(CacheAction::Reuse)
        },
    }
}

/// Decides what to do with the snapshot, judged by its first document's
/// timestamp.
pub fn cache_action(snapshot: Option<&Vec<Document>>, now: Timestamp) -> (r: Result<
    CacheAction,
    CacheError,
>)
    ensures
        r == action_for(
            match snapshot {
                None => None,
                Some(v) => Some(v@),
            },
            now,
        ),
{
    match snapshot {
        None => Ok(CacheAction::Build),
        Some(docs) => {
            if docs.len() == 0 {
                Err(CacheError::EmptySnapshot)
            } else if !documents_are_well_formed(docs) {
                Err(CacheError::Malformed)
            } else if is_stale(docs[0].last_modified, now) {
                Ok(CacheAction::Rebuild)
            } else {
                Ok(CacheAction::Reuse)
            }
        },
    }
}

/// The index to search, and whether it has to be saved as the new snapshot.
#[derive(Clone, Debug)]
pub struct LoadedIndex {
    pub documents: Vec<Document>,
    pub save: bool,
}

/// `docs` is what indexing every source at time `now` yields, in order.
pub open spec fn is_full_build(docs: Seq<Document>, sources: Seq<Source>, now: Timestamp) -> bool {
    &&& docs.len() == sources.len()
    &&& forall|i: int|
        0 <= i < docs.len() ==> built_from(
            #[trigger] docs[i],
            sources[i].path@,
            sources[i].text@,
            now,
        )
}

/// Returns the index to search: without a snapshot, or with a stale one, every
/// source is indexed anew and the result is to be saved; a fresh snapshot is
/// returned as it is and the sources are not looked at.
pub fn load_or_build(snapshot: Option<Vec<Document>>, sources: Vec<Source>, now: Timestamp) -> (r:
    Result<LoadedIndex, CacheError>)
    ensures
        match action_for(
            match snapshot {
                None => None,
                Some(v) => Some(v@),
            },
            now,
        ) {
            Err(e) => r == Err::<LoadedIndex, CacheError>(e),
            Ok(CacheAction::Reuse) => r is Ok && r->Ok_0.documents@ == snapshot->Some_0@
                && !r->Ok_0.save,
            Ok(_) => r is Ok && is_full_build(r->Ok_0.documents@, sources@, now)
                && r->Ok_0.save,
        },
        r is Ok ==> documents_well_formed(r->Ok_0.documents@),
{
    let action = match &snapshot {
        None => cache_action(None, now),
        Some(v) => cache_action(Some(v), now),
    };
    match action {
        Err(e) => Err(e),
        Ok(CacheAction::Reuse) => {
            match snapshot {
                Some(documents) => Ok(LoadedIndex { documents, save: false }),
                None => Ok(LoadedIndex { documents: tokenize_data(sources, now), save: true }),
            }
        },
        Ok(_) => Ok(LoadedIndex { documents: tokenize_data(sources, now), save: true }),
    }
}

} // verus!
