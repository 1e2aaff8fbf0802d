//! The per-city resolution state machine. For each city the caller looks up
//! the cache artifact for today's key and hands the outcome in; the decision
//! functions here say whether to serve the cached record, fetch from the
//! provider, or stop on a corrupt artifact — and, after a fetch, whether to
//! store and render the result or skip the city with a notice. All
//! filesystem and network work stays with the caller.

use vstd::prelude::*;

use crate::codec::{decode_record, enc_record, encode_record, parse_record, DecodeError};
use crate::record::ForecastRecord;

verus! {

/// What the cache lookup for a key found: the artifact's text, or nothing.
pub enum CacheLookup {
    Present(String),
    Absent,
}

/// The decision after consulting the cache for one city.
pub enum CacheDecision {
    /// A well-formed artifact was present: serve this record, do not fetch.
    UseCached(ForecastRecord),
    /// No artifact: fetch from the provider.
    Fetch,
    /// An artifact was present but malformed: fatal for this resolution,
    /// never masked by a live re-fetch.
    Corrupt(DecodeError),
}

/// What the provider call came back with.
pub enum FetchOutcome {
    Fetched(ForecastRecord),
    Failed,
}

/// The decision after a provider fetch on a cache miss.
pub enum FetchDecision {
    /// Persist this artifact text under the city's key, then render the
    /// record.
    StoreAndRender(String, ForecastRecord),
    /// Report a per-city notice and continue with the next city; the batch
    /// goes on.
    SkipWithNotice,
}

/// Decides a city's resolution from the cache lookup. The provider is to be
/// consulted exactly when no artifact is present; a present artifact is
/// served if it reads back, and is fatal if it does not.
pub fn consult_cache(lookup: CacheLookup) -> (r: CacheDecision)
    ensures
        match lookup {
            CacheLookup::Present(text) => match parse_record(text@) {
                Some(rv) => r matches CacheDecision::UseCached(rec) && rec@ == rv && rec@.wf()
                    && text@ == enc_record(rec@),
                None => r matches CacheDecision::Corrupt(e),
            },
            CacheLookup::Absent => r is Fetch,
        },
        r is Fetch <==> lookup is Absent,
{
    match lookup {
        CacheLookup::Present(text) => match decode_record(text.as_str()) {
            Ok(rec) => CacheDecision::UseCached(rec),
            Err(e) => CacheDecision::Corrupt(e),
        },
        CacheLookup::Absent => CacheDecision::Fetch,
    }
}

/// Decides what to do with a provider outcome on a cache miss: a fetched
/// record that the codec can hold is serialized for storing and rendered;
/// a failure, or a response the codec cannot hold, skips the city with a
/// notice and the batch continues.
pub fn after_fetch(outcome: FetchOutcome) -> (r: FetchDecision)
    ensures
        match outcome {
            FetchOutcome::Fetched(rec) => {
                if rec@.wf() {
                    r matches FetchDecision::StoreAndRender(a, rr) && a@ == enc_record(rec@) && rr
                        == rec
                } else {
                    r is SkipWithNotice
                }
            },
            FetchOutcome::Failed => r is SkipWithNotice,
        },
{
    match outcome {
        FetchOutcome::Fetched(rec) => {
            if rec.is_wf() {
                let artifact = encode_record(&rec);
                FetchDecision::StoreAndRender(artifact, rec)
            } else {
                FetchDecision::SkipWithNotice
            }
        },
        FetchOutcome::Failed => FetchDecision::SkipWithNotice,
    }
}

/// A stored artifact is always served back: what `after_fetch` asks the
/// caller to persist for a record is read back by `consult_cache` as that
/// same record on the next run.
pub proof fn lemma_stored_artifact_is_served(rec: ForecastRecord)
    requires
        rec@.wf(),
    ensures
        parse_record(enc_record(rec@)) == Some(rec@),
{
    crate::codec::lemma_encode_parse_round_trip(rec@);
}

} // verus!
