//! Cross-cluster federation: one query over several independent clusters, each treated as if it
//! were a shard. Clusters keep their own clocks, so the freshness across them is advisory.

use vstd::prelude::*;

use crate::fanout::{
    accounts_for, all_hits, answers_of, freshest, is_page, merge_fanout, named, omissions_of,
    scatter_gather, total_of, Attempt,
};
use crate::settings::{configured, number_or};
use crate::text::owned;
use crate::wire::SearchResponse;

verus! {

/// The per-cluster deadline in milliseconds, as configured; three seconds unless a number is
/// given.
pub fn cluster_timeout(setting: Option<&str>) -> (ms: u64)
    ensures
        ms == configured(setting, u64::MAX, 3000),
{
    number_or(setting, u64::MAX, 3000)
}

/// Merge what the clusters answered, as shards are merged: the freshest observation of an aircraft
/// that several clusters report, ranked and cut to `limit`. The manifest speaks of clusters: how
/// many were asked and answered, and which did not answer and why. Placement versions do not
/// compare across clusters, so none is reported.
pub fn federate_search(
    attempts: Vec<(String, Attempt<SearchResponse>)>,
    limit: usize,
    clusters_queried: u32,
    elapsed_ms: u64,
) -> (merged: SearchResponse)
    requires
        total_of(answers_of(attempts@)) <= u64::MAX,
    ensures
        is_page(merged.hits@, freshest(all_hits(answers_of(attempts@))), limit as int),
        merged.total_matched == total_of(answers_of(attempts@)),
        merged.shard_id@ == "federation"@,
        merged.shards_queried == clusters_queried,
        merged.shards_answered == answers_of(attempts@).len() as u32,
        merged.manifest matches Some(m) && named(m.omitted@) == omissions_of(attempts@)
            && accounts_for(
            m,
            merged.hits@,
            answers_of(attempts@),
            clusters_queried,
            0,
            elapsed_ms,
        ),
{
    let fanout = scatter_gather(attempts);
    let merged = merge_fanout(fanout, limit, clusters_queried, 0, elapsed_ms);
    SearchResponse { shard_id: owned("federation"), ..merged }
}

} // verus!
