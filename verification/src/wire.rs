//! The messages that nodes, coordinators and clients exchange, as plain values.
//!
//! Every double-precision field is a [`Double`], that is its bit pattern.

use vstd::prelude::*;

use crate::double::Double;

verus! {

/// One aircraft observation.
#[derive(Debug, PartialEq)]
pub struct FlightDocument {
    pub icao24: String,
    pub callsign: String,
    pub origin: String,
    pub destination: String,
    pub aircraft_type: String,
    pub tenant_id: String,
    pub altitude: Double,
    pub velocity: Double,
    pub heading: Double,
    pub vertical_rate: Double,
    pub latitude: Double,
    pub longitude: Double,
    /// Epoch milliseconds.
    pub observed_at: i64,
    pub on_ground: bool,
}

impl Clone for FlightDocument {
    fn clone(&self) -> (copy: Self)
        ensures
            copy == *self,
    {
        FlightDocument {
            icao24: self.icao24.clone(),
            callsign: self.callsign.clone(),
            origin: self.origin.clone(),
            destination: self.destination.clone(),
            aircraft_type: self.aircraft_type.clone(),
            tenant_id: self.tenant_id.clone(),
            altitude: self.altitude,
            velocity: self.velocity,
            heading: self.heading,
            vertical_rate: self.vertical_rate,
            latitude: self.latitude,
            longitude: self.longitude,
            observed_at: self.observed_at,
            on_ground: self.on_ground,
        }
    }
}

impl Default for FlightDocument {
    fn default() -> (doc: Self)
        ensures
            doc.icao24@.len() == 0,
            doc.callsign@.len() == 0,
            doc.origin@.len() == 0,
            doc.destination@.len() == 0,
            doc.aircraft_type@.len() == 0,
            doc.tenant_id@.len() == 0,
            doc.altitude.bits == 0,
            doc.velocity.bits == 0,
            doc.heading.bits == 0,
            doc.vertical_rate.bits == 0,
            doc.latitude.bits == 0,
            doc.longitude.bits == 0,
            doc.observed_at == 0,
            !doc.on_ground,
    {
        FlightDocument {
            icao24: String::new(),
            callsign: String::new(),
            origin: String::new(),
            destination: String::new(),
            aircraft_type: String::new(),
            tenant_id: String::new(),
            altitude: Double { bits: 0 },
            velocity: Double { bits: 0 },
            heading: Double { bits: 0 },
            vertical_rate: Double { bits: 0 },
            latitude: Double { bits: 0 },
            longitude: Double { bits: 0 },
            observed_at: 0,
            on_ground: false,
        }
    }
}

/// Which index produced a hit.
#[derive(Clone, Copy, Debug, PartialEq, Eq, Structural)]
pub enum IndexKind {
    Unspecified,
    Keyword,
    Vector,
}

/// Where a hit comes from, as its shard stamped it.
#[derive(Debug, PartialEq)]
pub struct Provenance {
    pub source_group: String,
    pub owning_vshard: i64,
    pub observed_at: i64,
    pub index: IndexKind,
}

impl Clone for Provenance {
    fn clone(&self) -> (copy: Self)
        ensures
            copy == *self,
    {
        Provenance {
            source_group: self.source_group.clone(),
            owning_vshard: self.owning_vshard,
            observed_at: self.observed_at,
            index: self.index,
        }
    }
}

/// One ranked result.
#[derive(Debug, PartialEq)]
pub struct SearchHit {
    pub document: Option<FlightDocument>,
    pub score: Double,
    pub provenance: Option<Provenance>,
}

impl Clone for SearchHit {
    fn clone(&self) -> (copy: Self)
        ensures
            copy == *self,
    {
        SearchHit {
            document: match &self.document {
                Some(doc) => Some(doc.clone()),
                None => None,
            },
            score: self.score,
            provenance: match &self.provenance {
                Some(p) => Some(p.clone()),
                None => None,
            },
        }
    }
}

impl SearchHit {
    /// The aircraft that the hit is about; empty for a hit without a document.
    pub open spec fn aircraft(self) -> Seq<char> {
        match self.document {
            Some(doc) => doc.icao24@,
            None => Seq::empty(),
        }
    }

    /// When the aircraft was observed; zero for a hit without a document.
    pub open spec fn observed(self) -> int {
        match self.document {
            Some(doc) => doc.observed_at as int,
            None => 0,
        }
    }

    /// The aircraft that the hit is about; empty for a hit without a document.
    pub fn icao24(&self) -> (id: String)
        ensures
            id@ == self.aircraft(),
    {
        match &self.document {
            Some(doc) => doc.icao24.clone(),
            None => String::new(),
        }
    }

    /// When the aircraft was observed; zero for a hit without a document.
    pub fn observed_at(&self) -> (at: i64)
        ensures
            at == self.observed(),
    {
        match &self.document {
            Some(doc) => doc.observed_at,
            None => 0,
        }
    }
}

/// A copy of a list of hits.
pub fn clone_hits(hits: &Vec<SearchHit>) -> (copy: Vec<SearchHit>)
    ensures
        copy@ == hits@,
{
    let mut copy: Vec<SearchHit> = Vec::new();
    let mut i: usize = 0;
    while i < hits.len()
        invariant
            i <= hits@.len(),
            copy@ == hits@.take(i as int),
        decreases hits@.len() - i,
    {
        copy.push(hits[i].clone());
        assert(copy@ =~= hits@.take(i + 1));
        i = i + 1;
    }
    assert(hits@.take(i as int) =~= hits@);
    copy
}

/// A shard or a cluster that did not answer, and why.
#[derive(Debug, PartialEq)]
pub struct OmittedShard {
    pub address: String,
    pub reason: String,
}

impl Clone for OmittedShard {
    fn clone(&self) -> (copy: Self)
        ensures
            copy == *self,
    {
        OmittedShard { address: self.address.clone(), reason: self.reason.clone() }
    }
}

/// What a merged answer covers: who was asked, who answered, what was dropped and why, and how
/// fresh the data is.
#[derive(Debug, PartialEq)]
pub struct QueryManifest {
    pub shards_queried: u32,
    pub shards_answered: u32,
    pub omitted: Vec<OmittedShard>,
    pub deduped: u32,
    pub freshest_observed_at: i64,
    pub stalest_observed_at: i64,
    pub elapsed_ms: u64,
    pub placement_version: u64,
}

/// A search answer of one shard, or of a whole cluster.
#[derive(Debug, PartialEq)]
pub struct SearchResponse {
    pub hits: Vec<SearchHit>,
    pub total_matched: u64,
    pub shard_id: String,
    pub shards_queried: u32,
    pub shards_answered: u32,
    pub manifest: Option<QueryManifest>,
}

/// One progressive update of a streamed search.
#[derive(Debug, PartialEq)]
pub struct SearchUpdate {
    pub hits: Vec<SearchHit>,
    pub total_matched: u64,
    pub shards_answered: u32,
    pub shards_queried: u32,
    pub complete: bool,
}

/// A numeric interval; a side that is absent is unbounded.
#[derive(Clone, Copy, Debug, PartialEq)]
pub struct NumericRange {
    pub min: Option<Double>,
    pub max: Option<Double>,
}

/// The test of one filter condition.
#[derive(Debug, PartialEq)]
pub enum Test {
    Equals(String),
    Range(NumericRange),
    Is(bool),
}

/// One condition of a filter.
#[derive(Debug, PartialEq)]
pub struct FilterCondition {
    pub field: String,
    pub test: Option<Test>,
}

/// A structured filter: every condition must hold.
#[derive(Debug, PartialEq)]
pub struct Filter {
    pub conditions: Vec<FilterCondition>,
}

/// What a node does for its shard.
#[derive(Clone, Copy, Debug, PartialEq, Eq, Structural)]
pub enum NodeRole {
    Unspecified,
    Leader,
    Follower,
}

impl NodeRole {
    /// The role that a wire number stands for; any unknown number is unspecified.
    pub open spec fn spec_from_wire(number: i32) -> NodeRole {
        if number == 1 {
            NodeRole::Leader
        } else if number == 2 {
            NodeRole::Follower
        } else {
            NodeRole::Unspecified
        }
    }

    /// The role that a wire number stands for; any unknown number is unspecified.
    pub fn from_wire(number: i32) -> (role: NodeRole)
        ensures
            role == NodeRole::spec_from_wire(number),
    {
        if number == 1 {
            NodeRole::Leader
        } else if number == 2 {
            NodeRole::Follower
        } else {
            NodeRole::Unspecified
        }
    }

    /// The name of the role.
    pub open spec fn spec_name(self) -> Seq<char> {
        match self {
            NodeRole::Unspecified => "Unspecified"@,
            NodeRole::Leader => "Leader"@,
            NodeRole::Follower => "Follower"@,
        }
    }

    /// The name of the role.
    pub fn name(self) -> (text: &'static str)
        ensures
            text@ == self.spec_name(),
    {
        match self {
            NodeRole::Unspecified => "Unspecified",
            NodeRole::Leader => "Leader",
            NodeRole::Follower => "Follower",
        }
    }
}

/// A node announcing itself.
#[derive(Debug, PartialEq)]
pub struct RegisterNodeRequest {
    pub node_id: String,
    pub address: String,
    pub shard_id: u32,
    /// The wire number of a [`NodeRole`].
    pub role: i32,
}

/// The answer to a registration, with the cluster size so that a node never assumes it.
#[derive(Debug, PartialEq)]
pub struct RegisterNodeResponse {
    pub accepted: bool,
    pub cluster_size: u32,
    pub message: String,
}

/// A node as the coordinator sees it.
#[derive(Debug, PartialEq)]
pub struct NodeState {
    pub node_id: String,
    pub address: String,
    pub role: NodeRole,
    pub shard_id: u32,
    pub millis_since_seen: u64,
    pub draining: bool,
}

/// A kind of aggregation.
#[derive(Clone, Copy, Debug, PartialEq, Eq, Structural)]
pub enum AggKind {
    Count,
    ValueCounts,
    TimeHistogram,
    NumericHistogram,
    GeoGrid,
    Percentiles,
}

/// The centroids of a percentile sketch: parallel means and weights.
#[derive(Debug, PartialEq)]
pub struct Digest {
    pub centroid_mean: Vec<Double>,
    pub centroid_weight: Vec<Double>,
}

/// What one shard contributes to an aggregation, or the merge of several contributions.
#[derive(Debug, PartialEq)]
pub struct AggregatePartial {
    pub kind: AggKind,
    pub count: u64,
    pub buckets: Vec<(String, u64)>,
    pub digest: Option<Digest>,
}

/// A resolved percentile.
#[derive(Clone, Copy, Debug, PartialEq, Eq, Structural)]
pub struct Percentile {
    pub p: Double,
    pub value: Double,
}

/// An aggregation over the whole cluster.
#[derive(Debug, PartialEq)]
pub struct AggregateRequest {
    pub query: String,
    pub kind: AggKind,
    pub field: String,
    pub interval: Double,
    pub percentiles: Vec<Double>,
    pub filter: Option<Filter>,
}

/// The merged answer to an aggregation.
#[derive(Debug, PartialEq)]
pub struct AggregateResponse {
    pub partial: Option<AggregatePartial>,
    pub percentiles: Vec<Percentile>,
    pub manifest: Option<QueryManifest>,
}

/// Each role has a number and a name of its own; every other number is no role.
pub proof fn law_roles_have_their_numbers(number: i32, role: NodeRole)
    ensures
        NodeRole::spec_from_wire(number) == NodeRole::Leader <==> number == 1,
        NodeRole::spec_from_wire(number) == NodeRole::Follower <==> number == 2,
        role.spec_name() == "Leader"@ <==> role == NodeRole::Leader,
        role.spec_name() == "Follower"@ <==> role == NodeRole::Follower,
        role.spec_name() == "Unspecified"@ <==> role == NodeRole::Unspecified,
{
    reveal_strlit("Leader");
    reveal_strlit("Follower");
    reveal_strlit("Unspecified");
    assert("Leader"@.len() == 6 && "Follower"@.len() == 8 && "Unspecified"@.len() == 11);
}

/// A hit is about the aircraft of its document, seen when the document says.
pub proof fn law_a_hit_is_about_its_document(hit: SearchHit)
    ensures
        hit.document matches Some(d) ==> hit.aircraft() == d.icao24@ && hit.observed()
            == d.observed_at,
        hit.document is None ==> hit.aircraft().len() == 0 && hit.observed() == 0,
{
}

} // verus!
