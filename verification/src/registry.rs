//! The coordinator's live view of cluster topology: which node leads each shard and which nodes
//! follow, built up from registrations, heartbeats and raft-leader reports; and the operator
//! intent that it carries (the virtual-shard table and the drain set).

use vstd::hash_map::StringHashMap;
use vstd::prelude::*;
use vstd::string::*;

use crate::ranking::lemma_filter_members;
use crate::text::{decimal, decimal_of, lemma_texts_push, owned, same, texts};
use crate::wire::{NodeRole, NodeState, RegisterNodeRequest, RegisterNodeResponse};

verus! {

/// A registered node's connection info.
#[derive(Debug, PartialEq)]
pub struct NodeInfo {
    pub node_id: String,
    pub address: String,
    pub role: NodeRole,
}

impl Clone for NodeInfo {
    fn clone(&self) -> (copy: Self)
        ensures
            copy == *self,
    {
        NodeInfo { node_id: self.node_id.clone(), address: self.address.clone(), role: self.role }
    }
}

/// A node with the shard it serves.
#[derive(Debug, PartialEq)]
pub struct Member {
    pub shard_id: u32,
    pub node: NodeInfo,
}

/// The shard map. One leader per shard (the last registration wins, which also models a follower
/// that was promoted and registers again), plus followers; the virtual-shard table; the drain set.
pub struct Registry {
    shard_count: u32,
    leaders: Vec<Member>,
    followers: Vec<Member>,
    seen: StringHashMap<u64>,
    vshards: Vec<u32>,
    draining: Vec<String>,
    placement_version: u64,
}

/// Where a shard's leader stands in a list, if it has one.
pub open spec fn leads(leaders: Seq<Member>, shard_id: u32, at: int) -> bool {
    0 <= at < leaders.len() && leaders[at].shard_id == shard_id
}

/// Whether a shard has a leader.
pub open spec fn has_leader(leaders: Seq<Member>, shard_id: u32) -> bool {
    exists|at: int| leads(leaders, shard_id, at)
}

/// The leaders after `member` takes over its shard: it replaces the shard's leader where it
/// stands, or joins the list.
pub open spec fn with_leader(leaders: Seq<Member>, member: Member) -> Seq<Member> {
    if has_leader(leaders, member.shard_id) {
        let at = choose|at: int| leads(leaders, member.shard_id, at);
        leaders.update(at, member)
    } else {
        leaders.push(member)
    }
}

/// Whether no shard has two leaders and every shard is in range.
pub open spec fn one_leader_per_shard(leaders: Seq<Member>, shard_count: u32) -> bool {
    &&& forall|i: int| 0 <= i < leaders.len() ==> (#[trigger] leaders[i]).shard_id < shard_count
    &&& forall|i: int, j: int|
        #![trigger leaders[i], leaders[j]]
        0 <= i < leaders.len() && 0 <= j < leaders.len() && leaders[i].shard_id
            == leaders[j].shard_id ==> i == j
}

/// Whether every shard of the cluster has a leader.
pub open spec fn fully_led(leaders: Seq<Member>, shard_count: u32) -> bool {
    forall|shard: u32| shard < shard_count ==> #[trigger] has_leader(leaders, shard)
}

/// The addresses of the members, in order.
pub open spec fn addresses_of(members: Seq<Member>) -> Seq<Seq<char>> {
    members.map_values(|m: Member| m.node.address@)
}

/// The members of one shard, in order.
pub open spec fn members_in(members: Seq<Member>, shard_id: u32) -> Seq<Member> {
    members.filter(|m: Member| m.shard_id == shard_id)
}

proof fn lemma_leader_slot(leaders: Seq<Member>, shard_count: u32, member: Member, at: int)
    requires
        one_leader_per_shard(leaders, shard_count),
        leads(leaders, member.shard_id, at),
    ensures
        with_leader(leaders, member) == leaders.update(at, member),
{
    let chosen = choose|at: int| leads(leaders, member.shard_id, at);
    assert(leads(leaders, member.shard_id, chosen));
    assert(leaders[chosen].shard_id == leaders[at].shard_id);
}

/// The shards that have a leader.
spec fn led_shards(leaders: Seq<Member>) -> Seq<u32> {
    leaders.map_values(|m: Member| m.shard_id)
}

/// There are as many leaders as shards exactly when every shard has one.
pub proof fn law_full_staffing(leaders: Seq<Member>, shard_count: u32)
    requires
        one_leader_per_shard(leaders, shard_count),
    ensures
        leaders.len() <= shard_count,
        leaders.len() == shard_count <==> fully_led(leaders, shard_count),
{
    let led = led_shards(leaders);
    assert(led.no_duplicates()) by {
        assert forall|i: int, j: int|
            0 <= i < led.len() && 0 <= j < led.len() && i != j implies led[i] != led[j] by {
            assert(leaders[i].shard_id == led[i] && leaders[j].shard_id == led[j]);
        }
    }
    led.unique_seq_to_set();
    let all = Set::new(|shard: u32| shard < shard_count);
    lemma_range_size(shard_count);
    assert forall|shard: u32| led.to_set().contains(shard) implies all.contains(shard) by {
        let i = choose|i: int| 0 <= i < led.len() && led[i] == shard;
        assert(leaders[i].shard_id == shard);
    }
    vstd::set_lib::lemma_len_subset(led.to_set(), all);
    if leaders.len() == shard_count {
        vstd::set_lib::lemma_subset_equality(led.to_set(), all);
        assert forall|shard: u32| shard < shard_count implies #[trigger] has_leader(
            leaders,
            shard,
        ) by {
            assert(all.contains(shard));
            assert(led.to_set().contains(shard));
            let i = choose|i: int| 0 <= i < led.len() && led[i] == shard;
            assert(leads(leaders, shard, i));
        }
    }
    if fully_led(leaders, shard_count) {
        assert forall|shard: u32| all.contains(shard) implies led.to_set().contains(shard) by {
            assert(has_leader(leaders, shard));
            let at = choose|at: int| leads(leaders, shard, at);
            assert(led[at] == shard);
        }
        assert(led.to_set() =~= all);
    }
}

proof fn lemma_range_size(n: u32)
    ensures
        Set::new(|shard: u32| shard < n).finite(),
        Set::new(|shard: u32| shard < n).len() == n,
    decreases n,
{
    let all = Set::new(|shard: u32| shard < n);
    if n == 0 {
        assert(all =~= Set::<u32>::empty());
    } else {
        let m = (n - 1) as u32;
        lemma_range_size(m);
        assert(all =~= Set::new(|shard: u32| shard < m).insert(m));
    }
}

impl Registry {
    /// The number of shards of the cluster.
    pub closed spec fn spec_shard_count(self) -> u32 {
        self.shard_count
    }

    /// The shard leaders.
    pub closed spec fn leaders(self) -> Seq<Member> {
        self.leaders@
    }

    /// The followers, in registration order.
    pub closed spec fn followers(self) -> Seq<Member> {
        self.followers@
    }

    /// When each node was last heard from, in milliseconds.
    pub closed spec fn seen(self) -> Map<Seq<char>, u64> {
        self.seen@
    }

    /// The group that owns each virtual shard.
    pub closed spec fn vshards(self) -> Seq<u32> {
        self.vshards@
    }

    /// The nodes marked draining.
    pub closed spec fn draining(self) -> Seq<Seq<char>> {
        texts(self.draining@)
    }

    /// How often the placement has changed, modulo the counter's range.
    pub closed spec fn spec_placement_version(self) -> u64 {
        self.placement_version
    }

    /// What every operation keeps: one leader per shard, and no member of a shard out of range.
    pub open spec fn well_formed(self) -> bool {
        &&& one_leader_per_shard(self.leaders(), self.spec_shard_count())
        &&& forall|i: int|
            0 <= i < self.followers().len() ==> (#[trigger] self.followers()[i]).shard_id
                < self.spec_shard_count()
    }

    /// Whether everything but the two member lists is unchanged.
    pub open spec fn same_besides_members(self, other: Registry) -> bool {
        &&& self.spec_shard_count() == other.spec_shard_count()
        &&& self.seen() == other.seen()
        &&& self.vshards() == other.vshards()
        &&& self.draining() == other.draining()
        &&& self.spec_placement_version() == other.spec_placement_version()
    }

    /// Whether the view of the cluster (members and last contact) is unchanged.
    pub open spec fn same_view(self, other: Registry) -> bool {
        &&& self.spec_shard_count() == other.spec_shard_count()
        &&& self.leaders() == other.leaders()
        &&& self.followers() == other.followers()
        &&& self.seen() == other.seen()
    }

    /// A registry for a cluster of `shard_count` shards.
    pub fn new(shard_count: u32) -> (registry: Self)
        ensures
            registry.well_formed(),
            registry.spec_shard_count() == shard_count,
            registry.leaders() == Seq::<Member>::empty(),
            registry.followers() == Seq::<Member>::empty(),
            registry.seen() == Map::<Seq<char>, u64>::empty(),
            registry.vshards() == Seq::<u32>::empty(),
            registry.draining() == Seq::<Seq<char>>::empty(),
            registry.spec_placement_version() == 0,
    {
        let registry = Registry {
            shard_count,
            leaders: Vec::new(),
            followers: Vec::new(),
            seen: StringHashMap::new(),
            vshards: Vec::new(),
            draining: Vec::new(),
            placement_version: 0,
        };
        assert(registry.draining() =~= Seq::<Seq<char>>::empty());
        registry
    }

    /// The number of shards of the cluster.
    pub fn shard_count(&self) -> (count: u32)
        ensures
            count == self.spec_shard_count(),
    {
        self.shard_count
    }

    fn reject(&self, message: String) -> (response: RegisterNodeResponse)
        ensures
            !response.accepted,
            response.cluster_size == self.spec_shard_count(),
            response.message == message,
    {
        RegisterNodeResponse { accepted: false, cluster_size: self.shard_count, message }
    }

    fn leader_slot(&self, shard_id: u32) -> (slot: Option<usize>)
        ensures
            match slot {
                Some(at) => leads(self.leaders(), shard_id, at as int),
                None => !has_leader(self.leaders(), shard_id),
            },
    {
        let mut i: usize = 0;
        while i < self.leaders.len()
            invariant
                i <= self.leaders@.len(),
                forall|at: int| 0 <= at < i ==> !leads(self.leaders@, shard_id, at),
            decreases self.leaders@.len() - i,
        {
            if self.leaders[i].shard_id == shard_id {
                return Some(i);
            }
            i = i + 1;
        }
        None
    }

    fn set_leader(&mut self, member: Member)
        requires
            old(self).well_formed(),
            member.shard_id < old(self).spec_shard_count(),
        ensures
            final(self).well_formed(),
            final(self).leaders() == with_leader(old(self).leaders(), member),
            final(self).followers() == old(self).followers(),
            final(self).same_besides_members(*old(self)),
    {
        match self.leader_slot(member.shard_id) {
            Some(at) => {
                proof {
                    lemma_leader_slot(self.leaders(), self.shard_count, member, at as int);
                }
                self.leaders.set(at, member);
            },
            None => {
                proof {
                    assert forall|i: int| 0 <= i < self.leaders@.len() implies (
                    #[trigger] self.leaders@[i]).shard_id != member.shard_id by {
                        assert(!leads(self.leaders@, member.shard_id, i));
                    }
                }
                self.leaders.push(member);
            },
        }
    }

    /// Handle a node registration, updating the shard map. The answer carries the cluster size.
    ///
    /// A shard outside `0..N` and an unspecified role are refused and change nothing.
    pub fn register(&mut self, req: RegisterNodeRequest) -> (response: RegisterNodeResponse)
        requires
            old(self).well_formed(),
        ensures
            final(self).well_formed(),
            registers(*old(self), req, response, *final(self)),
    {
        if req.shard_id >= self.shard_count {
            let mut message = owned("shard_id ");
            message.append(decimal(req.shard_id as u64).as_str());
            message.append(" out of range for N=");
            message.append(decimal(self.shard_count as u64).as_str());
            return self.reject(message);
        }
        let shard_id: u32 = req.shard_id;
        let role = NodeRole::from_wire(req.role);
        let member = Member {
            shard_id,
            node: NodeInfo { node_id: req.node_id, address: req.address, role },
        };
        assert(member == registered(req));
        match role {
            NodeRole::Leader => {
                self.set_leader(member);
            },
            NodeRole::Follower => {
                self.followers.push(member);
            },
            NodeRole::Unspecified => {
                return self.reject(owned("role unspecified"));
            },
        }
        let mut message = owned("registered shard ");
        message.append(decimal(shard_id as u64).as_str());
        message.append(" as ");
        message.append(role.name());
        RegisterNodeResponse { accepted: true, cluster_size: self.shard_count, message }
    }

    /// Leader addresses for query fan-out.
    pub fn leader_addresses(&self) -> (addresses: Vec<String>)
        ensures
            texts(addresses@) == addresses_of(self.leaders()),
    {
        let mut addresses: Vec<String> = Vec::new();
        let mut i: usize = 0;
        while i < self.leaders.len()
            invariant
                i <= self.leaders@.len(),
                texts(addresses@) == addresses_of(self.leaders@.take(i as int)),
            decreases self.leaders@.len() - i,
        {
            proof {
                let member = self.leaders@[i as int];
                lemma_texts_push(addresses@, member.node.address);
                assert(addresses_of(self.leaders@.take(i + 1)) =~= addresses_of(
                    self.leaders@.take(i as int),
                ).push(member.node.address@));
            }
            addresses.push(self.leaders[i].node.address.clone());
            i = i + 1;
        }
        assert(self.leaders@.take(i as int) =~= self.leaders@);
        addresses
    }

    /// Follower addresses of a shard, so that its leader knows where to replicate.
    pub fn follower_addresses(&self, shard_id: u32) -> (addresses: Vec<String>)
        ensures
            texts(addresses@) == addresses_of(members_in(self.followers(), shard_id)),
    {
        let mut addresses: Vec<String> = Vec::new();
        let mut i: usize = 0;
        assert(members_in(self.followers@.take(0), shard_id) =~= Seq::<Member>::empty()) by {
            reveal(Seq::filter);
        }
        while i < self.followers.len()
            invariant
                i <= self.followers@.len(),
                texts(addresses@) == addresses_of(
                    members_in(self.followers@.take(i as int), shard_id),
                ),
            decreases self.followers@.len() - i,
        {
            let ghost before = self.followers@.take(i as int);
            let ghost member = self.followers@[i as int];
            proof {
                assert(self.followers@.take(i + 1) =~= before.push(member));
                before.lemma_filter_push(member, |m: Member| m.shard_id == shard_id);
            }
            if self.followers[i].shard_id == shard_id {
                proof {
                    lemma_texts_push(addresses@, member.node.address);
                    assert(addresses_of(members_in(self.followers@.take(i + 1), shard_id))
                        =~= addresses_of(members_in(before, shard_id)).push(member.node.address@));
                }
                addresses.push(self.followers[i].node.address.clone());
            }
            i = i + 1;
        }
        assert(self.followers@.take(i as int) =~= self.followers@);
        addresses
    }

    /// How many distinct shards currently have a leader.
    pub fn leaders_registered(&self) -> (count: usize)
        ensures
            count == self.leaders().len(),
    {
        self.leaders.len()
    }

    /// True once every shard in `0..N` has a registered leader.
    pub fn all_shards_have_leader(&self) -> (result: bool)
        requires
            self.well_formed(),
        ensures
            result == fully_led(self.leaders(), self.spec_shard_count()),
    {
        proof {
            law_full_staffing(self.leaders(), self.shard_count);
        }
        self.leaders.len() as u32 == self.shard_count
    }
}

/// Whether `response` and `after` come of a registration: a leader or a follower of a shard that
/// there is gets in, a leader in place of the one before, and anything else changes nothing.
pub open spec fn registers(
    before: Registry,
    req: RegisterNodeRequest,
    response: RegisterNodeResponse,
    after: Registry,
) -> bool {
    let role = NodeRole::spec_from_wire(req.role);
    &&& after.same_besides_members(before)
    &&& response.cluster_size == before.spec_shard_count()
    &&& response.accepted <==> req.shard_id < before.spec_shard_count() && role
        != NodeRole::Unspecified
    &&& after.leaders() == if response.accepted && role == NodeRole::Leader {
        with_leader(before.leaders(), registered(req))
    } else {
        before.leaders()
    }
    &&& after.followers() == if response.accepted && role == NodeRole::Follower {
        before.followers().push(registered(req))
    } else {
        before.followers()
    }
    &&& response.message@ == registration_message(req, before.spec_shard_count())
}

/// The member that a registration makes.
pub open spec fn registered(req: RegisterNodeRequest) -> Member {
    Member {
        shard_id: req.shard_id,
        node: NodeInfo {
            node_id: req.node_id,
            address: req.address,
            role: NodeRole::spec_from_wire(req.role),
        },
    }
}

/// The text that answers a registration.
pub open spec fn registration_message(req: RegisterNodeRequest, shard_count: u32) -> Seq<char> {
    if req.shard_id >= shard_count {
        "shard_id "@ + decimal_of(req.shard_id as nat) + " out of range for N="@ + decimal_of(
            shard_count as nat,
        )
    } else if NodeRole::spec_from_wire(req.role) == NodeRole::Unspecified {
        "role unspecified"@
    } else {
        "registered shard "@ + decimal_of(req.shard_id as nat) + " as "@
            + NodeRole::spec_from_wire(req.role).spec_name()
    }
}

/// The table that spreads `v` virtual shards over the groups in turn.
pub open spec fn round_robin(v: nat, shard_count: u32) -> Seq<u32> {
    Seq::new(v, |i: int| (i % shard_count as int) as u32)
}

/// Whether a reassignment names a virtual shard of the table and a group of the cluster.
pub open spec fn reassignable(registry: Registry, vshard: u32, group: u32) -> bool {
    vshard < registry.vshards().len() && group < registry.spec_shard_count()
}

/// Why a reassignment is refused.
pub open spec fn reassign_refusal(registry: Registry, vshard: u32, group: u32) -> Seq<char> {
    if vshard >= registry.vshards().len() {
        "vshard "@ + decimal_of(vshard as nat) + " out of range for V="@ + decimal_of(
            registry.vshards().len(),
        )
    } else {
        "group "@ + decimal_of(group as nat) + " out of range for N="@ + decimal_of(
            registry.spec_shard_count() as nat,
        )
    }
}

/// The drain set with a node marked.
pub open spec fn with_marker(draining: Seq<Seq<char>>, node_id: Seq<char>) -> Seq<Seq<char>> {
    if draining.contains(node_id) {
        draining
    } else {
        draining.push(node_id)
    }
}

/// Whether a node stands in a member list.
pub open spec fn lists_node(members: Seq<Member>, node_id: Seq<char>) -> bool {
    exists|i: int| 0 <= i < members.len() && (#[trigger] members[i]).node.node_id@ == node_id
}

/// Whether `at` is the first place of a node in a member list.
pub open spec fn first_place(members: Seq<Member>, node_id: Seq<char>, at: int) -> bool {
    &&& 0 <= at < members.len()
    &&& members[at].node.node_id@ == node_id
    &&& forall|j: int| 0 <= j < at ==> (#[trigger] members[j]).node.node_id@ != node_id
}

fn find_node(members: &Vec<Member>, node_id: &str) -> (place: Option<usize>)
    ensures
        match place {
            Some(at) => first_place(members@, node_id@, at as int),
            None => !lists_node(members@, node_id@),
        },
{
    let mut i: usize = 0;
    while i < members.len()
        invariant
            i <= members@.len(),
            forall|j: int| 0 <= j < i ==> (#[trigger] members@[j]).node.node_id@ != node_id@,
        decreases members@.len() - i,
    {
        if same(members[i].node.node_id.as_str(), node_id) {
            return Some(i);
        }
        i = i + 1;
    }
    None
}

impl Registry {
    /// Place documents on `vshards` virtual shards, spread over the groups in turn.
    pub fn with_vshards(self, vshards: u32) -> (registry: Self)
        requires
            self.spec_shard_count() > 0,
        ensures
            registry.same_view(self),
            registry.vshards() == round_robin(vshards as nat, self.spec_shard_count()),
            registry.draining() == self.draining(),
            registry.spec_placement_version() == self.spec_placement_version(),
    {
        let mut registry = self;
        let mut table: Vec<u32> = Vec::new();
        let mut i: u32 = 0;
        while i < vshards
            invariant
                i <= vshards,
                registry == self,
                self.spec_shard_count() > 0,
                table@ == round_robin(i as nat, self.spec_shard_count()),
            decreases vshards - i,
        {
            table.push(i % registry.shard_count);
            assert(table@ =~= round_robin((i + 1) as nat, self.spec_shard_count()));
            i = i + 1;
        }
        registry.vshards = table;
        registry
    }

    /// The group that owns each virtual shard.
    pub fn vshard_assignments(&self) -> (table: Vec<u32>)
        ensures
            table@ == self.vshards(),
    {
        let mut table: Vec<u32> = Vec::new();
        let mut i: usize = 0;
        while i < self.vshards.len()
            invariant
                i <= self.vshards@.len(),
                table@ == self.vshards@.take(i as int),
            decreases self.vshards@.len() - i,
        {
            table.push(self.vshards[i]);
            assert(table@ =~= self.vshards@.take(i + 1));
            i = i + 1;
        }
        assert(self.vshards@.take(i as int) =~= self.vshards@);
        table
    }

    /// How often the placement has changed.
    pub fn placement_version(&self) -> (version: u64)
        ensures
            version == self.spec_placement_version(),
    {
        self.placement_version
    }

    /// Check a reassignment against the table and the cluster size.
    pub fn validate_reassign(&self, vshard: u32, group: u32) -> (result: Result<(), String>)
        ensures
            result is Ok <==> reassignable(*self, vshard, group),
            result matches Err(message) ==> message@ == reassign_refusal(*self, vshard, group),
    {
        if vshard as u64 >= self.vshards.len() as u64 {
            let mut message = owned("vshard ");
            message.append(decimal(vshard as u64).as_str());
            message.append(" out of range for V=");
            message.append(decimal(self.vshards.len() as u64).as_str());
            return Err(message);
        }
        if group >= self.shard_count {
            let mut message = owned("group ");
            message.append(decimal(group as u64).as_str());
            message.append(" out of range for N=");
            message.append(decimal(self.shard_count as u64).as_str());
            return Err(message);
        }
        Ok(())
    }

    /// Move a virtual shard to another group, if both exist; otherwise nothing changes.
    pub fn reassign_vshard(&mut self, vshard: u32, group: u32) -> (result: Result<(), String>)
        ensures
            final(self).same_view(*old(self)),
            final(self).draining() == old(self).draining(),
            result is Ok <==> reassignable(*old(self), vshard, group),
            result matches Err(message) ==> message@ == reassign_refusal(
                *old(self),
                vshard,
                group,
            ),
            final(self).vshards() == if result is Ok {
                old(self).vshards().update(vshard as int, group)
            } else {
                old(self).vshards()
            },
            final(self).spec_placement_version() == if result is Ok {
                next_version(old(self).spec_placement_version())
            } else {
                old(self).spec_placement_version()
            },
    {
        match self.validate_reassign(vshard, group) {
            Ok(()) => {
                self.vshards.set(vshard as usize, group);
                self.placement_version = self.placement_version.wrapping_add(1);
                Ok(())
            },
            Err(message) => Err(message),
        }
    }

    /// Whether a node is registered, as a leader or as a follower.
    pub open spec fn knows(self, node_id: Seq<char>) -> bool {
        lists_node(self.leaders(), node_id) || lists_node(self.followers(), node_id)
    }

    /// Whether a node is registered.
    pub fn knows_node(&self, node_id: &str) -> (known: bool)
        ensures
            known == self.knows(node_id@),
    {
        find_node(&self.leaders, node_id).is_some() || find_node(
            &self.followers,
            node_id,
        ).is_some()
    }

    /// Whether a node is marked draining.
    pub fn is_draining(&self, node_id: &str) -> (marked: bool)
        ensures
            marked == self.draining().contains(node_id@),
    {
        let mut i: usize = 0;
        while i < self.draining.len()
            invariant
                i <= self.draining@.len(),
                forall|j: int| 0 <= j < i ==> (#[trigger] self.draining@[j])@ != node_id@,
            decreases self.draining@.len() - i,
        {
            if same(self.draining[i].as_str(), node_id) {
                assert(self.draining()[i as int] == node_id@);
                return true;
            }
            i = i + 1;
        }
        assert forall|j: int| 0 <= j < self.draining().len() implies self.draining()[j]
            != node_id@ by {
            assert(self.draining@[j]@ != node_id@);
        }
        false
    }

    /// Mark a node draining, whether or not this view knows it.
    pub fn apply_drain_marker(&mut self, node_id: &str)
        ensures
            final(self).same_view(*old(self)),
            final(self).vshards() == old(self).vshards(),
            final(self).spec_placement_version() == old(self).spec_placement_version(),
            final(self).draining() == with_marker(old(self).draining(), node_id@),
    {
        if !self.is_draining(node_id) {
            let marker = owned(node_id);
            proof {
                lemma_texts_push(self.draining@, marker);
            }
            self.draining.push(marker);
        }
    }

    /// Mark a registered node draining; false, and no change, for an unknown one.
    pub fn mark_draining(&mut self, node_id: &str) -> (known: bool)
        ensures
            final(self).same_view(*old(self)),
            final(self).vshards() == old(self).vshards(),
            final(self).spec_placement_version() == old(self).spec_placement_version(),
            known == old(self).knows(node_id@),
            final(self).draining() == if known {
                with_marker(old(self).draining(), node_id@)
            } else {
                old(self).draining()
            },
    {
        if self.knows_node(node_id) {
            self.apply_drain_marker(node_id);
            true
        } else {
            false
        }
    }

    /// The operator intent: the virtual-shard table and the drain set.
    pub fn authority(&self) -> (intent: (Vec<u32>, Vec<String>))
        ensures
            intent.0@ == self.vshards(),
            texts(intent.1@) == self.draining(),
    {
        let table = self.vshard_assignments();
        let mut marked: Vec<String> = Vec::new();
        let mut i: usize = 0;
        while i < self.draining.len()
            invariant
                i <= self.draining@.len(),
                texts(marked@) == texts(self.draining@.take(i as int)),
            decreases self.draining@.len() - i,
        {
            proof {
                lemma_texts_push(marked@, self.draining@[i as int]);
                lemma_texts_push(self.draining@.take(i as int), self.draining@[i as int]);
                assert(self.draining@.take(i + 1) =~= self.draining@.take(i as int).push(
                    self.draining@[i as int],
                ));
            }
            marked.push(self.draining[i].clone());
            i = i + 1;
        }
        assert(self.draining@.take(i as int) =~= self.draining@);
        (table, marked)
    }

    /// Replace the operator intent.
    pub fn set_authority(&mut self, vshards: Vec<u32>, draining: Vec<String>)
        ensures
            final(self).same_view(*old(self)),
            final(self).vshards() == vshards@,
            final(self).draining() == texts(draining@),
            final(self).spec_placement_version() == next_version(
                old(self).spec_placement_version(),
            ),
    {
        self.vshards = vshards;
        self.draining = draining;
        self.placement_version = self.placement_version.wrapping_add(1);
    }
}

/// The placement version after a change.
pub open spec fn next_version(version: u64) -> u64 {
    if version == u64::MAX {
        0
    } else {
        (version + 1) as u64
    }
}

/// What a node does, as far as the member lists tell.
pub open spec fn role_of(registry: Registry, node_id: Seq<char>) -> Option<NodeRole> {
    if lists_node(registry.leaders(), node_id) {
        Some(NodeRole::Leader)
    } else if lists_node(registry.followers(), node_id) {
        Some(NodeRole::Follower)
    } else {
        None
    }
}

/// A member with another role.
pub open spec fn in_role(member: Member, role: NodeRole) -> Member {
    Member { node: NodeInfo { role, ..member.node }, ..member }
}

/// Whether a follower took over its shard: the first that is listed under `node_id` is the leader
/// of shard `id`, and the leader that it replaced, where there was one, follows last.
pub open spec fn takes_over(
    node_id: Seq<char>,
    id: u32,
    leaders: Seq<Member>,
    followers: Seq<Member>,
    new_leaders: Seq<Member>,
    new_followers: Seq<Member>,
) -> bool {
    exists|at: int| #[trigger]
        first_place(followers, node_id, at) && {
            let member = followers[at];
            let rest = followers.remove(at);
            &&& id == member.shard_id
            &&& new_leaders == with_leader(leaders, in_role(member, NodeRole::Leader))
            &&& has_leader(leaders, id) ==> exists|slot: int| #[trigger]
                leads(leaders, id, slot) && new_followers == rest.push(
                    in_role(leaders[slot], NodeRole::Follower),
                )
            &&& !has_leader(leaders, id) ==> new_followers == rest
        }
}

/// Whether a member has been silent for longer than `timeout` milliseconds. A member that was
/// never heard from is not silent: nothing says how long it has been there.
pub open spec fn is_silent(seen: Map<Seq<char>, u64>, member: Member, now: u64, timeout: u64) -> bool {
    seen.contains_key(member.node.node_id@) && now - seen[member.node.node_id@] > timeout
}

/// The members that are not silent, in order.
pub open spec fn heard(seen: Map<Seq<char>, u64>, members: Seq<Member>, now: u64, timeout: u64) -> Seq<
    Member,
> {
    members.filter(|m: Member| !is_silent(seen, m, now, timeout))
}

/// The members that are silent, in order.
pub open spec fn unheard(
    seen: Map<Seq<char>, u64>,
    members: Seq<Member>,
    now: u64,
    timeout: u64,
) -> Seq<Member> {
    members.filter(|m: Member| is_silent(seen, m, now, timeout))
}

/// The leaders once the first follower of each leaderless shard has taken it over.
pub open spec fn promoted_leaders(leaders: Seq<Member>, followers: Seq<Member>) -> Seq<Member>
    decreases followers.len(),
{
    if followers.len() == 0 {
        leaders
    } else {
        let before = promoted_leaders(leaders, followers.drop_last());
        if has_leader(before, followers.last().shard_id) {
            before
        } else {
            before.push(in_role(followers.last(), NodeRole::Leader))
        }
    }
}

/// The followers that were not promoted, in order.
pub open spec fn remaining_followers(leaders: Seq<Member>, followers: Seq<Member>) -> Seq<Member>
    decreases followers.len(),
{
    if followers.len() == 0 {
        Seq::empty()
    } else {
        let before = remaining_followers(leaders, followers.drop_last());
        if has_leader(promoted_leaders(leaders, followers.drop_last()), followers.last().shard_id) {
            before.push(followers.last())
        } else {
            before
        }
    }
}

/// The followers that were promoted, in order, as they stood.
pub open spec fn promotions(leaders: Seq<Member>, followers: Seq<Member>) -> Seq<Member>
    decreases followers.len(),
{
    if followers.len() == 0 {
        Seq::empty()
    } else {
        let before = promotions(leaders, followers.drop_last());
        if has_leader(promoted_leaders(leaders, followers.drop_last()), followers.last().shard_id) {
            before
        } else {
            before.push(followers.last())
        }
    }
}

/// How a member list shows to an observer at time `now`.
pub open spec fn shows(state: NodeState, member: Member, registry: Registry, now: u64) -> bool {
    &&& state.node_id@ == member.node.node_id@
    &&& state.address@ == member.node.address@
    &&& state.role == member.node.role
    &&& state.shard_id == member.shard_id
    &&& state.millis_since_seen == since_seen(registry.seen(), member.node.node_id@, now)
    &&& state.draining == registry.draining().contains(member.node.node_id@)
}

/// How long ago a node was heard from; zero for one that never was, or for a clock that has run
/// backwards.
pub open spec fn since_seen(seen: Map<Seq<char>, u64>, node_id: Seq<char>, now: u64) -> int {
    if seen.contains_key(node_id) && seen[node_id] <= now {
        now - seen[node_id]
    } else {
        0
    }
}

/// Whether a list of node states shows a list of members, one for one.
pub open spec fn shows_all(
    states: Seq<NodeState>,
    members: Seq<Member>,
    registry: Registry,
    now: u64,
) -> bool {
    &&& states.len() == members.len()
    &&& forall|i: int|
        0 <= i < states.len() ==> shows(#[trigger] states[i], members[i], registry, now)
}

impl Registry {
    /// Note that a node is alive, and tell it the role it currently holds; `None`, and no change,
    /// for an unknown node.
    pub fn heartbeat(&mut self, node_id: &str, now: u64) -> (role: Option<NodeRole>)
        ensures
            role == role_of(*old(self), node_id@),
            final(self).spec_shard_count() == old(self).spec_shard_count(),
            final(self).leaders() == old(self).leaders(),
            final(self).followers() == old(self).followers(),
            final(self).vshards() == old(self).vshards(),
            final(self).draining() == old(self).draining(),
            final(self).spec_placement_version() == old(self).spec_placement_version(),
            final(self).seen() == if role is Some {
                old(self).seen().insert(node_id@, now)
            } else {
                old(self).seen()
            },
    {
        if find_node(&self.leaders, node_id).is_some() {
            self.seen.insert(owned(node_id), now);
            Some(NodeRole::Leader)
        } else if find_node(&self.followers, node_id).is_some() {
            self.seen.insert(owned(node_id), now);
            Some(NodeRole::Follower)
        } else {
            None
        }
    }

    /// A node reports that its raft group elected it: a follower takes over its shard, the leader
    /// before it becomes the last follower, and the shard is returned. Nothing changes for a
    /// node that already leads or is unknown.
    pub fn report_raft_leader(&mut self, node_id: &str) -> (shard: Option<u32>)
        requires
            old(self).well_formed(),
        ensures
            final(self).well_formed(),
            final(self).same_besides_members(*old(self)),
            shard is Some <==> role_of(*old(self), node_id@) == Some(NodeRole::Follower),
            shard is None ==> final(self).leaders() == old(self).leaders()
                && final(self).followers() == old(self).followers(),
            shard matches Some(id) ==> takes_over(
                node_id@,
                id,
                old(self).leaders(),
                old(self).followers(),
                final(self).leaders(),
                final(self).followers(),
            ),
    {
        if find_node(&self.leaders, node_id).is_some() {
            return None;
        }
        match find_node(&self.followers, node_id) {
            None => None,
            Some(at) => {
                assert(first_place(old(self).followers(), node_id@, at as int));
                let member = self.followers.remove(at);
                let shard_id: u32 = member.shard_id;
                assert(member == old(self).followers()[at as int]);
                let elected = Member {
                    shard_id,
                    node: NodeInfo {
                        node_id: member.node.node_id,
                        address: member.node.address,
                        role: NodeRole::Leader,
                    },
                };
                assert(elected == in_role(member, NodeRole::Leader));
                let ghost rest = self.followers();
                assert forall|i: int| 0 <= i < rest.len() implies (#[trigger] rest[i]).shard_id
                    < self.shard_count by {
                    if i < at {
                        assert(rest[i] == old(self).followers()[i]);
                    } else {
                        assert(rest[i] == old(self).followers()[i + 1]);
                    }
                }
                match self.leader_slot(shard_id) {
                    Some(slot) => {
                        assert(leads(old(self).leaders(), shard_id, slot as int));
                        let former = self.leaders[slot].node.clone();
                        let demoted = Member {
                            shard_id,
                            node: NodeInfo {
                                node_id: former.node_id,
                                address: former.address,
                                role: NodeRole::Follower,
                            },
                        };
                        assert(demoted == in_role(
                            old(self).leaders()[slot as int],
                            NodeRole::Follower,
                        ));
                        self.set_leader(elected);
                        self.followers.push(demoted);
                    },
                    None => {
                        self.set_leader(elected);
                    },
                }
                Some(shard_id)
            },
        }
    }

    fn show(&self, member: &Member, now: u64) -> (state: NodeState)
        ensures
            shows(state, *member, *self, now),
    {
        let node_id = member.node.node_id.as_str();
        let millis_since_seen: u64 = match self.seen.get(node_id) {
            Some(at) => if *at <= now {
                now - *at
            } else {
                0
            },
            None => 0,
        };
        NodeState {
            node_id: member.node.node_id.clone(),
            address: member.node.address.clone(),
            role: member.node.role,
            shard_id: member.shard_id,
            millis_since_seen,
            draining: self.is_draining(node_id),
        }
    }

    /// Every node of the cluster: leaders first, then followers.
    pub fn snapshot(&self, now: u64) -> (states: Vec<NodeState>)
        ensures
            shows_all(states@, self.leaders() + self.followers(), *self, now),
    {
        let mut states: Vec<NodeState> = Vec::new();
        let mut i: usize = 0;
        while i < self.leaders.len()
            invariant
                i <= self.leaders@.len(),
                states@.len() == i,
                forall|j: int|
                    0 <= j < i ==> shows(#[trigger] states@[j], self.leaders@[j], *self, now),
            decreases self.leaders@.len() - i,
        {
            states.push(self.show(&self.leaders[i], now));
            i = i + 1;
        }
        let mut k: usize = 0;
        let ghost all = self.leaders() + self.followers();
        assert forall|j: int| 0 <= j < i implies shows(
            #[trigger] states@[j],
            all[j],
            *self,
            now,
        ) by {
            assert(all[j] == self.leaders@[j]);
        }
        while k < self.followers.len()
            invariant
                k <= self.followers@.len(),
                all == self.leaders@ + self.followers@,
                states@.len() == self.leaders@.len() + k,
                forall|j: int|
                    0 <= j < states@.len() ==> shows(#[trigger] states@[j], all[j], *self, now),
            decreases self.followers@.len() - k,
        {
            assert(all[self.leaders@.len() + k] == self.followers@[k as int]);
            states.push(self.show(&self.followers[k], now));
            k = k + 1;
        }
        states
    }

    /// The nodes of one shard: its leader, then its followers.
    pub fn members_of(&self, shard_id: u32, now: u64) -> (states: Vec<NodeState>)
        ensures
            shows_all(
                states@,
                members_in(self.leaders() + self.followers(), shard_id),
                *self,
                now,
            ),
    {
        let all_states = self.snapshot(now);
        let ghost all = self.leaders() + self.followers();
        let mut states: Vec<NodeState> = Vec::new();
        assert(members_in(all.take(0), shard_id) =~= Seq::<Member>::empty()) by {
            reveal(Seq::filter);
        }
        for state in rest: all_states
            invariant
                rest.seq() == all_states@,
                shows_all(all_states@, all, *self, now),
                shows_all(states@, members_in(all.take(rest.index()), shard_id), *self, now),
        {
            let ghost i = rest.index();
            let ghost before = all.take(i);
            proof {
                assert(all.take(i + 1) =~= before.push(all[i]));
                before.lemma_filter_push(all[i], |m: Member| m.shard_id == shard_id);
                assert(shows(all_states@[i], all[i], *self, now));
            }
            if state.shard_id == shard_id {
                states.push(state);
            }
        }
        assert(all.take(all.len() as int) =~= all);
        states
    }

    fn silent(&self, node_id: &str, now: u64, timeout: u64) -> (result: bool)
        ensures
            result == (self.seen().contains_key(node_id@) && now - self.seen()[node_id@] > timeout),
    {
        match self.seen.get(node_id) {
            Some(at) => now > *at && now - *at > timeout,
            None => false,
        }
    }

    /// Drop every node that has been silent for longer than `timeout` milliseconds; the dropped
    /// nodes are returned, leaders first.
    pub fn reap_dead(&mut self, now: u64, timeout: u64) -> (removed: Vec<NodeInfo>)
        requires
            old(self).well_formed(),
        ensures
            final(self).well_formed(),
            final(self).same_besides_members(*old(self)),
            final(self).leaders() == heard(old(self).seen(), old(self).leaders(), now, timeout),
            final(self).followers() == heard(old(self).seen(), old(self).followers(), now, timeout),
            removed@ == (unheard(old(self).seen(), old(self).leaders(), now, timeout) + unheard(
                old(self).seen(),
                old(self).followers(),
                now,
                timeout,
            )).map_values(|m: Member| m.node),
    {
        let mut leaders: Vec<Member> = Vec::new();
        leaders.append(&mut self.leaders);
        let mut followers: Vec<Member> = Vec::new();
        followers.append(&mut self.followers);
        let (kept_leaders, mut removed) = self.sift(leaders, now, timeout);
        let (kept_followers, mut more) = self.sift(followers, now, timeout);
        proof {
            let seen = self.seen();
            lemma_heard(seen, leaders@, now, timeout, self.shard_count);
            lemma_filter_members(
                followers@,
                |m: Member| !is_silent(seen, m, now, timeout),
            );
            assert forall|i: int| 0 <= i < kept_followers@.len() implies (
            #[trigger] kept_followers@[i]).shard_id < self.shard_count by {
                assert(kept_followers@.contains(kept_followers@[i]));
                assert(followers@.contains(kept_followers@[i]));
            }
        }
        self.leaders = kept_leaders;
        self.followers = kept_followers;
        removed.append(&mut more);
        assert(removed@ =~= (unheard(old(self).seen(), old(self).leaders(), now, timeout) + unheard(
            old(self).seen(),
            old(self).followers(),
            now,
            timeout,
        )).map_values(|m: Member| m.node));
        removed
    }

    fn sift(&self, members: Vec<Member>, now: u64, timeout: u64) -> (result: (
        Vec<Member>,
        Vec<NodeInfo>,
    ))
        ensures
            result.0@ == heard(self.seen(), members@, now, timeout),
            result.1@ == unheard(self.seen(), members@, now, timeout).map_values(
                |m: Member| m.node,
            ),
    {
        let mut kept: Vec<Member> = Vec::new();
        let mut dropped: Vec<NodeInfo> = Vec::new();
        let ghost seen = self.seen();
        proof {
            reveal(Seq::filter);
            assert(members@.take(0) =~= Seq::<Member>::empty());
        }
        for member in rest: members
            invariant
                rest.seq() == members@,
                seen == self.seen(),
                kept@ == heard(seen, members@.take(rest.index()), now, timeout),
                dropped@ == unheard(seen, members@.take(rest.index()), now, timeout).map_values(
                    |m: Member| m.node,
                ),
        {
            proof {
                let before = members@.take(rest.index());
                assert(members@.take(rest.index() + 1) =~= before.push(member));
                before.lemma_filter_push(member, |m: Member| !is_silent(seen, m, now, timeout));
                before.lemma_filter_push(member, |m: Member| is_silent(seen, m, now, timeout));
                let gone = unheard(seen, before, now, timeout);
                assert(gone.push(member).map_values(|m: Member| m.node) =~= gone.map_values(
                    |m: Member| m.node,
                ).push(member.node));
            }
            if self.silent(member.node.node_id.as_str(), now, timeout) {
                dropped.push(member.node);
            } else {
                kept.push(member);
            }
        }
        assert(members@.take(members@.len() as int) =~= members@);
        (kept, dropped)
    }

    /// Fail over: the first follower of each leaderless shard becomes its leader. The promoted
    /// nodes are returned with their shards.
    pub fn promote_orphaned_shards(&mut self) -> (promoted: Vec<(u32, String)>)
        requires
            old(self).well_formed(),
        ensures
            final(self).well_formed(),
            final(self).same_besides_members(*old(self)),
            final(self).leaders() == promoted_leaders(old(self).leaders(), old(self).followers()),
            final(self).followers() == remaining_followers(
                old(self).leaders(),
                old(self).followers(),
            ),
            promoted@.map_values(|p: (u32, String)| (p.0, p.1@)) == promotions(
                old(self).leaders(),
                old(self).followers(),
            ).map_values(|m: Member| (m.shard_id, m.node.node_id@)),
    {
        let mut followers: Vec<Member> = Vec::new();
        followers.append(&mut self.followers);
        let ghost leaders = self.leaders();
        let mut promoted: Vec<(u32, String)> = Vec::new();
        assert(followers@.take(0) =~= Seq::<Member>::empty());
        assert(promoted@.map_values(|p: (u32, String)| (p.0, p.1@)) =~= promotions(
            leaders,
            followers@.take(0),
        ).map_values(|m: Member| (m.shard_id, m.node.node_id@)));
        for member in rest: followers
            invariant
                rest.seq() == followers@,
                followers@ == old(self).followers(),
                forall|i: int|
                    0 <= i < followers@.len() ==> (#[trigger] followers@[i]).shard_id
                        < self.spec_shard_count(),
                self.well_formed(),
                self.same_besides_members(*old(self)),
                self.leaders() == promoted_leaders(leaders, followers@.take(rest.index())),
                self.followers() == remaining_followers(leaders, followers@.take(rest.index())),
                promoted@.map_values(|p: (u32, String)| (p.0, p.1@)) == promotions(
                    leaders,
                    followers@.take(rest.index()),
                ).map_values(|m: Member| (m.shard_id, m.node.node_id@)),
        {
            let ghost i = rest.index();
            let ghost earlier = promotions(leaders, followers@.take(i));
            let ghost announced = promoted@;
            proof {
                let seen = followers@.take(i + 1);
                assert(seen.drop_last() =~= followers@.take(i));
                assert(seen.last() == member);
                assert(followers@[i] == member);
            }
            match self.leader_slot(member.shard_id) {
                Some(at) => {
                    assert(leads(self.leaders(), member.shard_id, at as int));
                    self.followers.push(member);
                },
                None => {
                    proof {
                        assert forall|j: int| 0 <= j < self.leaders@.len() implies (
                        #[trigger] self.leaders@[j]).shard_id != member.shard_id by {
                            assert(!leads(self.leaders@, member.shard_id, j));
                        }
                    }
                    let node_id = member.node.node_id.clone();
                    let elected = Member {
                        shard_id: member.shard_id,
                        node: NodeInfo {
                            node_id: member.node.node_id,
                            address: member.node.address,
                            role: NodeRole::Leader,
                        },
                    };
                    assert(elected == in_role(member, NodeRole::Leader));
                    promoted.push((member.shard_id, node_id));
                    self.leaders.push(elected);
                    proof {
                        assert(promoted@.map_values(|p: (u32, String)| (p.0, p.1@))
                            =~= announced.map_values(|p: (u32, String)| (p.0, p.1@)).push(
                            (member.shard_id, member.node.node_id@),
                        ));
                        assert(earlier.push(member).map_values(
                            |m: Member| (m.shard_id, m.node.node_id@),
                        ) =~= earlier.map_values(|m: Member| (m.shard_id, m.node.node_id@)).push(
                            (member.shard_id, member.node.node_id@),
                        ));
                    }
                },
            }
        }
        assert(followers@.take(followers@.len() as int) =~= followers@);
        promoted
    }
}

proof fn lemma_heard(
    seen: Map<Seq<char>, u64>,
    leaders: Seq<Member>,
    now: u64,
    timeout: u64,
    shard_count: u32,
)
    requires
        one_leader_per_shard(leaders, shard_count),
    ensures
        one_leader_per_shard(heard(seen, leaders, now, timeout), shard_count),
    decreases leaders.len(),
{
    reveal(Seq::filter);
    if leaders.len() > 0 {
        let before = leaders.drop_last();
        let last = leaders.last();
        assert(one_leader_per_shard(before, shard_count)) by {
            assert forall|i: int, j: int|
                #![trigger before[i], before[j]]
                0 <= i < before.len() && 0 <= j < before.len() && before[i].shard_id
                    == before[j].shard_id implies i == j by {
                assert(leaders[i].shard_id == leaders[j].shard_id);
            }
            assert forall|i: int| 0 <= i < before.len() implies (#[trigger] before[i]).shard_id
                < shard_count by {
                assert(leaders[i] == before[i]);
            }
        }
        lemma_heard(seen, before, now, timeout, shard_count);
        let kept = heard(seen, before, now, timeout);
        lemma_filter_members(before, |m: Member| !is_silent(seen, m, now, timeout));
        assert forall|i: int| 0 <= i < kept.len() implies (#[trigger] kept[i]).shard_id
            != last.shard_id by {
            assert(kept.contains(kept[i]));
            assert(before.contains(kept[i]));
            let j = choose|j: int| 0 <= j < before.len() && before[j] == kept[i];
            assert(leaders[j] == before[j]);
            assert(leaders[leaders.len() - 1] == last);
        }
    }
}

/// Failover leaves no shard unserved that still has a node: after a promotion every shard that
/// had a follower has a leader, and leaders that were there keep their shards.
pub proof fn law_failover_serves_every_staffed_shard(leaders: Seq<Member>, followers: Seq<Member>)
    ensures
        forall|i: int|
            0 <= i < followers.len() ==> has_leader(
                promoted_leaders(leaders, followers),
                (#[trigger] followers[i]).shard_id,
            ),
        promoted_leaders(leaders, followers).len() >= leaders.len(),
        promoted_leaders(leaders, followers).take(leaders.len() as int) == leaders,
    decreases followers.len(),
{
    let after = promoted_leaders(leaders, followers);
    if followers.len() > 0 {
        let rest = followers.drop_last();
        let before = promoted_leaders(leaders, rest);
        law_failover_serves_every_staffed_shard(leaders, rest);
        assert forall|i: int| 0 <= i < followers.len() implies has_leader(
            after,
            (#[trigger] followers[i]).shard_id,
        ) by {
            if i < rest.len() {
                assert(rest[i] == followers[i]);
                assert(has_leader(before, rest[i].shard_id));
                let at = choose|at: int| leads(before, rest[i].shard_id, at);
                assert(leads(after, rest[i].shard_id, at));
            } else if !has_leader(before, followers.last().shard_id) {
                assert(leads(after, followers.last().shard_id, before.len() as int));
            }
        }
        assert(after.take(leaders.len() as int) =~= before.take(leaders.len() as int));
    } else {
        assert(after.take(leaders.len() as int) =~= leaders);
    }
}

/// A shard whose leader went silent and that has a live follower is led again after one sweep:
/// the silent leader is dropped and a follower that is not silent takes over.
pub proof fn law_sweep_replaces_a_silent_leader(
    seen: Map<Seq<char>, u64>,
    leaders: Seq<Member>,
    followers: Seq<Member>,
    now: u64,
    timeout: u64,
    i: int,
)
    requires
        0 <= i < followers.len(),
        !is_silent(seen, followers[i], now, timeout),
    ensures
        has_leader(
            promoted_leaders(
                heard(seen, leaders, now, timeout),
                heard(seen, followers, now, timeout),
            ),
            followers[i].shard_id,
        ),
        forall|m: Member| #[trigger]
            heard(seen, leaders, now, timeout).contains(m) ==> !is_silent(seen, m, now, timeout),
{
    let live = heard(seen, followers, now, timeout);
    let alive = |m: Member| !is_silent(seen, m, now, timeout);
    lemma_filter_members(followers, alive);
    lemma_filter_members(leaders, alive);
    assert(live.contains(followers[i]));
    let k = choose|k: int| 0 <= k < live.len() && live[k] == followers[i];
    law_failover_serves_every_staffed_shard(heard(seen, leaders, now, timeout), live);
    assert(has_leader(
        promoted_leaders(heard(seen, leaders, now, timeout), live),
        live[k].shard_id,
    ));
    assert forall|m: Member| #[trigger]
        heard(seen, leaders, now, timeout).contains(m) implies !is_silent(
        seen,
        m,
        now,
        timeout,
    ) by {
        assert(alive(m));
    }
}

/// A promotion leaves every leader as it was, and each leader that it adds is the first follower
/// of a shard that had none: the same shard, node and address, now in the role of leader.
pub proof fn law_promoted_leaders_are_followers(
    leaders: Seq<Member>,
    followers: Seq<Member>,
    k: int,
)
    requires
        0 <= k < promoted_leaders(leaders, followers).len(),
    ensures
        k < leaders.len() ==> promoted_leaders(leaders, followers)[k] == leaders[k],
        k >= leaders.len() ==> exists|i: int|
            0 <= i < followers.len() && {
                let led = promoted_leaders(leaders, followers)[k];
                let from = #[trigger] followers[i];
                &&& led.shard_id == from.shard_id
                &&& led.node.node_id == from.node.node_id
                &&& led.node.address == from.node.address
                &&& led.node.role == NodeRole::Leader
                &&& forall|j: int| 0 <= j < i ==> (#[trigger] followers[j]).shard_id != led.shard_id
                &&& forall|j: int|
                    0 <= j < leaders.len() ==> (#[trigger] leaders[j]).shard_id != led.shard_id
            },
        promoted_leaders(leaders, followers).len() >= leaders.len(),
    decreases followers.len(),
{
    law_failover_serves_every_staffed_shard(leaders, followers);
    let after = promoted_leaders(leaders, followers);
    if followers.len() > 0 {
        let rest = followers.drop_last();
        let before = promoted_leaders(leaders, rest);
        law_failover_serves_every_staffed_shard(leaders, rest);
        let last = followers.len() - 1;
        if k < before.len() {
            assert(after[k] == before[k]);
            law_promoted_leaders_are_followers(leaders, rest, k);
            if k >= leaders.len() {
                let i = choose|i: int|
                    0 <= i < rest.len() && {
                        let led = before[k];
                        let from = #[trigger] rest[i];
                        &&& led.shard_id == from.shard_id
                        &&& led.node.node_id == from.node.node_id
                        &&& led.node.address == from.node.address
                        &&& led.node.role == NodeRole::Leader
                        &&& forall|j: int|
                            0 <= j < i ==> (#[trigger] rest[j]).shard_id != led.shard_id
                        &&& forall|j: int|
                            0 <= j < leaders.len() ==> (#[trigger] leaders[j]).shard_id
                                != led.shard_id
                    };
                assert(followers[i] == rest[i]);
                assert forall|j: int| 0 <= j < i implies (#[trigger] followers[j]).shard_id
                    != after[k].shard_id by {
                    assert(followers[j] == rest[j]);
                }
            }
        } else {
            let led = after[k];
            assert(!has_leader(before, led.shard_id));
            assert(followers[last].shard_id == led.shard_id);
            assert forall|j: int| 0 <= j < last implies (#[trigger] followers[j]).shard_id
                != led.shard_id by {
                assert(rest[j] == followers[j]);
            }
            assert forall|j: int| 0 <= j < leaders.len() implies (#[trigger] leaders[j]).shard_id
                != led.shard_id by {
                assert(before.take(leaders.len() as int)[j] == before[j]);
                assert(!leads(before, led.shard_id, j));
            }
        }
    }
}

/// A promotion tells of each leader that it adds, in order, and loses nobody: who is not promoted
/// stays a follower, unchanged.
pub proof fn law_promotion_loses_nobody(leaders: Seq<Member>, followers: Seq<Member>, i: int)
    ensures
        promoted_leaders(leaders, followers).len() + remaining_followers(leaders, followers).len()
            == leaders.len() + followers.len(),
        promotions(leaders, followers).len() == promoted_leaders(leaders, followers).len()
            - leaders.len(),
        forall|p: int|
            0 <= p < promotions(leaders, followers).len() ==> {
                let told = #[trigger] promotions(leaders, followers)[p];
                let led = promoted_leaders(leaders, followers)[leaders.len() + p];
                &&& told.shard_id == led.shard_id
                &&& told.node.node_id == led.node.node_id
                &&& followers.contains(told)
            },
        forall|m: Member| #[trigger]
            remaining_followers(leaders, followers).contains(m) ==> followers.contains(m),
        0 <= i < followers.len() && ((exists|j: int|
            0 <= j < i && (#[trigger] followers[j]).shard_id == followers[i].shard_id) || (exists|
            j: int,
        |
            0 <= j < leaders.len() && (#[trigger] leaders[j]).shard_id == followers[i].shard_id))
            ==> remaining_followers(leaders, followers).contains(followers[i]),
    decreases followers.len(),
{
    if followers.len() > 0 {
        let rest = followers.drop_last();
        let last = followers.len() - 1;
        let before = promoted_leaders(leaders, rest);
        law_promotion_loses_nobody(leaders, rest, i);
        law_failover_serves_every_staffed_shard(leaders, rest);
        law_failover_serves_every_staffed_shard(leaders, followers);
        let after = promoted_leaders(leaders, followers);
        let told = promotions(leaders, followers);
        let left = remaining_followers(leaders, followers);
        assert forall|p: int| 0 <= p < told.len() implies {
            let one = #[trigger] told[p];
            let led = after[leaders.len() + p];
            &&& one.shard_id == led.shard_id
            &&& one.node.node_id == led.node.node_id
            &&& followers.contains(one)
        } by {
            if p < promotions(leaders, rest).len() {
                let one = promotions(leaders, rest)[p];
                assert(rest.contains(one));
                let j = choose|j: int| 0 <= j < rest.len() && rest[j] == one;
                assert(followers[j] == one);
                assert(after[leaders.len() + p] == before[leaders.len() + p]);
            } else {
                assert(followers[last] == told[p]);
            }
        }
        assert forall|m: Member| #[trigger] left.contains(m) implies followers.contains(m) by {
            if m == followers.last() {
                assert(followers[last] == m);
            } else {
                let a = choose|a: int| 0 <= a < left.len() && left[a] == m;
                assert(remaining_followers(leaders, rest)[a] == m);
                assert(remaining_followers(leaders, rest).contains(m));
                let j = choose|j: int| 0 <= j < rest.len() && rest[j] == m;
                assert(followers[j] == m);
            }
        }
        if 0 <= i < followers.len() && ((exists|j: int|
            0 <= j < i && (#[trigger] followers[j]).shard_id == followers[i].shard_id) || (exists|
            j: int,
        |
            0 <= j < leaders.len() && (#[trigger] leaders[j]).shard_id
                == followers[i].shard_id)) {
            if i < last {
                assert(rest[i] == followers[i]);
                if exists|j: int|
                    0 <= j < i && (#[trigger] followers[j]).shard_id == followers[i].shard_id {
                    let j = choose|j: int|
                        0 <= j < i && (#[trigger] followers[j]).shard_id == followers[i].shard_id;
                    assert(rest[j] == followers[j]);
                }
                let a = choose|a: int|
                    0 <= a < remaining_followers(leaders, rest).len() && remaining_followers(
                        leaders,
                        rest,
                    )[a] == followers[i];
                assert(left[a] == followers[i]);
            } else {
                if exists|j: int|
                    0 <= j < i && (#[trigger] followers[j]).shard_id == followers[i].shard_id {
                    let j = choose|j: int|
                        0 <= j < i && (#[trigger] followers[j]).shard_id == followers[i].shard_id;
                    assert(rest[j] == followers[j]);
                    assert(has_leader(before, rest[j].shard_id));
                } else {
                    let j = choose|j: int|
                        0 <= j < leaders.len() && (#[trigger] leaders[j]).shard_id
                            == followers[i].shard_id;
                    assert(before.take(leaders.len() as int)[j] == before[j]);
                    assert(leads(before, followers[i].shard_id, j));
                }
                assert(left.last() == followers[i]);
            }
        }
    }
}

/// A sweep takes out exactly the members whose last heartbeat is more than the timeout ago; one
/// that never sent a heartbeat stays. Whoever stays is unchanged, and nobody is lost between
/// those who stay and those taken out.
pub proof fn law_a_sweep_takes_out_who_fell_silent(
    seen: Map<Seq<char>, u64>,
    members: Seq<Member>,
    now: u64,
    timeout: u64,
    m: Member,
)
    ensures
        heard(seen, members, now, timeout).contains(m) <==> members.contains(m) && (
        !seen.contains_key(m.node.node_id@) || now <= seen[m.node.node_id@] + timeout),
        unheard(seen, members, now, timeout).contains(m) <==> members.contains(m)
            && seen.contains_key(m.node.node_id@) && now > seen[m.node.node_id@] + timeout,
        heard(seen, members, now, timeout).len() + unheard(seen, members, now, timeout).len()
            == members.len(),
    decreases members.len(),
{
    let stays = |m: Member| !is_silent(seen, m, now, timeout);
    let goes = |m: Member| is_silent(seen, m, now, timeout);
    crate::ranking::lemma_filter_members(members, stays);
    crate::ranking::lemma_filter_members(members, goes);
    assert(stays(m) == !goes(m));
    reveal(Seq::filter);
    if members.len() > 0 {
        law_a_sweep_takes_out_who_fell_silent(seen, members.drop_last(), now, timeout, m);
    }
}

/// Registering a leader installs the node that asked, under its own id and address, as the one
/// leader of its shard; the leaders of other shards stay as they are.
pub proof fn law_a_registered_leader_leads_its_shard(
    leaders: Seq<Member>,
    shard_count: u32,
    req: RegisterNodeRequest,
    k: int,
)
    requires
        one_leader_per_shard(leaders, shard_count),
        req.role == 1,
    ensures
        ({
            let after = with_leader(leaders, registered(req));
            &&& exists|at: int|
                0 <= at < after.len() && (#[trigger] after[at]).shard_id == req.shard_id
                    && after[at].node.node_id == req.node_id && after[at].node.address
                    == req.address && after[at].node.role == NodeRole::Leader
            &&& forall|at: int|
                0 <= at < after.len() && (#[trigger] after[at]).shard_id == req.shard_id
                    ==> after[at].node.node_id == req.node_id
            &&& 0 <= k < leaders.len() && leaders[k].shard_id != req.shard_id ==> after.contains(
                leaders[k],
            )
            &&& forall|at: int|
                0 <= at < after.len() && (#[trigger] after[at]).shard_id != req.shard_id
                    ==> leaders.contains(after[at])
        }),
{
    let member = registered(req);
    let after = with_leader(leaders, member);
    if has_leader(leaders, req.shard_id) {
        let at = choose|at: int| leads(leaders, member.shard_id, at);
        assert(leads(leaders, req.shard_id, at));
        assert(after[at] == member);
        if 0 <= k < leaders.len() && leaders[k].shard_id != req.shard_id {
            assert(after[k] == leaders[k]);
        }
        assert forall|b: int|
            0 <= b < after.len() && (#[trigger] after[b]).shard_id
                == req.shard_id implies after[b].node.node_id == req.node_id by {
            if b != at {
                assert(leaders[b].shard_id == leaders[at].shard_id);
            }
        }
        assert forall|b: int|
            0 <= b < after.len() && (#[trigger] after[b]).shard_id
                != req.shard_id implies leaders.contains(after[b]) by {
            assert(after[b] == leaders[b]);
        }
    } else {
        assert(after[leaders.len() as int] == member);
        if 0 <= k < leaders.len() {
            assert(after[k] == leaders[k]);
        }
        assert forall|b: int|
            0 <= b < after.len() && (#[trigger] after[b]).shard_id
                == req.shard_id implies after[b].node.node_id == req.node_id by {
            if b < leaders.len() {
                assert(!leads(leaders, req.shard_id, b));
            }
        }
        assert forall|b: int|
            0 <= b < after.len() && (#[trigger] after[b]).shard_id
                != req.shard_id implies leaders.contains(after[b]) by {
            assert(after[b] == leaders[b]);
        }
    }
}

/// A request registers under what it says: its shard, node id and address, as a leader for the
/// wire number one and as a follower for two; no other number names a role.
pub proof fn law_registered_as_requested(req: RegisterNodeRequest)
    ensures
        registered(req).shard_id == req.shard_id,
        registered(req).node.node_id == req.node_id,
        registered(req).node.address == req.address,
        registered(req).node.role == NodeRole::Leader <==> req.role == 1,
        registered(req).node.role == NodeRole::Follower <==> req.role == 2,
        registered(req).node.role == NodeRole::Unspecified <==> req.role != 1 && req.role != 2,
{
}

/// The followers of a shard are listed by exactly the addresses under which they registered.
pub proof fn law_a_shards_addresses(members: Seq<Member>, shard_id: u32, i: int, address: Seq<char>)
    ensures
        0 <= i < members.len() && members[i].shard_id == shard_id ==> addresses_of(
            members_in(members, shard_id),
        ).contains(members[i].node.address@),
        addresses_of(members_in(members, shard_id)).contains(address) ==> exists|k: int|
            0 <= k < members.len() && (#[trigger] members[k]).shard_id == shard_id
                && members[k].node.address@ == address,
{
    let here = |m: Member| m.shard_id == shard_id;
    let some = members_in(members, shard_id);
    crate::ranking::lemma_filter_members(members, here);
    if 0 <= i < members.len() && members[i].shard_id == shard_id {
        assert(here(members[i]));
        assert(members.contains(members[i]));
        assert(some.contains(members[i]));
        let a = choose|a: int| 0 <= a < some.len() && some[a] == members[i];
        assert(addresses_of(some)[a] == members[i].node.address@);
    }
    if addresses_of(some).contains(address) {
        let a = choose|a: int| 0 <= a < some.len() && addresses_of(some)[a] == address;
        assert(some.contains(some[a]));
        assert(members.contains(some[a]) && here(some[a]));
        let k = choose|k: int| 0 <= k < members.len() && members[k] == some[a];
        assert(members[k].node.address@ == address);
    }
}

/// The table of virtual shards deals them out in turn: the first goes to group zero, each next
/// one to the next group, and after the last group the turn is back at zero.
pub proof fn law_virtual_shards_are_dealt_in_turn(v: nat, shard_count: u32, i: int)
    requires
        shard_count > 0,
        0 <= i < v,
    ensures
        round_robin(v, shard_count).len() == v,
        round_robin(v, shard_count)[i] < shard_count,
        round_robin(v, shard_count)[0] == 0,
        i + 1 < v ==> round_robin(v, shard_count)[i + 1] == if round_robin(v, shard_count)[i] + 1
            == shard_count {
            0
        } else {
            round_robin(v, shard_count)[i] + 1
        },
{
    let n = shard_count as int;
    assert(0 <= i % n < n && 0 <= (i + 1) % n < n) by (nonlinear_arith)
        requires
            n > 0,
    ;
    assert((i + 1) % n == if i % n + 1 == n {
        0
    } else {
        i % n + 1
    }) by (nonlinear_arith)
        requires
            n > 0,
            i >= 0,
    ;
    assert(0int % n == 0) by (nonlinear_arith)
        requires
            n > 0,
    ;
}

/// A node's age adds up with its last heartbeat to now; one that was never seen, or was seen in
/// the future, is shown as just seen.
pub proof fn law_age_is_time_since_the_heartbeat(
    seen: Map<Seq<char>, u64>,
    node_id: Seq<char>,
    now: u64,
)
    ensures
        seen.contains_key(node_id) && seen[node_id] <= now ==> seen[node_id] + since_seen(
            seen,
            node_id,
            now,
        ) == now,
        !seen.contains_key(node_id) || now < seen[node_id] ==> since_seen(seen, node_id, now) == 0,
{
}

/// A state list shows each member as it is registered: its own id, address, role and shard, how
/// long ago it was heard, and whether it is being drained.
pub proof fn law_states_show_the_members(
    states: Seq<NodeState>,
    members: Seq<Member>,
    registry: Registry,
    now: u64,
    i: int,
)
    requires
        shows_all(states, members, registry, now),
        0 <= i < members.len(),
    ensures
        states.len() == members.len(),
        states[i].node_id@ == members[i].node.node_id@,
        states[i].address@ == members[i].node.address@,
        states[i].role == members[i].node.role,
        states[i].shard_id == members[i].shard_id,
        states[i].draining <==> registry.draining().contains(members[i].node.node_id@),
        registry.seen().contains_key(members[i].node.node_id@) && registry.seen()[members[i].node.node_id@]
            <= now ==> registry.seen()[members[i].node.node_id@] + states[i].millis_since_seen
            == now,
{
    assert(shows(states[i], members[i], registry, now));
}

/// A drain marker is set once and stays: the marked node is listed, who was marked before still
/// is, nobody else becomes marked, and marking again changes nothing.
pub proof fn law_a_drain_marker_sticks(
    draining: Seq<Seq<char>>,
    node_id: Seq<char>,
    other: Seq<char>,
)
    ensures
        with_marker(draining, node_id).contains(node_id),
        other != node_id ==> (with_marker(draining, node_id).contains(other)
            <==> draining.contains(other)),
        with_marker(with_marker(draining, node_id), node_id) == with_marker(draining, node_id),
        draining.no_duplicates() ==> with_marker(draining, node_id).no_duplicates(),
{
    let after = with_marker(draining, node_id);
    if !draining.contains(node_id) {
        assert(after[draining.len() as int] == node_id);
        if draining.contains(other) {
            let i = choose|i: int| 0 <= i < draining.len() && draining[i] == other;
            assert(after[i] == other);
        }
    }
}

/// A node's heartbeat is answered with the role that it is listed in, a leader's first, and with
/// none where it is not listed.
pub proof fn law_heartbeat_tells_the_listed_role(registry: Registry, node_id: Seq<char>, i: int)
    ensures
        0 <= i < registry.leaders().len() && registry.leaders()[i].node.node_id@ == node_id
            ==> role_of(registry, node_id) == Some(NodeRole::Leader),
        0 <= i < registry.followers().len() && registry.followers()[i].node.node_id@ == node_id
            ==> role_of(registry, node_id) is Some,
        role_of(registry, node_id) == Some(NodeRole::Leader) ==> exists|k: int|
            0 <= k < registry.leaders().len() && (#[trigger] registry.leaders()[k]).node.node_id@
                == node_id,
        role_of(registry, node_id) == Some(NodeRole::Follower) ==> exists|k: int|
            0 <= k < registry.followers().len() && (#[trigger] registry.followers()[k]).node.node_id@
                == node_id,
        role_of(registry, node_id) != Some(NodeRole::Unspecified),
{
}

/// Each change of the placement gets the next version number; only past the largest does the
/// count start over.
pub proof fn law_versions_count_up(version: u64)
    ensures
        version < u64::MAX ==> next_version(version) == version + 1,
        next_version(u64::MAX) == 0,
{
}

/// An election moves leadership and nothing else: the elected follower leads its shard under its
/// own node id and address, the leader that it replaced follows under its own, every other
/// leader and follower stays as it is, and nobody is lost.
pub proof fn law_an_election_swaps_the_roles(
    node_id: Seq<char>,
    id: u32,
    leaders: Seq<Member>,
    followers: Seq<Member>,
    new_leaders: Seq<Member>,
    new_followers: Seq<Member>,
    shard_count: u32,
    k: int,
)
    requires
        one_leader_per_shard(leaders, shard_count),
        takes_over(node_id, id, leaders, followers, new_leaders, new_followers),
    ensures
        exists|at: int, slot: int|
            #![trigger followers[at], new_leaders[slot]]
            0 <= at < followers.len() && 0 <= slot < new_leaders.len() && {
                let was = followers[at];
                let leads = new_leaders[slot];
                &&& was.node.node_id@ == node_id && was.shard_id == id
                &&& leads.shard_id == id
                &&& leads.node.node_id == was.node.node_id
                &&& leads.node.address == was.node.address
                &&& leads.node.role == NodeRole::Leader
            },
        0 <= k < leaders.len() && leaders[k].shard_id == id ==> exists|b: int|
            0 <= b < new_followers.len() && {
                let follows = #[trigger] new_followers[b];
                &&& follows.shard_id == id
                &&& follows.node.node_id == leaders[k].node.node_id
                &&& follows.node.address == leaders[k].node.address
                &&& follows.node.role == NodeRole::Follower
            },
        0 <= k < leaders.len() && leaders[k].shard_id != id ==> new_leaders.contains(leaders[k]),
        0 <= k < followers.len() && followers[k].node.node_id@ != node_id
            ==> new_followers.contains(followers[k]),
        new_leaders.len() + new_followers.len() == leaders.len() + followers.len(),
{
    let at = choose|at: int| #[trigger]
        first_place(followers, node_id, at) && {
            let member = followers[at];
            let rest = followers.remove(at);
            &&& id == member.shard_id
            &&& new_leaders == with_leader(leaders, in_role(member, NodeRole::Leader))
            &&& has_leader(leaders, id) ==> exists|slot: int| #[trigger]
                leads(leaders, id, slot) && new_followers == rest.push(
                    in_role(leaders[slot], NodeRole::Follower),
                )
            &&& !has_leader(leaders, id) ==> new_followers == rest
        };
    let member = in_role(followers[at], NodeRole::Leader);
    let rest = followers.remove(at);
    if 0 <= k < followers.len() && followers[k].node.node_id@ != node_id {
        let b = if k < at { k } else { k - 1 };
        assert(rest[b] == followers[k]);
        assert(new_followers[b] == followers[k]);
    }
    if has_leader(leaders, id) {
        let slot = choose|slot: int| #[trigger]
            leads(leaders, id, slot) && new_followers == rest.push(
                in_role(leaders[slot], NodeRole::Follower),
            );
        lemma_leader_slot(leaders, shard_count, member, slot);
        assert(followers[at].shard_id == id && new_leaders[slot] == member);
        if 0 <= k < leaders.len() {
            if leaders[k].shard_id == id {
                assert(k == slot);
                assert(new_followers[rest.len() as int] == in_role(
                    leaders[slot],
                    NodeRole::Follower,
                ));
            } else {
                assert(new_leaders[k] == leaders[k]);
            }
        }
    } else {
        assert(followers[at].shard_id == id && new_leaders[leaders.len() as int] == member);
        if 0 <= k < leaders.len() {
            assert(!leads(leaders, id, k));
            assert(new_leaders[k] == leaders[k]);
        }
    }
}

/// Members are listed each by its own address, in order.
pub proof fn law_addresses_are_listed_in_order(members: Seq<Member>, i: int)
    ensures
        addresses_of(members).len() == members.len(),
        0 <= i < members.len() ==> addresses_of(members)[i] == members[i].node.address@,
{
}

/// A virtual shard can be moved exactly where it is in the table and the group is one of the
/// shards; a refusal names the one that is out of range.
pub proof fn law_moves_stay_in_range(registry: Registry, vshard: u32, group: u32)
    ensures
        reassignable(registry, vshard, group) <==> vshard < registry.vshards().len() && group
            < registry.spec_shard_count(),
        vshard >= registry.vshards().len() ==> reassign_refusal(registry, vshard, group)
            == "vshard "@ + decimal_of(vshard as nat) + " out of range for V="@ + decimal_of(
            registry.vshards().len(),
        ),
        vshard < registry.vshards().len() ==> reassign_refusal(registry, vshard, group) == "group "@
            + decimal_of(group as nat) + " out of range for N="@ + decimal_of(
            registry.spec_shard_count() as nat,
        ),
{
}

/// A registration is taken exactly where the shard is there and the role is a leader's or a
/// follower's. A follower is added last, a leader leads its shard, and what is not taken changes
/// nothing; heartbeats, placement and markers are not touched.
pub proof fn law_a_registration_changes_its_own_list(
    before: Registry,
    req: RegisterNodeRequest,
    response: RegisterNodeResponse,
    after: Registry,
)
    requires
        registers(before, req, response, after),
        before.well_formed(),
    ensures
        response.accepted <==> req.shard_id < before.spec_shard_count() && (req.role == 1
            || req.role == 2),
        response.cluster_size == before.spec_shard_count(),
        !response.accepted ==> after.leaders() == before.leaders() && after.followers()
            == before.followers(),
        response.accepted && req.role == 2 ==> {
            let added = after.followers().last();
            &&& after.followers().len() == before.followers().len() + 1
            &&& after.followers().drop_last() == before.followers()
            &&& added.shard_id == req.shard_id
            &&& added.node.node_id == req.node_id
            &&& added.node.address == req.address
            &&& added.node.role == NodeRole::Follower
            &&& after.leaders() == before.leaders()
        },
        response.accepted && req.role == 1 ==> after.followers() == before.followers() && exists|
            at: int,
        |
            0 <= at < after.leaders().len() && (#[trigger] after.leaders()[at]).shard_id
                == req.shard_id && after.leaders()[at].node.node_id == req.node_id
                && after.leaders()[at].node.address == req.address && after.leaders()[at].node.role
                == NodeRole::Leader,
        after.seen() == before.seen(),
        after.vshards() == before.vshards(),
        after.draining() == before.draining(),
        after.spec_placement_version() == before.spec_placement_version(),
{
    if response.accepted && req.role == 1 {
        law_a_registered_leader_leads_its_shard(
            before.leaders(),
            before.spec_shard_count(),
            req,
            0,
        );
    }
    if response.accepted && req.role == 2 {
        assert(after.followers().drop_last() =~= before.followers());
    }
}

/// A node is known exactly where one of the lists names it, and a shard is led exactly where one
/// of the leaders is of that shard.
pub proof fn law_the_lists_tell_who_is_known(
    registry: Registry,
    node_id: Seq<char>,
    leaders: Seq<Member>,
    shard_id: u32,
)
    ensures
        registry.knows(node_id) <==> (exists|i: int|
            0 <= i < registry.leaders().len() && (#[trigger] registry.leaders()[i]).node.node_id@
                == node_id) || (exists|i: int|
            0 <= i < registry.followers().len() && (#[trigger] registry.followers()[i]).node.node_id@
                == node_id),
        registry.knows(node_id) <==> role_of(registry, node_id) is Some,
        has_leader(leaders, shard_id) <==> exists|i: int|
            0 <= i < leaders.len() && (#[trigger] leaders[i]).shard_id == shard_id,
{
    if exists|i: int| 0 <= i < leaders.len() && (#[trigger] leaders[i]).shard_id == shard_id {
        let i = choose|i: int| 0 <= i < leaders.len() && (#[trigger] leaders[i]).shard_id
            == shard_id;
        assert(leads(leaders, shard_id, i));
    }
    if has_leader(leaders, shard_id) {
        let i = choose|i: int| leads(leaders, shard_id, i);
        assert(leaders[i].shard_id == shard_id);
    }
}

/// Members keep their order in a sweep and in a listing of their shard.
pub proof fn law_members_keep_their_order(
    seen: Map<Seq<char>, u64>,
    members: Seq<Member>,
    m: Member,
    now: u64,
    timeout: u64,
    shard_id: u32,
)
    ensures
        ({
            let gone = seen.contains_key(m.node.node_id@) && now > seen[m.node.node_id@] + timeout;
            let stay = heard(seen, members, now, timeout);
            let go = unheard(seen, members, now, timeout);
            &&& !gone ==> heard(seen, members.push(m), now, timeout) == stay.push(m) && unheard(
                seen,
                members.push(m),
                now,
                timeout,
            ) == go
            &&& gone ==> heard(seen, members.push(m), now, timeout) == stay && unheard(
                seen,
                members.push(m),
                now,
                timeout,
            ) == go.push(m)
        }),
        m.shard_id == shard_id ==> members_in(members.push(m), shard_id) == members_in(
            members,
            shard_id,
        ).push(m),
        m.shard_id != shard_id ==> members_in(members.push(m), shard_id) == members_in(
            members,
            shard_id,
        ),
{
    reveal(Seq::filter);
    assert(members.push(m).drop_last() =~= members);
}

/// Followers that are not promoted keep their order, and so do those that are.
pub proof fn law_followers_keep_their_order(
    leaders: Seq<Member>,
    followers: Seq<Member>,
    f: Member,
)
    ensures
        ({
            let led = (exists|i: int|
                0 <= i < leaders.len() && (#[trigger] leaders[i]).shard_id == f.shard_id) || (
            exists|i: int|
                0 <= i < followers.len() && (#[trigger] followers[i]).shard_id == f.shard_id);
            let left = remaining_followers(leaders, followers);
            let up = promotions(leaders, followers);
            &&& led ==> remaining_followers(leaders, followers.push(f)) == left.push(f)
                && promotions(leaders, followers.push(f)) == up
            &&& !led ==> remaining_followers(leaders, followers.push(f)) == left && promotions(
                leaders,
                followers.push(f),
            ) == up.push(f)
        }),
{
    assert(followers.push(f).drop_last() =~= followers);
    let after = promoted_leaders(leaders, followers);
    law_failover_serves_every_staffed_shard(leaders, followers);
    if has_leader(after, f.shard_id) {
        let at = choose|at: int| leads(after, f.shard_id, at);
        law_promoted_leaders_are_followers(leaders, followers, at);
        if at < leaders.len() {
            assert(leaders[at].shard_id == f.shard_id);
        }
    }
    if exists|i: int| 0 <= i < leaders.len() && (#[trigger] leaders[i]).shard_id == f.shard_id {
        let i = choose|i: int|
            0 <= i < leaders.len() && (#[trigger] leaders[i]).shard_id == f.shard_id;
        assert(after.take(leaders.len() as int)[i] == after[i]);
        assert(leads(after, f.shard_id, i));
    }
    if exists|i: int|
        0 <= i < followers.len() && (#[trigger] followers[i]).shard_id == f.shard_id {
        let i = choose|i: int|
            0 <= i < followers.len() && (#[trigger] followers[i]).shard_id == f.shard_id;
        assert(has_leader(after, followers[i].shard_id));
    }
}

} // verus!
