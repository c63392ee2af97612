//! The coordinator state group: replicating operator intent across coordinator replicas.
//!
//! The shard map is a derived view that heartbeats rebuild on every replica. What must survive a
//! coordinator's death is the operator intent: the virtual-shard table and the drain set. That,
//! and only that, is replicated.

use vstd::prelude::*;
use vstd::string::*;

use crate::registry::{next_version, with_marker, Member, Registry};
use crate::state_machine::StateMachineApp;
use crate::text::{
    cut_once, decimal, decimal_of, owned, parse_unsigned, split_once, split_trimmed, texts, trim,
    trimmed, trimmed_pieces, unsigned_value,
};

verus! {

/// One replicated operator-intent command.
#[derive(Debug, PartialEq)]
pub enum Command {
    ReassignVShard { vshard: u32, group: u32 },
    DrainNode { node_id: String },
}

/// A command as a value.
pub enum CommandView {
    ReassignVShard(u32, u32),
    DrainNode(Seq<char>),
}

impl View for Command {
    type V = CommandView;

    open spec fn view(&self) -> CommandView {
        match self {
            Command::ReassignVShard { vshard, group } => CommandView::ReassignVShard(
                *vshard,
                *group,
            ),
            Command::DrainNode { node_id } => CommandView::DrainNode(node_id@),
        }
    }
}

/// The bytes of a command, as `bincode` writes them.
pub uninterp spec fn command_bytes(command: CommandView) -> Seq<u8>;

/// The command that `bincode` reads in bytes; `None` where it reads none.
pub uninterp spec fn command_in(bytes: Seq<u8>) -> Option<CommandView>;

/// The bytes of an operator intent (table and drain set), as `bincode` writes them.
pub uninterp spec fn authority_bytes(vshards: Seq<u32>, draining: Seq<Seq<char>>) -> Seq<u8>;

/// The operator intent that `bincode` reads in bytes; `None` where it reads none.
pub uninterp spec fn authority_in(bytes: Seq<u8>) -> Option<(Seq<u32>, Seq<Seq<char>>)>;

/// What a plain result stands for: a reassignment, or a drained node.
pub open spec fn plain_command(plain: Result<(u32, u32), String>) -> CommandView {
    match plain {
        Ok((vshard, group)) => CommandView::ReassignVShard(vshard, group),
        Err(node_id) => CommandView::DrainNode(node_id@),
    }
}

/// `bincode::serialize` of a two-variant value, whose first variant holds two numbers and whose
/// second holds a text, named [`command_bytes`]. What is written is read back.
#[verifier::external_body]
fn encode_command(plain: &Result<(u32, u32), String>) -> (bytes: Vec<u8>)
    ensures
        bytes@ == command_bytes(plain_command(*plain)),
        command_in(bytes@) == Some(plain_command(*plain)),
{
    bincode::serialize(plain).unwrap_or_default()
}

/// `bincode::deserialize` of such a two-variant value, named [`command_in`]; `None` for an error.
#[verifier::external_body]
fn decode_command(bytes: &Vec<u8>) -> (plain: Option<Result<(u32, u32), String>>)
    ensures
        match plain {
            Some(p) => command_in(bytes@) == Some(plain_command(p)),
            None => command_in(bytes@) is None,
        },
{
    bincode::deserialize(bytes).ok()
}

/// `bincode::serialize` of a list of numbers and a list of texts, named [`authority_bytes`]. What
/// is written is read back.
#[verifier::external_body]
fn encode_authority(vshards: &Vec<u32>, draining: &Vec<String>) -> (bytes: Vec<u8>)
    ensures
        bytes@ == authority_bytes(vshards@, texts(draining@)),
        authority_in(bytes@) == Some((vshards@, texts(draining@))),
{
    bincode::serialize(&(vshards, draining)).unwrap_or_default()
}

/// `bincode::deserialize` of a list of numbers and a list of texts, named [`authority_in`]; `None`
/// for an error.
#[verifier::external_body]
fn decode_authority(bytes: &Vec<u8>) -> (intent: Option<(Vec<u32>, Vec<String>)>)
    ensures
        match intent {
            Some((vshards, draining)) => authority_in(bytes@) == Some(
                (vshards@, texts(draining@)),
            ),
            None => authority_in(bytes@) is None,
        },
{
    bincode::deserialize(bytes).ok()
}

impl Command {
    /// The bytes of the command; they decode to it.
    pub fn encode(&self) -> (bytes: Vec<u8>)
        ensures
            bytes@ == command_bytes(self@),
            command_in(bytes@) == Some(self@),
    {
        let plain: Result<(u32, u32), String> = match self {
            Command::ReassignVShard { vshard, group } => Ok((*vshard, *group)),
            Command::DrainNode { node_id } => Err(node_id.clone()),
        };
        encode_command(&plain)
    }

    /// The command in bytes, if they hold one.
    pub fn decode(bytes: &Vec<u8>) -> (command: Option<Command>)
        ensures
            match command {
                Some(c) => command_in(bytes@) == Some(c@),
                None => command_in(bytes@) is None,
            },
    {
        match decode_command(bytes) {
            Some(Ok((vshard, group))) => Some(Command::ReassignVShard { vshard, group }),
            Some(Err(node_id)) => Some(Command::DrainNode { node_id }),
            None => None,
        }
    }
}

/// The replicated state: the operator intent, and the cluster size it is checked against.
pub struct ControlState {
    pub shard_count: u32,
    pub vshards: Seq<u32>,
    pub draining: Seq<Seq<char>>,
}

/// The state after a command. A reassignment out of range changes nothing: every replica reaches
/// the same verdict, because only replicated state and static configuration decide.
pub open spec fn after_command(state: ControlState, command: CommandView) -> ControlState {
    match command {
        CommandView::ReassignVShard(vshard, group) => if vshard < state.vshards.len() && group
            < state.shard_count {
            ControlState { vshards: state.vshards.update(vshard as int, group), ..state }
        } else {
            state
        },
        CommandView::DrainNode(node_id) => ControlState {
            draining: with_marker(state.draining, node_id),
            ..state
        },
    }
}

/// What a coordinator holds beside the intent: the view of the cluster, which no command changes,
/// and the placement version.
pub struct ControlKept {
    pub leaders: Seq<Member>,
    pub followers: Seq<Member>,
    pub seen: Map<Seq<char>, u64>,
    pub version: u64,
}

/// What is held beside the intent after a command: a reassignment in range is a new version.
pub open spec fn kept_after_command(
    kept: ControlKept,
    state: ControlState,
    command: CommandView,
) -> ControlKept {
    match command {
        CommandView::ReassignVShard(vshard, group) => if vshard < state.vshards.len() && group
            < state.shard_count {
            ControlKept { version: next_version(kept.version), ..kept }
        } else {
            kept
        },
        CommandView::DrainNode(_) => kept,
    }
}

/// The state after restored bytes: the intent they hold, or an empty one.
pub open spec fn after_restore(state: ControlState, bytes: Seq<u8>) -> ControlState {
    match authority_in(bytes) {
        Some((vshards, draining)) => ControlState { vshards, draining, ..state },
        None => ControlState { vshards: Seq::empty(), draining: Seq::empty(), ..state },
    }
}

/// The state-machine application: committed commands change the operator intent of the registry
/// that the serving path reads.
pub struct ControlApp(pub Registry);

impl ControlApp {
    /// Apply one decoded command.
    pub fn apply_command(&mut self, command: Command)
        ensures
            old(self).0.well_formed() ==> final(self).0.well_formed(),
            final(self).0.same_view(old(self).0),
            final(self).state() == after_command(old(self).state(), command@),
            final(self).kept() == kept_after_command(
                old(self).kept(),
                old(self).state(),
                command@,
            ),
    {
        match command {
            Command::ReassignVShard { vshard, group } => {
                let result = self.0.reassign_vshard(vshard, group);
            },
            Command::DrainNode { node_id } => {
                self.0.apply_drain_marker(node_id.as_str());
            },
        }
    }
}

impl StateMachineApp for ControlApp {
    type State = ControlState;

    type Kept = ControlKept;

    open spec fn state(&self) -> ControlState {
        ControlState {
            shard_count: self.0.spec_shard_count(),
            vshards: self.0.vshards(),
            draining: self.0.draining(),
        }
    }

    open spec fn kept(&self) -> ControlKept {
        ControlKept {
            leaders: self.0.leaders(),
            followers: self.0.followers(),
            seen: self.0.seen(),
            version: self.0.spec_placement_version(),
        }
    }

    open spec fn well_formed(&self) -> bool {
        self.0.well_formed()
    }

    open spec fn applied(state: ControlState, payload: Seq<u8>) -> (ControlState, u32) {
        match command_in(payload) {
            Some(command) => (after_command(state, command), 1),
            None => (state, 0),
        }
    }

    open spec fn kept_after(kept: ControlKept, state: ControlState, payload: Seq<u8>) -> ControlKept {
        match command_in(payload) {
            Some(command) => kept_after_command(kept, state, command),
            None => kept,
        }
    }

    open spec fn kept_restored(kept: ControlKept) -> ControlKept {
        ControlKept { version: next_version(kept.version), ..kept }
    }

    open spec fn same_config(a: ControlState, b: ControlState) -> bool {
        a.shard_count == b.shard_count
    }

    open spec fn dumped(state: ControlState) -> Seq<u8> {
        authority_bytes(state.vshards, state.draining)
    }

    open spec fn restored(state: ControlState, bytes: Seq<u8>) -> (ControlState, u32) {
        (
            after_restore(state, bytes),
            (after_restore(state, bytes).vshards.len() + after_restore(
                state,
                bytes,
            ).draining.len()) as u32,
        )
    }

    fn apply(&mut self, payload: &Vec<u8>) -> (count: u32) {
        match Command::decode(payload) {
            Some(command) => {
                self.apply_command(command);
                1
            },
            None => 0,
        }
    }

    fn snapshot_bytes(&self) -> (bytes: Vec<u8>) {
        let (vshards, draining) = self.0.authority();
        encode_authority(&vshards, &draining)
    }

    fn restore(&mut self, bytes: &Vec<u8>) -> (count: u32) {
        let (vshards, draining) = match decode_authority(bytes) {
            Some(intent) => intent,
            None => (Vec::new(), Vec::new()),
        };
        let records: u128 = vshards.len() as u128 + draining.len() as u128;
        proof {
            assert(texts(draining@).len() == draining@.len());
            if authority_in(bytes@) is None {
                assert(texts(draining@) =~= Seq::<Seq<char>>::empty());
            }
        }
        self.0.set_authority(vshards, draining);
        records as u32
    }

    fn unit(&self) -> (noun: &'static str)
        ensures
            noun@ == "authority records"@,
    {
        "authority records"
    }
}

/// Why a proposal could not be committed here.
#[derive(Debug, PartialEq)]
pub enum ProposeError {
    /// Another replica leads: its coordinator address, to which the whole call is forwarded.
    Leader(String),
    /// The group cannot take writes right now.
    Unavailable(String),
}

/// What became of a write to the state group.
#[derive(Debug, PartialEq)]
pub enum WriteOutcome {
    Committed,
    /// The write failed: the leader that the group knows, its address, and the error's text.
    Failed { leader_id: Option<u64>, leader_addr: Option<String>, error: String },
}

/// This coordinator's membership in the state group: its own id, and the address of every
/// replica.
#[derive(Clone, Debug, PartialEq)]
pub struct ControlPlane {
    pub my_id: u64,
    pub peers: Vec<(u64, String)>,
    /// Whether this replica initializes the group: it has the smallest id.
    pub bootstraps: bool,
}

/// Why a state-group configuration is refused.
#[derive(Debug, PartialEq)]
pub enum ControlConfigError {
    /// The own id is no number.
    BadId(String),
    /// A peer without an equals sign.
    BadEntry(String),
    /// A peer whose id is no number.
    BadPeerId(String),
    /// The own id is not among the peers.
    NotAPeer(u64),
}

impl ControlConfigError {
    /// The message of the error, where `fault` is what the number parser said of a bad number.
    pub open spec fn spec_message(self, fault: Seq<char>) -> Seq<char> {
        match self {
            ControlConfigError::BadId(_) => fault,
            ControlConfigError::BadEntry(part) => "bad AETHER_CONTROL_PEERS entry: "@ + part@,
            ControlConfigError::BadPeerId(_) => fault,
            ControlConfigError::NotAPeer(id) => "AETHER_CONTROL_ID "@ + decimal_of(id as nat)
                + " is not in AETHER_CONTROL_PEERS"@,
        }
    }

    /// The message of the error, where `fault` is what the number parser said of a bad number.
    pub fn message(&self, fault: &str) -> (text: String)
        ensures
            text@ == self.spec_message(fault@),
    {
        match self {
            ControlConfigError::BadId(_) => owned(fault),
            ControlConfigError::BadEntry(part) => {
                let mut text = owned("bad AETHER_CONTROL_PEERS entry: ");
                text.append(part.as_str());
                text
            },
            ControlConfigError::BadPeerId(_) => owned(fault),
            ControlConfigError::NotAPeer(id) => {
                let mut text = owned("AETHER_CONTROL_ID ");
                text.append(decimal(*id).as_str());
                text.append(" is not in AETHER_CONTROL_PEERS");
                text
            },
        }
    }
}

/// What a peer entry means.
pub enum PeerMeaning {
    NoEquals(Seq<char>),
    BadPeerId(Seq<char>),
    Peer(u64, Seq<char>),
}

/// What a peer entry (`id=address`) means.
pub open spec fn peer_meaning(part: Seq<char>) -> PeerMeaning {
    match cut_once(part, "="@) {
        None => PeerMeaning::NoEquals(part),
        Some((id, addr)) => match unsigned_value(trimmed(id), u64::MAX as nat) {
            None => PeerMeaning::BadPeerId(trimmed(id)),
            Some(n) => PeerMeaning::Peer(n as u64, trimmed(addr)),
        },
    }
}

/// The peers that the entries name, the last address of an id winning; or the meaning of the
/// first entry that is refused.
pub open spec fn peer_table(parts: Seq<Seq<char>>) -> Result<Map<u64, Seq<char>>, PeerMeaning>
    decreases parts.len(),
{
    if parts.len() == 0 {
        Ok(Map::empty())
    } else {
        match peer_table(parts.drop_last()) {
            Err(fault) => Err(fault),
            Ok(table) => match peer_meaning(parts.last()) {
                PeerMeaning::Peer(id, addr) => Ok(table.insert(id, addr)),
                fault => Err(fault),
            },
        }
    }
}

proof fn lemma_first_fault_stays(parts: Seq<Seq<char>>, k: int)
    requires
        0 <= k <= parts.len(),
        peer_table(parts.take(k)) is Err,
    ensures
        peer_table(parts) == peer_table(parts.take(k)),
    decreases parts.len(),
{
    if k < parts.len() {
        assert(parts.drop_last().take(k) =~= parts.take(k));
        lemma_first_fault_stays(parts.drop_last(), k);
    } else {
        assert(parts.take(k) =~= parts);
    }
}

/// Whether a peer list is a table: one entry per id, with its address.
pub open spec fn lists_table(peers: Seq<(u64, String)>, table: Map<u64, Seq<char>>) -> bool {
    &&& forall|i: int, j: int|
        #![trigger peers[i], peers[j]]
        0 <= i < peers.len() && 0 <= j < peers.len() && peers[i].0 == peers[j].0 ==> i == j
    &&& forall|i: int|
        0 <= i < peers.len() ==> table.contains_key((#[trigger] peers[i]).0) && table[peers[i].0]
            == peers[i].1@
    &&& forall|id: u64| #[trigger]
        table.contains_key(id) ==> exists|i: int|
            0 <= i < peers.len() && (#[trigger] peers[i]).0 == id
}

fn put_peer(peers: &mut Vec<(u64, String)>, id: u64, addr: String, Ghost(table): Ghost<
    Map<u64, Seq<char>>,
>)
    requires
        lists_table(old(peers)@, table),
    ensures
        lists_table(final(peers)@, table.insert(id, addr@)),
{
    let ghost before = peers@;
    let ghost next = table.insert(id, addr@);
    let mut i: usize = 0;
    while i < peers.len()
        invariant
            i <= peers@.len(),
            peers@ == before,
            lists_table(before, table),
            next == table.insert(id, addr@),
            forall|j: int| 0 <= j < i ==> (#[trigger] before[j]).0 != id,
        decreases peers@.len() - i,
    {
        if peers[i].0 == id {
            peers.set(i, (id, addr));
            proof {
                let now = peers@;
                assert forall|k: u64| #[trigger] next.contains_key(k) implies exists|j: int|
                    0 <= j < now.len() && (#[trigger] now[j]).0 == k by {
                    if k == id {
                        assert(now[i as int].0 == k);
                    } else {
                        assert(table.contains_key(k));
                        let j = choose|j: int| 0 <= j < before.len() && (#[trigger] before[j]).0 == k;
                        assert(now[j].0 == k);
                    }
                }
                assert forall|j: int| 0 <= j < now.len() implies next.contains_key(
                    (#[trigger] now[j]).0,
                ) && next[now[j].0] == now[j].1@ by {
                    if j != i {
                        assert(now[j] == before[j]);
                        assert(before[i as int].0 == id);
                    }
                }
                assert forall|a: int, b: int|
                    #![trigger now[a], now[b]]
                    0 <= a < now.len() && 0 <= b < now.len() && now[a].0 == now[b].0 implies a
                    == b by {
                    assert(before[a].0 == now[a].0);
                    assert(before[b].0 == now[b].0);
                }
            }
            return;
        }
        i = i + 1;
    }
    peers.push((id, addr));
    proof {
        let now = peers@;
        assert forall|k: u64| #[trigger] next.contains_key(k) implies exists|j: int|
            0 <= j < now.len() && (#[trigger] now[j]).0 == k by {
            if k == id {
                assert(now[before.len() as int].0 == k);
            } else {
                assert(table.contains_key(k));
                let j = choose|j: int| 0 <= j < before.len() && (#[trigger] before[j]).0 == k;
                assert(now[j].0 == k);
            }
        }
        assert forall|j: int| 0 <= j < now.len() implies next.contains_key((#[trigger] now[j]).0)
            && next[now[j].0] == now[j].1@ by {
            if j < before.len() {
                assert(now[j] == before[j]);
            }
        }
        assert forall|a: int, b: int|
            #![trigger now[a], now[b]]
            0 <= a < now.len() && 0 <= b < now.len() && now[a].0 == now[b].0 implies a == b by {
            if a < before.len() {
                assert(before[a] == now[a]);
            }
            if b < before.len() {
                assert(before[b] == now[b]);
            }
        }
    }
}

/// What a state-group configuration makes: nothing unless both variables are set, the membership,
/// or the first thing that is wrong.
pub open spec fn configures(
    result: Result<Option<ControlPlane>, ControlConfigError>,
    id: Option<Seq<char>>,
    peers: Option<Seq<char>>,
) -> bool {
    match (id, peers) {
        (Some(id), Some(raw)) => match (
            unsigned_value(id, u64::MAX as nat),
            peer_table(trimmed_pieces(raw, ',')),
            result,
        ) {
            (None, _, Err(ControlConfigError::BadId(text))) => text@ == id,
            (
                Some(_),
                Err(PeerMeaning::NoEquals(part)),
                Err(ControlConfigError::BadEntry(text)),
            ) => text@ == part,
            (
                Some(_),
                Err(PeerMeaning::BadPeerId(word)),
                Err(ControlConfigError::BadPeerId(text)),
            ) => text@ == word,
            (Some(n), Ok(table), Err(ControlConfigError::NotAPeer(me))) => me == n
                && !table.contains_key(n as u64),
            (Some(n), Ok(table), Ok(Some(plane))) => {
                &&& plane.my_id == n
                &&& table.contains_key(n as u64)
                &&& lists_table(plane.peers@, table)
                &&& plane.bootstraps == (forall|k: u64| #[trigger]
                    table.contains_key(k) ==> n <= k)
            },
            _ => false,
        },
        _ => result == Ok::<Option<ControlPlane>, ControlConfigError>(None),
    }
}

fn parse_peers(raw: &str) -> (result: Result<
    (Vec<(u64, String)>, Ghost<Map<u64, Seq<char>>>),
    ControlConfigError,
>)
    ensures
        match (peer_table(trimmed_pieces(raw@, ',')), result) {
            (Ok(table), Ok((peers, known))) => known@ == table && lists_table(peers@, table),
            (Err(PeerMeaning::NoEquals(part)), Err(ControlConfigError::BadEntry(text))) => text@
                == part,
            (Err(PeerMeaning::BadPeerId(word)), Err(ControlConfigError::BadPeerId(text))) => text@
                == word,
            _ => false,
        },
{
    let parts = split_trimmed(raw, ',');
    let ghost all = texts(parts@);
    let ghost mut table = Map::<u64, Seq<char>>::empty();
    let mut peers: Vec<(u64, String)> = Vec::new();
    let mut i: usize = 0;
    assert(all.take(0) =~= Seq::<Seq<char>>::empty());
    while i < parts.len()
        invariant
            i <= parts@.len(),
            all == texts(parts@),
            all == trimmed_pieces(raw@, ','),
            peer_table(all.take(i as int)) == Ok::<Map<u64, Seq<char>>, PeerMeaning>(table),
            lists_table(peers@, table),
        decreases parts@.len() - i,
    {
        proof {
            let seen = all.take(i + 1);
            assert(seen.drop_last() =~= all.take(i as int));
            assert(seen.last() == parts@[i as int]@);
        }
        match split_once(parts[i].as_str(), "=") {
            None => {
                proof {
                    lemma_first_fault_stays(all, i + 1);
                }
                return Err(ControlConfigError::BadEntry(parts[i].clone()));
            },
            Some((id, addr)) => {
                let id = trim(id.as_str());
                match parse_unsigned(id.as_str(), u64::MAX) {
                    None => {
                        proof {
                            lemma_first_fault_stays(all, i + 1);
                        }
                        return Err(ControlConfigError::BadPeerId(id));
                    },
                    Some(n) => {
                        let addr = trim(addr.as_str());
                        put_peer(&mut peers, n, addr, Ghost(table));
                        proof {
                            table = table.insert(n, addr@);
                        }
                    },
                }
            },
        }
        i = i + 1;
    }
    assert(all.take(i as int) =~= all);
    Ok((peers, Ghost(table)))
}

/// Whether `result` says where a proposal goes: done where it was committed, on to the leader
/// where another replica is known to lead, and nowhere otherwise.
pub open spec fn routes(
    my_id: u64,
    outcome: WriteOutcome,
    result: Result<(), ProposeError>,
) -> bool {
    match (outcome, result) {
        (WriteOutcome::Committed, Ok(())) => true,
        (
            WriteOutcome::Failed { leader_id, leader_addr, error },
            Err(ProposeError::Leader(addr)),
        ) => leader_addr == Some(addr) && leader_id != Some(my_id),
        (
            WriteOutcome::Failed { leader_id, leader_addr, error },
            Err(ProposeError::Unavailable(message)),
        ) => (leader_addr is None || leader_id == Some(my_id)) && message@
            == "control group cannot commit: "@ + error@,
        _ => false,
    }
}

impl ControlPlane {
    /// The membership from the values of its two variables: this replica's id, and every
    /// replica's coordinator address (`1=host:port,2=host:port,...`). Without both there is no
    /// group. The replica with the smallest id initializes the group.
    pub fn from_env(id: Option<&str>, peers: Option<&str>) -> (result: Result<
        Option<ControlPlane>,
        ControlConfigError,
    >)
        ensures
            configures(
                result,
                match id {
                    Some(text) => Some(text@),
                    None => None,
                },
                match peers {
                    Some(text) => Some(text@),
                    None => None,
                },
            ),
    {
        let (id, raw) = match (id, peers) {
            (Some(id), Some(raw)) => (id, raw),
            _ => {
                return Ok(None);
            },
        };
        let my_id: u64 = match parse_unsigned(id, u64::MAX) {
            Some(n) => n,
            None => {
                return Err(ControlConfigError::BadId(owned(id)));
            },
        };
        let (peers, Ghost(table)) = match parse_peers(raw) {
            Ok(found) => found,
            Err(error) => {
                return Err(error);
            },
        };
        let mut known = false;
        let mut bootstraps = true;
        let mut i: usize = 0;
        while i < peers.len()
            invariant
                i <= peers@.len(),
                known <==> exists|j: int| 0 <= j < i && (#[trigger] peers@[j]).0 == my_id,
                bootstraps <==> forall|j: int| 0 <= j < i ==> my_id <= (#[trigger] peers@[j]).0,
            decreases peers@.len() - i,
        {
            if peers[i].0 == my_id {
                known = true;
            }
            if peers[i].0 < my_id {
                bootstraps = false;
            }
            i = i + 1;
        }
        proof {
            if known {
                let j = choose|j: int| 0 <= j < peers@.len() && (#[trigger] peers@[j]).0 == my_id;
                assert(table.contains_key(peers@[j].0));
            } else if table.contains_key(my_id) {
                let j = choose|j: int| 0 <= j < peers@.len() && (#[trigger] peers@[j]).0 == my_id;
                assert(false);
            }
            assert(bootstraps == (forall|k: u64| #[trigger] table.contains_key(k) ==> my_id <= k))
                by {
                if bootstraps {
                    assert forall|k: u64| #[trigger] table.contains_key(k) implies my_id <= k by {
                        let j = choose|j: int|
                            0 <= j < peers@.len() && (#[trigger] peers@[j]).0 == k;
                        assert(my_id <= peers@[j].0);
                    }
                } else {
                    let j = choose|j: int|
                        0 <= j < peers@.len() && !(my_id <= (#[trigger] peers@[j]).0);
                    assert(table.contains_key(peers@[j].0));
                }
            }
        }
        if !known {
            return Err(ControlConfigError::NotAPeer(my_id));
        }
        Ok(Some(ControlPlane { my_id, peers, bootstraps }))
    }

    /// What a write to the group means to the caller: done, to be forwarded to the leader, or
    /// impossible right now. A replica never forwards to itself.
    pub fn propose(&self, outcome: WriteOutcome) -> (result: Result<(), ProposeError>)
        ensures
            routes(self.my_id, outcome, result),
    {
        match outcome {
            WriteOutcome::Committed => Ok(()),
            WriteOutcome::Failed { leader_id, leader_addr, error } => {
                let is_self = match leader_id {
                    Some(id) => id == self.my_id,
                    None => false,
                };
                match leader_addr {
                    Some(addr) => {
                        if !is_self {
                            return Err(ProposeError::Leader(addr));
                        }
                    },
                    None => {},
                }
                let mut message = owned("control group cannot commit: ");
                message.append(error.as_str());
                Err(ProposeError::Unavailable(message))
            },
        }
    }
}

/// At most one replica initializes the group: of two replicas that were given the same peers and
/// that both bootstrap, each is the other.
pub proof fn law_one_replica_bootstraps(
    a: ControlPlane,
    b: ControlPlane,
    a_id: Seq<char>,
    b_id: Seq<char>,
    peers: Seq<char>,
)
    requires
        configures(Ok(Some(a)), Some(a_id), Some(peers)),
        configures(Ok(Some(b)), Some(b_id), Some(peers)),
        a.bootstraps,
        b.bootstraps,
    ensures
        a.my_id == b.my_id,
{
    let table = peer_table(trimmed_pieces(peers, ','))->Ok_0;
    assert(table.contains_key(a.my_id) && table.contains_key(b.my_id));
}

/// Commands are idempotent: a command that is applied twice has the effect of one.
pub proof fn law_commands_are_idempotent(state: ControlState, command: CommandView)
    ensures
        after_command(after_command(state, command), command) == after_command(state, command),
{
    let once = after_command(state, command);
    let twice = after_command(once, command);
    match command {
        CommandView::ReassignVShard(vshard, group) => {
            assert(twice.vshards =~= once.vshards);
        },
        CommandView::DrainNode(node_id) => {
            if !state.draining.contains(node_id) {
                assert(once.draining[state.draining.len() as int] == node_id);
            }
        },
    }
}

/// A table whose every virtual shard belongs to a group of the cluster stays so, and keeps its
/// length.
pub proof fn law_placement_stays_in_range(state: ControlState, command: CommandView)
    requires
        forall|v: int|
            0 <= v < state.vshards.len() ==> #[trigger] state.vshards[v] < state.shard_count,
    ensures
        after_command(state, command).vshards.len() == state.vshards.len(),
        forall|v: int|
            0 <= v < state.vshards.len() ==> #[trigger] after_command(state, command).vshards[v]
                < state.shard_count,
{
}

/// A command changes what it names and nothing else: a reassignment within range moves that one
/// virtual shard to that group, one out of range moves none, and a drain marks that one node.
pub proof fn law_commands_change_what_they_name(
    state: ControlState,
    vshard: u32,
    group: u32,
    node_id: Seq<char>,
    v: int,
    other: Seq<char>,
)
    requires
        0 <= v < state.vshards.len(),
    ensures
        ({
            let after = after_command(state, CommandView::ReassignVShard(vshard, group));
            &&& after.vshards.len() == state.vshards.len()
            &&& v == vshard && group < state.shard_count ==> after.vshards[v] == group
            &&& v != vshard || group >= state.shard_count ==> after.vshards[v] == state.vshards[v]
            &&& after.draining == state.draining
            &&& after.shard_count == state.shard_count
        }),
        ({
            let after = after_command(state, CommandView::DrainNode(node_id));
            &&& after.draining.contains(node_id)
            &&& other != node_id ==> (after.draining.contains(other) <==> state.draining.contains(
                other,
            ))
            &&& after.vshards == state.vshards
            &&& after.shard_count == state.shard_count
        }),
{
    crate::registry::law_a_drain_marker_sticks(state.draining, node_id, other);
}

/// A placement change is versioned, and only that: the version goes up by one with each virtual
/// shard that is moved, and stays with every other command.
pub proof fn law_only_moves_are_versioned(
    kept: ControlKept,
    state: ControlState,
    vshard: u32,
    group: u32,
    node_id: Seq<char>,
)
    requires
        kept.version < u64::MAX,
    ensures
        ({
            let after = kept_after_command(
                kept,
                state,
                CommandView::ReassignVShard(vshard, group),
            );
            &&& vshard < state.vshards.len() && group < state.shard_count ==> after.version
                == kept.version + 1
            &&& vshard >= state.vshards.len() || group >= state.shard_count ==> after.version
                == kept.version
            &&& after.leaders == kept.leaders && after.followers == kept.followers && after.seen
                == kept.seen
        }),
        kept_after_command(kept, state, CommandView::DrainNode(node_id)) == kept,
{
}

/// A replica is set up as its settings say: under its own id, with each listed peer at its own
/// address, and exactly the replica with the smallest id starts the group.
pub proof fn law_the_smallest_id_bootstraps(
    plane: ControlPlane,
    id: Seq<char>,
    peers: Seq<char>,
    n: u64,
)
    requires
        configures(Ok(Some(plane)), Some(id), Some(peers)),
    ensures
        id == decimal_of(n as nat) ==> plane.my_id == n,
        exists|i: int| 0 <= i < plane.peers@.len() && (#[trigger] plane.peers@[i]).0 == plane.my_id,
        plane.bootstraps <==> forall|i: int|
            0 <= i < plane.peers@.len() ==> plane.my_id <= (#[trigger] plane.peers@[i]).0,
        forall|i: int, j: int|
            #![trigger plane.peers@[i], plane.peers@[j]]
            0 <= i < j < plane.peers@.len() ==> plane.peers@[i].0 != plane.peers@[j].0,
        ({
            let table = peer_table(trimmed_pieces(peers, ','))->Ok_0;
            &&& forall|i: int|
                0 <= i < plane.peers@.len() ==> table.contains_key((#[trigger] plane.peers@[i]).0)
                    && table[plane.peers@[i].0] == plane.peers@[i].1@
            &&& forall|k: u64| #[trigger]
                table.contains_key(k) ==> exists|i: int|
                    0 <= i < plane.peers@.len() && (#[trigger] plane.peers@[i]).0 == k
        }),
{
    crate::text::law_decimals_read_back(n as nat, u64::MAX as nat);
    let table = peer_table(trimmed_pieces(peers, ','))->Ok_0;
    let list = plane.peers@;
    assert(lists_table(list, table));
    assert(table.contains_key(plane.my_id));
    if forall|i: int| 0 <= i < list.len() ==> plane.my_id <= (#[trigger] list[i]).0 {
        assert forall|k: u64| #[trigger] table.contains_key(k) implies plane.my_id <= k by {
            let i = choose|i: int| 0 <= i < list.len() && (#[trigger] list[i]).0 == k;
            assert(plane.my_id <= list[i].0);
        }
    }
    assert forall|i: int, j: int|
        #![trigger list[i], list[j]]
        0 <= i < j < list.len() implies list[i].0 != list[j].0 by {}
}

/// A peer is an id, an equals sign and an address: each entry adds that id under that address, in
/// place of an earlier entry of the id.
pub proof fn law_a_peer_is_an_id_and_an_address(
    parts: Seq<Seq<char>>,
    n: u64,
    addr: Seq<char>,
    word: Seq<char>,
)
    requires
        peer_table(parts) is Ok,
        !word.contains('='),
    ensures
        peer_table(parts.push(decimal_of(n as nat) + "="@ + addr)) == Ok::<
            Map<u64, Seq<char>>,
            PeerMeaning,
        >(peer_table(parts)->Ok_0.insert(n, trimmed(addr))),
        peer_table(parts.push(word)) == Err::<Map<u64, Seq<char>>, PeerMeaning>(
            PeerMeaning::NoEquals(word),
        ),
{
    reveal_strlit("=");
    assert("="@ =~= seq!['=']);
    let id = decimal_of(n as nat);
    let part = id + "="@ + addr;
    crate::text::law_decimals_read_back(n as nat, u64::MAX as nat);
    crate::text::law_trimmed_text_stays(id);
    assert(parts.push(part).drop_last() =~= parts);
    assert(parts.push(word).drop_last() =~= parts);
    crate::text::law_a_cut_is_at_the_first_place(part, "="@);
    let at = id.len() as int;
    assert(part.subrange(at, at + 1) =~= "="@);
    match cut_once(part, "="@) {
        None => {
            assert(part.subrange(at, at + "="@.len()) != "="@);
        },
        Some((before, after)) => {
            let found = before.len() as int;
            assert(part[found] == '=');
            if found < at {
                assert('0' <= id[found] <= '9');
            }
            if at < found {
                assert(part.subrange(at, at + "="@.len()) != "="@);
            }
            assert(found == at);
            assert(before =~= part.take(at) && id =~= part.take(at));
            assert(after =~= part.skip(at + 1) && addr =~= part.skip(at + 1));
        },
    }
    crate::text::law_a_cut_is_at_the_first_place(word, "="@);
    if let Some((before, after)) = cut_once(word, "="@) {
        assert(word[before.len() as int] == '=');
    }
}

/// A restored replica takes over the placement and the markers of the snapshot, and of one that
/// cannot be read none at all; its number of shards stays its own.
pub proof fn law_a_restore_takes_over_the_snapshot(
    state: ControlState,
    bytes: Seq<u8>,
    vshards: Seq<u32>,
    draining: Seq<Seq<char>>,
)
    ensures
        authority_in(bytes) == Some((vshards, draining)) ==> after_restore(state, bytes).vshards
            == vshards && after_restore(state, bytes).draining == draining,
        authority_in(bytes) is None ==> after_restore(state, bytes).vshards.len() == 0
            && after_restore(state, bytes).draining.len() == 0,
        after_restore(state, bytes).shard_count == state.shard_count,
{
}

/// A proposal ends at the replica that can take it: committed here it is done, it is sent on only
/// to another replica that is known to lead, and else the caller is told that the group cannot
/// commit, and why.
pub proof fn law_proposals_go_to_the_leader(
    my_id: u64,
    outcome: WriteOutcome,
    result: Result<(), ProposeError>,
)
    requires
        routes(my_id, outcome, result),
    ensures
        outcome is Committed <==> result is Ok,
        result matches Err(ProposeError::Leader(addr)) ==> outcome->leader_addr == Some(addr)
            && outcome->leader_id != Some(my_id),
        outcome is Failed && outcome->leader_addr is Some && outcome->leader_id != Some(my_id) ==> (
        result matches Err(ProposeError::Leader(_))),
        outcome is Failed && (outcome->leader_addr is None || outcome->leader_id == Some(my_id))
            ==> (result matches Err(ProposeError::Unavailable(message)) && message@
            == "control group cannot commit: "@ + outcome->error@),
{
}

} // verus!
