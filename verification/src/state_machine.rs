//! The snapshotting state machine, generic over the application that it replicates.
//!
//! Applying a committed entry hands its payload to the application; a snapshot is whatever bytes
//! the application dumps, together with the raft position they stand for.

use vstd::prelude::*;
use vstd::string::*;

use crate::raft_log::{
    copy_bytes, entries_of, Applied, Entry, EntryPayload, EntryView, LogId, Membership,
    MembershipView, PayloadView,
};
use crate::snapshot::{name_of, snapshot_name};
use crate::text::{decimal, decimal_of, owned, parse_unsigned, unsigned_value};

verus! {

/// What an application supplies to run behind the state machine: how to apply a committed payload
/// to its state, and how to dump and restore that state as bytes.
///
/// All of it is a function of the replicated state and the bytes, never of anything local: that
/// is what keeps replicas equal. The bodies of the specification functions are placeholders for
/// applications outside the verified code.
pub trait StateMachineApp: Sized {
    /// The replicated state, as a value.
    type State;

    /// What the application holds beside the replicated state, as a value.
    type Kept;

    /// The current state.
    open spec fn state(&self) -> Self::State {
        vstd::pervasive::arbitrary()
    }

    /// What the application holds beside its state.
    open spec fn kept(&self) -> Self::Kept {
        vstd::pervasive::arbitrary()
    }

    /// What the application keeps of itself.
    open spec fn well_formed(&self) -> bool {
        true
    }

    /// The state after a payload, and the number of records that it applied.
    open spec fn applied(state: Self::State, payload: Seq<u8>) -> (Self::State, u32) {
        (state, 0)
    }

    /// What is held beside the state after a payload.
    open spec fn kept_after(kept: Self::Kept, state: Self::State, payload: Seq<u8>) -> Self::Kept {
        kept
    }

    /// What is held beside the state after a restore.
    open spec fn kept_restored(kept: Self::Kept) -> Self::Kept {
        kept
    }

    /// Whether two states belong to replicas of the same static configuration.
    open spec fn same_config(a: Self::State, b: Self::State) -> bool {
        true
    }

    /// The dump of a state.
    open spec fn dumped(state: Self::State) -> Seq<u8> {
        Seq::empty()
    }

    /// The state restored from bytes, and the number of records that were restored.
    open spec fn restored(state: Self::State, bytes: Seq<u8>) -> (Self::State, u32) {
        (state, 0)
    }

    /// Apply one committed payload; returns the number of records that it applied.
    fn apply(&mut self, payload: &Vec<u8>) -> (count: u32)
        requires
            old(self).well_formed(),
        ensures
            final(self).well_formed(),
            (final(self).state(), count) == Self::applied(old(self).state(), payload@),
            final(self).kept() == Self::kept_after(old(self).kept(), old(self).state(), payload@),
    ;

    /// Dump the full state as snapshot bytes. Any replica of the same configuration that restores
    /// them is in this state.
    fn snapshot_bytes(&self) -> (bytes: Vec<u8>)
        requires
            self.well_formed(),
        ensures
            bytes@ == Self::dumped(self.state()),
            forall|other: Self::State| #[trigger]
                Self::same_config(other, self.state()) ==> Self::restored(other, bytes@).0
                    == self.state(),
    ;

    /// Replace the full state from snapshot bytes; returns the number of restored records.
    fn restore(&mut self, bytes: &Vec<u8>) -> (count: u32)
        requires
            old(self).well_formed(),
        ensures
            final(self).well_formed(),
            (final(self).state(), count) == Self::restored(old(self).state(), bytes@),
            final(self).kept() == Self::kept_restored(old(self).kept()),
    ;

    /// The noun for messages about records.
    fn unit(&self) -> (noun: &'static str)
        default_ensures
            noun@ == "entries"@,
    {
        "entries"
    }
}

/// A membership with the entry that established it.
#[derive(Debug, PartialEq)]
pub struct StoredMembership {
    pub log_id: Option<LogId>,
    pub membership: Membership,
}

/// A stored membership as a value.
pub struct StoredMembershipView {
    pub log_id: Option<LogId>,
    pub membership: MembershipView,
}

impl View for StoredMembership {
    type V = StoredMembershipView;

    open spec fn view(&self) -> StoredMembershipView {
        StoredMembershipView { log_id: self.log_id, membership: self.membership@ }
    }
}

impl Clone for StoredMembership {
    fn clone(&self) -> (copy: Self)
        ensures
            copy@ == self@,
    {
        StoredMembership { log_id: self.log_id, membership: self.membership.clone() }
    }
}

/// Where in the log a snapshot stands.
#[derive(Debug, PartialEq)]
pub struct SnapshotMeta {
    pub last_log_id: Option<LogId>,
    pub last_membership: StoredMembership,
    pub snapshot_id: String,
}

/// The position of a snapshot as a value.
pub struct SnapshotMetaView {
    pub last_log_id: Option<LogId>,
    pub last_membership: StoredMembershipView,
    pub snapshot_id: Seq<char>,
}

impl View for SnapshotMeta {
    type V = SnapshotMetaView;

    open spec fn view(&self) -> SnapshotMetaView {
        SnapshotMetaView {
            last_log_id: self.last_log_id,
            last_membership: self.last_membership@,
            snapshot_id: self.snapshot_id@,
        }
    }
}

impl Clone for SnapshotMeta {
    fn clone(&self) -> (copy: Self)
        ensures
            copy@ == self@,
    {
        SnapshotMeta {
            last_log_id: self.last_log_id,
            last_membership: self.last_membership.clone(),
            snapshot_id: self.snapshot_id.clone(),
        }
    }
}

/// A snapshot: its position and the application's dump.
#[derive(Debug, PartialEq)]
pub struct Snapshot {
    pub meta: SnapshotMeta,
    pub data: Vec<u8>,
}

/// A snapshot as a value.
pub struct SnapshotView {
    pub meta: SnapshotMetaView,
    pub data: Seq<u8>,
}

impl View for Snapshot {
    type V = SnapshotView;

    open spec fn view(&self) -> SnapshotView {
        SnapshotView { meta: self.meta@, data: self.data@ }
    }
}

impl Clone for Snapshot {
    fn clone(&self) -> (copy: Self)
        ensures
            copy@ == self@,
    {
        Snapshot { meta: self.meta.clone(), data: copy_bytes(&self.data) }
    }
}

/// The file form of a snapshot, as `bincode` writes it.
pub uninterp spec fn snapshot_file_bytes(snapshot: SnapshotView) -> Seq<u8>;

/// The snapshot that `bincode` reads in a file; `None` where it reads none.
pub uninterp spec fn snapshot_in_file(bytes: Seq<u8>) -> Option<SnapshotView>;

/// A log id as a tuple: who led in which term, and the index.
type IdTuple = ((u64, u64), u64);

/// A membership as a tuple: the log id that set it, the configurations, and the nodes.
type MembersTuple = (Option<IdTuple>, (Vec<Vec<u64>>, Vec<(u64, String)>));

/// A snapshot as nested tuples, in the order in which a file holds its parts.
type FileTuple = ((Option<IdTuple>, MembersTuple, String), Vec<u8>);

/// `bincode::serialize` of a snapshot as nested tuples, named [`snapshot_file_bytes`]. What is
/// written is read back as the same snapshot.
#[verifier::external_body]
fn encode_snapshot(snapshot: &Snapshot) -> (bytes: Vec<u8>)
    ensures
        bytes@ == snapshot_file_bytes(snapshot@),
        snapshot_in_file(bytes@) == Some(snapshot@),
{
    let id = |l: &LogId| ((l.term, l.node_id), l.index);
    let m = &snapshot.meta;
    let stored = &m.last_membership;
    let members = (&stored.membership.configs, &stored.membership.nodes);
    let last = m.last_log_id.as_ref().map(id);
    let position = (last, (stored.log_id.as_ref().map(id), members), &m.snapshot_id);
    bincode::serialize(&(position, &snapshot.data)).unwrap_or_default()
}

/// `bincode::deserialize` of a snapshot as nested tuples, named [`snapshot_in_file`]; `None` for an
/// error.
#[verifier::external_body]
fn decode_snapshot(bytes: &Vec<u8>) -> (snapshot: Option<Snapshot>)
    ensures
        match snapshot {
            Some(s) => snapshot_in_file(bytes@) == Some(s@),
            None => snapshot_in_file(bytes@) is None,
        },
{
    let id = |((term, node_id), index): ((u64, u64), u64)| LogId { term, node_id, index };
    let build = |((last, (log, (configs, nodes)), snapshot_id), data): FileTuple| Snapshot {
        meta: SnapshotMeta {
            last_log_id: last.map(id),
            last_membership: StoredMembership {
                log_id: log.map(id),
                membership: Membership { configs, nodes },
            },
            snapshot_id,
        },
        data,
    };
    bincode::deserialize(bytes).ok().map(build)
}

/// The snapshot that a file holds; none where there is no file, or nothing readable in it.
pub open spec fn readable(file: Option<&Vec<u8>>) -> Option<SnapshotView> {
    match file {
        Some(bytes) => snapshot_in_file(bytes@),
        None => None,
    }
}

/// The log index at which a snapshot stands; zero where nothing was applied.
pub open spec fn snapshot_at(meta: SnapshotMetaView) -> u64 {
    match meta.last_log_id {
        Some(id) => id.index,
        None => 0,
    }
}

/// The file of a snapshot: its name and its bytes.
pub fn snapshot_file(snapshot: &Snapshot) -> (file: (String, Vec<u8>))
    ensures
        file.0@ == name_of(snapshot_at(snapshot@.meta)),
        file.1@ == snapshot_file_bytes(snapshot@),
        snapshot_in_file(file.1@) == Some(snapshot@),
{
    let index: u64 = match snapshot.meta.last_log_id {
        Some(id) => id.index,
        None => 0,
    };
    (snapshot_name(index), encode_snapshot(snapshot))
}

/// A state machine as a value: the application's state and the raft position that it stands for.
pub struct Machine<S> {
    pub state: S,
    pub last_applied: Option<LogId>,
    pub membership: StoredMembershipView,
}

/// The machine after an entry, and the reply to it: a payload goes to the application, a
/// membership is remembered, and either way the entry is the last applied one.
pub open spec fn after_entry<A: StateMachineApp>(
    machine: Machine<A::State>,
    entry: EntryView,
) -> (Machine<A::State>, Applied) {
    match entry.payload {
        PayloadView::Blank => (
            Machine { last_applied: Some(entry.log_id), ..machine },
            Applied(0),
        ),
        PayloadView::Normal(bytes) => {
            let (state, count) = A::applied(machine.state, bytes);
            (Machine { state, last_applied: Some(entry.log_id), ..machine }, Applied(count))
        },
        PayloadView::Membership(membership) => (
            Machine {
                last_applied: Some(entry.log_id),
                membership: StoredMembershipView { log_id: Some(entry.log_id), membership },
                ..machine
            },
            Applied(0),
        ),
    }
}

/// The machine after entries were applied in order.
pub open spec fn after_entries<A: StateMachineApp>(
    machine: Machine<A::State>,
    entries: Seq<EntryView>,
) -> Machine<A::State>
    decreases entries.len(),
{
    if entries.len() == 0 {
        machine
    } else {
        after_entry::<A>(after_entries::<A>(machine, entries.drop_last()), entries.last()).0
    }
}

/// What an application holds beside its state after entries were applied in order.
pub open spec fn kept_through<A: StateMachineApp>(
    machine: Machine<A::State>,
    kept: A::Kept,
    entries: Seq<EntryView>,
) -> A::Kept
    decreases entries.len(),
{
    if entries.len() == 0 {
        kept
    } else {
        let before = kept_through::<A>(machine, kept, entries.drop_last());
        match entries.last().payload {
            PayloadView::Normal(bytes) => A::kept_after(
                before,
                after_entries::<A>(machine, entries.drop_last()).state,
                bytes,
            ),
            _ => before,
        }
    }
}

/// The replies to entries applied in order.
pub open spec fn replies_to<A: StateMachineApp>(
    machine: Machine<A::State>,
    entries: Seq<EntryView>,
) -> Seq<Applied>
    decreases entries.len(),
{
    if entries.len() == 0 {
        Seq::empty()
    } else {
        replies_to::<A>(machine, entries.drop_last()).push(
            after_entry::<A>(after_entries::<A>(machine, entries.drop_last()), entries.last()).1,
        )
    }
}

/// The machine that a snapshot restores.
pub open spec fn from_snapshot<A: StateMachineApp>(
    machine: Machine<A::State>,
    snapshot: SnapshotView,
) -> Machine<A::State> {
    Machine {
        state: A::restored(machine.state, snapshot.data).0,
        last_applied: snapshot.meta.last_log_id,
        membership: snapshot.meta.last_membership,
    }
}

/// The state machine over an application's state.
pub struct StateMachineStore<A: StateMachineApp> {
    app: A,
    last_applied: Option<LogId>,
    membership: StoredMembership,
    snapshot_seq: u64,
    snapshot: Option<Snapshot>,
}

impl<A: StateMachineApp> StateMachineStore<A> {
    /// The machine as a value.
    pub closed spec fn machine(self) -> Machine<A::State> {
        Machine {
            state: self.app.state(),
            last_applied: self.last_applied,
            membership: self.membership@,
        }
    }

    /// What the application holds beside its state.
    pub closed spec fn kept(self) -> A::Kept {
        self.app.kept()
    }

    /// How many snapshots were built.
    pub closed spec fn snapshot_seq(self) -> u64 {
        self.snapshot_seq
    }

    /// The current snapshot, if there is one.
    pub closed spec fn snapshot(self) -> Option<SnapshotView> {
        match self.snapshot {
            Some(s) => Some(s@),
            None => None,
        }
    }

    /// What every operation keeps: the application's own invariant.
    pub closed spec fn well_formed(self) -> bool {
        self.app.well_formed()
    }

    /// Whether a store stands as a new one over an application in `state`.
    pub open spec fn is_new(self, state: A::State) -> bool {
        &&& self.machine().state == state
        &&& self.machine().last_applied is None
        &&& self.machine().membership.log_id is None
        &&& self.machine().membership.membership.configs.len() == 0
        &&& self.machine().membership.membership.nodes.len() == 0
        &&& self.snapshot() is None
    }

    /// Whether a store was restored from `snapshot` over an application in `state`.
    pub open spec fn is_restored(self, state: A::State, snapshot: SnapshotView) -> bool {
        &&& self.machine().state == A::restored(state, snapshot.data).0
        &&& self.machine().last_applied == snapshot.meta.last_log_id
        &&& self.machine().membership == snapshot.meta.last_membership
        &&& self.snapshot() == Some(snapshot)
    }

    /// A state machine that has applied nothing.
    pub fn new(app: A) -> (store: Self)
        requires
            app.well_formed(),
        ensures
            store.well_formed(),
            store.is_new(app.state()),
            store.kept() == app.kept(),
            store.snapshot_seq() == 0,
    {
        StateMachineStore {
            app,
            last_applied: None,
            membership: StoredMembership {
                log_id: None,
                membership: Membership { configs: Vec::new(), nodes: Vec::new() },
            },
            snapshot_seq: 0,
            snapshot: None,
        }
    }

    /// The application.
    pub fn app(&self) -> (app: &A)
        requires
            self.well_formed(),
        ensures
            app.well_formed(),
            app.state() == self.machine().state,
            app.kept() == self.kept(),
    {
        &self.app
    }

    /// Put another application in the place of the current one, which is returned.
    pub fn replace_app(&mut self, app: A) -> (former: A)
        requires
            old(self).well_formed(),
            app.well_formed(),
        ensures
            final(self).well_formed(),
            final(self).machine() == (Machine { state: app.state(), ..old(self).machine() }),
            final(self).kept() == app.kept(),
            final(self).snapshot() == old(self).snapshot(),
            final(self).snapshot_seq() == old(self).snapshot_seq(),
            former.well_formed(),
            former.state() == old(self).machine().state,
            former.kept() == old(self).kept(),
    {
        let mut former = app;
        std::mem::swap(&mut self.app, &mut former);
        former
    }

    /// The last applied entry and the current membership.
    pub fn applied_state(&self) -> (position: (Option<LogId>, StoredMembership))
        ensures
            position.0 == self.machine().last_applied,
            position.1@ == self.machine().membership,
    {
        (self.last_applied, self.membership.clone())
    }

    /// Apply committed entries in order; one reply each.
    pub fn apply(&mut self, entries: Vec<Entry>) -> (replies: Vec<Applied>)
        requires
            old(self).well_formed(),
        ensures
            final(self).well_formed(),
            final(self).machine() == after_entries::<A>(
                old(self).machine(),
                entries_of(entries@),
            ),
            replies@ == replies_to::<A>(old(self).machine(), entries_of(entries@)),
            final(self).kept() == kept_through::<A>(
                old(self).machine(),
                old(self).kept(),
                entries_of(entries@),
            ),
            final(self).snapshot() == old(self).snapshot(),
            final(self).snapshot_seq() == old(self).snapshot_seq(),
    {
        let mut replies: Vec<Applied> = Vec::new();
        let ghost start = self.machine();
        let ghost held = self.kept();
        let ghost all = entries_of(entries@);
        assert(all.take(0) =~= Seq::<EntryView>::empty());
        for entry in rest: entries
            invariant
                rest.seq() == entries@,
                all == entries_of(entries@),
                self.well_formed(),
                self.machine() == after_entries::<A>(start, all.take(rest.index())),
                replies@ == replies_to::<A>(start, all.take(rest.index())),
                self.kept() == kept_through::<A>(start, held, all.take(rest.index())),
                self.snapshot() == old(self).snapshot(),
                self.snapshot_seq() == old(self).snapshot_seq(),
        {
            let ghost before = self.machine();
            let ghost value = entry@;
            proof {
                let seen = all.take(rest.index() + 1);
                assert(seen.drop_last() =~= all.take(rest.index()));
                assert(seen.last() == value);
            }
            let log_id = entry.log_id;
            let reply = match entry.payload {
                EntryPayload::Blank => Applied(0),
                EntryPayload::Normal(payload) => Applied(self.app.apply(&payload.0)),
                EntryPayload::Membership(membership) => {
                    self.membership = StoredMembership { log_id: Some(log_id), membership };
                    Applied(0)
                },
            };
            self.last_applied = Some(log_id);
            assert((self.machine(), reply) == after_entry::<A>(before, value));
            replies.push(reply);
        }
        assert(all.take(all.len() as int) =~= all);
        replies
    }

    /// Build a snapshot of the current state, and keep it as the current one. A replica of the same
    /// configuration that installs it is where this one is.
    pub fn build_snapshot(&mut self) -> (snapshot: Snapshot)
        requires
            old(self).well_formed(),
            old(self).snapshot_seq() < u64::MAX,
        ensures
            final(self).well_formed(),
            final(self).machine() == old(self).machine(),
            final(self).kept() == old(self).kept(),
            final(self).snapshot_seq() == old(self).snapshot_seq() + 1,
            final(self).snapshot() == Some(snapshot@),
            snapshot@.data == A::dumped(old(self).machine().state),
            snapshot@.meta.last_log_id == old(self).machine().last_applied,
            snapshot@.meta.last_membership == old(self).machine().membership,
            snapshot@.meta.snapshot_id == "snap-"@ + decimal_of(
                (old(self).snapshot_seq() + 1) as nat,
            ),
            forall|other: Machine<A::State>| #[trigger]
                A::same_config(other.state, old(self).machine().state) ==> from_snapshot::<A>(
                    other,
                    snapshot@,
                ) == old(self).machine(),
    {
        let data = self.app.snapshot_bytes();
        self.snapshot_seq = self.snapshot_seq + 1;
        let mut snapshot_id = owned("snap-");
        snapshot_id.append(decimal(self.snapshot_seq).as_str());
        let meta = SnapshotMeta {
            last_log_id: self.last_applied,
            last_membership: self.membership.clone(),
            snapshot_id,
        };
        let snapshot = Snapshot { meta, data };
        self.snapshot = Some(snapshot.clone());
        snapshot
    }

    /// Replace the whole state by a snapshot; returns the number of restored records.
    pub fn install_snapshot(&mut self, snapshot: Snapshot) -> (count: u32)
        requires
            old(self).well_formed(),
        ensures
            final(self).well_formed(),
            final(self).machine() == from_snapshot::<A>(old(self).machine(), snapshot@),
            final(self).kept() == A::kept_restored(old(self).kept()),
            final(self).snapshot() == Some(snapshot@),
            final(self).snapshot_seq() == old(self).snapshot_seq(),
            count == A::restored(old(self).machine().state, snapshot@.data).1,
    {
        let count: u32 = self.app.restore(&snapshot.data);
        self.last_applied = snapshot.meta.last_log_id;
        self.membership = snapshot.meta.last_membership.clone();
        self.snapshot = Some(snapshot);
        count
    }

    /// Open over a snapshot directory, given its newest file: the state, the position and the
    /// membership are restored from it, so that replay goes on from there. An unreadable file is
    /// ignored. Returns the number of restored records too.
    pub fn with_snapshot_dir(app: A, newest: Option<&Vec<u8>>) -> (opened: (Self, Option<u32>))
        requires
            app.well_formed(),
        ensures
            opened.0.well_formed(),
            opened.0.snapshot_seq() == 0,
            match readable(newest) {
                Some(snapshot) => opened.0.is_restored(app.state(), snapshot) && opened.0.kept()
                    == A::kept_restored(app.kept()) && opened.1 == Some(
                    A::restored(app.state(), snapshot.data).1,
                ),
                None => opened.0.is_new(app.state()) && opened.0.kept() == app.kept()
                    && opened.1 is None,
            },
    {
        let mut store = Self::new(app);
        let restored = match newest {
            Some(bytes) => store.restore_file(bytes),
            None => None,
        };
        (store, restored)
    }

    /// Complete a durable opening: where the local tier held nothing, restore the newest object of
    /// the remote tier. The chain is local, then remote, then empty. Returns the number of records
    /// restored from the object, where one was.
    pub fn open_durable(&mut self, newest: Option<&Vec<u8>>) -> (count: Option<u32>)
        requires
            old(self).well_formed(),
        ensures
            final(self).well_formed(),
            final(self).snapshot_seq() == old(self).snapshot_seq(),
            match (old(self).snapshot(), readable(newest)) {
                (None, Some(snapshot)) => final(self).is_restored(
                    old(self).machine().state,
                    snapshot,
                ) && final(self).kept() == A::kept_restored(old(self).kept()) && count == Some(
                    A::restored(old(self).machine().state, snapshot.data).1,
                ),
                _ => final(self).machine() == old(self).machine() && final(self).kept() == old(
                    self,
                ).kept() && final(self).snapshot() == old(self).snapshot() && count is None,
            },
    {
        if !self.needs_cold_boot() {
            return None;
        }
        match newest {
            Some(bytes) => self.restore_file(bytes),
            None => None,
        }
    }


    /// Restore from the bytes of a snapshot file; `None`, and no change, where they hold no
    /// snapshot.
    pub fn restore_file(&mut self, bytes: &Vec<u8>) -> (count: Option<u32>)
        requires
            old(self).well_formed(),
        ensures
            final(self).well_formed(),
            final(self).snapshot_seq() == old(self).snapshot_seq(),
            match snapshot_in_file(bytes@) {
                Some(snapshot) => final(self).machine() == from_snapshot::<A>(
                    old(self).machine(),
                    snapshot,
                ) && final(self).kept() == A::kept_restored(old(self).kept())
                    && final(self).snapshot() == Some(snapshot) && count == Some(
                    A::restored(old(self).machine().state, snapshot.data).1,
                ),
                None => final(self).machine() == old(self).machine() && final(self).kept() == old(
                    self,
                ).kept() && final(self).snapshot() == old(self).snapshot() && count is None,
            },
    {
        match decode_snapshot(bytes) {
            Some(snapshot) => Some(self.install_snapshot(snapshot)),
            None => None,
        }
    }

    /// The current snapshot, if there is one.
    pub fn get_current_snapshot(&self) -> (snapshot: Option<Snapshot>)
        ensures
            match snapshot {
                Some(s) => self.snapshot() == Some(s@),
                None => self.snapshot() is None,
            },
    {
        match &self.snapshot {
            Some(s) => Some(s.clone()),
            None => None,
        }
    }

    /// Whether a snapshot should be fetched from the remote tier: nothing was restored locally.
    pub fn needs_cold_boot(&self) -> (needed: bool)
        ensures
            needed == (self.snapshot() is None),
    {
        self.snapshot.is_none()
    }
}

/// Replicas agree: machines that start equal and apply the same entries stay equal, whatever
/// happens in how many batches.
pub proof fn law_batches_do_not_matter<A: StateMachineApp>(
    machine: Machine<A::State>,
    first: Seq<EntryView>,
    second: Seq<EntryView>,
)
    ensures
        after_entries::<A>(machine, first + second) == after_entries::<A>(
            after_entries::<A>(machine, first),
            second,
        ),
        replies_to::<A>(machine, first + second) == replies_to::<A>(machine, first)
            + replies_to::<A>(after_entries::<A>(machine, first), second),
    decreases second.len(),
{
    let both = first + second;
    if second.len() == 0 {
        assert(both =~= first);
        assert(replies_to::<A>(machine, first) + Seq::<Applied>::empty() =~= replies_to::<A>(
            machine,
            first,
        ));
    } else {
        law_batches_do_not_matter::<A>(machine, first, second.drop_last());
        assert(both.drop_last() =~= first + second.drop_last());
        assert(both.last() == second.last());
        assert(replies_to::<A>(machine, both) =~= replies_to::<A>(machine, first) + replies_to::<
            A,
        >(after_entries::<A>(machine, first), second));
    }
}

/// A restart is a snapshot and the tail of the log: a replica that restores a snapshot of the state
/// after some entries and applies the entries since is where a replica is that applied them all.
/// [`StateMachineStore::build_snapshot`] gives such a snapshot to every replica of the same
/// configuration.
pub proof fn law_restart_resumes<A: StateMachineApp>(
    start: Machine<A::State>,
    fresh: Machine<A::State>,
    snapshot: SnapshotView,
    applied: Seq<EntryView>,
    tail: Seq<EntryView>,
)
    requires
        from_snapshot::<A>(fresh, snapshot) == after_entries::<A>(start, applied),
    ensures
        after_entries::<A>(from_snapshot::<A>(fresh, snapshot), tail) == after_entries::<A>(
            start,
            applied + tail,
        ),
{
    law_batches_do_not_matter::<A>(start, applied, tail);
}

/// Raft timing for small, chatty groups: the heartbeat interval and the election window in
/// milliseconds, and how many log entries lie between snapshots where that is configured.
#[derive(Clone, Copy, Debug, PartialEq, Eq, Structural)]
pub struct RaftTiming {
    pub heartbeat_interval: u64,
    pub election_timeout_min: u64,
    pub election_timeout_max: u64,
    pub snapshot_logs: Option<u64>,
}

/// The raft timing, with the snapshot cadence that a configured text names; zero and anything
/// that is no number leave the default.
pub fn raft_config(snapshot_logs: Option<&str>) -> (timing: RaftTiming)
    ensures
        timing.heartbeat_interval == 100,
        timing.election_timeout_min == 300,
        timing.election_timeout_max == 600,
        match timing.snapshot_logs {
            Some(n) => n > 0 && snapshot_logs is Some && unsigned_value(
                snapshot_logs->0@,
                u64::MAX as nat,
            ) == Some(n as nat),
            None => snapshot_logs is None || unsigned_value(snapshot_logs->0@, u64::MAX as nat)
                is None || unsigned_value(snapshot_logs->0@, u64::MAX as nat) == Some(0nat),
        },
{
    let cadence: Option<u64> = match snapshot_logs {
        Some(text) => match parse_unsigned(text, u64::MAX) {
            Some(n) => if n > 0 {
                Some(n)
            } else {
                None
            },
            None => None,
        },
        None => None,
    };
    RaftTiming {
        heartbeat_interval: 100,
        election_timeout_min: 300,
        election_timeout_max: 600,
        snapshot_logs: cadence,
    }
}

/// An entry moves the machine as its payload says: a blank one only the position, a command the
/// state by the application's own rule, a membership the membership with its position. The reply
/// counts the records of a command, and none otherwise.
pub proof fn law_an_entry_moves_what_it_says<A: StateMachineApp>(
    machine: Machine<A::State>,
    log_id: LogId,
    bytes: Seq<u8>,
    membership: MembershipView,
)
    ensures
        ({
            let entry = EntryView { log_id, payload: PayloadView::Blank };
            let after = after_entries::<A>(machine, seq![entry]);
            &&& after.last_applied == Some(log_id)
            &&& after.state == machine.state
            &&& after.membership == machine.membership
            &&& replies_to::<A>(machine, seq![entry]) == seq![Applied(0)]
        }),
        ({
            let entry = EntryView { log_id, payload: PayloadView::Normal(bytes) };
            let after = after_entries::<A>(machine, seq![entry]);
            &&& after.last_applied == Some(log_id)
            &&& after.state == A::applied(machine.state, bytes).0
            &&& after.membership == machine.membership
            &&& replies_to::<A>(machine, seq![entry]) == seq![
                Applied(A::applied(machine.state, bytes).1),
            ]
        }),
        ({
            let entry = EntryView { log_id, payload: PayloadView::Membership(membership) };
            let after = after_entries::<A>(machine, seq![entry]);
            &&& after.last_applied == Some(log_id)
            &&& after.state == machine.state
            &&& after.membership.log_id == Some(log_id)
            &&& after.membership.membership == membership
            &&& replies_to::<A>(machine, seq![entry]) == seq![Applied(0)]
        }),
{
    let none = Seq::<EntryView>::empty();
    assert(after_entries::<A>(machine, none) == machine);
    assert(replies_to::<A>(machine, none) =~= Seq::empty());
    let blank = EntryView { log_id, payload: PayloadView::Blank };
    let normal = EntryView { log_id, payload: PayloadView::Normal(bytes) };
    let moved = EntryView { log_id, payload: PayloadView::Membership(membership) };
    assert(seq![blank].drop_last() =~= none);
    assert(seq![normal].drop_last() =~= none);
    assert(seq![moved].drop_last() =~= none);
    assert(replies_to::<A>(machine, seq![blank]) =~= seq![Applied(0)]);
    assert(replies_to::<A>(machine, seq![normal]) =~= seq![
        Applied(A::applied(machine.state, bytes).1),
    ]);
    assert(replies_to::<A>(machine, seq![moved]) =~= seq![Applied(0)]);
}

/// A machine restored from a snapshot stands where the snapshot was taken.
pub proof fn law_a_snapshot_restores_its_position<A: StateMachineApp>(
    machine: Machine<A::State>,
    snapshot: SnapshotView,
)
    ensures
        from_snapshot::<A>(machine, snapshot).last_applied == snapshot.meta.last_log_id,
        from_snapshot::<A>(machine, snapshot).membership == snapshot.meta.last_membership,
        from_snapshot::<A>(machine, snapshot).state == A::restored(
            machine.state,
            snapshot.data,
        ).0,
        snapshot.meta.last_log_id matches Some(id) ==> snapshot_at(snapshot.meta) == id.index,
        snapshot.meta.last_log_id is None ==> snapshot_at(snapshot.meta) == 0,
{
}

/// What the application holds beside its state is touched by its commands alone, one by one.
pub proof fn law_only_commands_touch_what_is_kept<A: StateMachineApp>(
    machine: Machine<A::State>,
    kept: A::Kept,
    entries: Seq<EntryView>,
    entry: EntryView,
)
    ensures
        kept_through::<A>(machine, kept, Seq::empty()) == kept,
        !(entry.payload is Normal) ==> kept_through::<A>(machine, kept, entries.push(entry))
            == kept_through::<A>(machine, kept, entries),
        entry.payload matches PayloadView::Normal(bytes) ==> kept_through::<A>(
            machine,
            kept,
            entries.push(entry),
        ) == A::kept_after(
            kept_through::<A>(machine, kept, entries),
            after_entries::<A>(machine, entries).state,
            bytes,
        ),
{
    assert(entries.push(entry).drop_last() =~= entries);
}

/// A store that was restored stands where its snapshot was taken, whatever it held before, and
/// keeps the snapshot; a new one has applied nothing and keeps none.
pub proof fn law_a_restored_store_stands_at_its_snapshot<A: StateMachineApp>(
    store: StateMachineStore<A>,
    machine: Machine<A::State>,
    snapshot: SnapshotView,
)
    ensures
        store.is_restored(machine.state, snapshot) ==> store.machine() == from_snapshot::<A>(
            machine,
            snapshot,
        ) && store.snapshot() == Some(snapshot),
        store.is_new(machine.state) ==> store.machine().state == machine.state
            && store.machine().last_applied is None && store.snapshot() is None,
{
}

} // verus!
