//! The raft log: entries in index order, with the vote and the commit point beside them.
//!
//! Consensus does not care what it replicates: payloads are opaque bytes.

use vstd::prelude::*;

use crate::ranking::lemma_filter_members;

verus! {

/// One log entry's payload: opaque bytes, encoded and decoded by the application.
#[derive(Debug, PartialEq)]
pub struct Payload(pub Vec<u8>);

/// The state machine's reply to an applied entry: an application-defined count.
#[derive(Clone, Copy, Debug, PartialEq, Eq, Structural)]
pub struct Applied(pub u32);

/// The identity of a log entry: the leader that proposed it, and its place.
#[derive(Clone, Copy, Debug, PartialEq, Eq, Structural)]
pub struct LogId {
    pub term: u64,
    pub node_id: u64,
    pub index: u64,
}

/// A vote: for whom in which term, and whether a quorum granted it.
#[derive(Clone, Copy, Debug, PartialEq, Eq, Structural)]
pub struct Vote {
    pub term: u64,
    pub node_id: u64,
    pub committed: bool,
}

/// The members of a group: the voter sets of a (joint) configuration, and every node's address.
#[derive(Debug, PartialEq)]
pub struct Membership {
    pub configs: Vec<Vec<u64>>,
    pub nodes: Vec<(u64, String)>,
}

/// What a membership holds.
pub struct MembershipView {
    pub configs: Seq<Seq<u64>>,
    pub nodes: Seq<(u64, Seq<char>)>,
}

impl View for Membership {
    type V = MembershipView;

    open spec fn view(&self) -> MembershipView {
        MembershipView {
            configs: self.configs@.map_values(|c: Vec<u64>| c@),
            nodes: self.nodes@.map_values(|n: (u64, String)| (n.0, n.1@)),
        }
    }
}

/// A copy of a list of bytes.
pub fn copy_bytes(bytes: &Vec<u8>) -> (copy: Vec<u8>)
    ensures
        copy@ == bytes@,
{
    let mut copy: Vec<u8> = Vec::new();
    let mut i: usize = 0;
    while i < bytes.len()
        invariant
            i <= bytes@.len(),
            copy@ == bytes@.take(i as int),
        decreases bytes@.len() - i,
    {
        copy.push(bytes[i]);
        assert(copy@ =~= bytes@.take(i + 1));
        i = i + 1;
    }
    assert(bytes@.take(i as int) =~= bytes@);
    copy
}

fn copy_ids(ids: &Vec<u64>) -> (copy: Vec<u64>)
    ensures
        copy@ == ids@,
{
    let mut copy: Vec<u64> = Vec::new();
    let mut i: usize = 0;
    while i < ids.len()
        invariant
            i <= ids@.len(),
            copy@ == ids@.take(i as int),
        decreases ids@.len() - i,
    {
        copy.push(ids[i]);
        assert(copy@ =~= ids@.take(i + 1));
        i = i + 1;
    }
    assert(ids@.take(i as int) =~= ids@);
    copy
}

impl Clone for Membership {
    fn clone(&self) -> (copy: Self)
        ensures
            copy@ == self@,
    {
        let mut configs: Vec<Vec<u64>> = Vec::new();
        let mut i: usize = 0;
        while i < self.configs.len()
            invariant
                i <= self.configs@.len(),
                configs@.len() == i,
                forall|j: int| 0 <= j < i ==> (#[trigger] configs@[j])@ == self.configs@[j]@,
            decreases self.configs@.len() - i,
        {
            configs.push(copy_ids(&self.configs[i]));
            i = i + 1;
        }
        let mut nodes: Vec<(u64, String)> = Vec::new();
        let mut k: usize = 0;
        while k < self.nodes.len()
            invariant
                k <= self.nodes@.len(),
                nodes@.len() == k,
                forall|j: int|
                    0 <= j < k ==> (#[trigger] nodes@[j]).0 == self.nodes@[j].0 && nodes@[j].1@
                        == self.nodes@[j].1@,
            decreases self.nodes@.len() - k,
        {
            nodes.push((self.nodes[k].0, self.nodes[k].1.clone()));
            k = k + 1;
        }
        let copy = Membership { configs, nodes };
        assert(copy@.configs =~= self@.configs);
        assert(copy@.nodes =~= self@.nodes);
        copy
    }
}

/// What an entry carries.
#[derive(Debug, PartialEq)]
pub enum EntryPayload {
    Blank,
    Normal(Payload),
    Membership(Membership),
}

/// One log entry.
#[derive(Debug, PartialEq)]
pub struct Entry {
    pub log_id: LogId,
    pub payload: EntryPayload,
}

/// What an entry carries, as a value.
pub enum PayloadView {
    Blank,
    Normal(Seq<u8>),
    Membership(MembershipView),
}

/// An entry as a value.
pub struct EntryView {
    pub log_id: LogId,
    pub payload: PayloadView,
}

impl View for Entry {
    type V = EntryView;

    open spec fn view(&self) -> EntryView {
        EntryView {
            log_id: self.log_id,
            payload: match self.payload {
                EntryPayload::Blank => PayloadView::Blank,
                EntryPayload::Normal(p) => PayloadView::Normal(p.0@),
                EntryPayload::Membership(m) => PayloadView::Membership(m@),
            },
        }
    }
}

impl Clone for Entry {
    fn clone(&self) -> (copy: Self)
        ensures
            copy@ == self@,
    {
        let payload = match &self.payload {
            EntryPayload::Blank => EntryPayload::Blank,
            EntryPayload::Normal(p) => EntryPayload::Normal(Payload(copy_bytes(&p.0))),
            EntryPayload::Membership(m) => EntryPayload::Membership(m.clone()),
        };
        Entry { log_id: self.log_id, payload }
    }
}

/// The entries of a list as values.
pub open spec fn entries_of(list: Seq<Entry>) -> Seq<EntryView> {
    list.map_values(|e: Entry| e@)
}

/// Standing before a place in the log.
pub open spec fn below(index: u64) -> spec_fn(EntryView) -> bool {
    |e: EntryView| e.log_id.index < index
}

/// Standing behind a place in the log.
pub open spec fn above(index: u64) -> spec_fn(EntryView) -> bool {
    |e: EntryView| e.log_id.index > index
}

/// Standing in a range of the log; without an end the range is open.
pub open spec fn between(from: u64, to: Option<u64>) -> spec_fn(EntryView) -> bool {
    |e: EntryView| from <= e.log_id.index && (to matches Some(end) ==> e.log_id.index < end)
}

/// What a truncation at `log_id` leaves: the entries before it.
pub open spec fn truncated(log: Seq<EntryView>, log_id: LogId) -> Seq<EntryView> {
    log.filter(below(log_id.index))
}

/// What a purge up to `log_id` leaves: the entries after it.
pub open spec fn purged(log: Seq<EntryView>, log_id: LogId) -> Seq<EntryView> {
    log.filter(above(log_id.index))
}

/// The entries from index `from` on, up to and without `to` where it is given.
pub open spec fn in_range(log: Seq<EntryView>, from: u64, to: Option<u64>) -> Seq<EntryView> {
    log.filter(between(from, to))
}

/// Whether the entries stand in the order of their indexes, no two at the same.
pub open spec fn in_order(log: Seq<EntryView>) -> bool {
    forall|i: int, j: int|
        #![trigger log[i], log[j]]
        0 <= i < j < log.len() ==> log[i].log_id.index < log[j].log_id.index
}

/// The log with an entry at its place, where it replaces what stood there.
pub open spec fn placed(log: Seq<EntryView>, entry: EntryView) -> Seq<EntryView> {
    log.filter(below(entry.log_id.index)).push(entry) + log.filter(above(entry.log_id.index))
}

/// The log after entries were appended one by one.
pub open spec fn appended(log: Seq<EntryView>, entries: Seq<EntryView>) -> Seq<EntryView>
    decreases entries.len(),
{
    if entries.len() == 0 {
        log
    } else {
        placed(appended(log, entries.drop_last()), entries.last())
    }
}

proof fn lemma_filter_in_order(log: Seq<EntryView>, keep: spec_fn(EntryView) -> bool)
    requires
        in_order(log),
    ensures
        in_order(log.filter(keep)),
        log.filter(keep).len() <= log.len(),
    decreases log.len(),
{
    reveal(Seq::filter);
    if log.len() > 0 {
        let before = log.drop_last();
        assert(in_order(before)) by {
            assert forall|i: int, j: int|
                #![trigger before[i], before[j]]
                0 <= i < j < before.len() implies before[i].log_id.index
                < before[j].log_id.index by {
                assert(log[i].log_id.index < log[j].log_id.index);
            }
        }
        lemma_filter_in_order(before, keep);
        lemma_filter_members(before, keep);
        let kept = before.filter(keep);
        assert forall|i: int| 0 <= i < kept.len() implies (#[trigger] kept[i]).log_id.index
            < log.last().log_id.index by {
            assert(kept.contains(kept[i]));
            assert(before.contains(kept[i]));
            let k = choose|k: int| 0 <= k < before.len() && before[k] == kept[i];
            assert(log[k].log_id.index < log[log.len() - 1].log_id.index);
        }
    }
}

proof fn lemma_placed_in_order(log: Seq<EntryView>, entry: EntryView)
    requires
        in_order(log),
    ensures
        in_order(placed(log, entry)),
{
    let at = entry.log_id.index;
    let low = log.filter(below(at));
    let high = log.filter(above(at));
    lemma_filter_in_order(log, below(at));
    lemma_filter_in_order(log, above(at));
    lemma_filter_members(log, below(at));
    lemma_filter_members(log, above(at));
    assert forall|i: int| 0 <= i < low.len() implies (#[trigger] low[i]).log_id.index < at by {
        assert(low.contains(low[i]));
        assert(below(at)(low[i]));
    }
    assert forall|i: int| 0 <= i < high.len() implies (#[trigger] high[i]).log_id.index > at by {
        assert(high.contains(high[i]));
        assert(above(at)(high[i]));
    }
}

/// Splitting an ordered log at a place: what stands before `k` is below `index`, what stands from
/// `k` on is not.
proof fn lemma_split(log: Seq<EntryView>, index: u64, k: int)
    requires
        0 <= k <= log.len(),
        forall|i: int| 0 <= i < k ==> (#[trigger] log[i]).log_id.index < index,
        forall|i: int| k <= i < log.len() ==> (#[trigger] log[i]).log_id.index >= index,
    ensures
        log.filter(below(index)) == log.take(k),
    decreases log.len(),
{
    reveal(Seq::filter);
    if log.len() > 0 {
        let before = log.drop_last();
        let m = if k < log.len() {
            k
        } else {
            k - 1
        };
        assert forall|i: int| 0 <= i < m implies (#[trigger] before[i]).log_id.index < index by {
            assert(log[i] == before[i]);
        }
        assert forall|i: int| m <= i < before.len() implies (#[trigger] before[i]).log_id.index
            >= index by {
            assert(log[i] == before[i]);
        }
        lemma_split(before, index, m);
        assert(log[log.len() - 1] == log.last());
        if k < log.len() {
            assert(log.take(k) =~= before.take(k));
        } else {
            assert(log.take(k) =~= before.take(m).push(log.last()));
        }
    } else {
        assert(log.take(k) =~= log);
    }
}

proof fn lemma_split_above(log: Seq<EntryView>, index: u64, k: int)
    requires
        0 <= k <= log.len(),
        forall|i: int| 0 <= i < k ==> (#[trigger] log[i]).log_id.index <= index,
        forall|i: int| k <= i < log.len() ==> (#[trigger] log[i]).log_id.index > index,
    ensures
        log.filter(above(index)) == log.skip(k),
    decreases log.len(),
{
    reveal(Seq::filter);
    if log.len() > 0 {
        let before = log.drop_last();
        let m = if k < log.len() {
            k
        } else {
            k - 1
        };
        assert forall|i: int| 0 <= i < m implies (#[trigger] before[i]).log_id.index <= index by {
            assert(log[i] == before[i]);
        }
        assert forall|i: int| m <= i < before.len() implies (#[trigger] before[i]).log_id.index
            > index by {
            assert(log[i] == before[i]);
        }
        lemma_split_above(before, index, m);
        assert(log[log.len() - 1] == log.last());
        if k < log.len() {
            assert(log.skip(k) =~= before.skip(m).push(log.last()));
        } else {
            assert(log.skip(k) =~= before.skip(m));
        }
    } else {
        assert(log.skip(k) =~= log);
    }
}

/// An in-memory raft log.
pub struct LogStore {
    log: Vec<Entry>,
    last_purged: Option<LogId>,
    committed: Option<LogId>,
    vote: Option<Vote>,
}

/// The extent of a log: what was purged last, and the last entry there is.
#[derive(Clone, Copy, Debug, PartialEq, Eq, Structural)]
pub struct LogState {
    pub last_purged: Option<LogId>,
    pub last: Option<LogId>,
}

/// The identity of the last entry: of the log, or of what was purged where the log is empty.
pub open spec fn last_id(log: Seq<EntryView>, last_purged: Option<LogId>) -> Option<LogId> {
    if log.len() > 0 {
        Some(log.last().log_id)
    } else {
        last_purged
    }
}

impl Default for LogStore {
    /// An empty log.
    fn default() -> (store: Self)
        ensures
            store.well_formed(),
            store.entries() == Seq::<EntryView>::empty(),
            store.last_purged() is None,
            store.committed() is None,
            store.vote() is None,
    {
        let store = LogStore { log: Vec::new(), last_purged: None, committed: None, vote: None };
        assert(store.entries() =~= Seq::<EntryView>::empty());
        store
    }
}

impl LogStore {
    /// The entries, in index order.
    pub closed spec fn entries(self) -> Seq<EntryView> {
        entries_of(self.log@)
    }

    /// The last entry that was purged.
    pub closed spec fn last_purged(self) -> Option<LogId> {
        self.last_purged
    }

    /// The commit point.
    pub closed spec fn committed(self) -> Option<LogId> {
        self.committed
    }

    /// The vote.
    pub closed spec fn vote(self) -> Option<Vote> {
        self.vote
    }

    /// What every operation keeps: entries stand in index order, one per index.
    pub open spec fn well_formed(self) -> bool {
        in_order(self.entries())
    }

    fn position(&self, index: u64, strictly: bool) -> (k: usize)
        requires
            self.well_formed(),
        ensures
            k <= self.entries().len(),
            forall|i: int|
                0 <= i < k ==> if strictly {
                    (#[trigger] self.entries()[i]).log_id.index <= index
                } else {
                    self.entries()[i].log_id.index < index
                },
            forall|i: int|
                k <= i < self.entries().len() ==> if strictly {
                    (#[trigger] self.entries()[i]).log_id.index > index
                } else {
                    self.entries()[i].log_id.index >= index
                },
    {
        let ghost log = self.entries();
        let mut low: usize = 0;
        let mut high: usize = self.log.len();
        while low < high
            invariant
                log == self.entries(),
                in_order(log),
                log.len() == self.log@.len(),
                low <= high <= log.len(),
                forall|i: int|
                    0 <= i < low ==> if strictly {
                        (#[trigger] log[i]).log_id.index <= index
                    } else {
                        log[i].log_id.index < index
                    },
                forall|i: int|
                    high <= i < log.len() ==> if strictly {
                        (#[trigger] log[i]).log_id.index > index
                    } else {
                        log[i].log_id.index >= index
                    },
            decreases high - low,
        {
            let middle: usize = low + (high - low) / 2;
            let found: u64 = self.log[middle].log_id.index;
            assert(log[middle as int].log_id.index == found);
            if found < index || (strictly && found == index) {
                low = middle + 1;
            } else {
                high = middle;
            }
        }
        low
    }

    fn place(&mut self, entry: Entry)
        requires
            old(self).well_formed(),
        ensures
            final(self).well_formed(),
            final(self).entries() == placed(old(self).entries(), entry@),
            final(self).last_purged == old(self).last_purged,
            final(self).committed == old(self).committed,
            final(self).vote == old(self).vote,
    {
        let index: u64 = entry.log_id.index;
        let k: usize = self.position(index, false);
        let ghost before = self.entries();
        proof {
            lemma_split(before, index, k as int);
            lemma_placed_in_order(before, entry@);
        }
        if k < self.log.len() && self.log[k].log_id.index == index {
            proof {
                assert(before[k as int].log_id.index == index);
                lemma_split_above(before, index, k + 1);
            }
            self.log.set(k, entry);
            assert(self.entries() =~= placed(before, entry@));
        } else {
            proof {
                if k < before.len() {
                    assert(before[k as int].log_id.index > index);
                }
                assert forall|i: int| k <= i < before.len() implies (
                #[trigger] before[i]).log_id.index > index by {
                    if i > k {
                        assert(before[k as int].log_id.index < before[i].log_id.index);
                    }
                }
                lemma_split_above(before, index, k as int);
            }
            self.log.insert(k, entry);
            assert(self.entries() =~= placed(before, entry@));
        }
    }

    /// Append entries; one at an index that is taken replaces what stands there.
    pub fn append(&mut self, entries: Vec<Entry>)
        requires
            old(self).well_formed(),
        ensures
            final(self).well_formed(),
            final(self).entries() == appended(old(self).entries(), entries_of(entries@)),
            final(self).last_purged() == old(self).last_purged(),
            final(self).committed() == old(self).committed(),
            final(self).vote() == old(self).vote(),
    {
        let ghost start = self.entries();
        let ghost all = entries_of(entries@);
        assert(all.take(0) =~= Seq::<EntryView>::empty());
        for entry in rest: entries
            invariant
                rest.seq() == entries@,
                all == entries_of(entries@),
                self.well_formed(),
                self.entries() == appended(start, all.take(rest.index())),
                self.last_purged == old(self).last_purged,
                self.committed == old(self).committed,
                self.vote == old(self).vote,
        {
            proof {
                let seen = all.take(rest.index() + 1);
                assert(seen.drop_last() =~= all.take(rest.index()));
                assert(seen.last() == entry@);
            }
            self.place(entry);
        }
        assert(all.take(all.len() as int) =~= all);
    }

    /// Remove everything at and after `log_id`: a conflicting suffix.
    pub fn truncate(&mut self, log_id: LogId)
        requires
            old(self).well_formed(),
        ensures
            final(self).well_formed(),
            final(self).entries() == truncated(old(self).entries(), log_id),
            final(self).last_purged() == old(self).last_purged(),
            final(self).committed() == old(self).committed(),
            final(self).vote() == old(self).vote(),
    {
        let k: usize = self.position(log_id.index, false);
        proof {
            lemma_split(self.entries(), log_id.index, k as int);
            lemma_filter_in_order(self.entries(), below(log_id.index));
        }
        self.log.truncate(k);
        assert(self.entries() =~= old(self).entries().take(k as int));
    }

    /// Drop everything up to and including `log_id`: it is part of a snapshot.
    pub fn purge(&mut self, log_id: LogId)
        requires
            old(self).well_formed(),
        ensures
            final(self).well_formed(),
            final(self).entries() == purged(old(self).entries(), log_id),
            final(self).last_purged() == Some(log_id),
            final(self).committed() == old(self).committed(),
            final(self).vote() == old(self).vote(),
    {
        let k: usize = self.position(log_id.index, true);
        proof {
            lemma_split_above(self.entries(), log_id.index, k as int);
            lemma_filter_in_order(self.entries(), above(log_id.index));
        }
        let tail = self.log.split_off(k);
        self.log = tail;
        self.last_purged = Some(log_id);
        assert(self.entries() =~= old(self).entries().skip(k as int));
    }

    /// The entries of a range, from `from` up to but without `to` (without an end where that is
    /// absent).
    pub fn try_get_log_entries(&self, from: u64, to: Option<u64>) -> (found: Vec<Entry>)
        ensures
            entries_of(found@) == in_range(self.entries(), from, to),
    {
        let mut found: Vec<Entry> = Vec::new();
        let ghost log = self.entries();
        let mut i: usize = 0;
        proof {
            reveal(Seq::filter);
            assert(log.take(0) =~= Seq::<EntryView>::empty());
            assert(entries_of(found@) =~= Seq::<EntryView>::empty());
        }
        while i < self.log.len()
            invariant
                i <= self.log@.len(),
                log == self.entries(),
                entries_of(found@) == log.take(i as int).filter(between(from, to)),
            decreases self.log@.len() - i,
        {
            proof {
                let before = log.take(i as int);
                assert(log.take(i + 1) =~= before.push(log[i as int]));
                before.lemma_filter_push(log[i as int], between(from, to));
            }
            let index: u64 = self.log[i].log_id.index;
            let inside = match to {
                Some(end) => index < end,
                None => true,
            };
            if from <= index && inside {
                let copy = self.log[i].clone();
                let ghost earlier = entries_of(found@);
                found.push(copy);
                assert(entries_of(found@) =~= earlier.push(copy@));
            }
            i = i + 1;
        }
        assert(log.take(i as int) =~= log);
        found
    }

    /// The extent of the log.
    pub fn get_log_state(&self) -> (state: LogState)
        ensures
            state.last_purged == self.last_purged(),
            state.last == last_id(self.entries(), self.last_purged()),
    {
        let n: usize = self.log.len();
        let last = if n > 0 {
            assert(self.entries().last() == self.log@[n - 1]@);
            Some(self.log[n - 1].log_id)
        } else {
            self.last_purged
        };
        LogState { last_purged: self.last_purged, last }
    }

    /// Remember a vote.
    pub fn save_vote(&mut self, vote: Vote)
        ensures
            final(self).vote() == Some(vote),
            final(self).entries() == old(self).entries(),
            final(self).last_purged() == old(self).last_purged(),
            final(self).committed() == old(self).committed(),
    {
        self.vote = Some(vote);
    }

    /// The vote, if there is one.
    pub fn read_vote(&self) -> (vote: Option<Vote>)
        ensures
            vote == self.vote(),
    {
        self.vote
    }

    /// Remember the commit point.
    pub fn save_committed(&mut self, committed: Option<LogId>)
        ensures
            final(self).committed() == committed,
            final(self).entries() == old(self).entries(),
            final(self).last_purged() == old(self).last_purged(),
            final(self).vote() == old(self).vote(),
    {
        self.committed = committed;
    }

    /// The commit point.
    pub fn read_committed(&self) -> (committed: Option<LogId>)
        ensures
            committed == self.committed(),
    {
        self.committed
    }
}

/// What is read back of an append: at the index of the appended entry stands that entry, and at
/// every other index what stood there before.
pub proof fn law_append_is_read_back(log: Seq<EntryView>, entry: EntryView, other: EntryView)
    requires
        in_order(log),
    ensures
        placed(log, entry).contains(entry),
        other.log_id.index != entry.log_id.index ==> (placed(log, entry).contains(other)
            <==> log.contains(other)),
        other.log_id.index == entry.log_id.index && placed(log, entry).contains(other) ==> other
            == entry,
{
    let at = entry.log_id.index;
    let low = log.filter(below(at));
    let high = log.filter(above(at));
    let all = placed(log, entry);
    lemma_filter_members(log, below(at));
    lemma_filter_members(log, above(at));
    assert(all[low.len() as int] == entry);
    if all.contains(other) {
        let i = choose|i: int| 0 <= i < all.len() && all[i] == other;
        if i < low.len() {
            assert(low[i] == other);
            assert(low.contains(other));
            assert(below(at)(other));
        } else if i > low.len() {
            assert(high[i - low.len() - 1] == other);
            assert(high.contains(other));
            assert(above(at)(other));
        }
    }
    if log.contains(other) && other.log_id.index != at {
        if other.log_id.index < at {
            assert(below(at)(other));
            assert(low.contains(other));
            let i = choose|i: int| 0 <= i < low.len() && low[i] == other;
            assert(all[i] == other);
        } else {
            assert(above(at)(other));
            assert(high.contains(other));
            let i = choose|i: int| 0 <= i < high.len() && high[i] == other;
            assert(all[low.len() + 1 + i] == other);
        }
    }
}

/// Truncation and purging only take away, on either side of a place: together with the entry at
/// the place they part the log.
pub proof fn law_truncate_and_purge_part_the_log(log: Seq<EntryView>, at: u64, e: EntryView)
    requires
        in_order(log),
    ensures
        in_order(log.filter(below(at))),
        in_order(log.filter(above(at))),
        log.contains(e) <==> log.filter(below(at)).contains(e) || log.filter(above(at)).contains(e)
            || (log.contains(e) && e.log_id.index == at),
{
    lemma_filter_in_order(log, below(at));
    lemma_filter_in_order(log, above(at));
    lemma_filter_members(log, below(at));
    lemma_filter_members(log, above(at));
    assert(below(at)(e) == (e.log_id.index < at));
    assert(above(at)(e) == (e.log_id.index > at));
}

/// What a cut of the log leaves is told by the index alone: a truncation what lies before the given
/// entry, a purge what lies after it, a read what lies from the first index up to the last, that
/// one left out; and what is left stands in its order.
pub proof fn law_cuts_go_by_the_index(
    log: Seq<EntryView>,
    e: EntryView,
    at: LogId,
    from: u64,
    to: u64,
)
    ensures
        truncated(log, at).contains(e) <==> log.contains(e) && e.log_id.index < at.index,
        purged(log, at).contains(e) <==> log.contains(e) && e.log_id.index > at.index,
        in_range(log, from, Some(to)).contains(e) <==> log.contains(e) && from <= e.log_id.index
            < to,
        in_range(log, from, None).contains(e) <==> log.contains(e) && from <= e.log_id.index,
        in_order(log) ==> in_order(truncated(log, at)) && in_order(purged(log, at)) && in_order(
            in_range(log, from, Some(to)),
        ) && in_order(in_range(log, from, None)),
{
    crate::ranking::lemma_filter_members(log, below(at.index));
    crate::ranking::lemma_filter_members(log, above(at.index));
    crate::ranking::lemma_filter_members(log, between(from, Some(to)));
    crate::ranking::lemma_filter_members(log, between(from, None));
    if in_order(log) {
        lemma_filter_in_order(log, below(at.index));
        lemma_filter_in_order(log, above(at.index));
        lemma_filter_in_order(log, between(from, Some(to)));
        lemma_filter_in_order(log, between(from, None));
    }
}

/// After an append the last entry given for each index stands in the log, what stood at other
/// indexes still does, nothing else does, and the log is in order.
pub proof fn law_the_last_entry_of_an_index_stands(
    log: Seq<EntryView>,
    entries: Seq<EntryView>,
    i: int,
    e: EntryView,
)
    requires
        in_order(log),
    ensures
        in_order(appended(log, entries)),
        0 <= i < entries.len() && (forall|j: int|
            i < j < entries.len() ==> (#[trigger] entries[j]).log_id.index
                != entries[i].log_id.index) ==> appended(log, entries).contains(entries[i]),
        (forall|j: int|
            0 <= j < entries.len() ==> (#[trigger] entries[j]).log_id.index != e.log_id.index)
            ==> (appended(log, entries).contains(e) <==> log.contains(e)),
        appended(log, entries).contains(e) ==> log.contains(e) || entries.contains(e),
    decreases entries.len(),
{
    if entries.len() > 0 {
        let rest = entries.drop_last();
        let last = entries.last();
        let before = appended(log, rest);
        law_the_last_entry_of_an_index_stands(log, rest, i, e);
        lemma_placed_in_order(before, last);
        law_append_is_read_back(before, last, e);
        assert(entries[entries.len() - 1] == last);
        if 0 <= i < entries.len() && (forall|j: int|
            i < j < entries.len() ==> (#[trigger] entries[j]).log_id.index
                != entries[i].log_id.index) && i < rest.len() {
            assert(rest[i] == entries[i]);
            assert forall|j: int| i < j < rest.len() implies (#[trigger] rest[j]).log_id.index
                != rest[i].log_id.index by {
                assert(rest[j] == entries[j]);
            }
            law_append_is_read_back(before, last, entries[i]);
        }
        if forall|j: int|
            0 <= j < entries.len() ==> (#[trigger] entries[j]).log_id.index != e.log_id.index {
            assert forall|j: int| 0 <= j < rest.len() implies (#[trigger] rest[j]).log_id.index
                != e.log_id.index by {
                assert(rest[j] == entries[j]);
            }
        }
        if appended(log, entries).contains(e) {
            if e.log_id.index == last.log_id.index {
                assert(entries.contains(e));
            } else if rest.contains(e) {
                let j = choose|j: int| 0 <= j < rest.len() && rest[j] == e;
                assert(entries[j] == e);
            }
        }
    }
}

/// The last id is that of the entry with the largest index, and of what was purged where the log
/// holds none.
pub proof fn law_the_last_id_is_the_largest(
    log: Seq<EntryView>,
    last_purged: Option<LogId>,
    e: EntryView,
)
    requires
        in_order(log),
    ensures
        log.contains(e) ==> last_id(log, last_purged) is Some && e.log_id.index <= last_id(
            log,
            last_purged,
        )->0.index,
        log.len() > 0 ==> exists|i: int|
            0 <= i < log.len() && Some((#[trigger] log[i]).log_id) == last_id(log, last_purged),
        log.len() == 0 ==> last_id(log, last_purged) == last_purged,
{
    if log.len() > 0 {
        assert(log[log.len() - 1] == log.last());
    }
    if log.contains(e) {
        let i = choose|i: int| 0 <= i < log.len() && log[i] == e;
        if i < log.len() - 1 {
            assert(log[i].log_id.index < log[log.len() - 1].log_id.index);
        }
    }
}

} // verus!
