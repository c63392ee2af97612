//! Agent memory as a governed index type.
//!
//! Entries live in a named namespace, carry a time to live and a writer attribution stamp, are
//! bounded by a quota per writer, and are searchable. Isolation, expiry, attribution and quota
//! are what make this the one place where an agent may write.

use vstd::hash_map::StringHashMap;
use vstd::prelude::*;

use crate::ranking::{cut, never_tie, orderable, rank, ranking_of, with_inserted, Ranked};
use crate::text::{owned, same, texts, trim, trimmed};
use crate::tokens::{runs, tokenize, tokens, tokens_known, tokens_of_runs};

verus! {

/// One remembered item. `id` is assigned by the store; provenance is `writer` and `created_ms`.
#[derive(Debug, PartialEq)]
pub struct MemoryEntry {
    pub id: u64,
    pub namespace: String,
    pub text: String,
    pub writer: String,
    pub created_ms: u64,
    pub ttl_secs: u64,
}

impl Clone for MemoryEntry {
    fn clone(&self) -> (copy: Self)
        ensures
            copy == *self,
    {
        MemoryEntry {
            id: self.id,
            namespace: self.namespace.clone(),
            text: self.text.clone(),
            writer: self.writer.clone(),
            created_ms: self.created_ms,
            ttl_secs: self.ttl_secs,
        }
    }
}

/// Whether an entry's time to live has run out; zero lives for ever.
pub open spec fn expired(entry: MemoryEntry, now_ms: u64) -> bool {
    entry.ttl_secs != 0 && now_ms >= entry.created_ms + entry.ttl_secs * 1000
}

/// The entries that have not expired, in order.
pub open spec fn live(entries: Seq<MemoryEntry>, now_ms: u64) -> Seq<MemoryEntry> {
    entries.filter(|e: MemoryEntry| !expired(e, now_ms))
}

/// How many entries are live at `now_ms`.
pub open spec fn counted(entries: Seq<MemoryEntry>, now_ms: u64) -> nat {
    live(entries, now_ms).len()
}

/// Being written by a writer.
pub open spec fn written_by(writer: Seq<char>) -> spec_fn(MemoryEntry) -> bool {
    |e: MemoryEntry| e.writer@ == writer
}

/// How many of the entries a writer holds.
pub open spec fn held(entries: Seq<MemoryEntry>, writer: Seq<char>) -> nat {
    entries.filter(written_by(writer)).len()
}

impl MemoryEntry {
    fn expired_at(&self, now_ms: u64) -> (result: bool)
        ensures
            result == expired(*self, now_ms),
    {
        self.ttl_secs != 0 && now_ms as u128 >= self.created_ms as u128 + self.ttl_secs as u128
            * 1000
    }
}

/// Why a write was refused: the governance boundary, surfaced and never a silent drop.
#[derive(Debug, PartialEq)]
pub enum WriteError {
    /// This writer already holds the per-namespace quota.
    QuotaExceeded { writer: String, quota: usize },
    /// Empty namespace, text or writer: memory requires attribution and content.
    Malformed(&'static str),
}

struct Space {
    name: String,
    entries: Vec<MemoryEntry>,
}

/// A governed, namespaced memory store.
pub struct MemoryStore {
    spaces: Vec<Space>,
    slots: StringHashMap<usize>,
    next_id: u64,
    quota_per_writer: usize,
}

fn kept(entries: Vec<MemoryEntry>, now_ms: u64) -> (rest: Vec<MemoryEntry>)
    ensures
        rest@ == live(entries@, now_ms),
        rest@.len() <= entries@.len(),
{
    let mut result: Vec<MemoryEntry> = Vec::new();
    proof {
        reveal(Seq::filter);
        assert(entries@.take(0) =~= Seq::<MemoryEntry>::empty());
    }
    for entry in rest: entries
        invariant
            rest.seq() == entries@,
            result@ == live(entries@.take(rest.index()), now_ms),
            result@.len() <= rest.index(),
    {
        proof {
            let before = entries@.take(rest.index());
            assert(entries@.take(rest.index() + 1) =~= before.push(entry));
            before.lemma_filter_push(entry, |e: MemoryEntry| !expired(e, now_ms));
        }
        if !entry.expired_at(now_ms) {
            result.push(entry);
        }
    }
    assert(entries@.take(entries@.len() as int) =~= entries@);
    result
}

fn count_live(entries: &Vec<MemoryEntry>, now_ms: u64) -> (count: usize)
    ensures
        count == live(entries@, now_ms).len(),
{
    let mut count: usize = 0;
    let mut i: usize = 0;
    proof {
        reveal(Seq::filter);
        assert(entries@.take(0) =~= Seq::<MemoryEntry>::empty());
    }
    while i < entries.len()
        invariant
            i <= entries@.len(),
            count <= i,
            count == live(entries@.take(i as int), now_ms).len(),
        decreases entries@.len() - i,
    {
        proof {
            let before = entries@.take(i as int);
            assert(entries@.take(i + 1) =~= before.push(entries@[i as int]));
            before.lemma_filter_push(entries@[i as int], |e: MemoryEntry| !expired(e, now_ms));
        }
        if !entries[i].expired_at(now_ms) {
            count = count + 1;
        }
        i = i + 1;
    }
    assert(entries@.take(i as int) =~= entries@);
    count
}

fn count_held(entries: &Vec<MemoryEntry>, writer: &str) -> (count: usize)
    ensures
        count == held(entries@, writer@),
{
    let mut count: usize = 0;
    let mut i: usize = 0;
    proof {
        reveal(Seq::filter);
        assert(entries@.take(0) =~= Seq::<MemoryEntry>::empty());
    }
    while i < entries.len()
        invariant
            i <= entries@.len(),
            count <= i,
            count == held(entries@.take(i as int), writer@),
        decreases entries@.len() - i,
    {
        proof {
            let before = entries@.take(i as int);
            assert(entries@.take(i + 1) =~= before.push(entries@[i as int]));
            before.lemma_filter_push(entries@[i as int], written_by(writer@));
        }
        if same(entries[i].writer.as_str(), writer) {
            count = count + 1;
        }
        i = i + 1;
    }
    assert(entries@.take(i as int) =~= entries@);
    count
}

/// Whether entries are filed under `namespace`, with growing identifiers below `next_id`.
pub open spec fn filed(entries: Seq<MemoryEntry>, namespace: Seq<char>, next_id: u64) -> bool {
    &&& forall|i: int|
        0 <= i < entries.len() ==> (#[trigger] entries[i]).namespace@ == namespace && entries[i].id
            < next_id
    &&& forall|i: int, j: int|
        #![trigger entries[i], entries[j]]
        0 <= i < j < entries.len() ==> entries[i].id < entries[j].id
}

/// Whether no writer holds more than the quota.
pub open spec fn within_quota(entries: Seq<MemoryEntry>, quota: usize) -> bool {
    forall|writer: Seq<char>| #[trigger] held(entries, writer) <= quota
}

/// Whether two lists share no identifier.
pub open spec fn disjoint_ids(a: Seq<MemoryEntry>, b: Seq<MemoryEntry>) -> bool {
    forall|i: int, j: int|
        #![trigger a[i], b[j]]
        0 <= i < a.len() && 0 <= j < b.len() ==> a[i].id != b[j].id
}

spec fn total_entries(spaces: Seq<Space>) -> nat
    decreases spaces.len(),
{
    if spaces.len() == 0 {
        0
    } else {
        total_entries(spaces.drop_last()) + spaces.last().entries@.len()
    }
}

proof fn lemma_total_update(spaces: Seq<Space>, at: int, space: Space)
    requires
        0 <= at < spaces.len(),
    ensures
        total_entries(spaces.update(at, space)) + spaces[at].entries@.len() == total_entries(spaces)
            + space.entries@.len(),
    decreases spaces.len(),
{
    let next = spaces.update(at, space);
    if at < spaces.len() - 1 {
        lemma_total_update(spaces.drop_last(), at, space);
        assert(next.drop_last() =~= spaces.drop_last().update(at, space));
    } else {
        assert(next.drop_last() =~= spaces.drop_last());
    }
}

/// Expiry only takes away: what is left keeps its order, and no writer holds more than before.
proof fn lemma_live(entries: Seq<MemoryEntry>, now_ms: u64, namespace: Seq<char>, next_id: u64)
    requires
        filed(entries, namespace, next_id),
    ensures
        filed(live(entries, now_ms), namespace, next_id),
        live(entries, now_ms).len() <= entries.len(),
        forall|x: MemoryEntry| #[trigger]
            live(entries, now_ms).contains(x) ==> entries.contains(x) && !expired(x, now_ms),
        forall|writer: Seq<char>| #[trigger]
            held(live(entries, now_ms), writer) <= held(entries, writer),
    decreases entries.len(),
{
    reveal(Seq::filter);
    crate::ranking::lemma_filter_members(entries, |e: MemoryEntry| !expired(e, now_ms));
    if entries.len() > 0 {
        let before = entries.drop_last();
        let last = entries.last();
        assert(filed(before, namespace, next_id)) by {
            assert forall|i: int, j: int|
                #![trigger before[i], before[j]]
                0 <= i < j < before.len() implies before[i].id < before[j].id by {
                assert(entries[i].id < entries[j].id);
            }
            assert forall|i: int| 0 <= i < before.len() implies (#[trigger] before[i]).namespace@
                == namespace && before[i].id < next_id by {
                assert(entries[i] == before[i]);
            }
        }
        lemma_live(before, now_ms, namespace, next_id);
        let rest = live(before, now_ms);
        let all = live(entries, now_ms);
        assert forall|i: int| 0 <= i < rest.len() implies (#[trigger] rest[i]).id < last.id by {
            assert(rest.contains(rest[i]));
            assert(before.contains(rest[i]));
            let k = choose|k: int| 0 <= k < before.len() && before[k] == rest[i];
            assert(entries[k].id < entries[entries.len() - 1].id);
        }
        assert forall|writer: Seq<char>| #[trigger] held(all, writer) <= held(entries, writer) by {
            let mine = written_by(writer);
            assert(held(rest, writer) <= held(before, writer));
            assert(entries =~= before.push(last));
            before.lemma_filter_push(last, mine);
            rest.lemma_filter_push(last, mine);
        }
    }
}

proof fn lemma_disjoint_members(
    a: Seq<MemoryEntry>,
    b: Seq<MemoryEntry>,
    x: Seq<MemoryEntry>,
    y: Seq<MemoryEntry>,
)
    requires
        disjoint_ids(a, b),
        forall|e: MemoryEntry| #[trigger] x.contains(e) ==> a.contains(e),
        forall|e: MemoryEntry| #[trigger] y.contains(e) ==> b.contains(e),
    ensures
        disjoint_ids(x, y),
{
    assert forall|i: int, j: int|
        #![trigger x[i], y[j]]
        0 <= i < x.len() && 0 <= j < y.len() implies x[i].id != y[j].id by {
        assert(x.contains(x[i]) && y.contains(y[j]));
        let m = choose|m: int| 0 <= m < a.len() && a[m] == x[i];
        let n = choose|n: int| 0 <= n < b.len() && b[n] == y[j];
        assert(a[m].id != b[n].id);
    }
}

/// Whether a store holds the same as another but for one namespace.
pub open spec fn same_elsewhere(store: MemoryStore, other: MemoryStore, namespace: Seq<char>) -> bool {
    forall|ns: Seq<char>| ns != namespace ==> #[trigger] store.entries_in(ns) == other.entries_in(ns)
}

/// Whether an entry is the one that a write makes: content, attribution and time as given.
pub open spec fn written_entry(
    entry: MemoryEntry,
    id: u64,
    namespace: Seq<char>,
    text: Seq<char>,
    writer: Seq<char>,
    ttl_secs: u64,
    now_ms: u64,
) -> bool {
    &&& entry.id == id
    &&& entry.namespace@ == namespace
    &&& entry.text@ == text
    &&& entry.writer@ == writer
    &&& entry.ttl_secs == ttl_secs
    &&& entry.created_ms == now_ms
}

impl MemoryStore {
    /// The entries of a namespace, in the order of writing.
    pub closed spec fn entries_in(self, namespace: Seq<char>) -> Seq<MemoryEntry> {
        if self.slots@.contains_key(namespace) {
            self.spaces@[self.slots@[namespace] as int].entries@
        } else {
            Seq::empty()
        }
    }

    /// The identifier that the next entry gets.
    pub closed spec fn next_id(self) -> u64 {
        self.next_id
    }

    /// The largest number of live entries per namespace and writer.
    pub closed spec fn quota(self) -> usize {
        self.quota_per_writer
    }

    /// What every operation keeps: namespaces are found where they stand, and the entries are
    /// governed.
    pub closed spec fn well_formed(self) -> bool {
        &&& self.indexed()
        &&& self.governed()
        &&& self.size() <= self.next_id
    }

    /// The governance of the entries: each is filed under its own namespace, identifiers grow
    /// with the order of writing, stay below the next one and never repeat, and no writer holds
    /// more than the quota in a namespace.
    pub open spec fn governed(self) -> bool {
        &&& forall|ns: Seq<char>| #[trigger]
            filed(self.entries_in(ns), ns, self.next_id()) && within_quota(
                self.entries_in(ns),
                self.quota(),
            )
        &&& forall|ns: Seq<char>, other: Seq<char>|
            #![trigger self.entries_in(ns), self.entries_in(other)]
            ns != other ==> disjoint_ids(self.entries_in(ns), self.entries_in(other))
    }

    /// The number of entries over all namespaces.
    pub closed spec fn size(self) -> nat {
        total_entries(self.spaces@)
    }

    spec fn indexed(self) -> bool {
        &&& forall|ns: Seq<char>| #[trigger]
            self.slots@.contains_key(ns) ==> self.slots@[ns] < self.spaces@.len()
                && self.spaces@[self.slots@[ns] as int].name@ == ns
        &&& forall|i: int|
            0 <= i < self.spaces@.len() ==> self.slots@.contains_key(
                (#[trigger] self.spaces@[i]).name@,
            ) && self.slots@[self.spaces@[i].name@] == i
    }

    /// An empty store with a quota per writer.
    pub fn new(quota_per_writer: usize) -> (store: Self)
        ensures
            store.well_formed(),
            store.quota() == quota_per_writer,
            store.next_id() == 0,
            store.size() == 0,
            forall|ns: Seq<char>| #[trigger] store.entries_in(ns) == Seq::<MemoryEntry>::empty(),
    {
        MemoryStore { spaces: Vec::new(), slots: StringHashMap::new(), next_id: 0, quota_per_writer }
    }

    fn slot_of(&self, namespace: &str) -> (slot: Option<usize>)
        requires
            self.well_formed(),
        ensures
            match slot {
                Some(at) => self.slots@.contains_key(namespace@) && self.slots@[namespace@] == at
                    && at < self.spaces@.len() && self.spaces@[at as int].name@ == namespace@,
                None => !self.slots@.contains_key(namespace@),
            },
    {
        match self.slots.get(namespace) {
            Some(at) => Some(*at),
            None => None,
        }
    }

    fn sweep_slot(&mut self, at: usize, now_ms: u64) -> (dropped: usize)
        requires
            old(self).well_formed(),
            at < old(self).spaces@.len(),
        ensures
            final(self).well_formed(),
            final(self).next_id == old(self).next_id,
            final(self).quota_per_writer == old(self).quota_per_writer,
            final(self).slots@ == old(self).slots@,
            final(self).spaces@.len() == old(self).spaces@.len(),
            forall|i: int|
                0 <= i < old(self).spaces@.len() && i != at ==> #[trigger] final(self).spaces@[i]
                    == old(self).spaces@[i],
            final(self).spaces@[at as int].name@ == old(self).spaces@[at as int].name@,
            final(self).spaces@[at as int].entries@ == live(
                old(self).spaces@[at as int].entries@,
                now_ms,
            ),
            dropped + final(self).size() == old(self).size(),
            dropped + final(self).spaces@[at as int].entries@.len()
                == old(self).spaces@[at as int].entries@.len(),
            final(self).entries_in(old(self).spaces@[at as int].name@) == live(
                old(self).entries_in(old(self).spaces@[at as int].name@),
                now_ms,
            ),
            same_elsewhere(*final(self), *old(self), old(self).spaces@[at as int].name@),
    {
        let name = self.spaces[at].name.clone();
        let mut space = Space { name, entries: Vec::new() };
        std::mem::swap(&mut self.spaces[at], &mut space);
        let before: usize = space.entries.len();
        let entries = kept(space.entries, now_ms);
        let dropped: usize = before - entries.len();
        let swept = Space { name: space.name, entries };
        self.spaces.set(at, swept);
        proof {
            let was = *old(self);
            let ns = was.spaces@[at as int].name@;
            assert(self.spaces@ =~= was.spaces@.update(at as int, swept));
            lemma_total_update(was.spaces@, at as int, swept);
            assert(self.indexed());
            assert(was.entries_in(ns) == was.spaces@[at as int].entries@);
            assert(filed(was.entries_in(ns), ns, was.next_id()));
            lemma_live(was.entries_in(ns), now_ms, ns, was.next_id);
            assert forall|other: Seq<char>| other != ns implies #[trigger] self.entries_in(other)
                == was.entries_in(other) by {
                if was.slots@.contains_key(other) {
                    assert(was.slots@[other] != at);
                }
            }
            lemma_swept_governed(was, *self, now_ms);
        }
        dropped
    }

    fn sweep_namespace(&mut self, namespace: &str, now_ms: u64)
        requires
            old(self).well_formed(),
        ensures
            final(self).well_formed(),
            final(self).next_id() == old(self).next_id(),
            final(self).quota() == old(self).quota(),
            final(self).entries_in(namespace@) == live(old(self).entries_in(namespace@), now_ms),
            same_elsewhere(*final(self), *old(self), namespace@),
            final(self).slots@ == old(self).slots@,
            final(self).size() + old(self).entries_in(namespace@).len()
                == old(self).size() + final(self).entries_in(namespace@).len(),
    {
        match self.slot_of(namespace) {
            Some(at) => {
                self.sweep_slot(at, now_ms);
            },
            None => {
                proof {
                    reveal(Seq::filter);
                }
            },
        }
    }
}

/// A write is well formed when namespace, text and writer all hold more than whitespace.
pub open spec fn complaint(namespace: Seq<char>, text: Seq<char>, writer: Seq<char>) -> Option<
    Seq<char>,
> {
    if trimmed(namespace).len() == 0 {
        Some("namespace is required"@)
    } else if trimmed(text).len() == 0 {
        Some("text is required"@)
    } else if trimmed(writer).len() == 0 {
        Some("writer attribution is required"@)
    } else {
        None
    }
}

/// Whether `after` and `result` come of a write to `before`: blank parts are refused, a writer
/// at the quota is refused once what has expired is gone, and otherwise the entry is added last,
/// under the next id.
pub open spec fn writes(
    before: MemoryStore,
    after: MemoryStore,
    namespace: Seq<char>,
    text: Seq<char>,
    writer: Seq<char>,
    ttl_secs: u64,
    now_ms: u64,
    result: Result<u64, WriteError>,
) -> bool {
    let swept = live(before.entries_in(namespace), now_ms);
    match (complaint(namespace, text, writer), result) {
        (Some(why), Err(WriteError::Malformed(message))) => message@ == why && after.entries_in(
            namespace,
        ) == before.entries_in(namespace) && after.next_id() == before.next_id(),
        (None, Err(WriteError::QuotaExceeded { writer: who, quota })) => held(swept, writer)
            >= before.quota() && who@ == writer && quota == before.quota() && after.entries_in(
            namespace,
        ) == swept && after.next_id() == before.next_id(),
        (None, Ok(id)) => held(swept, writer) < before.quota() && id == before.next_id()
            && after.next_id() == id + 1 && after.entries_in(namespace).len() == swept.len() + 1
            && after.entries_in(namespace).drop_last() == swept && written_entry(
            after.entries_in(namespace).last(),
            id,
            namespace,
            text,
            writer,
            ttl_secs,
            now_ms,
        ),
        _ => false,
    }
}

impl MemoryStore {
    /// Govern and write one entry: attribution and content are required, and the writer's live
    /// entries in the namespace must be below the quota (expired ones are swept first, so that
    /// expiry frees quota). The only write path.
    pub fn remember(
        &mut self,
        namespace: &str,
        text: &str,
        writer: &str,
        ttl_secs: u64,
        now_ms: u64,
    ) -> (result: Result<u64, WriteError>)
        requires
            old(self).well_formed(),
            complaint(namespace@, text@, writer@) is None && held(
                live(old(self).entries_in(namespace@), now_ms),
                writer@,
            ) < old(self).quota() ==> old(self).next_id() < u64::MAX,
        ensures
            final(self).well_formed(),
            final(self).quota() == old(self).quota(),
            same_elsewhere(*final(self), *old(self), namespace@),
            final(self).size() + old(self).entries_in(namespace@).len()
                == old(self).size() + final(self).entries_in(namespace@).len(),
            writes(
                *old(self),
                *final(self),
                namespace@,
                text@,
                writer@,
                ttl_secs,
                now_ms,
                result,
            ),
    {
        if trim(namespace).as_str().is_empty() {
            return Err(WriteError::Malformed("namespace is required"));
        }
        if trim(text).as_str().is_empty() {
            return Err(WriteError::Malformed("text is required"));
        }
        if trim(writer).as_str().is_empty() {
            return Err(WriteError::Malformed("writer attribution is required"));
        }
        self.sweep_namespace(namespace, now_ms);
        let ghost swept = self.entries_in(namespace@);
        let ghost was = *self;
        let live_by_writer: usize = match self.slot_of(namespace) {
            Some(at) => count_held(&self.spaces[at].entries, writer),
            None => {
                proof {
                    reveal(Seq::filter);
                }
                0
            },
        };
        if live_by_writer >= self.quota_per_writer {
            return Err(
                WriteError::QuotaExceeded { writer: owned(writer), quota: self.quota_per_writer },
            );
        }
        let id: u64 = self.next_id;
        let entry = MemoryEntry {
            id,
            namespace: owned(namespace),
            text: owned(text),
            writer: owned(writer),
            created_ms: now_ms,
            ttl_secs,
        };
        let at: usize = match self.slot_of(namespace) {
            Some(at) => at,
            None => {
                let at: usize = self.spaces.len();
                self.slots.insert(owned(namespace), at);
                self.spaces.push(Space { name: owned(namespace), entries: Vec::new() });
                proof {
                    assert(self.spaces@.drop_last() =~= was.spaces@);
                    assert(self.entries_in(namespace@) =~= swept);
                    assert forall|ns: Seq<char>| #[trigger] self.entries_in(ns) == was.entries_in(
                        ns,
                    ) by {
                        if ns != namespace@ && was.slots@.contains_key(ns) {
                            assert(self.spaces@[was.slots@[ns] as int]
                                == was.spaces@[was.slots@[ns] as int]);
                        }
                    }
                    assert(self.indexed()) by {
                        assert forall|i: int|
                            0 <= i < self.spaces@.len() implies self.slots@.contains_key(
                            (#[trigger] self.spaces@[i]).name@,
                        ) && self.slots@[self.spaces@[i].name@] == i by {
                            if i < at {
                                assert(self.spaces@[i] == was.spaces@[i]);
                                assert(was.slots@.contains_key(was.spaces@[i].name@));
                            }
                        }
                    }
                }
                at
            },
        };
        let ghost mid = *self;
        let name = self.spaces[at].name.clone();
        let mut space = Space { name, entries: Vec::new() };
        std::mem::swap(&mut self.spaces[at], &mut space);
        let mut entries = space.entries;
        entries.push(entry);
        let grown = Space { name: space.name, entries };
        self.spaces.set(at, grown);
        self.next_id = id + 1;
        proof {
            assert(self.spaces@ =~= mid.spaces@.update(at as int, grown));
            lemma_total_update(mid.spaces@, at as int, grown);
            assert(self.indexed());
            assert(self.entries_in(namespace@) == swept.push(entry));
            assert(swept.push(entry).drop_last() =~= swept);
            assert forall|ns: Seq<char>| ns != namespace@ implies #[trigger] self.entries_in(ns)
                == was.entries_in(ns) by {
                assert(mid.entries_in(ns) == was.entries_in(ns));
                if mid.slots@.contains_key(ns) {
                    assert(mid.slots@[ns] != at);
                }
            }
            lemma_grown_governed(was, *self, namespace@, entry);
        }
        Ok(id)
    }

    /// Evict expired entries in every namespace; returns how many were dropped.
    pub fn sweep(&mut self, now_ms: u64) -> (dropped: usize)
        requires
            old(self).well_formed(),
            old(self).size() <= usize::MAX,
        ensures
            final(self).well_formed(),
            final(self).quota() == old(self).quota(),
            final(self).next_id() == old(self).next_id(),
            is_swept(*old(self), *final(self), now_ms),
            dropped == old(self).size() - final(self).size(),
    {
        let mut dropped: usize = 0;
        let mut at: usize = 0;
        let ghost was = *self;
        while at < self.spaces.len()
            invariant
                self.well_formed(),
                was == *old(self),
                was.well_formed(),
                was.size() <= usize::MAX,
                at <= self.spaces@.len(),
                self.spaces@.len() == was.spaces@.len(),
                self.slots@ == was.slots@,
                self.next_id == was.next_id,
                self.quota_per_writer == was.quota_per_writer,
                dropped + self.size() == was.size(),
                forall|i: int|
                    0 <= i < at ==> (#[trigger] self.spaces@[i]).entries@ == live(
                        was.spaces@[i].entries@,
                        now_ms,
                    ),
                forall|i: int|
                    at <= i < self.spaces@.len() ==> #[trigger] self.spaces@[i] == was.spaces@[i],
            decreases self.spaces@.len() - at,
        {
            let more: usize = self.sweep_slot(at, now_ms);
            dropped = dropped + more;
            at = at + 1;
        }
        proof {
            reveal(Seq::filter);
            assert forall|ns: Seq<char>| #[trigger] self.entries_in(ns) == live(
                was.entries_in(ns),
                now_ms,
            ) by {
                if was.slots@.contains_key(ns) {
                    let i = was.slots@[ns] as int;
                    assert(self.spaces@[i].entries@ == live(was.spaces@[i].entries@, now_ms));
                }
            }
        }
        dropped
    }

    /// Live entry count in a namespace, expired ones excluded.
    pub fn len(&self, namespace: &str, now_ms: u64) -> (count: usize)
        requires
            self.well_formed(),
        ensures
            count == counted(self.entries_in(namespace@), now_ms),
    {
        match self.slot_of(namespace) {
            Some(at) => count_live(&self.spaces[at].entries, now_ms),
            None => {
                proof {
                    reveal(Seq::filter);
                }
                0
            },
        }
    }
}

proof fn lemma_grown_governed(
    was: MemoryStore,
    now: MemoryStore,
    namespace: Seq<char>,
    entry: MemoryEntry,
)
    requires
        was.governed(),
        now.next_id == was.next_id + 1,
        now.quota_per_writer == was.quota_per_writer,
        now.entries_in(namespace) == was.entries_in(namespace).push(entry),
        same_elsewhere(now, was, namespace),
        entry.id == was.next_id,
        entry.namespace@ == namespace,
        held(was.entries_in(namespace), entry.writer@) < was.quota(),
    ensures
        now.governed(),
{
    let old_entries = was.entries_in(namespace);
    assert forall|ns: Seq<char>| #[trigger]
        filed(now.entries_in(ns), ns, now.next_id()) && within_quota(
            now.entries_in(ns),
            now.quota(),
        ) by {
        assert(filed(was.entries_in(ns), ns, was.next_id()));
        assert(within_quota(was.entries_in(ns), was.quota()));
        if ns == namespace {
            let entries = old_entries.push(entry);
            assert forall|writer: Seq<char>| #[trigger] held(entries, writer) <= now.quota() by {
                assert(held(old_entries, writer) <= was.quota());
                old_entries.lemma_filter_push(entry, written_by(writer));
            }
        }
    }
    assert forall|ns: Seq<char>, other: Seq<char>|
        #![trigger now.entries_in(ns), now.entries_in(other)]
        ns != other implies disjoint_ids(now.entries_in(ns), now.entries_in(other)) by {
        assert(disjoint_ids(was.entries_in(ns), was.entries_in(other)));
        assert(filed(was.entries_in(ns), ns, was.next_id()));
        assert(filed(was.entries_in(other), other, was.next_id()));
        let a = now.entries_in(ns);
        let b = now.entries_in(other);
        assert forall|i: int, j: int|
            #![trigger a[i], b[j]]
            0 <= i < a.len() && 0 <= j < b.len() implies a[i].id != b[j].id by {
            if i < was.entries_in(ns).len() {
                assert(a[i] == was.entries_in(ns)[i]);
            }
            if j < was.entries_in(other).len() {
                assert(b[j] == was.entries_in(other)[j]);
            }
        }
    }
}

/// A store whose every namespace lost expired entries at most is still governed.
proof fn lemma_swept_governed(was: MemoryStore, now: MemoryStore, now_ms: u64)
    requires
        was.governed(),
        now.next_id == was.next_id,
        now.quota_per_writer == was.quota_per_writer,
        forall|ns: Seq<char>| #[trigger]
            now.entries_in(ns) == was.entries_in(ns) || now.entries_in(ns) == live(
                was.entries_in(ns),
                now_ms,
            ),
    ensures
        now.governed(),
{
    assert forall|ns: Seq<char>| #[trigger]
        filed(now.entries_in(ns), ns, now.next_id()) && within_quota(
            now.entries_in(ns),
            now.quota(),
        ) by {
        assert(filed(was.entries_in(ns), ns, was.next_id()));
        lemma_live(was.entries_in(ns), now_ms, ns, was.next_id());
        assert forall|writer: Seq<char>| #[trigger]
            held(now.entries_in(ns), writer) <= now.quota() by {
            assert(held(was.entries_in(ns), writer) <= was.quota());
        }
    }
    assert forall|ns: Seq<char>, other: Seq<char>|
        #![trigger now.entries_in(ns), now.entries_in(other)]
        ns != other implies disjoint_ids(now.entries_in(ns), now.entries_in(other)) by {
        assert(disjoint_ids(was.entries_in(ns), was.entries_in(other)));
        assert(filed(was.entries_in(ns), ns, was.next_id()));
        assert(filed(was.entries_in(other), other, was.next_id()));
        lemma_live(was.entries_in(ns), now_ms, ns, was.next_id());
        lemma_live(was.entries_in(other), now_ms, other, was.next_id());
        lemma_disjoint_members(
            was.entries_in(ns),
            was.entries_in(other),
            now.entries_in(ns),
            now.entries_in(other),
        );
    }
}

/// How many of the query terms occur among an entry's tokens.
pub open spec fn overlap(terms: Seq<Seq<char>>, words: Seq<Seq<char>>) -> nat {
    terms.filter(|t: Seq<char>| words.contains(t)).len()
}

/// An entry found by a recall: how well it matches, when it was written, and where it stands.
#[derive(Clone, Copy, Debug, PartialEq, Eq, Structural)]
pub struct Candidate {
    pub overlap: usize,
    pub created_ms: u64,
    pub at: usize,
}

/// More overlap first, then the freshest, then in the order of writing.
impl Ranked for Candidate {
    open spec fn ranks_before(self, other: Self) -> bool {
        self.overlap > other.overlap || (self.overlap == other.overlap && (self.created_ms
            > other.created_ms || (self.created_ms == other.created_ms && self.at < other.at)))
    }

    fn precedes(&self, other: &Self) -> (result: bool) {
        self.overlap > other.overlap || (self.overlap == other.overlap && (self.created_ms
            > other.created_ms || (self.created_ms == other.created_ms && self.at < other.at)))
    }
}

/// Whether an entry answers a query: it is live, and shares a term with the query (an empty
/// query is answered by every live entry).
pub open spec fn answers(entry: MemoryEntry, terms: Seq<Seq<char>>, now_ms: u64) -> bool {
    !expired(entry, now_ms) && (terms.len() == 0 || overlap(terms, tokens(entry.text@)) > 0)
}

/// The candidates of a query among entries, in the order of writing.
pub open spec fn candidates(entries: Seq<MemoryEntry>, terms: Seq<Seq<char>>, now_ms: u64) -> Seq<
    Candidate,
>
    decreases entries.len(),
{
    if entries.len() == 0 {
        Seq::empty()
    } else {
        let before = candidates(entries.drop_last(), terms, now_ms);
        let entry = entries.last();
        if answers(entry, terms, now_ms) {
            before.push(
                Candidate {
                    overlap: overlap(terms, tokens(entry.text@)) as usize,
                    created_ms: entry.created_ms,
                    at: (entries.len() - 1) as usize,
                },
            )
        } else {
            before
        }
    }
}

/// The candidates that a recall returns, best first.
pub open spec fn recalled(
    entries: Seq<MemoryEntry>,
    query: Seq<char>,
    limit: int,
    now_ms: u64,
) -> Seq<Candidate> {
    cut(ranking_of(candidates(entries, tokens(query), now_ms)), limit)
}

fn mentions(words: &Vec<String>, term: &str) -> (result: bool)
    ensures
        result == texts(words@).contains(term@),
{
    let mut i: usize = 0;
    while i < words.len()
        invariant
            i <= words@.len(),
            forall|j: int| 0 <= j < i ==> (#[trigger] words@[j])@ != term@,
        decreases words@.len() - i,
    {
        if same(words[i].as_str(), term) {
            assert(texts(words@)[i as int] == term@);
            return true;
        }
        i = i + 1;
    }
    assert forall|j: int| 0 <= j < texts(words@).len() implies texts(words@)[j] != term@ by {
        assert(words@[j]@ != term@);
    }
    false
}

fn count_overlap(terms: &Vec<String>, words: &Vec<String>) -> (count: usize)
    ensures
        count == overlap(texts(terms@), texts(words@)),
{
    let ghost all = texts(terms@);
    let ghost known = |t: Seq<char>| texts(words@).contains(t);
    let mut count: usize = 0;
    let mut i: usize = 0;
    proof {
        reveal(Seq::filter);
        assert(all.take(0) =~= Seq::<Seq<char>>::empty());
    }
    while i < terms.len()
        invariant
            i <= terms@.len(),
            count <= i,
            all == texts(terms@),
            known == (|t: Seq<char>| texts(words@).contains(t)),
            count == all.take(i as int).filter(known).len(),
        decreases terms@.len() - i,
    {
        proof {
            let before = all.take(i as int);
            assert(all.take(i + 1) =~= before.push(all[i as int]));
            before.lemma_filter_push(all[i as int], known);
        }
        if mentions(words, terms[i].as_str()) {
            count = count + 1;
        }
        i = i + 1;
    }
    assert(all.take(i as int) =~= all);
    count
}

proof fn lemma_candidates(entries: Seq<MemoryEntry>, terms: Seq<Seq<char>>, now_ms: u64)
    requires
        entries.len() <= usize::MAX,
    ensures
        forall|i: int|
            0 <= i < candidates(entries, terms, now_ms).len() ==> (#[trigger] candidates(
                entries,
                terms,
                now_ms,
            )[i]).at < entries.len() && answers(
                entries[candidates(entries, terms, now_ms)[i].at as int],
                terms,
                now_ms,
            ),
        forall|i: int, j: int|
            #![trigger candidates(entries, terms, now_ms)[i], candidates(entries, terms, now_ms)[j]]
            0 <= i < j < candidates(entries, terms, now_ms).len() ==> candidates(
                entries,
                terms,
                now_ms,
            )[i].at < candidates(entries, terms, now_ms)[j].at,
        forall|k: int|
            0 <= k < entries.len() && answers(#[trigger] entries[k], terms, now_ms) ==> exists|
                i: int,
            |
                0 <= i < candidates(entries, terms, now_ms).len() && (#[trigger] candidates(
                    entries,
                    terms,
                    now_ms,
                )[i]).at == k,
    decreases entries.len(),
{
    if entries.len() > 0 {
        let rest = entries.drop_last();
        lemma_candidates(rest, terms, now_ms);
        let before = candidates(rest, terms, now_ms);
        let found = candidates(entries, terms, now_ms);
        assert forall|i: int| 0 <= i < found.len() implies (#[trigger] found[i]).at < entries.len()
            && answers(entries[found[i].at as int], terms, now_ms) by {
            if i < before.len() {
                assert(found[i] == before[i]);
                assert(rest[before[i].at as int] == entries[before[i].at as int]);
            }
        }
        assert forall|i: int, j: int|
            #![trigger found[i], found[j]]
            0 <= i < j < found.len() implies found[i].at < found[j].at by {
            assert(found[i] == before[i]);
            if j < before.len() {
                assert(found[j] == before[j]);
            }
        }
        assert forall|k: int|
            0 <= k < entries.len() && answers(#[trigger] entries[k], terms, now_ms) implies exists|
            i: int,
        | 0 <= i < found.len() && (#[trigger] found[i]).at == k by {
            if k < rest.len() {
                assert(rest[k] == entries[k]);
                let i = choose|i: int| 0 <= i < before.len() && (#[trigger] before[i]).at == k;
                assert(found[i] == before[i]);
            } else {
                assert(found[before.len() as int].at == k);
            }
        }
    }
}

proof fn lemma_candidates_rank(found: Seq<Candidate>)
    requires
        forall|i: int, j: int|
            #![trigger found[i], found[j]]
            0 <= i < j < found.len() ==> found[i].at < found[j].at,
    ensures
        orderable(found),
        never_tie(found),
{
}

/// What a recall finds: the entries behind the recalled candidates.
pub open spec fn recalled_entries(
    entries: Seq<MemoryEntry>,
    query: Seq<char>,
    limit: int,
    now_ms: u64,
) -> Seq<MemoryEntry> {
    let page = recalled(entries, query, limit, now_ms);
    Seq::new(page.len(), |i: int| entries[page[i].at as int])
}

impl MemoryStore {
    fn search(entries: &Vec<MemoryEntry>, query: &str, limit: usize, now_ms: u64) -> (page: Vec<
        Candidate,
    >)
        ensures
            page@ == recalled(entries@, query@, limit as int, now_ms),
            forall|i: int| 0 <= i < page@.len() ==> (#[trigger] page@[i]).at < entries@.len(),
            tokens_known(query@),
            forall|i: int|
                0 <= i < entries@.len() && !expired(#[trigger] entries@[i], now_ms)
                    ==> tokens_known(entries@[i].text@),
    {
        let terms = tokenize(query);
        let mut found: Vec<Candidate> = Vec::new();
        let mut i: usize = 0;
        let ghost wanted = texts(terms@);
        assert(entries@.take(0) =~= Seq::<MemoryEntry>::empty());
        while i < entries.len()
            invariant
                i <= entries@.len(),
                wanted == texts(terms@),
                wanted.len() == terms@.len(),
                forall|j: int|
                    0 <= j < i && !expired(#[trigger] entries@[j], now_ms) ==> tokens_known(
                        entries@[j].text@,
                    ),
                found@ == candidates(entries@.take(i as int), wanted, now_ms),
            decreases entries@.len() - i,
        {
            proof {
                let seen = entries@.take(i + 1);
                assert(seen.drop_last() =~= entries@.take(i as int));
                assert(seen.last() == entries@[i as int]);
            }
            if !entries[i].expired_at(now_ms) {
                let words = tokenize(entries[i].text.as_str());
                let overlap: usize = count_overlap(&terms, &words);
                if terms.len() == 0 || overlap > 0 {
                    found.push(Candidate { overlap, created_ms: entries[i].created_ms, at: i });
                }
            }
            i = i + 1;
        }
        assert(entries@.take(i as int) =~= entries@);
        let ghost all = found@;
        proof {
            lemma_candidates(entries@, wanted, now_ms);
            lemma_candidates_rank(all);
        }
        let mut page = rank(found);
        proof {
            let whole = ranking_of(all);
            crate::ranking::lemma_ranking_of(all);
            crate::ranking::lemma_same_elements(page@, all);
            crate::ranking::lemma_orderable_subset(all, page@);
            assert(never_tie(page@)) by {
                assert forall|x: int, y: int|
                    #![trigger page@[x], page@[y]]
                    0 <= x < page@.len() && 0 <= y < page@.len() && page@[x]
                        != page@[y] implies page@[x].ranks_before(page@[y])
                    || page@[y].ranks_before(page@[x]) by {
                    assert(all.contains(page@[x]) && all.contains(page@[y]));
                }
            }
            crate::ranking::lemma_ranking_unique(page@, whole);
            assert forall|x: int| 0 <= x < page@.len() implies (#[trigger] page@[x]).at
                < entries@.len() by {
                assert(all.contains(page@[x]));
                let y = choose|y: int| 0 <= y < all.len() && all[y] == page@[x];
                assert(all[y].at < entries@.len());
            }
        }
        if limit != 0 && page.len() > limit {
            let ghost whole = page@;
            page.truncate(limit);
            assert(page@ =~= whole.take(limit as int));
        }
        page
    }

    /// Recall: token-overlap search within one namespace, skipping expired entries; more overlap
    /// first, then the freshest, then in the order of writing; at most `limit` (zero = all).
    pub fn recall(&self, namespace: &str, query: &str, limit: usize, now_ms: u64) -> (found: Vec<
        &MemoryEntry,
    >)
        requires
            self.well_formed(),
        ensures
            ({
                let entries = self.entries_in(namespace@);
                let page = recalled_entries(entries, query@, limit as int, now_ms);
                &&& found@.len() == page.len()
                &&& forall|i: int| 0 <= i < page.len() ==> *(#[trigger] found@[i]) == page[i]
                &&& entries.len() > 0 ==> tokens_known(query@)
                &&& forall|i: int|
                    0 <= i < entries.len() && !expired(#[trigger] entries[i], now_ms)
                        ==> tokens_known(entries[i].text@)
            }),
    {
        let mut found: Vec<&MemoryEntry> = Vec::new();
        match self.slot_of(namespace) {
            None => {
                proof {
                    let none = Seq::<MemoryEntry>::empty();
                    let list = candidates(none, tokens(query@), now_ms);
                    assert(list =~= Seq::<Candidate>::empty());
                    assert(ranking_of(list) =~= Seq::<Candidate>::empty());
                }
                found
            },
            Some(at) => {
                let entries = &self.spaces[at].entries;
                let page = Self::search(entries, query, limit, now_ms);
                let mut i: usize = 0;
                while i < page.len()
                    invariant
                        i <= page@.len(),
                        found@.len() == i,
                        forall|j: int|
                            0 <= j < page@.len() ==> (#[trigger] page@[j]).at < entries@.len(),
                        forall|j: int|
                            0 <= j < i ==> *(#[trigger] found@[j]) == entries@[page@[j].at as int],
                    decreases page@.len() - i,
                {
                    assert(page@[i as int].at < entries@.len());
                    found.push(&entries[page[i].at]);
                    i = i + 1;
                }
                found
            },
        }
    }
}

/// The store is governed at all times.
pub proof fn law_store_is_governed(store: MemoryStore)
    requires
        store.well_formed(),
    ensures
        store.governed(),
{
}

/// Namespaces are isolated: whatever a recall finds was written to that namespace, is live, and
/// shares a term with the query (or the query is empty); and with no limit everything that
/// answers is found.
pub proof fn law_recall_is_isolated(
    store: MemoryStore,
    namespace: Seq<char>,
    query: Seq<char>,
    limit: int,
    now_ms: u64,
)
    requires
        store.well_formed(),
        store.entries_in(namespace).len() <= usize::MAX,
        limit >= 0,
    ensures
        ({
            let entries = store.entries_in(namespace);
            let page = recalled(entries, query, limit, now_ms);
            &&& forall|i: int|
                0 <= i < page.len() ==> (#[trigger] page[i]).at < entries.len() && answers(
                    entries[page[i].at as int],
                    tokens(query),
                    now_ms,
                ) && entries[page[i].at as int].namespace@ == namespace
            &&& limit == 0 ==> forall|k: int|
                0 <= k < entries.len() && answers(#[trigger] entries[k], tokens(query), now_ms)
                    ==> exists|i: int| 0 <= i < page.len() && (#[trigger] page[i]).at == k
            &&& limit != 0 ==> page.len() <= limit
        }),
{
    let entries = store.entries_in(namespace);
    let terms = tokens(query);
    let all = candidates(entries, terms, now_ms);
    let whole = ranking_of(all);
    let page = recalled(entries, query, limit, now_ms);
    lemma_candidates(entries, terms, now_ms);
    crate::ranking::lemma_ranking_of(all);
    crate::ranking::lemma_same_elements(whole, all);
    assert(filed(entries, namespace, store.next_id()));
    assert forall|i: int| 0 <= i < page.len() implies (#[trigger] page[i]).at < entries.len()
        && answers(entries[page[i].at as int], terms, now_ms)
        && entries[page[i].at as int].namespace@ == namespace by {
        assert(whole[i] == page[i]);
        assert(whole.contains(page[i]));
        assert(all.contains(page[i]));
        let y = choose|y: int| 0 <= y < all.len() && all[y] == page[i];
        assert(all[y].at < entries.len());
    }
    if limit == 0 {
        assert forall|k: int|
            0 <= k < entries.len() && answers(#[trigger] entries[k], terms, now_ms) implies exists|
            i: int,
        | 0 <= i < page.len() && (#[trigger] page[i]).at == k by {
            let y = choose|y: int| 0 <= y < all.len() && (#[trigger] all[y]).at == k;
            assert(all.contains(all[y]));
            assert(whole.contains(all[y]));
            let i = choose|i: int| 0 <= i < whole.len() && whole[i] == all[y];
            assert(page[i].at == k);
        }
    }
}

/// What was written is read back: an entry that is live and shares a term with the query (or the
/// query is empty) is among what an unlimited recall finds.
pub proof fn law_written_is_recalled(
    before: Seq<MemoryEntry>,
    entry: MemoryEntry,
    query: Seq<char>,
    now_ms: u64,
)
    requires
        before.len() < usize::MAX,
        answers(entry, tokens(query), now_ms),
    ensures
        exists|i: int|
            0 <= i < recalled(before.push(entry), query, 0, now_ms).len() && (#[trigger] recalled(
                before.push(entry),
                query,
                0,
                now_ms,
            )[i]).at == before.len(),
{
    let entries = before.push(entry);
    let all = candidates(entries, tokens(query), now_ms);
    let page = recalled(entries, query, 0, now_ms);
    lemma_candidates(entries, tokens(query), now_ms);
    crate::ranking::lemma_ranking_of(all);
    crate::ranking::lemma_same_elements(page, all);
    assert(answers(entries[before.len() as int], tokens(query), now_ms));
    let y = choose|y: int| 0 <= y < all.len() && (#[trigger] all[y]).at == before.len();
    assert(all.contains(all[y]));
    assert(page.contains(all[y]));
    let i = choose|i: int| 0 <= i < page.len() && page[i] == all[y];
    assert(page[i].at == before.len());
}

/// The entries of the given namespaces, counted.
pub open spec fn entries_total(store: MemoryStore, names: Seq<Seq<char>>) -> nat
    decreases names.len(),
{
    if names.len() == 0 {
        0
    } else {
        entries_total(store, names.drop_last()) + store.entries_in(names.last()).len()
    }
}

proof fn lemma_total_remove(store: MemoryStore, names: Seq<Seq<char>>, at: int)
    requires
        0 <= at < names.len(),
    ensures
        entries_total(store, names) == entries_total(store, names.remove(at)) + store.entries_in(
            names[at],
        ).len(),
    decreases names.len(),
{
    let rest = names.remove(at);
    if at < names.len() - 1 {
        lemma_total_remove(store, names.drop_last(), at);
        assert(rest.drop_last() =~= names.drop_last().remove(at));
        assert(rest.last() == names.last());
    } else {
        assert(rest =~= names.drop_last());
    }
}

proof fn lemma_total_of_empty(store: MemoryStore, names: Seq<Seq<char>>)
    requires
        forall|i: int|
            0 <= i < names.len() ==> store.entries_in(#[trigger] names[i]).len() == 0,
    ensures
        entries_total(store, names) == 0,
    decreases names.len(),
{
    if names.len() > 0 {
        let rest = names.drop_last();
        assert forall|i: int| 0 <= i < rest.len() implies store.entries_in(
            #[trigger] rest[i],
        ).len() == 0 by {
            assert(rest[i] == names[i]);
        }
        lemma_total_of_empty(store, rest);
        assert(store.entries_in(names[names.len() - 1]).len() == 0);
    }
}

/// Whether a list of names leaves out no namespace that holds something.
pub open spec fn names_all(store: MemoryStore, names: Seq<Seq<char>>) -> bool {
    forall|ns: Seq<char>| #[trigger] store.entries_in(ns).len() > 0 ==> names.contains(ns)
}

proof fn lemma_same_total(store: MemoryStore, a: Seq<Seq<char>>, b: Seq<Seq<char>>)
    requires
        a.no_duplicates(),
        b.no_duplicates(),
        forall|i: int|
            0 <= i < a.len() && store.entries_in(#[trigger] a[i]).len() > 0 ==> b.contains(a[i]),
        forall|i: int|
            0 <= i < b.len() && store.entries_in(#[trigger] b[i]).len() > 0 ==> a.contains(b[i]),
    ensures
        entries_total(store, a) == entries_total(store, b),
    decreases a.len(),
{
    if a.len() == 0 {
        assert forall|i: int| 0 <= i < b.len() implies store.entries_in(#[trigger] b[i]).len()
            == 0 by {
            assert(!a.contains(b[i]));
        }
        lemma_total_of_empty(store, b);
    } else {
        let x = a.last();
        let rest = a.drop_last();
        assert(a[a.len() - 1] == x);
        let other = if store.entries_in(x).len() > 0 {
            let at = choose|at: int| 0 <= at < b.len() && b[at] == x;
            assert(b.contains(x));
            lemma_total_remove(store, b, at);
            b.remove(at)
        } else {
            b
        };
        assert(rest.no_duplicates());
        assert forall|i: int| 0 <= i < rest.len() && store.entries_in(#[trigger] rest[i]).len()
            > 0 implies other.contains(rest[i]) by {
            assert(rest[i] == a[i]);
            let k = choose|k: int| 0 <= k < b.len() && b[k] == a[i];
            if store.entries_in(x).len() > 0 {
                let at = choose|at: int| 0 <= at < b.len() && b[at] == x;
                assert(k != at);
                if k < at {
                    assert(other[k] == a[i]);
                } else {
                    assert(other[k - 1] == a[i]);
                }
            }
        }
        assert forall|i: int| 0 <= i < other.len() && store.entries_in(#[trigger] other[i]).len()
            > 0 implies rest.contains(other[i]) by {
            let y = other[i];
            if store.entries_in(x).len() > 0 {
                let at = choose|at: int| 0 <= at < b.len() && b[at] == x;
                if i < at {
                    assert(b[i] == y);
                } else {
                    assert(b[i + 1] == y);
                }
            } else {
                assert(b[i] == y);
            }
            assert(a.contains(y) && y != x);
            let k = choose|k: int| 0 <= k < a.len() && a[k] == y;
            assert(rest[k] == y);
        }
        lemma_same_total(store, rest, other);
    }
}

spec fn space_names(spaces: Seq<Space>) -> Seq<Seq<char>> {
    Seq::new(spaces.len(), |i: int| spaces[i].name@)
}

proof fn lemma_total_of_spaces(store: MemoryStore, k: int)
    requires
        store.indexed(),
        0 <= k <= store.spaces@.len(),
    ensures
        total_entries(store.spaces@.take(k)) == entries_total(
            store,
            space_names(store.spaces@).take(k),
        ),
    decreases k,
{
    if k > 0 {
        lemma_total_of_spaces(store, k - 1);
        let spaces = store.spaces@.take(k);
        let names = space_names(store.spaces@).take(k);
        assert(spaces.drop_last() =~= store.spaces@.take(k - 1));
        assert(names.drop_last() =~= space_names(store.spaces@).take(k - 1));
        assert(store.slots@.contains_key(store.spaces@[k - 1].name@));
    }
}

/// The size of a store is the number of its entries: those of any namespaces that leave out none
/// that holds something.
pub proof fn law_size_counts_the_entries(store: MemoryStore, names: Seq<Seq<char>>)
    requires
        store.well_formed(),
        names.no_duplicates(),
        names_all(store, names),
    ensures
        store.size() == entries_total(store, names),
{
    let own = space_names(store.spaces@);
    lemma_total_of_spaces(store, store.spaces@.len() as int);
    assert(store.spaces@.take(store.spaces@.len() as int) =~= store.spaces@);
    assert(own.take(own.len() as int) =~= own);
    assert forall|i: int, j: int| 0 <= i < own.len() && 0 <= j < own.len() && i != j implies own[i]
        != own[j] by {
        assert(store.slots@[store.spaces@[i].name@] == i);
        assert(store.slots@[store.spaces@[j].name@] == j);
    }
    assert forall|i: int| 0 <= i < names.len() && store.entries_in(#[trigger] names[i]).len()
        > 0 implies own.contains(names[i]) by {
        assert(store.slots@.contains_key(names[i]));
        assert(own[store.slots@[names[i]] as int] == names[i]);
    }
    lemma_same_total(store, own, names);
}

/// Stores that hold the same entries have the same size.
pub proof fn law_size_is_of_the_entries(a: MemoryStore, b: MemoryStore)
    requires
        a.well_formed(),
        b.well_formed(),
        forall|ns: Seq<char>| #[trigger] a.entries_in(ns) == b.entries_in(ns),
    ensures
        a.size() == b.size(),
{
    let names = space_names(a.spaces@);
    assert forall|i: int, j: int|
        0 <= i < names.len() && 0 <= j < names.len() && i != j implies names[i] != names[j] by {
        assert(a.slots@[a.spaces@[i].name@] == i);
        assert(a.slots@[a.spaces@[j].name@] == j);
    }
    assert forall|ns: Seq<char>| #[trigger] a.entries_in(ns).len() > 0 implies names.contains(
        ns,
    ) by {
        assert(a.slots@.contains_key(ns));
        assert(names[a.slots@[ns] as int] == ns);
    }
    assert forall|ns: Seq<char>| #[trigger] b.entries_in(ns).len() > 0 implies names.contains(
        ns,
    ) by {
        assert(a.entries_in(ns) == b.entries_in(ns));
    }
    law_size_counts_the_entries(a, names);
    law_size_counts_the_entries(b, names);
    lemma_total_agrees(a, b, names);
}

proof fn lemma_total_agrees(a: MemoryStore, b: MemoryStore, names: Seq<Seq<char>>)
    requires
        forall|ns: Seq<char>| #[trigger] a.entries_in(ns) == b.entries_in(ns),
    ensures
        entries_total(a, names) == entries_total(b, names),
    decreases names.len(),
{
    if names.len() > 0 {
        lemma_total_agrees(a, b, names.drop_last());
        assert(a.entries_in(names.last()) == b.entries_in(names.last()));
    }
}

/// What is left by expiry is all left again: sweeping what was swept at the same time drops none.
pub proof fn law_second_sweep_drops_none(entries: Seq<MemoryEntry>, now_ms: u64, later_ms: u64)
    requires
        now_ms <= later_ms,
    ensures
        live(live(entries, now_ms), later_ms) == live(entries, later_ms),
        live(live(entries, now_ms), now_ms) == live(entries, now_ms),
    decreases entries.len(),
{
    reveal(Seq::filter);
    if entries.len() > 0 {
        law_second_sweep_drops_none(entries.drop_last(), now_ms, later_ms);
        let kept = live(entries.drop_last(), now_ms);
        if expired(entries.last(), now_ms) {
            law_expiry_is_final(entries.last(), now_ms, later_ms);
        } else {
            assert(kept.push(entries.last()).drop_last() =~= kept);
        }
    }
}

/// Whether two candidates stand for the same entry of their lists, equally ranked but for the
/// order of writing.
spec fn paired(
    a: Candidate,
    b: Candidate,
    of_a: Seq<MemoryEntry>,
    of_b: Seq<MemoryEntry>,
) -> bool {
    a.overlap == b.overlap && a.created_ms == b.created_ms && of_a[a.at as int] == of_b[b.at as int]
}

spec fn all_paired(
    a: Seq<Candidate>,
    b: Seq<Candidate>,
    of_a: Seq<MemoryEntry>,
    of_b: Seq<MemoryEntry>,
) -> bool {
    &&& a.len() == b.len()
    &&& forall|i: int|
        #![trigger a[i]]
        #![trigger b[i]]
        0 <= i < a.len() ==> paired(a[i], b[i], of_a, of_b)
}

spec fn all_before(list: Seq<Candidate>, at: usize) -> bool {
    forall|i: int| 0 <= i < list.len() ==> (#[trigger] list[i]).at < at
}

proof fn lemma_insert_paired(
    a: Seq<Candidate>,
    b: Seq<Candidate>,
    x: Candidate,
    y: Candidate,
    of_a: Seq<MemoryEntry>,
    of_b: Seq<MemoryEntry>,
)
    requires
        all_paired(a, b, of_a, of_b),
        paired(x, y, of_a, of_b),
        all_before(a, x.at),
        all_before(b, y.at),
    ensures
        all_paired(with_inserted(a, x), with_inserted(b, y), of_a, of_b),
    decreases a.len(),
{
    if a.len() > 0 {
        assert(paired(a[a.len() - 1], b[b.len() - 1], of_a, of_b));
        assert(a[a.len() - 1].at < x.at && b[b.len() - 1].at < y.at);
        if x.ranks_before(a.last()) {
            let rest = a.drop_last();
            let other = b.drop_last();
            assert forall|i: int|
                #![trigger rest[i]]
                #![trigger other[i]]
                0 <= i < rest.len() implies paired(rest[i], other[i], of_a, of_b) by {
                assert(rest[i] == a[i] && other[i] == b[i]);
            }
            assert forall|i: int| 0 <= i < rest.len() implies (#[trigger] rest[i]).at < x.at by {
                assert(rest[i] == a[i]);
            }
            assert forall|i: int| 0 <= i < other.len() implies (#[trigger] other[i]).at < y.at by {
                assert(other[i] == b[i]);
            }
            lemma_insert_paired(rest, other, x, y, of_a, of_b);
        }
    }
}

spec fn ascending(list: Seq<Candidate>) -> bool {
    forall|i: int, j: int|
        #![trigger list[i], list[j]]
        0 <= i < j < list.len() ==> list[i].at < list[j].at
}

proof fn lemma_ranking_paired(
    a: Seq<Candidate>,
    b: Seq<Candidate>,
    of_a: Seq<MemoryEntry>,
    of_b: Seq<MemoryEntry>,
)
    requires
        all_paired(a, b, of_a, of_b),
        ascending(a),
        ascending(b),
    ensures
        all_paired(ranking_of(a), ranking_of(b), of_a, of_b),
    decreases a.len(),
{
    if a.len() > 0 {
        let rest = a.drop_last();
        let other = b.drop_last();
        assert forall|i: int|
            #![trigger rest[i]]
            #![trigger other[i]]
            0 <= i < rest.len() implies paired(rest[i], other[i], of_a, of_b) by {
            assert(rest[i] == a[i] && other[i] == b[i]);
        }
        assert(ascending(rest) && ascending(other)) by {
            assert forall|i: int, j: int|
                #![trigger rest[i], rest[j]]
                0 <= i < j < rest.len() implies rest[i].at < rest[j].at by {
                assert(a[i].at < a[j].at);
            }
            assert forall|i: int, j: int|
                #![trigger other[i], other[j]]
                0 <= i < j < other.len() implies other[i].at < other[j].at by {
                assert(b[i].at < b[j].at);
            }
        }
        lemma_ranking_paired(rest, other, of_a, of_b);
        lemma_ranking_before(rest, a.last().at);
        lemma_ranking_before(other, b.last().at);
        assert(paired(a[a.len() - 1], b[b.len() - 1], of_a, of_b));
        lemma_insert_paired(ranking_of(rest), ranking_of(other), a.last(), b.last(), of_a, of_b);
    }
}

proof fn lemma_ranking_before(list: Seq<Candidate>, at: usize)
    requires
        forall|i: int| 0 <= i < list.len() ==> (#[trigger] list[i]).at < at,
    ensures
        all_before(ranking_of(list), at),
{
    let ranked = ranking_of(list);
    crate::ranking::lemma_ranking_of(list);
    crate::ranking::lemma_same_elements(ranked, list);
    assert forall|i: int| 0 <= i < ranked.len() implies (#[trigger] ranked[i]).at < at by {
        assert(ranked.contains(ranked[i]));
        let k = choose|k: int| 0 <= k < list.len() && list[k] == ranked[i];
        assert(list[k].at < at);
    }
}

proof fn lemma_live_candidates(
    entries: Seq<MemoryEntry>,
    terms: Seq<Seq<char>>,
    now_ms: u64,
    later_ms: u64,
)
    requires
        entries.len() <= usize::MAX,
        now_ms <= later_ms,
    ensures
        live(entries, now_ms).len() <= entries.len(),
        all_paired(
            candidates(live(entries, now_ms), terms, later_ms),
            candidates(entries, terms, later_ms),
            live(entries, now_ms),
            entries,
        ),
    decreases entries.len(),
{
    reveal(Seq::filter);
    if entries.len() > 0 {
        let rest = entries.drop_last();
        let entry = entries.last();
        lemma_live_candidates(rest, terms, now_ms, later_ms);
        let kept = live(rest, now_ms);
        let now_kept = live(entries, now_ms);
        let few = candidates(kept, terms, later_ms);
        let many = candidates(rest, terms, later_ms);
        lemma_candidates(kept, terms, later_ms);
        lemma_candidates(rest, terms, later_ms);
        if expired(entry, now_ms) {
            law_expiry_is_final(entry, now_ms, later_ms);
        } else {
            assert(now_kept.drop_last() =~= kept);
        }
        let few_now = candidates(now_kept, terms, later_ms);
        let many_now = candidates(entries, terms, later_ms);
        assert forall|i: int|
            #![trigger few_now[i]]
            #![trigger many_now[i]]
            0 <= i < few_now.len() implies paired(few_now[i], many_now[i], now_kept, entries) by {
            if i < few.len() {
                assert(few_now[i] == few[i] && many_now[i] == many[i]);
                assert(paired(few[i], many[i], kept, rest));
                assert(few[i].at < kept.len() && many[i].at < rest.len());
                assert(now_kept[few[i].at as int] == kept[few[i].at as int]);
                assert(entries[many[i].at as int] == rest[many[i].at as int]);
            }
        }
    } else {
        assert(live(entries, now_ms) =~= entries);
    }
}

/// A sweep is invisible: whatever a later recall asks for, it finds the same entries in what a sweep
/// left.
pub proof fn law_sweep_is_invisible(
    entries: Seq<MemoryEntry>,
    query: Seq<char>,
    limit: int,
    now_ms: u64,
    later_ms: u64,
)
    requires
        entries.len() <= usize::MAX,
        limit >= 0,
        now_ms <= later_ms,
    ensures
        recalled_entries(live(entries, now_ms), query, limit, later_ms) == recalled_entries(
            entries,
            query,
            limit,
            later_ms,
        ),
        live(live(entries, now_ms), later_ms).len() == live(entries, later_ms).len(),
{
    let kept = live(entries, now_ms);
    let terms = tokens(query);
    law_second_sweep_drops_none(entries, now_ms, later_ms);
    lemma_live_candidates(entries, terms, now_ms, later_ms);
    lemma_candidates(kept, terms, later_ms);
    lemma_candidates(entries, terms, later_ms);
    let few = candidates(kept, terms, later_ms);
    let many = candidates(entries, terms, later_ms);
    lemma_ranking_paired(few, many, kept, entries);
    let found = recalled(kept, query, limit, later_ms);
    let other = recalled(entries, query, limit, later_ms);
    assert forall|i: int| 0 <= i < found.len() implies kept[found[i].at as int]
        == entries[other[i].at as int] by {
        assert(found[i] == ranking_of(few)[i] && other[i] == ranking_of(many)[i]);
        assert(paired(ranking_of(few)[i], ranking_of(many)[i], kept, entries));
    }
    assert(recalled_entries(kept, query, limit, later_ms) =~= recalled_entries(
        entries,
        query,
        limit,
        later_ms,
    ));
}

/// A refused write is invisible: it leaves the entries of its namespace, or sweeps them, and so
/// every later recall, there and elsewhere, finds what it would have found.
pub proof fn law_refused_write_is_invisible(
    before: MemoryStore,
    after: MemoryStore,
    namespace: Seq<char>,
    now_ms: u64,
    other: Seq<char>,
    query: Seq<char>,
    limit: int,
    later_ms: u64,
)
    requires
        after.entries_in(namespace) == before.entries_in(namespace) || after.entries_in(namespace)
            == live(before.entries_in(namespace), now_ms),
        same_elsewhere(after, before, namespace),
        before.entries_in(other).len() <= usize::MAX,
        limit >= 0,
        now_ms <= later_ms,
    ensures
        recalled_entries(after.entries_in(other), query, limit, later_ms) == recalled_entries(
            before.entries_in(other),
            query,
            limit,
            later_ms,
        ),
{
    if other == namespace {
        law_sweep_is_invisible(before.entries_in(namespace), query, limit, now_ms, later_ms);
    } else {
        assert(after.entries_in(other) == before.entries_in(other));
    }
}

proof fn lemma_inserted_at(ranked: Seq<Candidate>, x: Candidate) -> (at: int)
    ensures
        0 <= at <= ranked.len(),
        with_inserted(ranked, x).len() == ranked.len() + 1,
        with_inserted(ranked, x)[at] == x,
        with_inserted(ranked, x).remove(at) == ranked,
    decreases ranked.len(),
{
    let grown = with_inserted(ranked, x);
    if ranked.len() > 0 && x.ranks_before(ranked.last()) {
        let at = lemma_inserted_at(ranked.drop_last(), x);
        let inner = with_inserted(ranked.drop_last(), x);
        assert(grown.remove(at) =~= inner.remove(at).push(ranked.last()));
        assert(grown.remove(at) =~= ranked);
        at
    } else {
        assert(grown.remove(ranked.len() as int) =~= ranked);
        ranked.len() as int
    }
}

/// A write gains exactly its entry: listing a namespace after it gives what listing it before gave,
/// and the new entry at some place.
pub proof fn law_write_gains_its_entry(before: Seq<MemoryEntry>, entry: MemoryEntry, now_ms: u64)
    requires
        before.len() < usize::MAX,
        entry.created_ms == now_ms,
    ensures
        exists|at: int| #[trigger]
            gains_at(
                recalled_entries(live(before, now_ms).push(entry), Seq::empty(), 0, now_ms),
                recalled_entries(before, Seq::empty(), 0, now_ms),
                entry,
                at,
            ),
{
    let none = Seq::<char>::empty();
    let terms = tokens(none);
    reveal_with_fuel(tokens_of_runs, 2);
    assert(runs(none).drop_last() =~= Seq::<Seq<char>>::empty());
    assert(terms.len() == 0);
    let kept = live(before, now_ms);
    let after = kept.push(entry);
    assert(after.drop_last() =~= kept);
    lemma_live_candidates(before, terms, now_ms, now_ms);
    lemma_candidates(kept, terms, now_ms);
    law_sweep_is_invisible(before, none, 0, now_ms, now_ms);
    let old_list = candidates(kept, terms, now_ms);
    let old_ranked = ranking_of(old_list);
    let new_list = candidates(after, terms, now_ms);
    assert(new_list.drop_last() =~= old_list);
    let at = lemma_inserted_at(old_ranked, new_list.last());
    let grown = ranking_of(new_list);
    crate::ranking::lemma_ranking_of(old_list);
    crate::ranking::lemma_same_elements(old_ranked, old_list);
    let listed = recalled_entries(after, none, 0, now_ms);
    let before_listed = recalled_entries(kept, none, 0, now_ms);
    assert(listed[at] == entry);
    assert forall|i: int| 0 <= i < before_listed.len() implies listed.remove(at)[i]
        == before_listed[i] by {
        assert(grown.remove(at)[i] == old_ranked[i]);
        assert(old_list.contains(old_ranked[i]));
        let k = choose|k: int| 0 <= k < old_list.len() && old_list[k] == old_ranked[i];
        assert(old_list[k].at < kept.len());
    }
    assert(listed.remove(at) =~= before_listed);
    assert(gains_at(listed, recalled_entries(before, none, 0, now_ms), entry, at));
}

/// Whether a list is another with an entry put in at a place.
pub open spec fn gains_at(
    listed: Seq<MemoryEntry>,
    before: Seq<MemoryEntry>,
    entry: MemoryEntry,
    at: int,
) -> bool {
    0 <= at < listed.len() && listed[at] == entry && listed.remove(at) == before
}

/// Expiry frees quota: once everything that a writer holds in a namespace has expired, the quota
/// (unless it is zero) no longer stands in the way.
pub proof fn law_expiry_frees_quota(entries: Seq<MemoryEntry>, writer: Seq<char>, now_ms: u64)
    requires
        forall|i: int|
            0 <= i < entries.len() && (#[trigger] entries[i]).writer@ == writer ==> expired(
                entries[i],
                now_ms,
            ),
    ensures
        held(live(entries, now_ms), writer) == 0,
{
    let rest = live(entries, now_ms);
    crate::ranking::lemma_filter_members(entries, |e: MemoryEntry| !expired(e, now_ms));
    crate::ranking::lemma_filter_members(rest, written_by(writer));
    let left = rest.filter(written_by(writer));
    if left.len() > 0 {
        assert(left.contains(left[0]));
        assert(rest.contains(left[0]));
        assert(entries.contains(left[0]));
        let i = choose|i: int| 0 <= i < entries.len() && entries[i] == left[0];
        assert(expired(entries[i], now_ms));
        assert(false);
    }
}

/// What has expired stays expired.
pub proof fn law_expiry_is_final(entry: MemoryEntry, now_ms: u64, later_ms: u64)
    requires
        expired(entry, now_ms),
        now_ms <= later_ms,
    ensures
        expired(entry, later_ms),
{
}

/// The entries of the given namespaces that are expired, counted.
pub open spec fn expired_total(store: MemoryStore, names: Seq<Seq<char>>, now_ms: u64) -> nat
    decreases names.len(),
{
    if names.len() == 0 {
        0
    } else {
        expired_total(store, names.drop_last(), now_ms) + store.entries_in(names.last()).filter(
            |e: MemoryEntry| expired(e, now_ms),
        ).len()
    }
}

proof fn lemma_live_and_expired(entries: Seq<MemoryEntry>, now_ms: u64)
    ensures
        live(entries, now_ms).len() + entries.filter(|e: MemoryEntry| expired(e, now_ms)).len()
            == entries.len(),
    decreases entries.len(),
{
    reveal(Seq::filter);
    if entries.len() > 0 {
        lemma_live_and_expired(entries.drop_last(), now_ms);
    }
}

proof fn lemma_swept_total(
    before: MemoryStore,
    after: MemoryStore,
    names: Seq<Seq<char>>,
    now_ms: u64,
)
    requires
        is_swept(before, after, now_ms),
    ensures
        entries_total(before, names) == entries_total(after, names) + expired_total(
            before,
            names,
            now_ms,
        ),
    decreases names.len(),
{
    if names.len() > 0 {
        lemma_swept_total(before, after, names.drop_last(), now_ms);
        lemma_live_and_expired(before.entries_in(names.last()), now_ms);
        assert(after.entries_in(names.last()) == live(before.entries_in(names.last()), now_ms));
    }
}

/// Whether a store is what a sweep leaves of another.
pub open spec fn is_swept(before: MemoryStore, after: MemoryStore, now_ms: u64) -> bool {
    forall|ns: Seq<char>| #[trigger] after.entries_in(ns) == live(before.entries_in(ns), now_ms)
}

/// A sweep drops as many entries as are expired over all namespaces, a second one right after it
/// drops none, and from then on every recall and every count is as it was.
pub proof fn law_sweep(
    before: MemoryStore,
    after: MemoryStore,
    again: MemoryStore,
    names: Seq<Seq<char>>,
    now_ms: u64,
    ns: Seq<char>,
    query: Seq<char>,
    limit: int,
    later_ms: u64,
)
    requires
        before.well_formed(),
        after.well_formed(),
        again.well_formed(),
        is_swept(before, after, now_ms),
        is_swept(after, again, now_ms),
        names.no_duplicates(),
        names_all(before, names),
        before.entries_in(ns).len() <= usize::MAX,
        limit >= 0,
        now_ms <= later_ms,
    ensures
        before.size() - after.size() == expired_total(before, names, now_ms),
        after.size() - again.size() == 0,
        recalled_entries(after.entries_in(ns), query, limit, later_ms) == recalled_entries(
            before.entries_in(ns),
            query,
            limit,
            later_ms,
        ),
        live(after.entries_in(ns), later_ms).len() == live(before.entries_in(ns), later_ms).len(),
{
    assert forall|other: Seq<char>| #[trigger] after.entries_in(other).len()
        > 0 implies names.contains(other) by {
        lemma_live_and_expired(before.entries_in(other), now_ms);
        assert(before.entries_in(other).len() > 0);
    }
    law_size_counts_the_entries(before, names);
    law_size_counts_the_entries(after, names);
    lemma_swept_total(before, after, names, now_ms);
    assert forall|other: Seq<char>| #[trigger] after.entries_in(other) == again.entries_in(
        other,
    ) by {
        law_second_sweep_drops_none(before.entries_in(other), now_ms, now_ms);
    }
    law_size_is_of_the_entries(after, again);
    law_sweep_is_invisible(before.entries_in(ns), query, limit, now_ms, later_ms);
}

/// A write that is accepted adds exactly its entry to what the namespace lists, under an id above
/// every id so far, and leaves every recall in another namespace as it was.
pub proof fn law_write(
    before: MemoryStore,
    after: MemoryStore,
    namespace: Seq<char>,
    now_ms: u64,
    other: Seq<char>,
    query: Seq<char>,
    limit: int,
    later_ms: u64,
)
    requires
        before.well_formed(),
        before.entries_in(namespace).len() < usize::MAX,
        same_elsewhere(after, before, namespace),
        after.entries_in(namespace).len() > 0,
        after.entries_in(namespace).drop_last() == live(before.entries_in(namespace), now_ms),
        after.entries_in(namespace).last().id == before.next_id(),
        after.entries_in(namespace).last().created_ms == now_ms,
    ensures
        exists|at: int| #[trigger]
            gains_at(
                recalled_entries(after.entries_in(namespace), Seq::empty(), 0, now_ms),
                recalled_entries(before.entries_in(namespace), Seq::empty(), 0, now_ms),
                after.entries_in(namespace).last(),
                at,
            ),
        forall|ns: Seq<char>, i: int|
            #![trigger before.entries_in(ns)[i]]
            0 <= i < before.entries_in(ns).len() ==> before.entries_in(ns)[i].id
                < after.entries_in(namespace).last().id,
        other != namespace ==> recalled_entries(after.entries_in(other), query, limit, later_ms)
            == recalled_entries(before.entries_in(other), query, limit, later_ms),
{
    let entry = after.entries_in(namespace).last();
    law_write_gains_its_entry(before.entries_in(namespace), entry, now_ms);
    assert(live(before.entries_in(namespace), now_ms).push(entry) =~= after.entries_in(namespace));
    assert forall|ns: Seq<char>, i: int|
        #![trigger before.entries_in(ns)[i]]
        0 <= i < before.entries_in(ns).len() implies before.entries_in(ns)[i].id < entry.id by {
        assert(filed(before.entries_in(ns), ns, before.next_id()));
    }
    if other != namespace {
        assert(after.entries_in(other) == before.entries_in(other));
    }
}

proof fn lemma_live_members(entries: Seq<MemoryEntry>, now_ms: u64, e: MemoryEntry)
    ensures
        live(entries, now_ms).contains(e) <==> entries.contains(e) && !expired(e, now_ms),
{
    let keep = |e: MemoryEntry| !expired(e, now_ms);
    crate::ranking::lemma_filter_members(entries, keep);
    assert(keep(e) == !expired(e, now_ms));
}

proof fn lemma_recalled_members(
    entries: Seq<MemoryEntry>,
    query: Seq<char>,
    limit: int,
    now_ms: u64,
)
    requires
        entries.len() <= usize::MAX,
        limit >= 0,
    ensures
        forall|i: int|
            0 <= i < recalled(entries, query, limit, now_ms).len() ==> (#[trigger] recalled(
                entries,
                query,
                limit,
                now_ms,
            )[i]).at < entries.len() && answers(
                entries[recalled(entries, query, limit, now_ms)[i].at as int],
                tokens(query),
                now_ms,
            ),
        limit == 0 ==> forall|k: int|
            0 <= k < entries.len() && answers(#[trigger] entries[k], tokens(query), now_ms)
                ==> recalled_entries(entries, query, limit, now_ms).contains(entries[k]),
{
    let terms = tokens(query);
    let all = candidates(entries, terms, now_ms);
    let whole = ranking_of(all);
    let page = recalled(entries, query, limit, now_ms);
    lemma_candidates(entries, terms, now_ms);
    crate::ranking::lemma_ranking_of(all);
    crate::ranking::lemma_same_elements(whole, all);
    assert forall|i: int| 0 <= i < page.len() implies (#[trigger] page[i]).at < entries.len()
        && answers(entries[page[i].at as int], terms, now_ms) by {
        assert(whole[i] == page[i]);
        assert(whole.contains(page[i]));
        assert(all.contains(page[i]));
        let y = choose|y: int| 0 <= y < all.len() && all[y] == page[i];
        assert(all[y].at < entries.len());
    }
    if limit == 0 {
        assert forall|k: int|
            0 <= k < entries.len() && answers(
                #[trigger] entries[k],
                terms,
                now_ms,
            ) implies recalled_entries(entries, query, limit, now_ms).contains(entries[k]) by {
            let y = choose|y: int| 0 <= y < all.len() && (#[trigger] all[y]).at == k;
            assert(all.contains(all[y]));
            assert(whole.contains(all[y]));
            let i = choose|i: int| 0 <= i < whole.len() && whole[i] == all[y];
            assert(recalled_entries(entries, query, limit, now_ms)[i] == entries[k]);
        }
    }
}

/// An entry written at `created_ms` with a lifetime of `ttl_secs` seconds is there, in the count
/// and in a recall of everything, at every millisecond before `created_ms + 1000 * ttl_secs`, and
/// from then on in no count and in no recall. A lifetime of zero has no end.
pub proof fn law_an_entry_lives_its_lifetime(
    entries: Seq<MemoryEntry>,
    k: int,
    query: Seq<char>,
    limit: int,
    now_ms: u64,
)
    requires
        0 <= k < entries.len(),
        entries.len() <= usize::MAX,
        limit >= 0,
    ensures
        entries[k].ttl_secs == 0 || now_ms < entries[k].created_ms + 1000 * entries[k].ttl_secs
            ==> live(entries, now_ms).contains(entries[k]) && (tokens(query).len() == 0
            ==> recalled_entries(entries, query, 0, now_ms).contains(entries[k])),
        entries[k].ttl_secs > 0 && now_ms >= entries[k].created_ms + 1000 * entries[k].ttl_secs
            ==> !live(entries, now_ms).contains(entries[k]) && !recalled_entries(
            entries,
            query,
            limit,
            now_ms,
        ).contains(entries[k]),
{
    let entry = entries[k];
    lemma_live_members(entries, now_ms, entry);
    lemma_recalled_members(entries, query, limit, now_ms);
    lemma_recalled_members(entries, query, 0, now_ms);
    assert(entries.contains(entry));
    let page = recalled(entries, query, limit, now_ms);
    let shown = recalled_entries(entries, query, limit, now_ms);
    if shown.contains(entry) {
        let i = choose|i: int| 0 <= i < shown.len() && shown[i] == entry;
        assert(answers(entries[page[i].at as int], tokens(query), now_ms));
    }
}

/// Expiry is settled entry by entry: one more entry adds one to the live count, and one to what
/// its writer holds, exactly as long as its lifetime has not passed.
pub proof fn law_each_live_entry_counts_once(
    entries: Seq<MemoryEntry>,
    entry: MemoryEntry,
    writer: Seq<char>,
    now_ms: u64,
)
    ensures
        counted(Seq::empty(), now_ms) == 0,
        held(live(Seq::empty(), now_ms), writer) == 0,
        entry.ttl_secs > 0 && now_ms >= entry.created_ms + 1000 * entry.ttl_secs ==> live(
            entries.push(entry),
            now_ms,
        ) == live(entries, now_ms) && counted(entries.push(entry), now_ms) == counted(
            entries,
            now_ms,
        ),
        entry.ttl_secs == 0 || now_ms < entry.created_ms + 1000 * entry.ttl_secs ==> live(
            entries.push(entry),
            now_ms,
        ) == live(entries, now_ms).push(entry) && counted(entries.push(entry), now_ms) == counted(
            entries,
            now_ms,
        ) + 1 && held(live(entries.push(entry), now_ms), writer)
            == held(live(entries, now_ms), writer) + if entry.writer@ == writer {
            1int
        } else {
            0int
        },
{
    reveal(Seq::filter);
    assert(live(Seq::empty(), now_ms) =~= Seq::<MemoryEntry>::empty());
    assert(entries.push(entry).drop_last() =~= entries);
    if !expired(entry, now_ms) {
        let alive = live(entries, now_ms);
        assert(live(entries.push(entry), now_ms) =~= alive.push(entry));
        assert(alive.push(entry).drop_last() =~= alive);
        assert(written_by(writer)(entry) == (entry.writer@ == writer));
    }
}

/// A recall finds exactly the live entries that share a word with the query, and every live
/// entry where the query has no word.
pub proof fn law_recall_finds_shared_words(
    entries: Seq<MemoryEntry>,
    k: int,
    query: Seq<char>,
    now_ms: u64,
)
    requires
        0 <= k < entries.len(),
        entries.len() <= usize::MAX,
    ensures
        recalled_entries(entries, query, 0, now_ms).contains(entries[k]) <==> (
        entries[k].ttl_secs == 0 || now_ms < entries[k].created_ms + 1000 * entries[k].ttl_secs)
            && (tokens(query).len() == 0 || exists|word: Seq<char>| #[trigger]
            tokens(query).contains(word) && tokens(entries[k].text@).contains(word)),
{
    let entry = entries[k];
    let terms = tokens(query);
    let words = tokens(entry.text@);
    let shared = |t: Seq<char>| words.contains(t);
    lemma_recalled_members(entries, query, 0, now_ms);
    crate::ranking::lemma_filter_members(terms, shared);
    let page = recalled(entries, query, 0, now_ms);
    let shown = recalled_entries(entries, query, 0, now_ms);
    if overlap(terms, words) > 0 {
        let word = terms.filter(shared)[0];
        assert(terms.filter(shared).contains(word));
        assert(terms.contains(word) && words.contains(word));
    }
    if exists|word: Seq<char>| #[trigger] terms.contains(word) && words.contains(word) {
        let word = choose|word: Seq<char>| #[trigger] terms.contains(word) && words.contains(word);
        assert(shared(word));
        assert(terms.filter(shared).contains(word));
        assert(overlap(terms, words) > 0);
    }
    if shown.contains(entry) {
        let i = choose|i: int| 0 <= i < shown.len() && shown[i] == entry;
        assert(answers(entries[page[i].at as int], terms, now_ms));
    }
}

/// The words that a query shares with a text are counted one by one.
pub proof fn law_shared_words_are_counted_one_by_one(
    terms: Seq<Seq<char>>,
    term: Seq<char>,
    words: Seq<Seq<char>>,
)
    ensures
        overlap(Seq::empty(), words) == 0,
        overlap(terms.push(term), words) == overlap(terms, words) + if words.contains(term) {
            1int
        } else {
            0int
        },
        overlap(terms, words) <= terms.len(),
    decreases terms.len(),
{
    reveal(Seq::filter);
    assert(terms.push(term).drop_last() =~= terms);
    if terms.len() > 0 {
        law_shared_words_are_counted_one_by_one(terms.drop_last(), terms.last(), words);
        assert(terms.drop_last().push(terms.last()) =~= terms);
    }
}

proof fn lemma_candidate_fields(entries: Seq<MemoryEntry>, terms: Seq<Seq<char>>, now_ms: u64)
    requires
        entries.len() <= usize::MAX,
        terms.len() <= usize::MAX,
    ensures
        forall|i: int|
            0 <= i < candidates(entries, terms, now_ms).len() ==> {
                let c = #[trigger] candidates(entries, terms, now_ms)[i];
                &&& c.at < entries.len()
                &&& c.overlap == overlap(terms, tokens(entries[c.at as int].text@))
                &&& c.created_ms == entries[c.at as int].created_ms
            },
    decreases entries.len(),
{
    if entries.len() > 0 {
        let rest = entries.drop_last();
        lemma_candidate_fields(rest, terms, now_ms);
        let before = candidates(rest, terms, now_ms);
        let found = candidates(entries, terms, now_ms);
        law_shared_words_are_counted_one_by_one(
            terms,
            Seq::empty(),
            tokens(entries.last().text@),
        );
        assert forall|i: int| 0 <= i < found.len() implies {
            let c = #[trigger] found[i];
            &&& c.at < entries.len()
            &&& c.overlap == overlap(terms, tokens(entries[c.at as int].text@))
            &&& c.created_ms == entries[c.at as int].created_ms
        } by {
            if i < before.len() {
                assert(found[i] == before[i]);
                assert(rest[before[i].at as int] == entries[before[i].at as int]);
            }
        }
    }
}

/// A recall lists first the entries that share more words with the query, of those that share as
/// many the newer, and of those written in the same millisecond the one written first. A limit
/// cuts that list off; it changes nothing before the cut.
pub proof fn law_recall_lists_the_best_first(
    entries: Seq<MemoryEntry>,
    query: Seq<char>,
    limit: int,
    now_ms: u64,
    i: int,
    j: int,
)
    requires
        entries.len() <= usize::MAX,
        tokens(query).len() <= usize::MAX,
        limit >= 0,
        forall|a: int, b: int|
            #![trigger entries[a], entries[b]]
            0 <= a < b < entries.len() ==> entries[a].id < entries[b].id,
        0 <= i < j < recalled_entries(entries, query, 0, now_ms).len(),
    ensures
        ({
            let list = recalled_entries(entries, query, 0, now_ms);
            let ahead = overlap(tokens(query), tokens(list[i].text@));
            let behind = overlap(tokens(query), tokens(list[j].text@));
            &&& ahead >= behind
            &&& ahead == behind ==> list[i].created_ms >= list[j].created_ms
            &&& ahead == behind && list[i].created_ms == list[j].created_ms ==> list[i].id
                < list[j].id
        }),
        recalled_entries(entries, query, limit, now_ms) == if limit == 0 || recalled_entries(
            entries,
            query,
            0,
            now_ms,
        ).len() < limit {
            recalled_entries(entries, query, 0, now_ms)
        } else {
            recalled_entries(entries, query, 0, now_ms).take(limit)
        },
{
    let terms = tokens(query);
    let all = candidates(entries, terms, now_ms);
    let whole = ranking_of(all);
    lemma_candidates(entries, terms, now_ms);
    lemma_candidate_fields(entries, terms, now_ms);
    lemma_candidates_rank(all);
    crate::ranking::lemma_ranking_of(all);
    crate::ranking::lemma_same_elements(whole, all);
    assert(whole.contains(whole[i]) && whole.contains(whole[j]));
    let a = choose|a: int| 0 <= a < all.len() && all[a] == whole[i];
    let b = choose|b: int| 0 <= b < all.len() && all[b] == whole[j];
    assert(!whole[j].ranks_before(whole[i]));
    assert(entries[whole[i].at as int].id != entries[whole[j].at as int].id) by {
        if whole[i].at == whole[j].at {
            if a < b {
                assert(all[a].at < all[b].at);
            } else if b < a {
                assert(all[b].at < all[a].at);
            }
            assert(a == b);
            lemma_ranking_distinct(all, i, j);
        }
    }
    let list = recalled_entries(entries, query, 0, now_ms);
    let page = recalled_entries(entries, query, limit, now_ms);
    if limit == 0 || list.len() < limit {
        assert(page =~= list);
    } else {
        assert(page =~= list.take(limit));
    }
}

proof fn lemma_ranking_distinct(all: Seq<Candidate>, i: int, j: int)
    requires
        0 <= i < j < ranking_of(all).len(),
        forall|a: int, b: int|
            #![trigger all[a], all[b]]
            0 <= a < b < all.len() ==> all[a].at < all[b].at,
    ensures
        ranking_of(all)[i] != ranking_of(all)[j],
{
    broadcast use vstd::seq_lib::group_to_multiset_ensures;

    let whole = ranking_of(all);
    lemma_candidates_rank(all);
    crate::ranking::lemma_ranking_of(all);
    assert(all.no_duplicates()) by {
        assert forall|a: int, b: int|
            0 <= a < all.len() && 0 <= b < all.len() && a != b implies all[a] != all[b] by {
            if a < b {
                assert(all[a].at < all[b].at);
            } else {
                assert(all[b].at < all[a].at);
            }
        }
    }
    all.lemma_multiset_has_no_duplicates();
    assert(whole.to_multiset() == all.to_multiset());
    whole.lemma_multiset_has_no_duplicates_conv();
}

/// A write is refused for its fields exactly where one of them is blank, and the refusal names
/// the first that is.
pub proof fn law_blank_fields_are_refused(
    namespace: Seq<char>,
    text: Seq<char>,
    writer: Seq<char>,
)
    ensures
        ({
            let blank = |s: Seq<char>|
                forall|i: int| 0 <= i < s.len() ==> crate::text::is_whitespace(#[trigger] s[i]);
            &&& blank(namespace) ==> complaint(namespace, text, writer) == Some(
                "namespace is required"@,
            )
            &&& !blank(namespace) && blank(text) ==> complaint(namespace, text, writer) == Some(
                "text is required"@,
            )
            &&& !blank(namespace) && !blank(text) && blank(writer) ==> complaint(
                namespace,
                text,
                writer,
            ) == Some("writer attribution is required"@)
            &&& !blank(namespace) && !blank(text) && !blank(writer) ==> complaint(
                namespace,
                text,
                writer,
            ) is None
        }),
{
    crate::text::law_trimming_takes_whitespace_off_the_ends(namespace);
    crate::text::law_trimming_takes_whitespace_off_the_ends(text);
    crate::text::law_trimming_takes_whitespace_off_the_ends(writer);
}

/// A write that is whole is refused exactly where its writer holds the quota in entries of the
/// namespace that are still alive, whatever has expired and whatever others hold; what it stores
/// is what it was given.
pub proof fn law_the_quota_counts_living_entries(
    before: MemoryStore,
    after: MemoryStore,
    namespace: Seq<char>,
    text: Seq<char>,
    writer: Seq<char>,
    ttl_secs: u64,
    now_ms: u64,
    result: Result<u64, WriteError>,
)
    requires
        writes(before, after, namespace, text, writer, ttl_secs, now_ms, result),
        complaint(namespace, text, writer) is None,
    ensures
        result is Ok <==> before.entries_in(namespace).filter(
            |e: MemoryEntry|
                e.writer@ == writer && (e.ttl_secs == 0 || now_ms < e.created_ms + 1000
                    * e.ttl_secs),
        ).len() < before.quota(),
        result matches Ok(id) ==> {
            let last = after.entries_in(namespace).last();
            &&& after.entries_in(namespace).len() > 0
            &&& last.id == id
            &&& last.namespace@ == namespace
            &&& last.text@ == text
            &&& last.writer@ == writer
            &&& last.ttl_secs == ttl_secs
            &&& last.created_ms == now_ms
        },
{
    lemma_held_alive(before.entries_in(namespace), writer, now_ms);
}

proof fn lemma_held_alive(entries: Seq<MemoryEntry>, writer: Seq<char>, now_ms: u64)
    ensures
        held(live(entries, now_ms), writer) == entries.filter(
            |e: MemoryEntry|
                e.writer@ == writer && (e.ttl_secs == 0 || now_ms < e.created_ms + 1000
                    * e.ttl_secs),
        ).len(),
    decreases entries.len(),
{
    let mine = |e: MemoryEntry|
        e.writer@ == writer && (e.ttl_secs == 0 || now_ms < e.created_ms + 1000 * e.ttl_secs);
    reveal(Seq::filter);
    law_each_live_entry_counts_once(entries, arbitrary(), writer, now_ms);
    if entries.len() > 0 {
        let rest = entries.drop_last();
        lemma_held_alive(rest, writer, now_ms);
        law_each_live_entry_counts_once(rest, entries.last(), writer, now_ms);
        assert(rest.push(entries.last()) =~= entries);
        assert(entries.filter(mine).len() == rest.filter(mine).len() + if mine(entries.last()) {
            1int
        } else {
            0int
        });
    } else {
        assert(entries =~= Seq::empty());
    }
}

} // verus!
