//! The layered object store: a persistent id-to-object map overlaid by a
//! per-transaction scratchpad.
//!
//! During one transaction every read, write and delete goes through the
//! scratchpad, so the transaction sees its own pending writes while
//! nothing becomes durable; `flush` commits the whole batch into the
//! persistent map at once and `reset` discards it. Breaking the ordering
//! rules (reading or writing a deleted id, deleting after a write, or
//! flushing a scratchpad inconsistent with the persistent map) is an
//! invariant violation, never ordinary control flow.

use crate::base_types::{copy_bytes, ObjectID, SuiAddress};
use vstd::prelude::*;

verus! {

/// Who may mutate an object: a single address, nobody (shared and
/// immutable), or anybody (shared and mutable).
#[derive(Debug)]
pub enum Owner {
    AddressOwner(SuiAddress),
    SharedImmutable,
    SharedMutable,
}

/// The mathematical shape of an [`Owner`].
pub enum OwnerV {
    AddressOwner(Seq<u8>),
    SharedImmutable,
    SharedMutable,
}

impl View for Owner {
    type V = OwnerV;

    open spec fn view(&self) -> OwnerV {
        match self {
            Owner::AddressOwner(a) => OwnerV::AddressOwner(a@),
            Owner::SharedImmutable => OwnerV::SharedImmutable,
            Owner::SharedMutable => OwnerV::SharedMutable,
        }
    }
}

impl Clone for Owner {
    fn clone(&self) -> (r: Self)
        ensures
            r@ == self@,
    {
        match self {
            Owner::AddressOwner(a) => Owner::AddressOwner(a.clone()),
            Owner::SharedImmutable => Owner::SharedImmutable,
            Owner::SharedMutable => Owner::SharedMutable,
        }
    }
}

/// Why an id was deleted: an ordinary deletion, a wrap (the object folded
/// into another object's storage), or the recreation step of an unwrap.
#[derive(Clone, Copy, Debug, PartialEq, Eq, Structural)]
pub enum DeleteKind {
    Normal,
    Wrap,
    UnwrapRecreate,
}

/// A versioned unit of ledger state.
#[derive(Debug)]
pub struct ObjectRecord {
    pub id: ObjectID,
    /// Strictly positive; grows by exactly one with every mutation that
    /// keeps the id's lifeline continuous.
    pub version: u64,
    pub owner: Owner,
    /// The type-specific content bytes.
    pub contents: Vec<u8>,
    /// The name of the object's on-chain type.
    pub type_tag: Vec<u8>,
}

/// The mathematical shape of an [`ObjectRecord`].
pub struct RecordV {
    pub id: Seq<u8>,
    pub version: u64,
    pub owner: OwnerV,
    pub contents: Seq<u8>,
    pub type_tag: Seq<u8>,
}

impl View for ObjectRecord {
    type V = RecordV;

    open spec fn view(&self) -> RecordV {
        RecordV {
            id: self.id@,
            version: self.version,
            owner: self.owner@,
            contents: self.contents@,
            type_tag: self.type_tag@,
        }
    }
}

impl Clone for ObjectRecord {
    fn clone(&self) -> (r: Self)
        ensures
            r@ == self@,
    {
        ObjectRecord {
            id: self.id.clone(),
            version: self.version,
            owner: self.owner.clone(),
            contents: copy_bytes(self.contents.as_slice()),
            type_tag: copy_bytes(self.type_tag.as_slice()),
        }
    }
}

impl ObjectRecord {
    /// A freshly created object: the first version of an id's lifeline is
    /// always 1.
    pub fn new(id: ObjectID, owner: Owner, contents: Vec<u8>, type_tag: Vec<u8>) -> (r: Self)
        ensures
            r@ == (RecordV {
                id: id@,
                version: 1u64,
                owner: owner@,
                contents: contents@,
                type_tag: type_tag@,
            }),
    {
        ObjectRecord { id, version: 1, owner, contents, type_tag }
    }

    /// The record one mutation later: the same object at the next
    /// version.
    pub fn increment_version(&self) -> (r: Self)
        requires
            self.version < u64::MAX,
        ensures
            r@ == (RecordV { version: (self@.version + 1) as u64, ..self@ }),
    {
        ObjectRecord {
            id: self.id.clone(),
            version: self.version + 1,
            owner: self.owner.clone(),
            contents: copy_bytes(self.contents.as_slice()),
            type_tag: copy_bytes(self.type_tag.as_slice()),
        }
    }

    /// The record that recreates this object after a wrap followed by an
    /// unwrap: both steps increment the version, so it lands two above
    /// the version seen at wrap time, with the content bytes unchanged.
    pub fn unwrap_recreated(&self) -> (r: Self)
        requires
            self.version + 2 <= u64::MAX,
        ensures
            r@ == (RecordV { version: (self@.version + 2) as u64, ..self@ }),
    {
        ObjectRecord {
            id: self.id.clone(),
            version: self.version + 2,
            owner: self.owner.clone(),
            contents: copy_bytes(self.contents.as_slice()),
            type_tag: copy_bytes(self.type_tag.as_slice()),
        }
    }
}

/// One recorded deletion: the version the object had and why it went.
#[derive(Clone, Copy, Debug)]
pub struct DeletionEntry {
    pub version: u64,
    pub kind: DeleteKind,
}

impl View for DeletionEntry {
    type V = DeletionEntry;

    open spec fn view(&self) -> DeletionEntry {
        *self
    }
}

/// An event logged during execution; its order in the log is part of the
/// transaction's effects.
#[derive(Debug)]
pub struct Event {
    pub type_: Vec<u8>,
    pub contents: Vec<u8>,
}

/// The mathematical shape of an [`Event`].
pub struct EventV {
    pub type_: Seq<u8>,
    pub contents: Seq<u8>,
}

impl View for Event {
    type V = EventV;

    open spec fn view(&self) -> EventV {
        EventV { type_: self.type_@, contents: self.contents@ }
    }
}

impl Clone for Event {
    fn clone(&self) -> (r: Self)
        ensures
            r@ == self@,
    {
        Event {
            type_: copy_bytes(self.type_.as_slice()),
            contents: copy_bytes(self.contents.as_slice()),
        }
    }
}

/// The models of an event log.
pub open spec fn events_view(s: Seq<Event>) -> Seq<EventV> {
    s.map_values(|e: Event| e@)
}

/// An id-keyed map, held as a vector of entries with pairwise distinct
/// keys and read as a mathematical map from id bytes to the values'
/// models.
#[derive(Debug)]
pub struct IdMap<V> {
    entries: Vec<(ObjectID, V)>,
}

/// The map a sequence of entries denotes; a later entry for the same key
/// wins, though well-formed maps never hold two.
pub open spec fn map_of_entries<V: View>(s: Seq<(ObjectID, V)>) -> Map<Seq<u8>, V::V>
    decreases s.len(),
{
    if s.len() == 0 {
        Map::empty()
    } else {
        map_of_entries(s.drop_last()).insert(s.last().0@, s.last().1@)
    }
}

/// A key is in the map exactly when some entry carries it.
pub proof fn lemma_map_of_entries_dom<V: View>(s: Seq<(ObjectID, V)>, k: Seq<u8>)
    ensures
        map_of_entries(s).contains_key(k) <==> exists|i: int| 0 <= i < s.len() && (#[trigger] s[i]).0@ == k,
    decreases s.len(),
{
    if s.len() > 0 {
        lemma_map_of_entries_dom(s.drop_last(), k);
        if map_of_entries(s).contains_key(k) {
            if s.last().0@ != k {
                let i = choose|i: int| 0 <= i < s.len() - 1 && (#[trigger] s.drop_last()[i]).0@ == k;
                assert(s[i].0@ == k);
            } else {
                assert(s[s.len() - 1].0@ == k);
            }
        }
        if exists|i: int| 0 <= i < s.len() && (#[trigger] s[i]).0@ == k {
            let i = choose|i: int| 0 <= i < s.len() && (#[trigger] s[i]).0@ == k;
            if i < s.len() - 1 {
                assert(s.drop_last()[i] == s[i]);
            }
        }
    }
}

impl<V: View> View for IdMap<V> {
    type V = Map<Seq<u8>, <V as View>::V>;

    closed spec fn view(&self) -> Map<Seq<u8>, <V as View>::V> {
        map_of_entries(self.entries@)
    }
}

impl<V: View> IdMap<V> {
    /// Pairwise distinct keys: each id appears in at most one entry.
    pub closed spec fn wf(self) -> bool {
        forall|i: int, j: int|
            0 <= i < j < self.entries@.len() ==> (#[trigger] self.entries@[i]).0@ != (
            #[trigger] self.entries@[j]).0@
    }

    /// How many ids the map holds.
    pub closed spec fn spec_len(self) -> nat {
        self.entries@.len()
    }

    /// The held ids, in insertion order.
    pub closed spec fn spec_keys(self) -> Seq<Seq<u8>> {
        self.entries@.map_values(|e: (ObjectID, V)| e.0@)
    }

    pub fn new() -> (r: Self)
        ensures
            r@ == Map::<Seq<u8>, <V as View>::V>::empty(),
            r.wf(),
            r.spec_len() == 0,
    {
        IdMap { entries: Vec::new() }
    }

    pub fn len(&self) -> (r: usize)
        ensures
            r == self.spec_len(),
    {
        self.entries.len()
    }

    /// Looks an id up by linear search; with distinct keys this agrees
    /// with the mathematical map.
    pub fn get(&self, id: &ObjectID) -> (r: Option<&V>)
        requires
            self.wf(),
        ensures
            (r is Some) == self@.contains_key(id@),
            r matches Some(v) ==> self@.contains_key(id@) && v@ == self@[id@],
    {
        let mut i: usize = 0;
        proof {
            lemma_map_of_entries_dom(self.entries@, id@);
        }
        while i < self.entries.len()
            invariant
                self.wf(),
                self@ == map_of_entries(self.entries@),
                i <= self.entries@.len(),
                forall|j: int| 0 <= j < i ==> (#[trigger] self.entries@[j]).0@ != id@,
                self@.contains_key(id@) <==> exists|j: int|
                    0 <= j < self.entries@.len() && (#[trigger] self.entries@[j]).0@ == id@,
            decreases self.entries@.len() - i,
        {
            if self.entries[i].0.eq_id(id) {
                proof {
                    lemma_map_of_entries_at(self.entries@, i as int);
                }
                return Some(&self.entries[i].1);
            }
            i += 1;
        }
        None
    }

    pub fn contains_key(&self, id: &ObjectID) -> (r: bool)
        requires
            self.wf(),
        ensures
            r == self@.contains_key(id@),
    {
        self.get(id).is_some()
    }

    /// Inserts or replaces the value held for an id.
    pub fn insert(&mut self, id: ObjectID, value: V)
        requires
            old(self).wf(),
        ensures
            final(self).wf(),
            final(self)@ == old(self)@.insert(id@, value@),
            final(self).spec_len() == if old(self)@.contains_key(id@) {
                old(self).spec_len()
            } else {
                old(self).spec_len() + 1
            },
    {
        proof {
            lemma_map_of_entries_dom(self.entries@, id@);
        }
        let mut i: usize = 0;
        while i < self.entries.len()
            invariant
                *self == *old(self),
                self.wf(),
                i <= self.entries@.len(),
                forall|j: int| 0 <= j < i ==> (#[trigger] self.entries@[j]).0@ != id@,
                self@.contains_key(id@) <==> exists|j: int|
                    0 <= j < self.entries@.len() && (#[trigger] self.entries@[j]).0@ == id@,
            decreases self.entries@.len() - i,
        {
            if self.entries[i].0.eq_id(&id) {
                let ghost old_entries = self.entries@;
                self.entries.set(i, (id, value));
                proof {
                    assert(0 <= i < old_entries.len() && old_entries[i as int].0@ == id@);
                    lemma_map_of_entries_update(old_entries, i as int, self.entries@[i as int]);
                    assert(self@ =~= map_of_entries(old_entries).insert(
                        self.entries@[i as int].0@,
                        self.entries@[i as int].1@,
                    ));
                }
                return ;
            }
            i += 1;
        }
        let ghost old_entries = self.entries@;
        self.entries.push((id, value));
        proof {
            assert(self.entries@.drop_last() =~= old_entries);
            lemma_map_of_entries_dom(old_entries, self.entries@.last().0@);
        }
    }

    /// Removes the entry held for an id, if any.
    pub fn remove(&mut self, id: &ObjectID)
        requires
            old(self).wf(),
        ensures
            final(self).wf(),
            final(self)@ == old(self)@.remove(id@),
    {
        proof {
            lemma_map_of_entries_dom(self.entries@, id@);
        }
        let mut i: usize = 0;
        while i < self.entries.len()
            invariant
                *self == *old(self),
                self.wf(),
                self@ == map_of_entries(self.entries@),
                i <= self.entries@.len(),
                forall|j: int| 0 <= j < i ==> (#[trigger] self.entries@[j]).0@ != id@,
                self@.contains_key(id@) <==> exists|j: int|
                    0 <= j < self.entries@.len() && (#[trigger] self.entries@[j]).0@ == id@,
            decreases self.entries@.len() - i,
        {
            if self.entries[i].0.eq_id(id) {
                let ghost old_entries = self.entries@;
                self.entries.remove(i);
                proof {
                    lemma_map_of_entries_remove(old_entries, i as int);
                    assert(self.entries@ =~= old_entries.remove(i as int));
                }
                return ;
            }
            i += 1;
        }
        proof {
            assert(!self@.contains_key(id@));
            assert(self@ =~= self@.remove(id@));
        }
    }

    /// The ids held, cloned out in insertion order.
    pub fn keys(&self) -> (r: Vec<ObjectID>)
        ensures
            r@.len() == self.spec_len(),
            r@.map_values(|id: ObjectID| id@) == self.spec_keys(),
    {
        let mut out: Vec<ObjectID> = Vec::new();
        let mut i: usize = 0;
        while i < self.entries.len()
            invariant
                i <= self.entries@.len(),
                out@.len() == i,
                forall|j: int| 0 <= j < i ==> (#[trigger] out@[j])@ == self.entries@[j].0@,
            decreases self.entries@.len() - i,
        {
            out.push(self.entries[i].0.clone());
            i += 1;
        }
        proof {
            assert(out@.map_values(|id: ObjectID| id@) =~= self.spec_keys());
        }
        out
    }

    /// Direct access to the `i`-th entry, for walking the map.
    pub fn entry_at(&self, i: usize) -> (r: &(ObjectID, V))
        requires
            i < self.spec_len(),
        ensures
            r == self.spec_entry_at(i as int),
    {
        &self.entries[i]
    }

    /// The `i`-th entry.
    pub closed spec fn spec_entry_at(self, i: int) -> (ObjectID, V) {
        self.entries@[i]
    }

    /// A well-formed map holds one id per entry.
    pub proof fn lemma_len_is_dom_len(self)
        requires
            self.wf(),
        ensures
            self@.dom().finite(),
            self@.dom().len() == self.spec_len(),
    {
        lemma_map_of_entries_len(self.entries@);
    }

    /// A well-formed map holds each of its entries.
    pub proof fn lemma_entry_in_map(self, i: int)
        requires
            self.wf(),
            0 <= i < self.spec_len(),
        ensures
            self@.contains_key(self.spec_entry_at(i).0@),
            self@[self.spec_entry_at(i).0@] == self.spec_entry_at(i).1@,
            self.spec_keys()[i] == self.spec_entry_at(i).0@,
    {
        lemma_map_of_entries_at(self.entries@, i);
    }
}

/// With distinct keys the map holds exactly as many ids as there are
/// entries.
proof fn lemma_map_of_entries_len<V: View>(s: Seq<(ObjectID, V)>)
    requires
        forall|a: int, b: int| 0 <= a < b < s.len() ==> (#[trigger] s[a]).0@ != (#[trigger] s[b]).0@,
    ensures
        map_of_entries(s).dom().finite(),
        map_of_entries(s).dom().len() == s.len(),
    decreases s.len(),
{
    if s.len() > 0 {
        assert(forall|a: int, b: int|
            0 <= a < b < s.len() - 1 ==> (#[trigger] s.drop_last()[a]).0@ != (
            #[trigger] s.drop_last()[b]).0@);
        lemma_map_of_entries_len(s.drop_last());
        lemma_map_of_entries_dom(s.drop_last(), s.last().0@);
        assert(forall|j: int| 0 <= j < s.len() - 1 ==> (#[trigger] s[j]).0@ != s.last().0@);
        assert(forall|j: int| 0 <= j < s.len() - 1 ==> s.drop_last()[j] == s[j]);
        assert(!map_of_entries(s.drop_last()).contains_key(s.last().0@));
        assert(map_of_entries(s).dom() =~= map_of_entries(s.drop_last()).dom().insert(
            s.last().0@,
        ));
        vstd::set::axiom_set_insert_len(map_of_entries(s.drop_last()).dom(), s.last().0@);
    } else {
        assert(map_of_entries(s).dom() =~= Set::<Seq<u8>>::empty());
    }
}

/// In a well-formed entry sequence the map holds each entry's value under
/// its key.
proof fn lemma_map_of_entries_at<V: View>(s: Seq<(ObjectID, V)>, i: int)
    requires
        0 <= i < s.len(),
        forall|a: int, b: int| 0 <= a < b < s.len() ==> (#[trigger] s[a]).0@ != (#[trigger] s[b]).0@,
    ensures
        map_of_entries(s).contains_key(s[i].0@),
        map_of_entries(s)[s[i].0@] == s[i].1@,
    decreases s.len(),
{
    if i == s.len() - 1 {
        assert(s.last() == s[i]);
    } else {
        assert(forall|a: int, b: int|
            0 <= a < b < s.len() - 1 ==> (#[trigger] s.drop_last()[a]).0@ != (
            #[trigger] s.drop_last()[b]).0@);
        lemma_map_of_entries_at(s.drop_last(), i);
        assert(s.drop_last()[i] == s[i]);
        assert(s.last().0@ != s[i].0@);
    }
}

/// Replacing the value at one entry turns the map into an insert.
proof fn lemma_map_of_entries_update<V: View>(s: Seq<(ObjectID, V)>, i: int, e: (ObjectID, V))
    requires
        0 <= i < s.len(),
        e.0@ == s[i].0@,
        forall|a: int, b: int| 0 <= a < b < s.len() ==> (#[trigger] s[a]).0@ != (#[trigger] s[b]).0@,
    ensures
        map_of_entries(s.update(i, e)) == map_of_entries(s).insert(e.0@, e.1@),
    decreases s.len(),
{
    if i == s.len() - 1 {
        assert(s.update(i, e).drop_last() =~= s.drop_last());
        assert(s.update(i, e).last() == e);
        assert(map_of_entries(s.update(i, e)) =~= map_of_entries(s).insert(e.0@, e.1@));
    } else {
        assert(forall|a: int, b: int|
            0 <= a < b < s.len() - 1 ==> (#[trigger] s.drop_last()[a]).0@ != (
            #[trigger] s.drop_last()[b]).0@);
        lemma_map_of_entries_update(s.drop_last(), i, e);
        assert(s.update(i, e).drop_last() =~= s.drop_last().update(i, e));
        assert(s.update(i, e).last() == s.last());
        assert(s.last().0@ != e.0@);
        assert(map_of_entries(s.update(i, e)) =~= map_of_entries(s).insert(e.0@, e.1@));
    }
}

/// Removing one entry turns the map into a key removal.
proof fn lemma_map_of_entries_remove<V: View>(s: Seq<(ObjectID, V)>, i: int)
    requires
        0 <= i < s.len(),
        forall|a: int, b: int| 0 <= a < b < s.len() ==> (#[trigger] s[a]).0@ != (#[trigger] s[b]).0@,
    ensures
        map_of_entries(s.remove(i)) == map_of_entries(s).remove(s[i].0@),
    decreases s.len(),
{
    if i == s.len() - 1 {
        assert(s.remove(i) =~= s.drop_last());
        lemma_map_of_entries_dom(s.drop_last(), s[i].0@);
        assert(forall|j: int| 0 <= j < s.len() - 1 ==> (#[trigger] s[j]).0@ != s[i].0@);
        assert(forall|j: int| 0 <= j < s.len() - 1 ==> s.drop_last()[j] == s[j]);
        assert(!map_of_entries(s.drop_last()).contains_key(s[i].0@));
        assert(map_of_entries(s.remove(i)) =~= map_of_entries(s).remove(s[i].0@));
    } else {
        assert(forall|a: int, b: int|
            0 <= a < b < s.len() - 1 ==> (#[trigger] s.drop_last()[a]).0@ != (
            #[trigger] s.drop_last()[b]).0@);
        lemma_map_of_entries_remove(s.drop_last(), i);
        assert(s.drop_last()[i] == s[i]);
        assert(s.remove(i).drop_last() =~= s.drop_last().remove(i));
        assert(s.remove(i).last() == s.last());
        assert(s.last().0@ != s[i].0@);
        assert(map_of_entries(s.remove(i)) =~= map_of_entries(s).remove(s[i].0@));
    }
}


/// A fatal break of the store's ordering or consistency rules. It marks
/// a logic error upstream, never a recoverable condition: a caller must
/// abort the transaction, not continue past it.
#[derive(Clone, Copy, Debug, PartialEq, Eq, Structural)]
pub enum InvariantViolation {
    /// An id in `deleted` was read within the same transaction.
    ReadOfDeleted,
    /// An id in `deleted` was written within the same transaction.
    WriteAfterDelete,
    /// An id in `updated` was deleted within the same transaction.
    DeleteAfterWrite,
    /// An id in `deleted` was deleted again.
    RepeatedDelete,
    /// A flushed `created` id was already present persistently.
    CreatedAlreadyPresent,
    /// A flushed `updated` id was absent persistently.
    UpdatedAbsent,
}

/// The transaction-scoped buffer of pending mutations and events, not yet
/// durable.
#[derive(Debug)]
pub struct ScratchPad {
    updated: IdMap<ObjectRecord>,
    created: IdMap<ObjectRecord>,
    deleted: IdMap<DeletionEntry>,
    events: Vec<Event>,
}

impl ScratchPad {
    fn empty() -> (r: Self)
        ensures
            r.updated@ == Map::<Seq<u8>, RecordV>::empty(),
            r.created@ == Map::<Seq<u8>, RecordV>::empty(),
            r.deleted@ == Map::<Seq<u8>, DeletionEntry>::empty(),
            r.events@ == Seq::<Event>::empty(),
            r.updated.wf(),
            r.created.wf(),
            r.deleted.wf(),
    {
        ScratchPad {
            updated: IdMap::new(),
            created: IdMap::new(),
            deleted: IdMap::new(),
            events: Vec::new(),
        }
    }
}

/// The mathematical state of the layered store: the persistent map and
/// the scratchpad's four parts, all as maps and sequences over id bytes.
pub struct StoreV {
    pub persistent: Map<Seq<u8>, RecordV>,
    pub created: Map<Seq<u8>, RecordV>,
    pub updated: Map<Seq<u8>, RecordV>,
    pub deleted: Map<Seq<u8>, DeletionEntry>,
    pub events: Seq<EventV>,
}

/// What a read observes: the updated record if present, else the created
/// record, else the persistent one, else nothing.
pub open spec fn spec_read(s: StoreV, id: Seq<u8>) -> Option<RecordV> {
    if s.updated.contains_key(id) {
        Some(s.updated[id])
    } else if s.created.contains_key(id) {
        Some(s.created[id])
    } else if s.persistent.contains_key(id) {
        Some(s.persistent[id])
    } else {
        None
    }
}

/// A write may not follow a delete of the same id.
pub open spec fn write_allowed(s: StoreV, id: Seq<u8>) -> bool {
    !s.deleted.contains_key(id)
}

/// What a write does: the record routes into `updated` if its id exists
/// persistently, else into `created`.
pub open spec fn spec_write(s: StoreV, r: RecordV) -> StoreV {
    if s.persistent.contains_key(r.id) {
        StoreV { updated: s.updated.insert(r.id, r), ..s }
    } else {
        StoreV { created: s.created.insert(r.id, r), ..s }
    }
}

/// A delete may not follow a write into `updated`, nor another delete,
/// of the same id.
pub open spec fn delete_allowed(s: StoreV, id: Seq<u8>) -> bool {
    !s.updated.contains_key(id) && !s.deleted.contains_key(id)
}

/// What a delete does: records the version and kind under the id.
pub open spec fn spec_delete(s: StoreV, id: Seq<u8>, version: u64, kind: DeleteKind) -> StoreV {
    StoreV { deleted: s.deleted.insert(id, DeletionEntry { version, kind }), ..s }
}

/// What a flush demands: every created id absent from the persistent map,
/// every updated id present in it.
pub open spec fn flush_ok(s: StoreV) -> bool {
    (forall|k: Seq<u8>| s.created.contains_key(k) ==> !(#[trigger] s.persistent.contains_key(k)))
        && (forall|k: Seq<u8>|
        s.updated.contains_key(k) ==> #[trigger] s.persistent.contains_key(k))
}

/// What a flush does: created and updated records land in the persistent
/// map, deleted ids leave it, and the scratchpad is cleared.
pub open spec fn spec_flush(s: StoreV) -> StoreV {
    StoreV {
        persistent: s.persistent.union_prefer_right(s.created).union_prefer_right(
            s.updated,
        ).remove_keys(s.deleted.dom()),
        created: Map::empty(),
        updated: Map::empty(),
        deleted: Map::empty(),
        events: Seq::empty(),
    }
}

/// Every record sits under its own id. This is part of the store's
/// well-formedness that every method preserves.
pub open spec fn records_keyed(s: StoreV) -> bool {
    (forall|k: Seq<u8>| s.persistent.contains_key(k) ==> (#[trigger] s.persistent[k]).id == k)
        && (forall|k: Seq<u8>| s.created.contains_key(k) ==> (#[trigger] s.created[k]).id == k)
        && (forall|k: Seq<u8>| s.updated.contains_key(k) ==> (#[trigger] s.updated[k]).id == k)
}

/// The scratchpad agrees with the persistent map about which ids are
/// new: updated ids exist persistently, created ids do not. Writes route
/// by persistent membership, so every state reached through this store's
/// own operations satisfies it; a flush re-checks it at run time all the
/// same, because the persistent map of a fuller store could move under a
/// scratchpad between buffering and commit.
pub open spec fn overlay_consistent(s: StoreV) -> bool {
    (forall|k: Seq<u8>| s.updated.contains_key(k) ==> #[trigger] s.persistent.contains_key(k))
        && (forall|k: Seq<u8>|
        s.created.contains_key(k) ==> !(#[trigger] s.persistent.contains_key(k)))
}

/// Records under their own ids, and an overlay that agrees with the
/// persistent map.
pub open spec fn keys_consistent(s: StoreV) -> bool {
    records_keyed(s) && overlay_consistent(s)
}

/// The persistent id-to-object map overlaid by the transaction's
/// scratchpad.
#[derive(Debug)]
pub struct InMemoryStorage {
    persistent: IdMap<ObjectRecord>,
    temporary: ScratchPad,
}

impl View for InMemoryStorage {
    type V = StoreV;

    closed spec fn view(&self) -> StoreV {
        StoreV {
            persistent: self.persistent@,
            created: self.temporary.created@,
            updated: self.temporary.updated@,
            deleted: self.temporary.deleted@,
            events: events_view(self.temporary.events@),
        }
    }
}

/// The map a sequence of records denotes, each keyed by its own id; a
/// later record for the same id wins.
pub open spec fn map_of_records(rs: Seq<RecordV>) -> Map<Seq<u8>, RecordV>
    decreases rs.len(),
{
    if rs.len() == 0 {
        Map::empty()
    } else {
        map_of_records(rs.drop_last()).insert(rs.last().id, rs.last())
    }
}

impl InMemoryStorage {
    /// The structural and view-level well-formedness every method
    /// preserves.
    pub closed spec fn wf(self) -> bool {
        self.persistent.wf() && self.temporary.created.wf() && self.temporary.updated.wf()
            && self.temporary.deleted.wf() && records_keyed(self@)
    }

    /// A fresh store: the given objects, each under its own id, and an
    /// empty scratchpad.
    pub fn new(objects: Vec<ObjectRecord>) -> (r: Self)
        ensures
            r.wf(),
            r@.persistent == map_of_records(objects@.map_values(|o: ObjectRecord| o@)),
            r@.created == Map::<Seq<u8>, RecordV>::empty(),
            r@.updated == Map::<Seq<u8>, RecordV>::empty(),
            r@.deleted == Map::<Seq<u8>, DeletionEntry>::empty(),
            r@.events == Seq::<EventV>::empty(),
    {
        InMemoryStorage { persistent: build_record_map(objects), temporary: ScratchPad::empty() }
    }

    /// A store in a chosen intermediate state, for the inspection layer:
    /// the persistent objects plus a scratchpad already holding created
    /// and updated records. Nothing checks here that the scratchpad
    /// agrees with the persistent map; that is exactly what `flush`
    /// re-checks at commit time.
    pub fn from_parts(
        objects: Vec<ObjectRecord>,
        created: Vec<ObjectRecord>,
        updated: Vec<ObjectRecord>,
    ) -> (r: Self)
        ensures
            r.wf(),
            r@.persistent == map_of_records(objects@.map_values(|o: ObjectRecord| o@)),
            r@.created == map_of_records(created@.map_values(|o: ObjectRecord| o@)),
            r@.updated == map_of_records(updated@.map_values(|o: ObjectRecord| o@)),
            r@.deleted == Map::<Seq<u8>, DeletionEntry>::empty(),
            r@.events == Seq::<EventV>::empty(),
    {
        InMemoryStorage {
            persistent: build_record_map(objects),
            temporary: ScratchPad {
                created: build_record_map(created),
                updated: build_record_map(updated),
                deleted: IdMap::new(),
                events: Vec::new(),
            },
        }
    }

    /// Observes an id through the scratchpad, cloning what it finds; an
    /// id pending deletion must never be read again within the same
    /// transaction.
    pub fn read_object(&self, id: &ObjectID) -> (r: Result<
        Option<ObjectRecord>,
        InvariantViolation,
    >)
        requires
            self.wf(),
        ensures
            (r is Ok) == !self@.deleted.contains_key(id@),
            r matches Err(e) ==> e == InvariantViolation::ReadOfDeleted,
            r matches Ok(Some(rec)) ==> Some(rec@) == spec_read(self@, id@),
            r matches Ok(o) && o is None ==> spec_read(self@, id@) is None,
    {
        // There should be no read after delete.
        if self.temporary.deleted.contains_key(id) {
            return Err(InvariantViolation::ReadOfDeleted);
        }
        // Objects updated in the scratchpad come first, then freshly
        // created ones, then the persistent map.
        if let Some(o) = self.temporary.updated.get(id) {
            return Ok(Some(o.clone()));
        }
        if let Some(o) = self.temporary.created.get(id) {
            return Ok(Some(o.clone()));
        }
        match self.persistent.get(id) {
            Some(o) => Ok(Some(o.clone())),
            None => Ok(None),
        }
    }

    /// Buffers a write in the appropriate part of the scratchpad; an id
    /// pending deletion must never be written again within the same
    /// transaction.
    pub fn write_object(&mut self, object: ObjectRecord) -> (r: Result<(), InvariantViolation>)
        requires
            old(self).wf(),
        ensures
            final(self).wf(),
            (r is Ok) == write_allowed(old(self)@, object@.id),
            r is Ok ==> final(self)@ == spec_write(old(self)@, object@),
            r matches Err(e) ==> *final(self) == *old(self) && e
                == InvariantViolation::WriteAfterDelete,
    {
        let id = object.id.clone();
        // There should be no write after delete.
        if self.temporary.deleted.contains_key(&id) {
            return Err(InvariantViolation::WriteAfterDelete);
        }
        if self.persistent.contains_key(&id) {
            self.temporary.updated.insert(id, object);
        } else {
            self.temporary.created.insert(id, object);
        }
        Ok(())
    }

    /// Buffers a delete; the same id may be neither written before nor
    /// deleted twice within one transaction.
    pub fn delete_object(&mut self, id: &ObjectID, version: u64, kind: DeleteKind) -> (r: Result<
        (),
        InvariantViolation,
    >)
        requires
            old(self).wf(),
        ensures
            final(self).wf(),
            (r is Ok) == delete_allowed(old(self)@, id@),
            r is Ok ==> final(self)@ == spec_delete(old(self)@, id@, version, kind),
            r matches Err(e) ==> *final(self) == *old(self) && e == (if old(
                self,
            )@.updated.contains_key(id@) {
                InvariantViolation::DeleteAfterWrite
            } else {
                InvariantViolation::RepeatedDelete
            }),
    {
        // There should be no deletion after write.
        if self.temporary.updated.contains_key(id) {
            return Err(InvariantViolation::DeleteAfterWrite);
        }
        // This object may not have been deleted already.
        if self.temporary.deleted.contains_key(id) {
            return Err(InvariantViolation::RepeatedDelete);
        }
        self.temporary.deleted.insert(id.clone(), DeletionEntry { version, kind });
        Ok(())
    }

    /// Appends to the event log; the order of the log is preserved
    /// exactly as issued.
    pub fn log_event(&mut self, event: Event)
        requires
            old(self).wf(),
        ensures
            final(self).wf(),
            final(self)@ == (StoreV { events: old(self)@.events.push(event@), ..old(self)@ }),
    {
        let ghost before = self.temporary.events@;
        self.temporary.events.push(event);
        proof {
            assert(events_view(self.temporary.events@) =~= events_view(before).push(
                self.temporary.events@.last()@,
            ));
        }
    }

    /// Discards the scratchpad without touching the persistent map.
    pub fn reset(&mut self)
        requires
            old(self).wf(),
        ensures
            final(self).wf(),
            final(self)@ == (StoreV {
                persistent: old(self)@.persistent,
                created: Map::empty(),
                updated: Map::empty(),
                deleted: Map::empty(),
                events: Seq::empty(),
            }),
    {
        self.temporary = ScratchPad::empty();
        proof {
            assert(self@.events =~= Seq::<EventV>::empty());
        }
    }

    /// Commits the scratchpad into the persistent map, all or nothing:
    /// the preconditions are checked first, and only a consistent
    /// scratchpad mutates the store.
    pub fn flush(&mut self) -> (r: Result<(), InvariantViolation>)
        requires
            old(self).wf(),
        ensures
            final(self).wf(),
            (r is Ok) == flush_ok(old(self)@),
            r is Ok ==> final(self)@ == spec_flush(old(self)@),
            r matches Err(e) ==> *final(self) == *old(self) && match e {
                InvariantViolation::CreatedAlreadyPresent => exists|k: Seq<u8>|
                    #[trigger] old(self)@.created.contains_key(k) && old(
                        self,
                    )@.persistent.contains_key(k),
                InvariantViolation::UpdatedAbsent => (forall|k: Seq<u8>|
                    #[trigger] old(self)@.created.contains_key(k) ==> !old(
                        self,
                    )@.persistent.contains_key(k)) && exists|k: Seq<u8>|
                    #[trigger] old(self)@.updated.contains_key(k) && !old(
                        self,
                    )@.persistent.contains_key(k),
                _ => false,
            },
    {
        // First pass: every created id must be fresh, every updated id
        // must exist. Nothing is mutated until both checks pass.
        let n_created = self.temporary.created.len();
        let mut i: usize = 0;
        while i < n_created
            invariant
                *self == *old(self),
                self.wf(),
                n_created == self.temporary.created.spec_len(),
                i <= n_created,
                forall|j: int|
                    0 <= j < i ==> !self@.persistent.contains_key(
                        (#[trigger] self.temporary.created.spec_entry_at(j)).0@,
                    ),
            decreases n_created - i,
        {
            let present = {
                let entry = self.temporary.created.entry_at(i);
                self.persistent.contains_key(&entry.0)
            };
            if present {
                proof {
                    self.temporary.created.lemma_entry_in_map(i as int);
                }
                return Err(InvariantViolation::CreatedAlreadyPresent);
            }
            i += 1;
        }
        proof {
            assert forall|k: Seq<u8>| #[trigger]
                self@.created.contains_key(k) implies !self@.persistent.contains_key(k) by {
                lemma_map_of_entries_dom(self.temporary.created.entries@, k);
                let j = choose|j: int|
                    0 <= j < self.temporary.created.entries@.len() && (
                    #[trigger] self.temporary.created.entries@[j]).0@ == k;
                assert(self.temporary.created.spec_entry_at(j).0@ == k);
            }
        }
        let n_updated = self.temporary.updated.len();
        let mut i2: usize = 0;
        while i2 < n_updated
            invariant
                *self == *old(self),
                self.wf(),
                forall|k: Seq<u8>|
                    #[trigger] self@.created.contains_key(k) ==> !self@.persistent.contains_key(k),
                n_updated == self.temporary.updated.spec_len(),
                i2 <= n_updated,
                forall|j: int|
                    0 <= j < i2 ==> self@.persistent.contains_key(
                        (#[trigger] self.temporary.updated.spec_entry_at(j)).0@,
                    ),
            decreases n_updated - i2,
        {
            let absent = {
                let entry = self.temporary.updated.entry_at(i2);
                !self.persistent.contains_key(&entry.0)
            };
            if absent {
                proof {
                    self.temporary.updated.lemma_entry_in_map(i2 as int);
                }
                return Err(InvariantViolation::UpdatedAbsent);
            }
            i2 += 1;
        }
        proof {
            assert forall|k: Seq<u8>| #[trigger]
                self@.updated.contains_key(k) implies self@.persistent.contains_key(k) by {
                lemma_map_of_entries_dom(self.temporary.updated.entries@, k);
                let j = choose|j: int|
                    0 <= j < self.temporary.updated.entries@.len() && (
                    #[trigger] self.temporary.updated.entries@[j]).0@ == k;
                assert(self.temporary.updated.spec_entry_at(j).0@ == k);
            }
            assert(flush_ok(self@));
        }
        // Second pass: apply. Insert the created records, overwrite with
        // the updated ones, take the deleted ids out, clear the
        // scratchpad.
        let ghost s0 = self@;
        let n = self.temporary.created.len();
        let mut a: usize = 0;
        while a < n
            invariant
                self.temporary == old(self).temporary,
                self.persistent.wf(),
                n == self.temporary.created.spec_len(),
                a <= n,
                s0 == (StoreV {
                    persistent: old(self).persistent@,
                    created: self.temporary.created@,
                    updated: self.temporary.updated@,
                    deleted: self.temporary.deleted@,
                    events: events_view(self.temporary.events@),
                }),
                old(self).temporary.created.wf(),
                records_keyed(s0),
                self.persistent@ == s0.persistent.union_prefer_right(
                    map_of_entries(self.temporary.created.entries@.take(a as int)),
                ),
                forall|k: Seq<u8>|
                    self.persistent@.contains_key(k) ==> (#[trigger] self.persistent@[k]).id == k,
            decreases n - a,
        {
            let (id, rec) = {
                let entry = self.temporary.created.entry_at(a);
                (entry.0.clone(), entry.1.clone())
            };
            let ghost before = self.persistent@;
            proof {
                self.temporary.created.lemma_entry_in_map(a as int);
            }
            self.persistent.insert(id, rec);
            proof {
                let es = self.temporary.created.entries@;
                assert(es.take(a as int + 1).drop_last() =~= es.take(a as int));
                assert(es.take(a as int + 1).last() == es[a as int]);
                assert(self.persistent@ =~= s0.persistent.union_prefer_right(
                    map_of_entries(es.take(a as int + 1)),
                ));
            }
            a += 1;
        }
        proof {
            let es = self.temporary.created.entries@;
            assert(es.take(es.len() as int) =~= es);
        }
        let ghost p1 = self.persistent@;
        let m = self.temporary.updated.len();
        let mut b: usize = 0;
        while b < m
            invariant
                self.temporary == old(self).temporary,
                self.persistent.wf(),
                m == self.temporary.updated.spec_len(),
                b <= m,
                s0 == (StoreV {
                    persistent: old(self).persistent@,
                    created: self.temporary.created@,
                    updated: self.temporary.updated@,
                    deleted: self.temporary.deleted@,
                    events: events_view(self.temporary.events@),
                }),
                old(self).temporary.updated.wf(),
                records_keyed(s0),
                p1 == s0.persistent.union_prefer_right(s0.created),
                self.persistent@ == p1.union_prefer_right(
                    map_of_entries(self.temporary.updated.entries@.take(b as int)),
                ),
                forall|k: Seq<u8>|
                    self.persistent@.contains_key(k) ==> (#[trigger] self.persistent@[k]).id == k,
            decreases m - b,
        {
            let (id, rec) = {
                let entry = self.temporary.updated.entry_at(b);
                (entry.0.clone(), entry.1.clone())
            };
            proof {
                self.temporary.updated.lemma_entry_in_map(b as int);
            }
            self.persistent.insert(id, rec);
            proof {
                let es = self.temporary.updated.entries@;
                assert(es.take(b as int + 1).drop_last() =~= es.take(b as int));
                assert(es.take(b as int + 1).last() == es[b as int]);
                assert(self.persistent@ =~= p1.union_prefer_right(
                    map_of_entries(es.take(b as int + 1)),
                ));
            }
            b += 1;
        }
        proof {
            let es = self.temporary.updated.entries@;
            assert(es.take(es.len() as int) =~= es);
        }
        let ghost p2 = self.persistent@;
        let q = self.temporary.deleted.len();
        let mut c: usize = 0;
        while c < q
            invariant
                self.temporary == old(self).temporary,
                self.persistent.wf(),
                q == self.temporary.deleted.spec_len(),
                c <= q,
                s0 == (StoreV {
                    persistent: old(self).persistent@,
                    created: self.temporary.created@,
                    updated: self.temporary.updated@,
                    deleted: self.temporary.deleted@,
                    events: events_view(self.temporary.events@),
                }),
                old(self).temporary.deleted.wf(),
                records_keyed(s0),
                p2 == s0.persistent.union_prefer_right(s0.created).union_prefer_right(s0.updated),
                self.persistent@ == p2.remove_keys(
                    map_of_entries(self.temporary.deleted.entries@.take(c as int)).dom(),
                ),
                forall|k: Seq<u8>|
                    self.persistent@.contains_key(k) ==> (#[trigger] self.persistent@[k]).id == k,
            decreases q - c,
        {
            let id = {
                let entry = self.temporary.deleted.entry_at(c);
                entry.0.clone()
            };
            self.persistent.remove(&id);
            proof {
                let es = self.temporary.deleted.entries@;
                assert(es.take(c as int + 1).drop_last() =~= es.take(c as int));
                assert(es.take(c as int + 1).last() == es[c as int]);
                assert(map_of_entries(es.take(c as int + 1)).dom() =~= map_of_entries(
                    es.take(c as int),
                ).dom().insert(es[c as int].0@));
                assert(self.persistent@ =~= p2.remove_keys(
                    map_of_entries(es.take(c as int + 1)).dom(),
                ));
            }
            c += 1;
        }
        proof {
            let es = self.temporary.deleted.entries@;
            assert(es.take(es.len() as int) =~= es);
        }
        self.temporary = ScratchPad::empty();
        proof {
            assert(s0.deleted.dom() == map_of_entries(
                old(self).temporary.deleted.entries@,
            ).dom());
            assert(self@.persistent =~= spec_flush(s0).persistent);
            assert(self@.events =~= Seq::<EventV>::empty());
            assert(self@ == spec_flush(s0));
        }
        Ok(())
    }

    /// The scratchpad's created records.
    pub fn created(&self) -> (r: &IdMap<ObjectRecord>)
        requires
            self.wf(),
        ensures
            r@ == self@.created,
            r.wf(),
    {
        &self.temporary.created
    }

    /// The scratchpad's updated records.
    pub fn updated(&self) -> (r: &IdMap<ObjectRecord>)
        requires
            self.wf(),
        ensures
            r@ == self@.updated,
            r.wf(),
    {
        &self.temporary.updated
    }

    /// The scratchpad's recorded deletions.
    pub fn deleted(&self) -> (r: &IdMap<DeletionEntry>)
        requires
            self.wf(),
        ensures
            r@ == self@.deleted,
            r.wf(),
    {
        &self.temporary.deleted
    }

    /// The event log, in the order the events were issued.
    pub fn events(&self) -> (r: &Vec<Event>)
        ensures
            events_view(r@) == self@.events,
    {
        &self.temporary.events
    }

    /// The created ids, cloned out in insertion order.
    pub fn get_created_keys(&self) -> (r: Vec<ObjectID>)
        requires
            self.wf(),
        ensures
            r@.len() == self@.created.dom().len(),
            forall|i: int| 0 <= i < r@.len() ==> self@.created.contains_key((#[trigger] r@[i])@),
            forall|i: int, j: int| 0 <= i < j < r@.len() ==> (#[trigger] r@[i])@ != (#[trigger] r@[j])@,
    {
        proof {
            self.temporary.created.lemma_len_is_dom_len();
        }
        let keys = self.temporary.created.keys();
        proof {
            assert forall|i: int| 0 <= i < keys@.len() implies self@.created.contains_key(
                (#[trigger] keys@[i])@,
            ) by {
                self.temporary.created.lemma_entry_in_map(i);
                assert(keys@.map_values(|id: ObjectID| id@)[i] == keys@[i]@);
            }
            assert forall|i: int, j: int| 0 <= i < j < keys@.len() implies (#[trigger] keys@[i])@
                != (#[trigger] keys@[j])@ by {
                self.temporary.created.lemma_entry_in_map(i);
                self.temporary.created.lemma_entry_in_map(j);
                assert(keys@.map_values(|id: ObjectID| id@)[i] == keys@[i]@);
                assert(keys@.map_values(|id: ObjectID| id@)[j] == keys@[j]@);
            }
        }
        keys
    }
}



/// Keys each record by its own id.
fn build_record_map(objects: Vec<ObjectRecord>) -> (r: IdMap<ObjectRecord>)
    ensures
        r.wf(),
        r@ == map_of_records(objects@.map_values(|o: ObjectRecord| o@)),
        forall|k: Seq<u8>| r@.contains_key(k) ==> (#[trigger] r@[k]).id == k,
{
    let ghost views = objects@.map_values(|o: ObjectRecord| o@);
    let mut m: IdMap<ObjectRecord> = IdMap::new();
    let mut i: usize = 0;
    while i < objects.len()
        invariant
            i <= objects@.len(),
            views == objects@.map_values(|o: ObjectRecord| o@),
            views.len() == objects@.len(),
            m.wf(),
            m@ == map_of_records(views.take(i as int)),
            forall|k: Seq<u8>| m@.contains_key(k) ==> (#[trigger] m@[k]).id == k,
        decreases objects@.len() - i,
    {
        let o = objects[i].clone();
        let id = o.id.clone();
        m.insert(id, o);
        proof {
            assert(views.take(i as int + 1).drop_last() =~= views.take(i as int));
            assert(views.take(i as int + 1).last() == views[i as int]);
            assert(views[i as int] == objects@[i as int]@);
        }
        i += 1;
    }
    proof {
        assert(views.take(views.len() as int) =~= views);
    }
    m
}

/// An object written and then read before any flush is returned exactly,
/// version included: the scratchpad makes a transaction's own writes
/// visible to its own reads.
pub proof fn lemma_write_then_read(s: StoreV, r: RecordV)
    requires
        keys_consistent(s),
        write_allowed(s, r.id),
    ensures
        spec_read(spec_write(s, r), r.id) == Some(r),
{
}

/// A consistent scratchpad's records are what a read observes after the
/// flush: created and updated records become the persistent ones unless
/// the same id was also deleted.
pub proof fn lemma_flush_then_read(s: StoreV, id: Seq<u8>)
    requires
        flush_ok(s),
        !s.deleted.contains_key(id),
    ensures
        s.updated.contains_key(id) ==> spec_read(spec_flush(s), id) == Some(s.updated[id]),
        s.created.contains_key(id) ==> spec_read(spec_flush(s), id) == Some(s.created[id]),
{
    if s.created.contains_key(id) {
        // A created id exists neither persistently nor among the updated
        // ids, so the created record is what survives the merge.
        assert(!s.persistent.contains_key(id));
        assert(!s.updated.contains_key(id));
    }
}

/// A chain of successive mutations of one id: a creation at version 1,
/// then records that each carry the previous one at the next version.
pub open spec fn is_mutation_chain(records: Seq<RecordV>) -> bool {
    records.len() > 0 && records[0].version == 1 && (forall|i: int|
        1 <= i < records.len() ==> records[i - 1].version < u64::MAX && (#[trigger] records[i])
            == (RecordV { version: (records[i - 1].version + 1) as u64, ..records[i - 1] }))
}

/// For an id undergoing N successive create/update mutations, the
/// versions observed after each flush are exactly 1, 2, ..., N: the k-th
/// record of a mutation chain carries version k.
pub proof fn lemma_mutation_chain_versions(records: Seq<RecordV>)
    requires
        is_mutation_chain(records),
        records.len() <= u64::MAX,
    ensures
        forall|i: int| 0 <= i < records.len() ==> (#[trigger] records[i]).version == i + 1,
{
    assert forall|i: int| 0 <= i < records.len() implies (#[trigger] records[i]).version == i
        + 1 by {
        lemma_mutation_chain_version_at(records, i);
    }
}

proof fn lemma_mutation_chain_version_at(records: Seq<RecordV>, i: int)
    requires
        is_mutation_chain(records),
        records.len() <= u64::MAX,
        0 <= i < records.len(),
    ensures
        records[i].version == i + 1,
    decreases i,
{
    if i > 0 {
        lemma_mutation_chain_version_at(records, i - 1);
    }
}

/// Wrapping an object and unwrapping it later preserves its
/// type-specific content bytes exactly and raises its version by two:
/// the wrap deletes the id with the wrap kind, the commit takes it out of
/// the persistent map, and the later unwrap recreates it two versions
/// above the version seen at wrap time.
pub proof fn lemma_wrap_unwrap_roundtrip(s: StoreV, orig: RecordV)
    requires
        keys_consistent(s),
        delete_allowed(s, orig.id),
        orig.version + 2 <= u64::MAX,
        flush_ok(spec_delete(s, orig.id, orig.version, DeleteKind::Wrap)),
    ensures
        ({
            let wrapped = spec_flush(spec_delete(s, orig.id, orig.version, DeleteKind::Wrap));
            let recreated = RecordV { version: (orig.version + 2) as u64, ..orig };
            let unwrapped = spec_flush(spec_write(wrapped, recreated));
            &&& spec_read(wrapped, orig.id) is None
            &&& spec_read(unwrapped, orig.id) matches Some(found) && found.contents
                == orig.contents && found.version == orig.version + 2
        }),
{
    let wrapped = spec_flush(spec_delete(s, orig.id, orig.version, DeleteKind::Wrap));
    let recreated = RecordV { version: (orig.version + 2) as u64, ..orig };
    assert(!wrapped.persistent.contains_key(orig.id));
    assert(spec_write(wrapped, recreated).created == Map::<Seq<u8>, RecordV>::empty().insert(
        recreated.id,
        recreated,
    ));
    assert(flush_ok(spec_write(wrapped, recreated)));
    assert(spec_read(spec_flush(spec_write(wrapped, recreated)), orig.id) == Some(recreated));
}

/// Within one scratchpad, a delete after a write of the same persistent
/// id is rejected as an invariant violation.
pub proof fn lemma_delete_after_write_rejected(s: StoreV, r: RecordV)
    requires
        s.persistent.contains_key(r.id),
        write_allowed(s, r.id),
    ensures
        !delete_allowed(spec_write(s, r), r.id),
{
}

/// Within one scratchpad, a write after a delete of the same id is
/// rejected as an invariant violation.
pub proof fn lemma_write_after_delete_rejected(s: StoreV, id: Seq<u8>, version: u64, kind: DeleteKind)
    ensures
        !write_allowed(spec_delete(s, id, version, kind), id),
{
}

/// Within one scratchpad, deleting the same id twice is rejected as an
/// invariant violation.
pub proof fn lemma_repeated_delete_rejected(s: StoreV, id: Seq<u8>, version: u64, kind: DeleteKind)
    ensures
        !delete_allowed(spec_delete(s, id, version, kind), id),
{
}


/// The store as it stands after the first `k` mutations of a chain have
/// each been buffered and flushed in turn.
pub open spec fn chain_state(s0: StoreV, records: Seq<RecordV>, k: int) -> StoreV
    decreases k,
{
    if k <= 0 {
        s0
    } else {
        spec_flush(spec_write(chain_state(s0, records, k - 1), records[k - 1]))
    }
}

/// Whether a store carries no pending transaction state.
pub open spec fn scratchpad_clear(s: StoreV) -> bool {
    s.created == Map::<Seq<u8>, RecordV>::empty() && s.updated == Map::<Seq<u8>, RecordV>::empty()
        && s.deleted == Map::<Seq<u8>, DeletionEntry>::empty()
}

proof fn lemma_chain_state_persistent(s0: StoreV, records: Seq<RecordV>, id: Seq<u8>, k: int)
    requires
        is_mutation_chain(records),
        0 <= k <= records.len(),
        scratchpad_clear(s0),
        !s0.persistent.contains_key(id),
        forall|i: int| 0 <= i < records.len() ==> (#[trigger] records[i]).id == id,
    ensures
        scratchpad_clear(chain_state(s0, records, k)),
        k == 0 ==> chain_state(s0, records, k) == s0,
        k > 0 ==> chain_state(s0, records, k).persistent.contains_key(id) && chain_state(
            s0,
            records,
            k,
        ).persistent[id] == records[k - 1],
    decreases k,
{
    if k > 0 {
        lemma_chain_state_persistent(s0, records, id, k - 1);
        let prev = chain_state(s0, records, k - 1);
        let written = spec_write(prev, records[k - 1]);
        assert(flush_ok(written));
        assert(chain_state(s0, records, k) == spec_flush(written));
    }
}

/// For an id undergoing N successive create/update mutations — each
/// buffered into a fresh scratchpad and flushed — the versions observed
/// by a read after each flush are exactly 1, 2, ..., N.
pub proof fn lemma_versions_observed_after_each_flush(
    s0: StoreV,
    records: Seq<RecordV>,
    id: Seq<u8>,
)
    requires
        is_mutation_chain(records),
        records.len() <= u64::MAX,
        scratchpad_clear(s0),
        !s0.persistent.contains_key(id),
        forall|i: int| 0 <= i < records.len() ==> (#[trigger] records[i]).id == id,
    ensures
        forall|k: int|
            0 <= k < records.len() ==> ((#[trigger] spec_read(
                chain_state(s0, records, k + 1),
                id,
            )) matches Some(found) && found.version == k + 1),
{
    lemma_mutation_chain_versions(records);
    assert forall|k: int| 0 <= k < records.len() implies ((#[trigger] spec_read(
        chain_state(s0, records, k + 1),
        id,
    )) matches Some(found) && found.version == k + 1) by {
        lemma_chain_state_persistent(s0, records, id, k + 1);
    }
}


/// The relative order in which two writes of distinct ids are buffered
/// does not affect the scratchpad, and hence not the flushed state
/// either.
pub proof fn lemma_write_order_irrelevant(s: StoreV, r1: RecordV, r2: RecordV)
    requires
        r1.id != r2.id,
    ensures
        spec_write(spec_write(s, r1), r2) == spec_write(spec_write(s, r2), r1),
{
    let a = spec_write(spec_write(s, r1), r2);
    let b = spec_write(spec_write(s, r2), r1);
    assert(a.created =~= b.created);
    assert(a.updated =~= b.updated);
}

/// The relative order of a write and a delete of distinct ids does not
/// affect the scratchpad either.
pub proof fn lemma_write_delete_order_irrelevant(
    s: StoreV,
    r: RecordV,
    id: Seq<u8>,
    version: u64,
    kind: DeleteKind,
)
    requires
        r.id != id,
    ensures
        spec_delete(spec_write(s, r), id, version, kind) == spec_write(
            spec_delete(s, id, version, kind),
            r,
        ),
{
}

/// Nor does the relative order of two deletes of distinct ids.
pub proof fn lemma_delete_order_irrelevant(
    s: StoreV,
    id1: Seq<u8>,
    v1: u64,
    k1: DeleteKind,
    id2: Seq<u8>,
    v2: u64,
    k2: DeleteKind,
)
    requires
        id1 != id2,
    ensures
        spec_delete(spec_delete(s, id1, v1, k1), id2, v2, k2) == spec_delete(
            spec_delete(s, id2, v2, k2),
            id1,
            v1,
            k1,
        ),
{
    assert(spec_delete(spec_delete(s, id1, v1, k1), id2, v2, k2).deleted =~= spec_delete(
        spec_delete(s, id2, v2, k2),
        id1,
        v1,
        k1,
    ).deleted);
}

} // verus!
