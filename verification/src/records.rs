//! The lifecycle of records: create, read, update, delete.
//!
//! A record is created once, and from then on lives as a chain of revisions
//! under one identity. An update writes a new revision and links it to the
//! identity's anchor; the revisions before it stay readable by their own
//! address. Deleting a revision leaves a tombstone: that revision can never be
//! read or updated again.
use crate::address::{
    anchor_address, calculate_identity_address, lemma_serial_round_trip, serial_address, Address,
    Identity, RevisionId, CONTENT_KIND,
};
use crate::error::DataIntegrityError;
use crate::identity::{
    create_entry_identity, get_latest_header_hash, is_newest, lemma_newest, lemma_stamps_bounded,
    RECORD_INITIAL_ENTRY_LINK_TAG,
};
use crate::store::{edge_links, Envelope, EnvelopeState, Store, StoreState};
use vstd::prelude::*;

verus! {

/// A partition together with an address in it: the value of an [`Identity`] or
/// of a [`RevisionId`].
pub type Qualified = (Seq<u8>, Seq<u8>);

/// How an update is applied to a record. Each kind of record decides for itself
/// what an update keeps and what it replaces.
pub trait Updateable<U>: Sized {
    /// The record that results from applying `e` to this one.
    fn update_with(&self, e: U) -> Self;
}

impl<T> StoreState<T> {
    /// The identity of the record that the content at `address` is a revision of.
    pub open spec fn identity_of(self, address: Seq<u8>, envelope: EnvelopeState<T>) -> Qualified {
        (
            self.partition,
            match envelope.identity {
                Some(first) => first,
                None => address,
            },
        )
    }

    /// The record as it stands at `revision`, with its identity.
    pub open spec fn record_at(self, revision: Qualified) -> Result<
        (Qualified, T),
        DataIntegrityError,
    > {
        if revision.0 != self.partition {
            Err(DataIntegrityError::NotFound)
        } else {
            match self.content(revision.1) {
                Some(envelope) => Ok((self.identity_of(revision.1, envelope), envelope.payload)),
                None => Err(DataIntegrityError::NotFound),
            }
        }
    }

    /// The current revision of the record whose anchor is at `anchor`, its
    /// identity and the record itself.
    pub open spec fn record_of(self, anchor: Seq<u8>) -> Result<
        (Qualified, Qualified, T),
        DataIntegrityError,
    > {
        match self.resolve(anchor) {
            Ok(revision) => match self.record_at(revision) {
                Ok((identity, payload)) => Ok((revision, identity, payload)),
                Err(e) => Err(e),
            },
            Err(e) => Err(e),
        }
    }

    /// The current state of the record that was created at `address` under
    /// `namespace`.
    pub open spec fn record(self, namespace: Seq<char>, address: Seq<u8>) -> Result<
        (Qualified, Qualified, T),
        DataIntegrityError,
    > {
        self.record_of(anchor_address(namespace, (self.partition, address)))
    }

    /// The store after a record holding `payload` was created under `namespace`.
    pub open spec fn after_create(self, namespace: Seq<char>, payload: T) -> StoreState<T> {
        let address = self.next_content_address();
        let anchor = anchor_address(namespace, (self.partition, address));
        self.put(EnvelopeState { identity: None, payload }).mint(anchor).put_edge(
            anchor,
            address,
            RECORD_INITIAL_ENTRY_LINK_TAG@,
        )
    }

    /// Whether the record can be updated at `revision` under `namespace`, and
    /// then its identity and what it holds at that revision.
    pub open spec fn updatable(self, namespace: Seq<char>, revision: Qualified) -> Result<
        (Qualified, T),
        DataIntegrityError,
    > {
        match self.record_at(revision) {
            Ok((identity, payload)) => if self.minted(anchor_address(namespace, identity)) {
                Ok((identity, payload))
            } else {
                Err(DataIntegrityError::NotFound)
            },
            Err(e) => Err(e),
        }
    }

    /// The store after `payload` was written as a new revision of the record
    /// with the given identity.
    pub open spec fn after_update(self, namespace: Seq<char>, identity: Qualified, payload: T) -> StoreState<T> {
        self.put(EnvelopeState { identity: Some(identity.1), payload }).put_edge(
            anchor_address(namespace, identity),
            self.next_content_address(),
            RECORD_INITIAL_ENTRY_LINK_TAG@,
        )
    }

    /// The store after the revision was deleted.
    pub open spec fn after_delete(self, revision: Qualified) -> StoreState<T> {
        if self.record_at(revision) is Ok {
            self.tombstone(revision.1)
        } else {
            self
        }
    }
}

/// Whether what a read returned is what the store holds: the same revision and
/// identity and a clone of the record, or the same failure.
pub open spec fn delivers<T: Clone>(
    returned: Result<(RevisionId, Identity, T), DataIntegrityError>,
    held: Result<(Qualified, Qualified, T), DataIntegrityError>,
) -> bool {
    match (returned, held) {
        (Ok(out), Ok(record)) => out.0@ == record.0 && out.1@ == record.1 && cloned(
            record.2,
            out.2,
        ),
        (Err(e), Err(f)) => e == f,
        _ => false,
    }
}

/// Reads the record as it stands at one revision, with its identity. Later
/// updates of the record do not change what this returns. Fails with `NotFound`
/// where the revision is of another partition, was never written or was deleted.
pub fn read_record_entry_by_header<T: Clone>(store: &Store<T>, header_hash: &RevisionId) -> (r:
    Result<(Identity, T), DataIntegrityError>)
    ensures
        match (r, store@.record_at(header_hash@)) {
            (Ok(out), Ok(record)) => out.0@ == record.0 && cloned(record.1, out.1),
            (Err(e), Err(f)) => e == f,
            _ => false,
        },
{
    if !header_hash.partition.same(store.partition()) {
        return Err(DataIntegrityError::NotFound);
    }
    match store.get(&header_hash.address) {
        Ok(envelope) => {
            let first = match &envelope.identity {
                Some(first) => first.clone(),
                None => header_hash.address.clone(),
            };
            Ok((Identity { partition: store.partition().clone(), address: first }, envelope.payload.clone()))
        },
        Err(e) => Err(e),
    }
}

/// Reads the current state of the record whose anchor is at `identity_address`.
pub fn read_record_entry_by_identity<T: Clone>(store: &Store<T>, identity_address: &Address) -> (r:
    Result<(RevisionId, Identity, T), DataIntegrityError>)
    ensures
        delivers(r, store@.record_of(identity_address@)),
{
    match get_latest_header_hash(store, identity_address) {
        Ok(revision) => match read_record_entry_by_header(store, &revision) {
            Ok((identity, entry)) => Ok((revision, identity, entry)),
            Err(e) => Err(e),
        },
        Err(e) => Err(e),
    }
}

/// Reads the current state of the record that was created at `address` under
/// `entry_type_root_path` in this store's partition: its current revision, its
/// identity and the record. Fails with `NotFound` where no such record was
/// created or its current revision was deleted.
pub fn read_record_entry<T: Clone>(store: &Store<T>, entry_type_root_path: &str, address: &Address) -> (r:
    Result<(RevisionId, Identity, T), DataIntegrityError>)
    ensures
        delivers(r, store@.record(entry_type_root_path@, address@)),
{
    let identity = Identity { partition: store.partition().clone(), address: address.clone() };
    let identity_address = calculate_identity_address(entry_type_root_path, &identity);
    read_record_entry_by_identity(store, &identity_address)
}

/// Creates a record under `entry_def_id`: writes its first revision, mints the
/// anchor of its identity and links the anchor to the revision. Returns the
/// revision, the new identity and the record. Always succeeds.
pub fn create_record<T: Clone>(store: &mut Store<T>, entry_def_id: &str, entry_data: T) -> (r: Result<
    (RevisionId, Identity, T),
    DataIntegrityError,
>)
    ensures
        final(store)@ == old(store)@.after_create(entry_def_id@, entry_data),
        match r {
            Ok(out) => {
                &&& out.0@ == (old(store)@.partition, old(store)@.next_content_address())
                &&& out.1@ == out.0@
                &&& cloned(entry_data, out.2)
            },
            Err(_) => false,
        },
{
    let returned = entry_data.clone();
    let address = store.put(Envelope { identity: None, payload: entry_data });
    let identity = Identity { partition: store.partition().clone(), address: address.clone() };
    let identity_address = create_entry_identity(store, entry_def_id, &identity);
    store.put_edge(&identity_address, &address, RECORD_INITIAL_ENTRY_LINK_TAG);
    Ok((RevisionId { partition: store.partition().clone(), address }, identity, returned))
}

/// Writes `new_entry` as the revision that follows `address` in the record's
/// chain, and links the record's anchor under `entry_def_id` to it. Returns the
/// new revision, the record's identity, the new record and the one at `address`.
///
/// Fails with `NotFound`, writing nothing, where `address` cannot be read or the
/// record has no anchor under `entry_def_id`. It succeeds also where `address`
/// is no longer the record's current revision: the later write wins.
pub fn write_revision<T: Clone>(
    store: &mut Store<T>,
    entry_def_id: &str,
    address: &RevisionId,
    new_entry: T,
) -> (r: Result<(RevisionId, Identity, T, T), DataIntegrityError>)
    ensures
        match old(store)@.updatable(entry_def_id@, address@) {
            Ok((identity, previous)) => {
                &&& final(store)@ == old(store)@.after_update(entry_def_id@, identity, new_entry)
                &&& r matches Ok(out)
                &&& out.0@ == (old(store)@.partition, old(store)@.next_content_address())
                &&& out.1@ == identity
                &&& cloned(new_entry, out.2)
                &&& cloned(previous, out.3)
            },
            Err(e) => {
                &&& final(store)@ == old(store)@
                &&& r matches Err(f)
                &&& f == e
            },
        },
{
    let (identity, previous) = match read_record_entry_by_header(store, address) {
        Ok(found) => found,
        Err(e) => {
            return Err(e);
        },
    };
    let identity_address = calculate_identity_address(entry_def_id, &identity);
    if !store.has_anchor(&identity_address) {
        return Err(DataIntegrityError::NotFound);
    }
    let returned = new_entry.clone();
    let written = store.put(
        Envelope { identity: Some(identity.address.clone()), payload: new_entry },
    );
    store.put_edge(&identity_address, &written, RECORD_INITIAL_ENTRY_LINK_TAG);
    Ok((RevisionId { partition: store.partition().clone(), address: written }, identity, returned, previous))
}

/// Updates the record at revision `address`: applies `update_payload` to what
/// the record holds there and writes the result as a new revision, as
/// [`write_revision`] does. Returns the new revision, the record's identity, the
/// new record and the previous one.
///
/// Fails with `NotFound`, writing nothing, where `address` cannot be read or the
/// record has no anchor under `entry_def_id`.
pub fn update_record<T: Clone + Updateable<U>, U>(
    store: &mut Store<T>,
    entry_def_id: &str,
    address: &RevisionId,
    update_payload: U,
) -> (r: Result<(RevisionId, Identity, T, T), DataIntegrityError>)
    ensures
        match old(store)@.updatable(entry_def_id@, address@) {
            Ok((identity, previous)) => {
                let merged = final(store)@.slots.last().envelope.payload;
                &&& call_ensures(<T as Updateable<U>>::update_with, (&previous, update_payload), merged)
                &&& final(store)@ == old(store)@.after_update(entry_def_id@, identity, merged)
                &&& r matches Ok(out)
                &&& out.0@ == (old(store)@.partition, old(store)@.next_content_address())
                &&& out.1@ == identity
                &&& cloned(merged, out.2)
                &&& cloned(previous, out.3)
            },
            Err(e) => {
                &&& final(store)@ == old(store)@
                &&& r matches Err(f)
                &&& f == e
            },
        },
{
    if !address.partition.same(store.partition()) {
        return Err(DataIntegrityError::NotFound);
    }
    let new_entry = match store.get(&address.address) {
        Ok(envelope) => {
            let first = match &envelope.identity {
                Some(first) => first.clone(),
                None => address.address.clone(),
            };
            let identity = Identity { partition: store.partition().clone(), address: first };
            if !store.has_anchor(&calculate_identity_address(entry_def_id, &identity)) {
                return Err(DataIntegrityError::NotFound);
            }
            envelope.payload.update_with(update_payload)
        },
        Err(e) => {
            return Err(e);
        },
    };
    write_revision(store, entry_def_id, address, new_entry)
}

/// Deletes the revision at `address`: its content is marked deleted, and the
/// edges that lead to the record stay as they are. Returns `true`. Fails with
/// `NotFound`, changing nothing, where the revision is of another partition, was
/// never written or was deleted before.
pub fn delete_record<T>(store: &mut Store<T>, address: &RevisionId) -> (r: Result<
    bool,
    DataIntegrityError,
>)
    ensures
        final(store)@ == old(store)@.after_delete(address@),
        match r {
            Ok(deleted) => deleted && old(store)@.record_at(address@) is Ok,
            Err(e) => e == DataIntegrityError::NotFound && old(store)@.record_at(address@) is Err,
        },
{
    if !address.partition.same(store.partition()) {
        return Err(DataIntegrityError::NotFound);
    }
    match store.tombstone(&address.address) {
        Ok(()) => Ok(true),
        Err(e) => Err(e),
    }
}

impl<T> StoreState<T> {
    /// An anchor whose newest link leads to the content written last resolves to
    /// that content.
    proof fn lemma_resolves_to_last_written(self, anchor: Seq<u8>)
        requires
            self.minted(anchor),
            0 < self.slots.len() <= u64::MAX + 1,
            !self.slots.last().tombstoned,
            self.edges.len() > 0,
            edge_links(self.edges.last(), anchor, RECORD_INITIAL_ENTRY_LINK_TAG@),
            self.edges.last().to == serial_address(CONTENT_KIND, (self.slots.len() - 1) as u64),
        ensures
            self.resolve(anchor) == Ok::<Qualified, DataIntegrityError>(
                (self.partition, self.edges.last().to),
            ),
    {
        let count = self.slots.len();
        let last = (count - 1) as u64;
        let links = self.links(anchor, RECORD_INITIAL_ENTRY_LINK_TAG@);
        let stamps = self.stamps(links);
        lemma_serial_round_trip(CONTENT_KIND, last);
        assert(links.last().1 == self.edges.last().to);
        assert(stamps.last() == last);
        lemma_stamps_bounded(count, links, links.len());
        assert(stamps[stamps.len() - 1] == last);
        assert(is_newest(stamps, last));
        lemma_newest(stamps, last);
    }

    /// Reading a record right after it was created returns the revision and
    /// identity that the creation returned, and the record as it was stored.
    pub proof fn lemma_read_after_create(self, namespace: Seq<char>, payload: T)
        requires
            self.bounded(),
        ensures
            ({
                let created = (self.partition, self.next_content_address());
                self.after_create(namespace, payload).record(namespace, created.1) == Ok::<
                    (Qualified, Qualified, T),
                    DataIntegrityError,
                >((created, created, payload))
            }),
    {
        let address = self.next_content_address();
        let anchor = anchor_address(namespace, (self.partition, address));
        let written = self.put(EnvelopeState { identity: None, payload });
        let minted = written.mint(anchor);
        let after = self.after_create(namespace, payload);
        assert(minted.minted(anchor)) by {
            if !written.minted(anchor) {
                assert(minted.anchors[written.anchors.len() as int] == anchor);
            }
        }
        after.lemma_resolves_to_last_written(anchor);
        lemma_serial_round_trip(CONTENT_KIND, self.slots.len() as u64);
    }

    /// After an update the record keeps its identity, reading it by that identity
    /// returns the new revision and the updated record, and the new revision is
    /// not the one that was updated.
    pub proof fn lemma_read_after_update(self, namespace: Seq<char>, revision: Qualified, payload: T)
        requires
            self.bounded(),
            self.updatable(namespace, revision) is Ok,
        ensures
            ({
                let identity = self.updatable(namespace, revision)->Ok_0.0;
                let updated = (self.partition, self.next_content_address());
                &&& self.after_update(namespace, identity, payload).record(namespace, identity.1)
                    == Ok::<(Qualified, Qualified, T), DataIntegrityError>(
                    (updated, identity, payload),
                )
                &&& updated != revision
            }),
    {
        let identity = self.updatable(namespace, revision)->Ok_0.0;
        let anchor = anchor_address(namespace, identity);
        let after = self.after_update(namespace, identity, payload);
        after.lemma_resolves_to_last_written(anchor);
        lemma_serial_round_trip(CONTENT_KIND, self.slots.len() as u64);
    }

    /// What a revision holds is the same before and after an update of the
    /// record, whichever revision is updated.
    pub proof fn lemma_revision_immutable(
        self,
        revision: Qualified,
        namespace: Seq<char>,
        identity: Qualified,
        payload: T,
    )
        requires
            self.slot(revision.1) is Some,
        ensures
            self.after_update(namespace, identity, payload).record_at(revision) == self.record_at(
                revision,
            ),
    {
    }

    /// A deleted revision stays deleted: at any later time reading it fails with
    /// `NotFound`, and so does every update that targets it.
    pub proof fn lemma_delete_is_terminal(
        self,
        revision: Qualified,
        later: StoreState<T>,
        namespace: Seq<char>,
    )
        requires
            self.record_at(revision) is Ok,
            self.after_delete(revision).precedes(later),
        ensures
            self.after_delete(revision).record_at(revision) == Err::<
                (Qualified, T),
                DataIntegrityError,
            >(DataIntegrityError::NotFound),
            later.record_at(revision) == Err::<(Qualified, T), DataIntegrityError>(
                DataIntegrityError::NotFound,
            ),
            later.updatable(namespace, revision) == Err::<(Qualified, T), DataIntegrityError>(
                DataIntegrityError::NotFound,
            ),
    {
        let deleted = self.after_delete(revision);
        let n = self.serial(revision.1)->Some_0;
        assert(deleted.slots[n as int].tombstoned);
        assert(later.slots[n as int].tombstoned);
    }

    /// Creating, updating and deleting records each lead to a later state of the
    /// store: no operation on records takes back what an earlier one did.
    pub proof fn lemma_lifecycle_precedes(
        self,
        namespace: Seq<char>,
        identity: Qualified,
        revision: Qualified,
        payload: T,
    )
        ensures
            self.precedes(self.after_create(namespace, payload)),
            self.precedes(self.after_update(namespace, identity, payload)),
            self.precedes(self.after_delete(revision)),
    {
        let e1 = EnvelopeState { identity: None, payload };
        let anchor1 = anchor_address(namespace, (self.partition, self.next_content_address()));
        let s1 = self.put(e1);
        let s2 = s1.mint(anchor1);
        let s3 = s2.put_edge(anchor1, self.next_content_address(), RECORD_INITIAL_ENTRY_LINK_TAG@);
        self.lemma_operations_precede(e1, revision.1, revision.1, namespace);
        s1.lemma_operations_precede(e1, anchor1, revision.1, namespace);
        s2.lemma_operations_precede(
            e1,
            anchor1,
            self.next_content_address(),
            RECORD_INITIAL_ENTRY_LINK_TAG@,
        );
        self.lemma_precedes_transitive(s1, s2);
        self.lemma_precedes_transitive(s2, s3);
        let e2 = EnvelopeState { identity: Some(identity.1), payload };
        let anchor2 = anchor_address(namespace, identity);
        let u1 = self.put(e2);
        self.lemma_operations_precede(e2, revision.1, revision.1, namespace);
        u1.lemma_operations_precede(
            e2,
            anchor2,
            self.next_content_address(),
            RECORD_INITIAL_ENTRY_LINK_TAG@,
        );
        self.lemma_precedes_transitive(
            u1,
            u1.put_edge(anchor2, self.next_content_address(), RECORD_INITIAL_ENTRY_LINK_TAG@),
        );
    }
}

} // verus!
