//! Indexes between records of one partition.
//!
//! An index is a set of edges between the anchors of two identities. Edges are
//! always written in pairs: one from the source to the destination under a
//! label, and one back under the reciprocal label, so that the relation can be
//! followed from either end.
use crate::address::{
    addressable, anchor_address, calculate_identity_address, lemma_anchor_round_trip,
    serial_address, Address, Identity, RevisionId, EDGE_KIND,
};
use crate::error::DataIntegrityError;
use crate::identity::{create_entry_identity, read_entry_identity};
use crate::records::{delivers, read_record_entry_by_identity, Qualified};
use crate::store::{
    addresses_view, lemma_link_listed, links_view, EdgeState, EnvelopeState, Store,
    StoreState,
};
use vstd::prelude::*;

verus! {

/// The values of a list of identities.
pub open spec fn identities_view(identities: Seq<Identity>) -> Seq<Qualified> {
    identities.map_values(|i: Identity| i@)
}

/// The value of an identity that was read, or the failure to read it.
pub open spec fn identity_result_view(result: Result<Identity, DataIntegrityError>) -> Result<
    Qualified,
    DataIntegrityError,
> {
    match result {
        Ok(identity) => Ok(identity@),
        Err(e) => Err(e),
    }
}

/// The values of a list of identities that were read.
pub open spec fn identity_results_view(results: Seq<Result<Identity, DataIntegrityError>>) -> Seq<
    Result<Qualified, DataIntegrityError>,
> {
    results.map_values(|r: Result<Identity, DataIntegrityError>| identity_result_view(r))
}

/// The addresses of the edges that an index change wrote or deleted. No step of
/// such a change can fail by itself, so each of the results is `Ok`.
pub open spec fn edge_results_view(results: Seq<Result<Address, DataIntegrityError>>) -> Seq<
    Seq<u8>,
> {
    results.map_values(
        |r: Result<Address, DataIntegrityError>|
            match r {
                Ok(a) => a@,
                Err(_) => Seq::<u8>::empty(),
            },
    )
}

/// Whether each of the results is `Ok`.
pub open spec fn all_ok(results: Seq<Result<Address, DataIntegrityError>>) -> bool {
    forall|i: int| 0 <= i < results.len() ==> (#[trigger] results[i]) is Ok
}

/// The first failure among the first `n` results, if there is one.
pub open spec fn first_failure(results: Seq<Result<Qualified, DataIntegrityError>>, n: nat) -> Option<
    DataIntegrityError,
>
    decreases n,
{
    if n == 0 {
        None
    } else {
        match first_failure(results, (n - 1) as nat) {
            Some(e) => Some(e),
            None => match results[n - 1] {
                Ok(_) => None,
                Err(e) => Some(e),
            },
        }
    }
}

/// The identities among the first `n` results, in their order.
pub open spec fn successes(results: Seq<Result<Qualified, DataIntegrityError>>, n: nat) -> Seq<
    Qualified,
>
    decreases n,
{
    if n == 0 {
        seq![]
    } else {
        let before = successes(results, (n - 1) as nat);
        match results[n - 1] {
            Ok(identity) => before.push(identity),
            Err(_) => before,
        }
    }
}

impl<T> StoreState<T> {
    /// What the index rooted at `anchor` holds under `label`: for each live edge
    /// the identity that its target stands for, or why it stands for none.
    pub open spec fn index(self, anchor: Seq<u8>, label: Seq<char>) -> Seq<
        Result<Qualified, DataIntegrityError>,
    > {
        self.links(anchor, label).map_values(|link: (Seq<u8>, Seq<u8>)| self.anchored(link.1))
    }

    /// The store after the anchors at `source` and `dest` were joined by an edge
    /// under `label` and an edge back under `reciprocal`.
    pub open spec fn after_create_index(
        self,
        source: Seq<u8>,
        dest: Seq<u8>,
        label: Seq<char>,
        reciprocal: Seq<char>,
    ) -> StoreState<T> {
        self.mint(source).mint(dest).put_edge(source, dest, label).put_edge(
            dest,
            source,
            reciprocal,
        )
    }

    /// The addresses of the two edges that the next index written will consist of.
    pub open spec fn created_by_create_index(self) -> Seq<Seq<u8>> {
        seq![
            serial_address(EDGE_KIND, self.edges.len() as u64),
            serial_address(EDGE_KIND, (self.edges.len() + 1) as u64),
        ]
    }

    /// The store after every edge from `source` to `dest` under `label`, and
    /// every edge back under `reciprocal`, was deleted.
    pub open spec fn after_delete_index(
        self,
        source: Seq<u8>,
        dest: Seq<u8>,
        label: Seq<char>,
        reciprocal: Seq<char>,
    ) -> StoreState<T> {
        self.unlink(source, dest, label).unlink(dest, source, reciprocal)
    }

    /// The addresses of the edges that deleting the index between `source` and
    /// `dest` deletes: those from `source` first, then those back.
    pub open spec fn deleted_by_delete_index(
        self,
        source: Seq<u8>,
        dest: Seq<u8>,
        label: Seq<char>,
        reciprocal: Seq<char>,
    ) -> Seq<Seq<u8>> {
        self.joins(source, dest, label) + self.unlink(source, dest, label).joins(
            dest,
            source,
            reciprocal,
        )
    }
}

/// Whether the identity at position `i` of `add` is to be linked: it is not
/// linked yet, and it did not occur earlier in `add`.
pub open spec fn to_insert(add: Seq<Qualified>, existing: Seq<Qualified>, i: int) -> bool {
    !existing.contains(add[i]) && !add.take(i).contains(add[i])
}

impl<T> StoreState<T> {
    /// The store after the first `n` of the `existing` destinations were looked
    /// at, and the index to each of those that is in `remove` was deleted.
    pub open spec fn erased(
        self,
        source: Seq<u8>,
        dest_type: Seq<char>,
        label: Seq<char>,
        reciprocal: Seq<char>,
        existing: Seq<Qualified>,
        remove: Seq<Qualified>,
        n: nat,
    ) -> StoreState<T>
        decreases n,
    {
        if n == 0 {
            self
        } else {
            let before = self.erased(
                source,
                dest_type,
                label,
                reciprocal,
                existing,
                remove,
                (n - 1) as nat,
            );
            if remove.contains(existing[n - 1]) {
                before.after_delete_index(
                    source,
                    anchor_address(dest_type, existing[n - 1]),
                    label,
                    reciprocal,
                )
            } else {
                before
            }
        }
    }

    /// The addresses of the edges deleted on the way to [`Self::erased`].
    pub open spec fn erased_edges(
        self,
        source: Seq<u8>,
        dest_type: Seq<char>,
        label: Seq<char>,
        reciprocal: Seq<char>,
        existing: Seq<Qualified>,
        remove: Seq<Qualified>,
        n: nat,
    ) -> Seq<Seq<u8>>
        decreases n,
    {
        if n == 0 {
            seq![]
        } else {
            let edges = self.erased_edges(
                source,
                dest_type,
                label,
                reciprocal,
                existing,
                remove,
                (n - 1) as nat,
            );
            if remove.contains(existing[n - 1]) {
                edges + self.erased(
                    source,
                    dest_type,
                    label,
                    reciprocal,
                    existing,
                    remove,
                    (n - 1) as nat,
                ).deleted_by_delete_index(
                    source,
                    anchor_address(dest_type, existing[n - 1]),
                    label,
                    reciprocal,
                )
            } else {
                edges
            }
        }
    }

    /// The store after the first `n` of the destinations in `add` were looked
    /// at, and an index was written to each of those that was to be linked.
    pub open spec fn inserted(
        self,
        source: Seq<u8>,
        dest_type: Seq<char>,
        label: Seq<char>,
        reciprocal: Seq<char>,
        add: Seq<Qualified>,
        existing: Seq<Qualified>,
        n: nat,
    ) -> StoreState<T>
        decreases n,
    {
        if n == 0 {
            self
        } else {
            let before = self.inserted(
                source,
                dest_type,
                label,
                reciprocal,
                add,
                existing,
                (n - 1) as nat,
            );
            if to_insert(add, existing, n - 1) {
                before.after_create_index(
                    source,
                    anchor_address(dest_type, add[n - 1]),
                    label,
                    reciprocal,
                )
            } else {
                before
            }
        }
    }

    /// The addresses of the edges written on the way to [`Self::inserted`].
    pub open spec fn inserted_edges(
        self,
        source: Seq<u8>,
        dest_type: Seq<char>,
        label: Seq<char>,
        reciprocal: Seq<char>,
        add: Seq<Qualified>,
        existing: Seq<Qualified>,
        n: nat,
    ) -> Seq<Seq<u8>>
        decreases n,
    {
        if n == 0 {
            seq![]
        } else {
            let edges = self.inserted_edges(
                source,
                dest_type,
                label,
                reciprocal,
                add,
                existing,
                (n - 1) as nat,
            );
            if to_insert(add, existing, n - 1) {
                edges + self.inserted(
                    source,
                    dest_type,
                    label,
                    reciprocal,
                    add,
                    existing,
                    (n - 1) as nat,
                ).created_by_create_index()
            } else {
                edges
            }
        }
    }

    /// The identities that the index rooted at `source` holds under `label`, or
    /// the first failure to read one of them.
    pub open spec fn indexed(self, source: Seq<u8>, label: Seq<char>) -> Result<
        Seq<Qualified>,
        DataIntegrityError,
    > {
        let read = self.index(source, label);
        match first_failure(read, read.len()) {
            Some(e) => Err(e),
            None => Ok(successes(read, read.len())),
        }
    }

    /// The store after the index rooted at `source` was reconciled: first the
    /// index to each linked destination that is in `remove` is deleted, then an
    /// index is written to each destination in `add` that was not linked when
    /// the reconciliation began. Where the index cannot be read nothing changes.
    pub open spec fn after_update_index(
        self,
        source: Seq<u8>,
        dest_type: Seq<char>,
        label: Seq<char>,
        reciprocal: Seq<char>,
        add: Seq<Qualified>,
        remove: Seq<Qualified>,
    ) -> StoreState<T> {
        match self.indexed(source, label) {
            Ok(existing) => self.erased(
                source,
                dest_type,
                label,
                reciprocal,
                existing,
                remove,
                existing.len(),
            ).inserted(source, dest_type, label, reciprocal, add, existing, add.len()),
            Err(_) => self,
        }
    }

    /// The addresses of the edges that reconciling the index deletes and writes:
    /// the deleted ones first.
    pub open spec fn changed_by_update_index(
        self,
        source: Seq<u8>,
        dest_type: Seq<char>,
        label: Seq<char>,
        reciprocal: Seq<char>,
        add: Seq<Qualified>,
        remove: Seq<Qualified>,
    ) -> Result<Seq<Seq<u8>>, DataIntegrityError> {
        match self.indexed(source, label) {
            Ok(existing) => {
                let erased = self.erased(
                    source,
                    dest_type,
                    label,
                    reciprocal,
                    existing,
                    remove,
                    existing.len(),
                );
                Ok(
                    self.erased_edges(
                        source,
                        dest_type,
                        label,
                        reciprocal,
                        existing,
                        remove,
                        existing.len(),
                    ) + erased.inserted_edges(
                        source,
                        dest_type,
                        label,
                        reciprocal,
                        add,
                        existing,
                        add.len(),
                    ),
                )
            },
            Err(e) => Err(e),
        }
    }
}

/// Once a failure was found among the results it stays the first one.
pub proof fn lemma_first_failure_stays(
    results: Seq<Result<Qualified, DataIntegrityError>>,
    n: nat,
    m: nat,
)
    requires
        n <= m,
        first_failure(results, n) is Some,
    ensures
        first_failure(results, m) == first_failure(results, n),
    decreases m,
{
    if n < m {
        lemma_first_failure_stays(results, n, (m - 1) as nat);
    }
}

/// Whether `wanted` is among the first `n` of `identities`.
pub fn identity_among(identities: &[Identity], n: usize, wanted: &Identity) -> (r: bool)
    requires
        n <= identities@.len(),
    ensures
        r == identities_view(identities@).take(n as int).contains(wanted@),
{
    let mut i: usize = 0;
    while i < n
        invariant
            i <= n <= identities@.len(),
            forall|j: int| 0 <= j < i ==> identities_view(identities@)[j] != wanted@,
        decreases n - i,
    {
        if identities[i].same(wanted) {
            assert(identities_view(identities@).take(n as int)[i as int] == wanted@);
            return true;
        }
        i += 1;
    }
    false
}

/// Reads the identities that the index of `base_address` holds under `link_tag`,
/// without reading the records themselves. The result has one item for each
/// live edge, in the order the edges were written: the identity that the edge's
/// target stands for, `NotFound` where no anchor was minted at the target, or
/// `Corrupt` where the target is not the anchor of an identity. An identity
/// that nothing was ever indexed under has an empty index.
pub fn read_index<T>(
    store: &Store<T>,
    base_entry_type: &str,
    base_address: &Identity,
    link_tag: &str,
) -> (r: Result<Vec<Result<Identity, DataIntegrityError>>, DataIntegrityError>)
    ensures
        r matches Ok(items) && identity_results_view(items@) == store@.index(
            anchor_address(base_entry_type@, base_address@),
            link_tag@,
        ),
{
    let index_address = calculate_identity_address(base_entry_type, base_address);
    let links = store.get_links(&index_address, link_tag);
    let mut items: Vec<Result<Identity, DataIntegrityError>> = Vec::new();
    let mut i: usize = 0;
    while i < links.len()
        invariant
            i <= links.len(),
            links_view(links@) == store@.links(index_address@, link_tag@),
            identity_results_view(items@) == store@.index(index_address@, link_tag@).take(
                i as int,
            ),
        decreases links.len() - i,
    {
        let ghost before = items@;
        let item = read_entry_identity(store, &links[i].target);
        items.push(item);
        proof {
            let all = store@.index(index_address@, link_tag@);
            assert(links_view(links@)[i as int] == links@[i as int]@);
            assert(identity_results_view(items@) =~= identity_results_view(before).push(
                identity_result_view(item),
            ));
            assert(all.take(i + 1) =~= all.take(i as int).push(all[i as int]));
        }
        i += 1;
    }
    proof {
        let all = store@.index(index_address@, link_tag@);
        assert(all.take(i as int) =~= all);
    }
    Ok(items)
}

/// Reads the records that the index of `base_address` holds under `link_tag`.
/// The result has one item for each live edge, in the order the edges were
/// written: the current state of the record whose anchor the edge leads to, or
/// the reason why it cannot be read. A record that cannot be read does not fail
/// the query.
pub fn query_index<T: Clone>(
    store: &Store<T>,
    base_entry_type: &str,
    base_address: &Identity,
    link_tag: &str,
) -> (r: Result<Vec<Result<(RevisionId, Identity, T), DataIntegrityError>>, DataIntegrityError>)
    ensures
        r matches Ok(items) && ({
            let links = store@.links(anchor_address(base_entry_type@, base_address@), link_tag@);
            &&& items@.len() == links.len()
            &&& forall|i: int|
                0 <= i < items@.len() ==> delivers(#[trigger] items@[i], store@.record_of(links[i].1))
        }),
{
    let index_address = calculate_identity_address(base_entry_type, base_address);
    let links = store.get_links(&index_address, link_tag);
    let mut items: Vec<Result<(RevisionId, Identity, T), DataIntegrityError>> = Vec::new();
    let mut i: usize = 0;
    while i < links.len()
        invariant
            i <= links.len(),
            items@.len() == i,
            links_view(links@) == store@.links(index_address@, link_tag@),
            forall|j: int|
                0 <= j < i ==> delivers(
                    #[trigger] items@[j],
                    store@.record_of(store@.links(index_address@, link_tag@)[j].1),
                ),
        decreases links.len() - i,
    {
        assert(links_view(links@)[i as int] == links@[i as int]@);
        let item = read_record_entry_by_identity(store, &links[i].target);
        items.push(item);
        i += 1;
    }
    Ok(items)
}

/// Joins `source` and `dest` by an edge under `link_tag` and an edge back under
/// `link_tag_reciprocal`, minting the anchors of the two identities where they
/// do not exist yet. Returns the addresses of the two edges, the forward one
/// first. Always succeeds.
pub fn create_index<T>(
    store: &mut Store<T>,
    source_entry_type: &str,
    source: &Identity,
    dest_entry_type: &str,
    dest: &Identity,
    link_tag: &str,
    link_tag_reciprocal: &str,
) -> (r: Result<Vec<Address>, DataIntegrityError>)
    ensures
        final(store)@ == old(store)@.after_create_index(
            anchor_address(source_entry_type@, source@),
            anchor_address(dest_entry_type@, dest@),
            link_tag@,
            link_tag_reciprocal@,
        ),
        r matches Ok(created) && addresses_view(created@) == old(store)@.created_by_create_index(),
{
    let source_hash = create_entry_identity(store, source_entry_type, source);
    let dest_hash = create_entry_identity(store, dest_entry_type, dest);
    let forward = store.put_edge(&source_hash, &dest_hash, link_tag);
    let back = store.put_edge(&dest_hash, &source_hash, link_tag_reciprocal);
    let mut created: Vec<Address> = Vec::new();
    created.push(forward);
    created.push(back);
    proof {
        assert(addresses_view(created@) =~= seq![forward@, back@]);
    }
    Ok(created)
}

/// Deletes the index between `source` and `dest`: every live edge from `source`
/// to `dest` under `link_tag` and every live edge back under
/// `link_tag_reciprocal`. Edges to other destinations stay. Returns the
/// addresses of the edges deleted, those from `source` first. Always succeeds;
/// where there is no such edge the result is empty.
pub fn delete_index<T>(
    store: &mut Store<T>,
    source_entry_type: &str,
    source: &Identity,
    dest_entry_type: &str,
    dest: &Identity,
    link_tag: &str,
    link_tag_reciprocal: &str,
) -> (r: Result<Vec<Result<Address, DataIntegrityError>>, DataIntegrityError>)
    ensures
        final(store)@ == old(store)@.after_delete_index(
            anchor_address(source_entry_type@, source@),
            anchor_address(dest_entry_type@, dest@),
            link_tag@,
            link_tag_reciprocal@,
        ),
        r matches Ok(deleted) && all_ok(deleted@) && edge_results_view(deleted@) == old(
            store,
        )@.deleted_by_delete_index(
            anchor_address(source_entry_type@, source@),
            anchor_address(dest_entry_type@, dest@),
            link_tag@,
            link_tag_reciprocal@,
        ),
{
    let address_source = calculate_identity_address(source_entry_type, source);
    let address_dest = calculate_identity_address(dest_entry_type, dest);
    let mut forward = store.unlink(&address_source, &address_dest, link_tag);
    let mut back = store.unlink(&address_dest, &address_source, link_tag_reciprocal);
    let ghost ids = addresses_view(forward@) + addresses_view(back@);
    forward.append(&mut back);
    proof {
        assert(addresses_view(forward@) =~= ids);
    }
    Ok(wrap_edges(forward))
}

/// Those of the first `n` linked destinations that are to be removed.
pub open spec fn erasures_among(existing: Seq<Qualified>, remove: Seq<Qualified>, n: nat) -> Seq<
    Qualified,
>
    decreases n,
{
    if n == 0 {
        seq![]
    } else {
        let before = erasures_among(existing, remove, (n - 1) as nat);
        if remove.contains(existing[n - 1]) {
            before.push(existing[n - 1])
        } else {
            before
        }
    }
}

/// Those of the first `n` destinations of `add` that are to be linked.
pub open spec fn insertions_among(add: Seq<Qualified>, existing: Seq<Qualified>, n: nat) -> Seq<
    Qualified,
>
    decreases n,
{
    if n == 0 {
        seq![]
    } else {
        let before = insertions_among(add, existing, (n - 1) as nat);
        if to_insert(add, existing, n - 1) {
            before.push(add[n - 1])
        } else {
            before
        }
    }
}

/// Selects the linked destinations whose index a reconciliation deletes: those
/// of `existing` that are in `remove`, in the order of `existing`.
pub fn select_erasures(existing: &[Identity], remove: &[Identity]) -> (r: Vec<Identity>)
    ensures
        identities_view(r@) == erasures_among(
            identities_view(existing@),
            identities_view(remove@),
            existing@.len(),
        ),
{
    let mut selected: Vec<Identity> = Vec::new();
    let mut i: usize = 0;
    while i < existing.len()
        invariant
            i <= existing.len(),
            identities_view(selected@) == erasures_among(
                identities_view(existing@),
                identities_view(remove@),
                i as nat,
            ),
        decreases existing.len() - i,
    {
        let ghost before = selected@;
        let ghost all = identities_view(remove@);
        assert(identities_view(existing@)[i as int] == existing@[i as int]@);
        assert(all.take(all.len() as int) =~= all);
        if identity_among(remove, remove.len(), &existing[i]) {
            selected.push(existing[i].clone());
            proof {
                assert(identities_view(selected@) =~= identities_view(before).push(
                    existing@[i as int]@,
                ));
            }
        }
        i += 1;
    }
    selected
}

/// Selects the destinations that a reconciliation writes an index to: those of
/// `add` that are not in `existing`, each once, in the order of `add`.
pub fn select_insertions(add: &[Identity], existing: &[Identity]) -> (r: Vec<Identity>)
    ensures
        identities_view(r@) == insertions_among(
            identities_view(add@),
            identities_view(existing@),
            add@.len(),
        ),
{
    let mut selected: Vec<Identity> = Vec::new();
    let mut i: usize = 0;
    while i < add.len()
        invariant
            i <= add.len(),
            identities_view(selected@) == insertions_among(
                identities_view(add@),
                identities_view(existing@),
                i as nat,
            ),
        decreases add.len() - i,
    {
        let ghost before = selected@;
        let ghost all = identities_view(existing@);
        assert(identities_view(add@)[i as int] == add@[i as int]@);
        assert(all.take(all.len() as int) =~= all);
        if !identity_among(existing, existing.len(), &add[i]) && !identity_among(add, i, &add[i]) {
            selected.push(add[i].clone());
            proof {
                assert(identities_view(selected@) =~= identities_view(before).push(add@[i as int]@));
            }
        }
        i += 1;
    }
    selected
}

/// Reconciles the index of `source` under `link_tag` as [`update_index`] does,
/// and returns the addresses of the edges deleted and those of the edges
/// written apart from one another.
pub fn reconcile_index<T>(
    store: &mut Store<T>,
    source_entry_type: &str,
    source: &Identity,
    dest_entry_type: &str,
    link_tag: &str,
    link_tag_reciprocal: &str,
    add_dest_addresses: &[Identity],
    remove_dest_addresses: &[Identity],
) -> (r: Result<
    (Vec<Result<Address, DataIntegrityError>>, Vec<Result<Address, DataIntegrityError>>),
    DataIntegrityError,
>)
    ensures
        final(store)@ == old(store)@.after_update_index(
            anchor_address(source_entry_type@, source@),
            dest_entry_type@,
            link_tag@,
            link_tag_reciprocal@,
            identities_view(add_dest_addresses@),
            identities_view(remove_dest_addresses@),
        ),
        match (
            r,
            old(store)@.indexed(anchor_address(source_entry_type@, source@), link_tag@),
        ) {
            (Ok(changed), Ok(existing)) => {
                let anchor = anchor_address(source_entry_type@, source@);
                let add = identities_view(add_dest_addresses@);
                let remove = identities_view(remove_dest_addresses@);
                &&& all_ok(changed.0@)
                &&& all_ok(changed.1@)
                &&& edge_results_view(changed.0@) == old(store)@.erased_edges(
                    anchor,
                    dest_entry_type@,
                    link_tag@,
                    link_tag_reciprocal@,
                    existing,
                    remove,
                    existing.len(),
                )
                &&& edge_results_view(changed.1@) == old(store)@.erased(
                    anchor,
                    dest_entry_type@,
                    link_tag@,
                    link_tag_reciprocal@,
                    existing,
                    remove,
                    existing.len(),
                ).inserted_edges(
                    anchor,
                    dest_entry_type@,
                    link_tag@,
                    link_tag_reciprocal@,
                    add,
                    existing,
                    add.len(),
                )
            },
            (Err(e), Err(f)) => e == f,
            _ => false,
        },
{
    let ghost anchor = anchor_address(source_entry_type@, source@);
    let ghost add = identities_view(add_dest_addresses@);
    let ghost remove = identities_view(remove_dest_addresses@);
    let ghost read = store@.index(anchor, link_tag@);
    let found = match read_index(store, source_entry_type, source, link_tag) {
        Ok(found) => found,
        Err(e) => {
            return Err(e);
        },
    };
    let mut existing: Vec<Identity> = Vec::new();
    let mut i: usize = 0;
    while i < found.len()
        invariant
            i <= found.len(),
            store@ == old(store)@,
            read == old(store)@.index(anchor_address(source_entry_type@, source@), link_tag@),
            read.len() == found.len(),
            identity_results_view(found@) == read,
            first_failure(read, i as nat) is None,
            identities_view(existing@) == successes(read, i as nat),
        decreases found.len() - i,
    {
        let ghost before = existing@;
        assert(read[i as int] == identity_result_view(found@[i as int]));
        match &found[i] {
            Ok(identity) => {
                existing.push(identity.clone());
                proof {
                    assert(identities_view(existing@) =~= identities_view(before).push(identity@));
                }
            },
            Err(e) => {
                proof {
                    assert(first_failure(read, (i + 1) as nat) == Some(*e));
                    lemma_first_failure_stays(read, (i + 1) as nat, read.len());
                }
                return Err(*e);
            },
        }
        i += 1;
    }
    let ghost linked = identities_view(existing@);
    let mut changed: Vec<Result<Address, DataIntegrityError>> = Vec::new();
    let mut i: usize = 0;
    while i < existing.len()
        invariant
            i <= existing.len(),
            linked == identities_view(existing@),
            remove == identities_view(remove_dest_addresses@),
            anchor == anchor_address(source_entry_type@, source@),
            store@ == old(store)@.erased(
                anchor,
                dest_entry_type@,
                link_tag@,
                link_tag_reciprocal@,
                linked,
                remove,
                i as nat,
            ),
            all_ok(changed@),
            edge_results_view(changed@) == old(store)@.erased_edges(
                anchor,
                dest_entry_type@,
                link_tag@,
                link_tag_reciprocal@,
                linked,
                remove,
                i as nat,
            ),
        decreases existing.len() - i,
    {
        let ghost before = changed@;
        assert(linked[i as int] == existing@[i as int]@);
        assert(remove.take(remove.len() as int) =~= remove);
        if identity_among(remove_dest_addresses, remove_dest_addresses.len(), &existing[i]) {
            let mut deleted = match delete_index(
                store,
                source_entry_type,
                source,
                dest_entry_type,
                &existing[i],
                link_tag,
                link_tag_reciprocal,
            ) {
                Ok(deleted) => deleted,
                Err(e) => {
                    return Err(e);
                },
            };
            let ghost ids = edge_results_view(deleted@);
            changed.append(&mut deleted);
            proof {
                assert(edge_results_view(changed@) =~= edge_results_view(before) + ids);
            }
        }
        i += 1;
    }
    let ghost erased = store@;
    let mut created: Vec<Result<Address, DataIntegrityError>> = Vec::new();
    let mut i: usize = 0;
    while i < add_dest_addresses.len()
        invariant
            i <= add_dest_addresses.len(),
            linked == identities_view(existing@),
            add == identities_view(add_dest_addresses@),
            anchor == anchor_address(source_entry_type@, source@),
            store@ == erased.inserted(
                anchor,
                dest_entry_type@,
                link_tag@,
                link_tag_reciprocal@,
                add,
                linked,
                i as nat,
            ),
            all_ok(created@),
            edge_results_view(created@) == erased.inserted_edges(
                anchor,
                dest_entry_type@,
                link_tag@,
                link_tag_reciprocal@,
                add,
                linked,
                i as nat,
            ),
        decreases add_dest_addresses.len() - i,
    {
        let ghost before = created@;
        assert(add[i as int] == add_dest_addresses@[i as int]@);
        assert(linked.take(linked.len() as int) =~= linked);
        if !identity_among(existing.as_slice(), existing.len(), &add_dest_addresses[i])
            && !identity_among(add_dest_addresses, i, &add_dest_addresses[i]) {
            let edges = match create_index(
                store,
                source_entry_type,
                source,
                dest_entry_type,
                &add_dest_addresses[i],
                link_tag,
                link_tag_reciprocal,
            ) {
                Ok(edges) => edges,
                Err(e) => {
                    return Err(e);
                },
            };
            let mut written = wrap_edges(edges);
            let ghost ids = edge_results_view(written@);
            created.append(&mut written);
            proof {
                assert(edge_results_view(created@) =~= edge_results_view(before) + ids);
            }
        }
        i += 1;
    }
    Ok((changed, created))
}

/// Reconciles the index of `source` under `link_tag` with what is wanted.
///
/// The destinations that are linked now are read first. Then the index to each
/// of them that is in `remove_dest_addresses` is deleted, in both directions.
/// Then an index is written, in both directions, to each destination in
/// `add_dest_addresses` that was not linked when the call began; one that occurs
/// twice is linked once. To replace one destination by another, name the old
/// one to be removed and the new one to be added.
///
/// Returns the addresses of the edges deleted, then those of the edges written.
/// Fails, changing nothing, where a link of the index leads to no anchor of an
/// identity: with the failure of the first such link.
pub fn update_index<T>(
    store: &mut Store<T>,
    source_entry_type: &str,
    source: &Identity,
    dest_entry_type: &str,
    link_tag: &str,
    link_tag_reciprocal: &str,
    add_dest_addresses: &[Identity],
    remove_dest_addresses: &[Identity],
) -> (r: Result<Vec<Result<Address, DataIntegrityError>>, DataIntegrityError>)
    ensures
        final(store)@ == old(store)@.after_update_index(
            anchor_address(source_entry_type@, source@),
            dest_entry_type@,
            link_tag@,
            link_tag_reciprocal@,
            identities_view(add_dest_addresses@),
            identities_view(remove_dest_addresses@),
        ),
        match (
            r,
            old(store)@.changed_by_update_index(
                anchor_address(source_entry_type@, source@),
                dest_entry_type@,
                link_tag@,
                link_tag_reciprocal@,
                identities_view(add_dest_addresses@),
                identities_view(remove_dest_addresses@),
            ),
        ) {
            (Ok(changed), Ok(edges)) => all_ok(changed@) && edge_results_view(changed@) == edges,
            (Err(e), Err(f)) => e == f,
            _ => false,
        },
{
    match reconcile_index(
        store,
        source_entry_type,
        source,
        dest_entry_type,
        link_tag,
        link_tag_reciprocal,
        add_dest_addresses,
        remove_dest_addresses,
    ) {
        Ok((mut changed, mut created)) => {
            let ghost edges = edge_results_view(changed@) + edge_results_view(created@);
            changed.append(&mut created);
            proof {
                assert(edge_results_view(changed@) =~= edges);
            }
            Ok(changed)
        },
        Err(e) => Err(e),
    }
}

/// Reports each of the edges as one that was written or deleted without failure.
fn wrap_edges(edges: Vec<Address>) -> (r: Vec<Result<Address, DataIntegrityError>>)
    ensures
        all_ok(r@),
        edge_results_view(r@) == addresses_view(edges@),
{
    let mut results: Vec<Result<Address, DataIntegrityError>> = Vec::new();
    let mut i: usize = 0;
    while i < edges.len()
        invariant
            i <= edges.len(),
            all_ok(results@),
            edge_results_view(results@) == addresses_view(edges@).take(i as int),
        decreases edges.len() - i,
    {
        let ghost before = results@;
        results.push(Ok(edges[i].clone()));
        proof {
            assert(edge_results_view(results@) =~= edge_results_view(before).push(edges@[i as int]@));
            assert(addresses_view(edges@).take(i + 1) =~= addresses_view(edges@).take(
                i as int,
            ).push(edges@[i as int]@));
        }
        i += 1;
    }
    proof {
        assert(addresses_view(edges@).take(i as int) =~= addresses_view(edges@));
    }
    results
}

impl<T> StoreState<T> {
    /// After an index was written between two identities, each of them is found
    /// in the index of the other: the destination under the label, and the
    /// source under the reciprocal label.
    pub proof fn lemma_index_is_reciprocal(
        self,
        source_type: Seq<char>,
        source: Qualified,
        dest_type: Seq<char>,
        dest: Qualified,
        label: Seq<char>,
        reciprocal: Seq<char>,
    )
        requires
            addressable(source_type, source),
            addressable(dest_type, dest),
        ensures
            ({
                let from = anchor_address(source_type, source);
                let to = anchor_address(dest_type, dest);
                let after = self.after_create_index(from, to, label, reciprocal);
                &&& after.index(from, label).contains(Ok(dest))
                &&& after.index(to, reciprocal).contains(Ok(source))
            }),
    {
        let from = anchor_address(source_type, source);
        let to = anchor_address(dest_type, dest);
        let after = self.after_create_index(from, to, label, reciprocal);
        let n = self.edges.len() as int;
        lemma_anchor_round_trip(source_type, source);
        lemma_anchor_round_trip(dest_type, dest);
        let first = self.mint(from);
        let second = first.mint(to);
        assert(first.minted(from)) by {
            if !self.minted(from) {
                assert(first.anchors[self.anchors.len() as int] == from);
            }
        }
        assert(second.minted(to)) by {
            if !first.minted(to) {
                assert(second.anchors[first.anchors.len() as int] == to);
            }
        }
        first.lemma_operations_precede(EnvelopeState { identity: None, payload: arbitrary() }, to, to, label);
        assert(second.minted(from));
        assert(after.anchors == second.anchors);
        assert(after.minted(from) && after.minted(to));
        assert(after.edges[n] == EdgeState { from, to, label, live: true });
        assert(after.edges[n + 1] == EdgeState { from: to, to: from, label: reciprocal, live: true });
        lemma_link_listed(after.edges, after.edges.len(), from, label, n);
        let k = choose|k: int|
            0 <= k < after.links(from, label).len() && #[trigger] after.links(from, label)[k] == (
                serial_address(EDGE_KIND, n as u64),
                to,
            );
        assert(after.index(from, label)[k] == Ok::<Qualified, DataIntegrityError>(dest));
        lemma_link_listed(after.edges, after.edges.len(), to, reciprocal, n + 1);
        let m = choose|m: int|
            0 <= m < after.links(to, reciprocal).len() && #[trigger] after.links(to, reciprocal)[m]
                == (serial_address(EDGE_KIND, (n + 1) as u64), from);
        assert(after.index(to, reciprocal)[m] == Ok::<Qualified, DataIntegrityError>(source));
    }
}

} // verus!
