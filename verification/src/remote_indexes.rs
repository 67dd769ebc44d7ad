//! Indexes that span partitions.
//!
//! Two partitions share no transaction. A relation between a record of one and
//! a record of another is kept as one index in each of them, and the index of
//! the other side is changed by a request: the receiving cell reconciles its own
//! index, rooted at the record of the requester, and answers with the edges it
//! deleted and wrote. What one side applied is never taken back when the other
//! side fails; the failure is reported instead.
use crate::address::{anchor_address, Address, Identity};
use crate::error::DataIntegrityError;
use crate::local_indexes::{
    all_ok, edge_results_view, first_failure, identities_view, identity_result_view,
    identity_results_view, lemma_first_failure_stays, read_index, reconcile_index, successes,
};
use crate::records::Qualified;
use crate::store::{Store, StoreState};
use vstd::prelude::*;

verus! {

/// What one partition asks of another: to link `remote_entry`, a record of the
/// asking side, to each of `target_entries`, and to unlink it from each of
/// `removed_entries`.
#[derive(Debug, PartialEq)]
pub struct RemoteEntryLinkRequest {
    pub remote_entry: Identity,
    pub target_entries: Vec<Identity>,
    pub removed_entries: Vec<Identity>,
}

/// The answer to a [`RemoteEntryLinkRequest`]: the addresses of the edges that
/// were written and of those that were deleted.
#[derive(Debug, PartialEq)]
pub struct RemoteEntryLinkResponse {
    pub indexes_created: Vec<Result<Address, DataIntegrityError>>,
    pub indexes_removed: Vec<Result<Address, DataIntegrityError>>,
}

/// One index that a cell keeps on behalf of other partitions, under the name by
/// which they ask for it.
#[derive(Debug, PartialEq)]
pub struct IndexEndpoint {
    pub fn_name: String,
    pub remote_entry_type: String,
    pub local_entry_type: String,
    pub link_tag: String,
    pub link_tag_reciprocal: String,
}

/// A partition as others reach it: its name, its store and the indexes it keeps
/// for them.
pub struct Cell<T> {
    pub zome_name: String,
    pub store: Store<T>,
    pub endpoints: Vec<IndexEndpoint>,
}

/// The value of a [`RemoteEntryLinkRequest`].
pub struct RequestState {
    pub remote_entry: Qualified,
    pub target_entries: Seq<Qualified>,
    pub removed_entries: Seq<Qualified>,
}

/// The value of a [`RemoteEntryLinkResponse`].
pub struct ResponseState {
    pub indexes_created: Seq<Seq<u8>>,
    pub indexes_removed: Seq<Seq<u8>>,
}

/// The value of an [`IndexEndpoint`].
pub struct EndpointState {
    pub fn_name: Seq<char>,
    pub remote_entry_type: Seq<char>,
    pub local_entry_type: Seq<char>,
    pub link_tag: Seq<char>,
    pub link_tag_reciprocal: Seq<char>,
}

/// The value of a [`Cell`].
pub struct CellState<T> {
    pub zome_name: Seq<char>,
    pub store: StoreState<T>,
    pub endpoints: Seq<EndpointState>,
}

impl View for RemoteEntryLinkRequest {
    type V = RequestState;

    open spec fn view(&self) -> RequestState {
        RequestState {
            remote_entry: self.remote_entry@,
            target_entries: identities_view(self.target_entries@),
            removed_entries: identities_view(self.removed_entries@),
        }
    }
}

impl View for RemoteEntryLinkResponse {
    type V = ResponseState;

    open spec fn view(&self) -> ResponseState {
        ResponseState {
            indexes_created: edge_results_view(self.indexes_created@),
            indexes_removed: edge_results_view(self.indexes_removed@),
        }
    }
}

impl View for IndexEndpoint {
    type V = EndpointState;

    open spec fn view(&self) -> EndpointState {
        EndpointState {
            fn_name: self.fn_name@,
            remote_entry_type: self.remote_entry_type@,
            local_entry_type: self.local_entry_type@,
            link_tag: self.link_tag@,
            link_tag_reciprocal: self.link_tag_reciprocal@,
        }
    }
}

impl<T> View for Cell<T> {
    type V = CellState<T>;

    open spec fn view(&self) -> CellState<T> {
        CellState {
            zome_name: self.zome_name@,
            store: self.store@,
            endpoints: self.endpoints@.map_values(|e: IndexEndpoint| e@),
        }
    }
}

/// The values of a list of cells.
pub open spec fn cells_view<T>(cells: Seq<Cell<T>>) -> Seq<CellState<T>> {
    cells.map_values(|c: Cell<T>| c@)
}

/// Whether what a cell answered is what was to be answered.
pub open spec fn answers(
    answered: Result<RemoteEntryLinkResponse, DataIntegrityError>,
    expected: Result<ResponseState, DataIntegrityError>,
) -> bool {
    match (answered, expected) {
        (Ok(response), Ok(state)) => {
            &&& response@ == state
            &&& all_ok(response.indexes_created@)
            &&& all_ok(response.indexes_removed@)
        },
        (Err(e), Err(f)) => e == f,
        _ => false,
    }
}

/// The position of the first of the first `n` names that is `name`.
pub open spec fn first_named(names: Seq<Seq<char>>, name: Seq<char>, n: nat) -> Option<int>
    decreases n,
{
    if n == 0 {
        None
    } else {
        match first_named(names, name, (n - 1) as nat) {
            Some(i) => Some(i),
            None => if names[n - 1] == name {
                Some(n - 1)
            } else {
                None
            },
        }
    }
}

/// Once a name was found, looking further finds the same one.
pub proof fn lemma_first_named_stays(names: Seq<Seq<char>>, name: Seq<char>, n: nat, m: nat)
    requires
        n <= m,
        first_named(names, name, n) is Some,
    ensures
        first_named(names, name, m) == first_named(names, name, n),
    decreases m,
{
    if n < m {
        lemma_first_named_stays(names, name, n, (m - 1) as nat);
    }
}

impl<T> StoreState<T> {
    /// What a store answers to the request to reconcile the index rooted at
    /// `source`: the edges it writes and those it deletes, or the failure to
    /// read the index.
    pub open spec fn synced(
        self,
        source: Seq<u8>,
        dest_type: Seq<char>,
        label: Seq<char>,
        reciprocal: Seq<char>,
        add: Seq<Qualified>,
        remove: Seq<Qualified>,
    ) -> Result<ResponseState, DataIntegrityError> {
        match self.indexed(source, label) {
            Ok(existing) => Ok(
                ResponseState {
                    indexes_created: self.erased(
                        source,
                        dest_type,
                        label,
                        reciprocal,
                        existing,
                        remove,
                        existing.len(),
                    ).inserted_edges(source, dest_type, label, reciprocal, add, existing, add.len()),
                    indexes_removed: self.erased_edges(
                        source,
                        dest_type,
                        label,
                        reciprocal,
                        existing,
                        remove,
                        existing.len(),
                    ),
                },
            ),
            Err(e) => Err(e),
        }
    }
}

impl EndpointState {
    /// The address of the anchor that the endpoint's index of `remote_entry` is
    /// rooted at.
    pub open spec fn root(self, remote_entry: Qualified) -> Seq<u8> {
        anchor_address(self.remote_entry_type, remote_entry)
    }
}

impl<T> CellState<T> {
    /// The names by which the cell's indexes are asked for.
    pub open spec fn endpoint_names(self) -> Seq<Seq<char>> {
        self.endpoints.map_values(|e: EndpointState| e.fn_name)
    }

    /// The index that is asked for by `fn_name`, if the cell keeps one.
    pub open spec fn endpoint(self, fn_name: Seq<char>) -> Option<EndpointState> {
        match first_named(self.endpoint_names(), fn_name, self.endpoints.len()) {
            Some(i) => Some(self.endpoints[i]),
            None => None,
        }
    }

    /// The cell after it received `request` for the index named `fn_name`.
    pub open spec fn after_receive(self, fn_name: Seq<char>, request: RequestState) -> CellState<T> {
        match self.endpoint(fn_name) {
            Some(e) => CellState {
                store: self.store.after_update_index(
                    e.root(request.remote_entry),
                    e.local_entry_type,
                    e.link_tag,
                    e.link_tag_reciprocal,
                    request.target_entries,
                    request.removed_entries,
                ),
                ..self
            },
            None => self,
        }
    }

    /// What the cell answers to `request` for the index named `fn_name`.
    pub open spec fn answer(self, fn_name: Seq<char>, request: RequestState) -> Result<
        ResponseState,
        DataIntegrityError,
    > {
        match self.endpoint(fn_name) {
            Some(e) => self.store.synced(
                e.root(request.remote_entry),
                e.local_entry_type,
                e.link_tag,
                e.link_tag_reciprocal,
                request.target_entries,
                request.removed_entries,
            ),
            None => Err(DataIntegrityError::RemoteCallFailure),
        }
    }

    /// What the cell's index named `fn_name` holds for `remote_entry`.
    pub open spec fn held(self, fn_name: Seq<char>, remote_entry: Qualified) -> Result<
        Seq<Qualified>,
        DataIntegrityError,
    > {
        match self.endpoint(fn_name) {
            Some(e) => self.store.indexed(e.root(remote_entry), e.link_tag),
            None => Err(DataIntegrityError::RemoteCallFailure),
        }
    }
}

/// Reconciles this store's index of a record of another partition: `source` is
/// linked to each of `dest_addresses` that it is not linked to yet, and
/// unlinked from each of `removed_addresses`, as [`reconcile_index`] does for a
/// record of this partition. Answers with the edges written and deleted.
/// Fails, changing nothing, where the index cannot be read.
pub fn sync_remote_index<T>(
    store: &mut Store<T>,
    source_entry_type: &str,
    source: &Identity,
    dest_entry_type: &str,
    dest_addresses: &[Identity],
    removed_addresses: &[Identity],
    link_tag: &str,
    link_tag_reciprocal: &str,
) -> (r: Result<RemoteEntryLinkResponse, DataIntegrityError>)
    ensures
        final(store)@ == old(store)@.after_update_index(
            anchor_address(source_entry_type@, source@),
            dest_entry_type@,
            link_tag@,
            link_tag_reciprocal@,
            identities_view(dest_addresses@),
            identities_view(removed_addresses@),
        ),
        answers(
            r,
            old(store)@.synced(
                anchor_address(source_entry_type@, source@),
                dest_entry_type@,
                link_tag@,
                link_tag_reciprocal@,
                identities_view(dest_addresses@),
                identities_view(removed_addresses@),
            ),
        ),
{
    match reconcile_index(
        store,
        source_entry_type,
        source,
        dest_entry_type,
        link_tag,
        link_tag_reciprocal,
        dest_addresses,
        removed_addresses,
    ) {
        Ok((removed, created)) => Ok(
            RemoteEntryLinkResponse { indexes_created: created, indexes_removed: removed },
        ),
        Err(e) => Err(e),
    }
}

impl<T> Cell<T> {
    /// Finds the index that is asked for by `fn_name`.
    pub fn find_endpoint(&self, fn_name: &str) -> (r: Option<usize>)
        ensures
            match r {
                Some(i) => i < self.endpoints@.len() && self@.endpoint(fn_name@) == Some(
                    self.endpoints@[i as int]@,
                ),
                None => self@.endpoint(fn_name@) is None,
            },
    {
        let wanted = fn_name.to_owned();
        let ghost names = self@.endpoint_names();
        let mut i: usize = 0;
        while i < self.endpoints.len()
            invariant
                i <= self.endpoints.len(),
                wanted@ == fn_name@,
                names == self@.endpoint_names(),
                first_named(names, fn_name@, i as nat) is None,
            decreases self.endpoints.len() - i,
        {
            assert(names[i as int] == self.endpoints@[i as int].fn_name@);
            if self.endpoints[i].fn_name == wanted {
                proof {
                    assert(first_named(names, fn_name@, (i + 1) as nat) == Some(i as int));
                    lemma_first_named_stays(names, fn_name@, (i + 1) as nat, names.len());
                }
                return Some(i);
            }
            i += 1;
        }
        None
    }

    /// Serves a request of another partition for the index named `fn_name`.
    /// Fails with `RemoteCallFailure` where the cell keeps no index of that
    /// name, and with the failure to read the index where it cannot be read;
    /// nothing changes then.
    pub fn receive(&mut self, fn_name: &str, request: &RemoteEntryLinkRequest) -> (r: Result<
        RemoteEntryLinkResponse,
        DataIntegrityError,
    >)
        ensures
            final(self)@ == old(self)@.after_receive(fn_name@, request@),
            answers(r, old(self)@.answer(fn_name@, request@)),
    {
        match self.find_endpoint(fn_name) {
            Some(i) => {
                let endpoint = &self.endpoints[i];
                sync_remote_index(
                    &mut self.store,
                    endpoint.remote_entry_type.as_str(),
                    &request.remote_entry,
                    endpoint.local_entry_type.as_str(),
                    request.target_entries.as_slice(),
                    request.removed_entries.as_slice(),
                    endpoint.link_tag.as_str(),
                    endpoint.link_tag_reciprocal.as_str(),
                )
            },
            None => Err(DataIntegrityError::RemoteCallFailure),
        }
    }

    /// Reads what the cell's index named `fn_name` holds for `address`: the
    /// identities that it is linked to. Fails with `RemoteCallFailure` where the
    /// cell keeps no index of that name, and with the failure of the first link
    /// that leads to no anchor of an identity.
    pub fn read(&self, fn_name: &str, address: &Identity) -> (r: Result<
        Vec<Identity>,
        DataIntegrityError,
    >)
        ensures
            match (r, self@.held(fn_name@, address@)) {
                (Ok(found), Ok(held)) => identities_view(found@) == held,
                (Err(e), Err(f)) => e == f,
                _ => false,
            },
    {
        match self.find_endpoint(fn_name) {
            Some(i) => {
                let endpoint = &self.endpoints[i];
                collect_identities(
                    &self.store,
                    endpoint.remote_entry_type.as_str(),
                    address,
                    endpoint.link_tag.as_str(),
                )
            },
            None => Err(DataIntegrityError::RemoteCallFailure),
        }
    }
}

/// Reads the identities that the index of `base_address` holds under
/// `link_tag`, and fails with the first failure among them.
pub fn collect_identities<T>(
    store: &Store<T>,
    base_entry_type: &str,
    base_address: &Identity,
    link_tag: &str,
) -> (r: Result<Vec<Identity>, DataIntegrityError>)
    ensures
        match (r, store@.indexed(anchor_address(base_entry_type@, base_address@), link_tag@)) {
            (Ok(found), Ok(held)) => identities_view(found@) == held,
            (Err(e), Err(f)) => e == f,
            _ => false,
        },
{
    let ghost read = store@.index(anchor_address(base_entry_type@, base_address@), link_tag@);
    let items = match read_index(store, base_entry_type, base_address, link_tag) {
        Ok(items) => items,
        Err(e) => {
            return Err(e);
        },
    };
    let mut found: Vec<Identity> = Vec::new();
    let mut i: usize = 0;
    while i < items.len()
        invariant
            i <= items.len(),
            read == store@.index(anchor_address(base_entry_type@, base_address@), link_tag@),
            read.len() == items.len(),
            identity_results_view(items@) == read,
            first_failure(read, i as nat) is None,
            identities_view(found@) == successes(read, i as nat),
        decreases items.len() - i,
    {
        let ghost before = found@;
        assert(read[i as int] == identity_result_view(items@[i as int]));
        match &items[i] {
            Ok(identity) => {
                found.push(identity.clone());
                proof {
                    assert(identities_view(found@) =~= identities_view(before).push(identity@));
                }
            },
            Err(e) => {
                proof {
                    assert(first_failure(read, (i + 1) as nat) == Some(*e));
                    lemma_first_failure_stays(read, (i + 1) as nat, read.len());
                }
                return Err(*e);
            },
        }
        i += 1;
    }
    Ok(found)
}

/// The value of the name of a cell, where local configuration gives one.
pub open spec fn name_view(name: Option<&str>) -> Option<Seq<char>> {
    match name {
        Some(n) => Some(n@),
        None => None,
    }
}

/// The names of the cells.
pub open spec fn cell_names<T>(cells: Seq<CellState<T>>) -> Seq<Seq<char>> {
    cells.map_values(|c: CellState<T>| c.zome_name)
}

/// The position of the cell that a call to `zome` reaches: the first of that
/// name. No cell is reached where configuration names none.
pub open spec fn reached<T>(cells: Seq<CellState<T>>, zome: Option<Seq<char>>) -> Option<int> {
    match zome {
        Some(name) => first_named(cell_names(cells), name, cells.len()),
        None => None,
    }
}

/// The cells after `request` was sent to the index `fn_name` of `zome`.
pub open spec fn after_call<T>(
    cells: Seq<CellState<T>>,
    zome: Option<Seq<char>>,
    fn_name: Seq<char>,
    request: RequestState,
) -> Seq<CellState<T>> {
    match reached(cells, zome) {
        Some(i) => cells.update(i, cells[i].after_receive(fn_name, request)),
        None => cells,
    }
}

/// The answer to `request`, sent to the index `fn_name` of `zome`.
pub open spec fn call_answer<T>(
    cells: Seq<CellState<T>>,
    zome: Option<Seq<char>>,
    fn_name: Seq<char>,
    request: RequestState,
) -> Result<ResponseState, DataIntegrityError> {
    match reached(cells, zome) {
        Some(i) => cells[i].answer(fn_name, request),
        None => Err(DataIntegrityError::RemoteCallFailure),
    }
}

/// The request to link `remote_entry` to `target`.
pub open spec fn link_request(remote_entry: Qualified, target: Qualified) -> RequestState {
    RequestState { remote_entry, target_entries: seq![target], removed_entries: seq![] }
}

/// The request to unlink `remote_entry` from `target`.
pub open spec fn unlink_request(remote_entry: Qualified, target: Qualified) -> RequestState {
    RequestState { remote_entry, target_entries: seq![], removed_entries: seq![target] }
}

/// The cells after an index was written on both sides: first at the origin,
/// then, where the origin answered, at the destination.
pub open spec fn after_create_foreign_index<T>(
    cells: Seq<CellState<T>>,
    origin_zome: Option<Seq<char>>,
    origin_fn: Seq<char>,
    source: Qualified,
    dest_zome: Option<Seq<char>>,
    dest_fn: Seq<char>,
    dest: Qualified,
) -> Seq<CellState<T>> {
    let first = after_call(cells, origin_zome, origin_fn, link_request(source, dest));
    if call_answer(cells, origin_zome, origin_fn, link_request(source, dest)) is Ok {
        after_call(first, dest_zome, dest_fn, link_request(dest, source))
    } else {
        first
    }
}

/// What writing an index on both sides returns: the answers of the two sides,
/// the failure of the origin, or `PartialIndexFailure` where the origin wrote
/// its side and the destination failed.
pub open spec fn create_foreign_index_answer<T>(
    cells: Seq<CellState<T>>,
    origin_zome: Option<Seq<char>>,
    origin_fn: Seq<char>,
    source: Qualified,
    dest_zome: Option<Seq<char>>,
    dest_fn: Seq<char>,
    dest: Qualified,
) -> Result<(ResponseState, ResponseState), DataIntegrityError> {
    match call_answer(cells, origin_zome, origin_fn, link_request(source, dest)) {
        Ok(first) => match call_answer(
            after_call(cells, origin_zome, origin_fn, link_request(source, dest)),
            dest_zome,
            dest_fn,
            link_request(dest, source),
        ) {
            Ok(second) => Ok((first, second)),
            Err(_) => Err(DataIntegrityError::PartialIndexFailure),
        },
        Err(e) => Err(e),
    }
}

/// Finds the cell that a call to `zome_name` reaches.
pub fn find_cell<T>(cells: &Vec<Cell<T>>, zome_name: Option<&str>) -> (r: Option<usize>)
    ensures
        match r {
            Some(i) => i < cells@.len() && reached(cells_view(cells@), name_view(zome_name))
                == Some(i as int),
            None => reached(cells_view(cells@), name_view(zome_name)) is None,
        },
{
    let name = match zome_name {
        Some(name) => name,
        None => {
            return None;
        },
    };
    let wanted = name.to_owned();
    let ghost names = cell_names(cells_view(cells@));
    let mut i: usize = 0;
    while i < cells.len()
        invariant
            i <= cells.len(),
            wanted@ == name@,
            name_view(zome_name) == Some(name@),
            names.len() == cells.len(),
            names == cell_names(cells_view(cells@)),
            first_named(names, name@, i as nat) is None,
        decreases cells.len() - i,
    {
        assert(names[i as int] == cells@[i as int].zome_name@);
        if cells[i].zome_name == wanted {
            proof {
                assert(first_named(names, name@, (i + 1) as nat) == Some(i as int));
                lemma_first_named_stays(names, name@, (i + 1) as nat, names.len());
            }
            return Some(i);
        }
        i += 1;
    }
    None
}

/// Sends `request` to the index `fn_name` of the cell named `zome_name`, and
/// returns its answer. Fails with `RemoteCallFailure`, changing nothing, where
/// local configuration names no cell, no cell has that name, or the cell keeps
/// no index of that name.
pub fn call_zome<T>(
    cells: &mut Vec<Cell<T>>,
    zome_name: Option<&str>,
    fn_name: &str,
    request: &RemoteEntryLinkRequest,
) -> (r: Result<RemoteEntryLinkResponse, DataIntegrityError>)
    ensures
        cells_view(final(cells)@) == after_call(
            cells_view(old(cells)@),
            name_view(zome_name),
            fn_name@,
            request@,
        ),
        answers(
            r,
            call_answer(cells_view(old(cells)@), name_view(zome_name), fn_name@, request@),
        ),
{
    match find_cell(cells, zome_name) {
        Some(i) => {
            let r = cells[i].receive(fn_name, request);
            proof {
                assert(cells_view(cells@) =~= after_call(
                    cells_view(old(cells)@),
                    name_view(zome_name),
                    fn_name@,
                    request@,
                ));
            }
            r
        },
        None => Err(DataIntegrityError::RemoteCallFailure),
    }
}

/// Makes the request to link or unlink `remote_entry` and `target`.
fn single_request(remote_entry: &Identity, target: &Identity, link: bool) -> (r:
    RemoteEntryLinkRequest)
    ensures
        r@ == if link {
            link_request(remote_entry@, target@)
        } else {
            unlink_request(remote_entry@, target@)
        },
{
    let mut one: Vec<Identity> = Vec::new();
    one.push(target.clone());
    let none: Vec<Identity> = Vec::new();
    proof {
        assert(identities_view(one@) =~= seq![target@]);
        assert(identities_view(none@) =~= Seq::<Qualified>::empty());
    }
    if link {
        RemoteEntryLinkRequest {
            remote_entry: remote_entry.clone(),
            target_entries: one,
            removed_entries: none,
        }
    } else {
        RemoteEntryLinkRequest {
            remote_entry: remote_entry.clone(),
            target_entries: none,
            removed_entries: one,
        }
    }
}

/// Writes an index between `source` and `dest` on both sides: the index of the
/// origin's cell is asked to link `source` to `dest`, then the index of the
/// destination's cell is asked to link `dest` to `source`. Returns the two
/// answers.
///
/// Fails with the origin's failure, changing nothing, where the origin cannot
/// be reached or cannot read its index. Fails with `PartialIndexFailure` where
/// the origin wrote its side and the destination failed: what the origin wrote
/// stays.
pub fn create_foreign_index<T>(
    cells: &mut Vec<Cell<T>>,
    origin_zome_name: Option<&str>,
    origin_fn_name: &str,
    source: &Identity,
    dest_zome_name: Option<&str>,
    dest_fn_name: &str,
    dest: &Identity,
) -> (r: Result<(RemoteEntryLinkResponse, RemoteEntryLinkResponse), DataIntegrityError>)
    ensures
        cells_view(final(cells)@) == after_create_foreign_index(
            cells_view(old(cells)@),
            name_view(origin_zome_name),
            origin_fn_name@,
            source@,
            name_view(dest_zome_name),
            dest_fn_name@,
            dest@,
        ),
        match (
            r,
            create_foreign_index_answer(
                cells_view(old(cells)@),
                name_view(origin_zome_name),
                origin_fn_name@,
                source@,
                name_view(dest_zome_name),
                dest_fn_name@,
                dest@,
            ),
        ) {
            (Ok(both), Ok(expected)) => both.0@ == expected.0 && both.1@ == expected.1,
            (Err(e), Err(f)) => e == f,
            _ => false,
        },
{
    let first = match call_zome(
        cells,
        origin_zome_name,
        origin_fn_name,
        &single_request(source, dest, true),
    ) {
        Ok(first) => first,
        Err(e) => {
            return Err(e);
        },
    };
    match call_zome(cells, dest_zome_name, dest_fn_name, &single_request(dest, source, true)) {
        Ok(second) => Ok((first, second)),
        Err(_) => Err(DataIntegrityError::PartialIndexFailure),
    }
}

/// What the index `fn_name` of the cell that a call to `zome` reaches holds for
/// `address`.
pub open spec fn foreign_index<T>(
    cells: Seq<CellState<T>>,
    zome: Option<Seq<char>>,
    fn_name: Seq<char>,
    address: Qualified,
) -> Result<Seq<Qualified>, DataIntegrityError> {
    match reached(cells, zome) {
        Some(i) => cells[i].held(fn_name, address),
        None => Err(DataIntegrityError::RemoteCallFailure),
    }
}

/// Reads what the index `fn_name` of the cell named `zome_name` holds for
/// `address`. Fails with `RemoteCallFailure` where the cell or its index cannot
/// be reached, and with the failure to read the index where it cannot be read.
pub fn read_foreign_index<T>(
    cells: &Vec<Cell<T>>,
    zome_name: Option<&str>,
    fn_name: &str,
    address: &Identity,
) -> (r: Result<Vec<Identity>, DataIntegrityError>)
    ensures
        match (r, foreign_index(cells_view(cells@), name_view(zome_name), fn_name@, address@)) {
            (Ok(found), Ok(held)) => identities_view(found@) == held,
            (Err(e), Err(f)) => e == f,
            _ => false,
        },
{
    match find_cell(cells, zome_name) {
        Some(i) => cells[i].read(fn_name, address),
        None => Err(DataIntegrityError::RemoteCallFailure),
    }
}

/// The values of a list of answers.
pub open spec fn responses_view(responses: Seq<RemoteEntryLinkResponse>) -> Seq<ResponseState> {
    responses.map_values(|r: RemoteEntryLinkResponse| r@)
}

/// The request that mirrors, at the side of `dest`, that `source` was linked to
/// it or unlinked from it.
pub open spec fn mirror_request(source: Qualified, dest: Qualified, link: bool) -> RequestState {
    if link {
        link_request(dest, source)
    } else {
        unlink_request(dest, source)
    }
}

/// The cells and the answers after the index `fn_name` of `zome` was asked, for
/// each of the first `n` of `dests` in turn, to mirror what happened to
/// `source`. After the first failure nothing more is asked, and there are no
/// answers.
pub open spec fn mirrored<T>(
    cells: Seq<CellState<T>>,
    zome: Option<Seq<char>>,
    fn_name: Seq<char>,
    source: Qualified,
    dests: Seq<Qualified>,
    link: bool,
    n: nat,
) -> (Seq<CellState<T>>, Option<Seq<ResponseState>>)
    decreases n,
{
    if n == 0 {
        (cells, Some(seq![]))
    } else {
        let (before, answers) = mirrored(cells, zome, fn_name, source, dests, link, (n - 1) as nat);
        match answers {
            Some(given) => {
                let request = mirror_request(source, dests[n - 1], link);
                let after = after_call(before, zome, fn_name, request);
                match call_answer(before, zome, fn_name, request) {
                    Ok(answer) => (after, Some(given.push(answer))),
                    Err(_) => (after, None),
                }
            },
            None => (before, None),
        }
    }
}

/// The cells after an index was reconciled on both sides, and what the
/// reconciliation returns: the answer of the origin followed by those of the
/// destinations; the failure of the origin, where nothing changed; or
/// `PartialIndexFailure` where a destination failed after the origin had
/// reconciled its side.
pub open spec fn update_foreign_index_outcome<T>(
    cells: Seq<CellState<T>>,
    origin_zome: Option<Seq<char>>,
    origin_fn: Seq<char>,
    source: Qualified,
    dest_zome: Option<Seq<char>>,
    dest_fn: Seq<char>,
    add: Seq<Qualified>,
    remove: Seq<Qualified>,
) -> (Seq<CellState<T>>, Result<Seq<ResponseState>, DataIntegrityError>) {
    let request = RequestState { remote_entry: source, target_entries: add, removed_entries: remove };
    let first = after_call(cells, origin_zome, origin_fn, request);
    match call_answer(cells, origin_zome, origin_fn, request) {
        Ok(answer) => {
            let (second, linked) = mirrored(first, dest_zome, dest_fn, source, add, true, add.len());
            match linked {
                Some(links) => {
                    let (third, unlinked) = mirrored(
                        second,
                        dest_zome,
                        dest_fn,
                        source,
                        remove,
                        false,
                        remove.len(),
                    );
                    match unlinked {
                        Some(unlinks) => (third, Ok(seq![answer] + links + unlinks)),
                        None => (third, Err(DataIntegrityError::PartialIndexFailure)),
                    }
                },
                None => (second, Err(DataIntegrityError::PartialIndexFailure)),
            }
        },
        Err(e) => (first, Err(e)),
    }
}

/// Asks the index `fn_name` of the cell named `zome_name`, for each of `dests`
/// in turn, to mirror that `source` was linked to it or unlinked from it.
/// Returns the answers, or `None` after the first failure.
pub fn mirror_each<T>(
    cells: &mut Vec<Cell<T>>,
    zome_name: Option<&str>,
    fn_name: &str,
    source: &Identity,
    dests: &[Identity],
    link: bool,
) -> (r: Option<Vec<RemoteEntryLinkResponse>>)
    ensures
        ({
            let outcome = mirrored(
                cells_view(old(cells)@),
                name_view(zome_name),
                fn_name@,
                source@,
                identities_view(dests@),
                link,
                dests@.len(),
            );
            &&& cells_view(final(cells)@) == outcome.0
            &&& match (r, outcome.1) {
                (Some(given), Some(answers)) => responses_view(given@) == answers,
                (None, None) => true,
                _ => false,
            }
        }),
{
    let mut given: Vec<RemoteEntryLinkResponse> = Vec::new();
    let mut i: usize = 0;
    while i < dests.len()
        invariant
            i <= dests.len(),
            ({
                let outcome = mirrored(
                    cells_view(old(cells)@),
                    name_view(zome_name),
                    fn_name@,
                    source@,
                    identities_view(dests@),
                    link,
                    i as nat,
                );
                &&& cells_view(cells@) == outcome.0
                &&& outcome.1 == Some(responses_view(given@))
            }),
        decreases dests.len() - i,
    {
        let ghost before = given@;
        assert(identities_view(dests@)[i as int] == dests@[i as int]@);
        let request = if link {
            single_request(&dests[i], source, true)
        } else {
            single_request(&dests[i], source, false)
        };
        match call_zome(cells, zome_name, fn_name, &request) {
            Ok(answer) => {
                given.push(answer);
                proof {
                    assert(responses_view(given@) =~= responses_view(before).push(answer@));
                }
            },
            Err(_) => {
                proof {
                    lemma_mirrored_stays_failed(
                        cells_view(old(cells)@),
                        name_view(zome_name),
                        fn_name@,
                        source@,
                        identities_view(dests@),
                        link,
                        (i + 1) as nat,
                        dests@.len(),
                    );
                }
                return None;
            },
        }
        i += 1;
    }
    Some(given)
}

/// After a failure nothing more is asked: cells and answers stay as they are.
pub proof fn lemma_mirrored_stays_failed<T>(
    cells: Seq<CellState<T>>,
    zome: Option<Seq<char>>,
    fn_name: Seq<char>,
    source: Qualified,
    dests: Seq<Qualified>,
    link: bool,
    n: nat,
    m: nat,
)
    requires
        n <= m,
        mirrored(cells, zome, fn_name, source, dests, link, n).1 is None,
    ensures
        mirrored(cells, zome, fn_name, source, dests, link, m) == mirrored(
            cells,
            zome,
            fn_name,
            source,
            dests,
            link,
            n,
        ),
    decreases m,
{
    if n < m {
        lemma_mirrored_stays_failed(cells, zome, fn_name, source, dests, link, n, (m - 1) as nat);
    }
}

/// Reconciles an index between `source` and records of another cell on both
/// sides. The origin's index is asked to link `source` to each of
/// `dest_addresses` and to unlink it from each of `remove_addresses`. Then the
/// destination's index is asked, for each of `dest_addresses`, to link it to
/// `source`, and for each of `remove_addresses` to unlink it from `source`.
/// Returns the answer of the origin followed by those of the destination.
///
/// Fails with the origin's failure, changing nothing, where the origin cannot
/// be reached or cannot read its index. Fails with `PartialIndexFailure` at the
/// first failure of the destination: what was applied before it stays, and
/// nothing more is asked.
pub fn update_foreign_index<T>(
    cells: &mut Vec<Cell<T>>,
    origin_zome_name: Option<&str>,
    origin_fn_name: &str,
    source: &Identity,
    dest_zome_name: Option<&str>,
    dest_fn_name: &str,
    dest_addresses: &[Identity],
    remove_addresses: &[Identity],
) -> (r: Result<Vec<RemoteEntryLinkResponse>, DataIntegrityError>)
    ensures
        ({
            let outcome = update_foreign_index_outcome(
                cells_view(old(cells)@),
                name_view(origin_zome_name),
                origin_fn_name@,
                source@,
                name_view(dest_zome_name),
                dest_fn_name@,
                identities_view(dest_addresses@),
                identities_view(remove_addresses@),
            );
            &&& cells_view(final(cells)@) == outcome.0
            &&& match (r, outcome.1) {
                (Ok(given), Ok(answers)) => responses_view(given@) == answers,
                (Err(e), Err(f)) => e == f,
                _ => false,
            }
        }),
{
    let request = RemoteEntryLinkRequest {
        remote_entry: source.clone(),
        target_entries: clone_identities(dest_addresses),
        removed_entries: clone_identities(remove_addresses),
    };
    let first = match call_zome(cells, origin_zome_name, origin_fn_name, &request) {
        Ok(first) => first,
        Err(e) => {
            return Err(e);
        },
    };
    let mut given: Vec<RemoteEntryLinkResponse> = Vec::new();
    given.push(first);
    let mut links = match mirror_each(
        cells,
        dest_zome_name,
        dest_fn_name,
        source,
        dest_addresses,
        true,
    ) {
        Some(links) => links,
        None => {
            return Err(DataIntegrityError::PartialIndexFailure);
        },
    };
    let mut unlinks = match mirror_each(
        cells,
        dest_zome_name,
        dest_fn_name,
        source,
        remove_addresses,
        false,
    ) {
        Some(unlinks) => unlinks,
        None => {
            return Err(DataIntegrityError::PartialIndexFailure);
        },
    };
    let ghost answers = seq![first@] + responses_view(links@) + responses_view(unlinks@);
    given.append(&mut links);
    given.append(&mut unlinks);
    proof {
        assert(responses_view(given@) =~= answers);
    }
    Ok(given)
}

/// Copies a list of identities.
pub fn clone_identities(identities: &[Identity]) -> (r: Vec<Identity>)
    ensures
        identities_view(r@) == identities_view(identities@),
{
    let mut copy: Vec<Identity> = Vec::new();
    let mut i: usize = 0;
    while i < identities.len()
        invariant
            i <= identities.len(),
            identities_view(copy@) == identities_view(identities@).take(i as int),
        decreases identities.len() - i,
    {
        let ghost before = copy@;
        copy.push(identities[i].clone());
        proof {
            assert(identities_view(copy@) =~= identities_view(before).push(identities@[i as int]@));
            assert(identities_view(identities@).take(i + 1) =~= identities_view(
                identities@,
            ).take(i as int).push(identities@[i as int]@));
        }
        i += 1;
    }
    proof {
        assert(identities_view(identities@).take(i as int) =~= identities_view(identities@));
    }
    copy
}

} // verus!
