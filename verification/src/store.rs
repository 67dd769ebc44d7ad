//! The store that the engine works on: immutable content in the order it was
//! written, the anchors that were minted, and the labelled edges between addresses.
//!
//! Nothing is ever removed. Deleting content leaves a tombstone in its place, and
//! deleting an edge marks it dead, so every address and every edge identifier
//! stays meaningful for as long as the store exists.
use crate::address::{address_serial, serial_address, Address, Partition, CONTENT_KIND, EDGE_KIND};
use crate::error::DataIntegrityError;
use vstd::prelude::*;

verus! {

/// What is written as the content of one revision: the payload, and the address
/// of the record's first revision unless this is that first revision.
pub struct Envelope<T> {
    pub identity: Option<Address>,
    pub payload: T,
}

/// One live edge as a query returns it: the edge's own address and its target.
#[derive(Debug, PartialEq, Eq)]
pub struct Link {
    pub id: Address,
    pub target: Address,
}

struct Slot<T> {
    envelope: Envelope<T>,
    tombstoned: bool,
}

struct Edge {
    from: Address,
    to: Address,
    label: String,
    live: bool,
}

/// A content-addressed store with a link graph, belonging to one partition.
pub struct Store<T> {
    partition: Partition,
    slots: Vec<Slot<T>>,
    anchors: Vec<Address>,
    edges: Vec<Edge>,
}

/// The value of an [`Envelope`].
pub struct EnvelopeState<T> {
    pub identity: Option<Seq<u8>>,
    pub payload: T,
}

/// What the store holds at one content address.
pub struct SlotState<T> {
    pub envelope: EnvelopeState<T>,
    pub tombstoned: bool,
}

/// One edge of the store, live or deleted.
pub struct EdgeState {
    pub from: Seq<u8>,
    pub to: Seq<u8>,
    pub label: Seq<char>,
    pub live: bool,
}

/// The value of a [`Store`]: all that its operations depend on.
///
/// The content numbered `i` is `slots[i]`, and that number is also its logical
/// timestamp: what was written later has the greater number. The edge numbered
/// `i` is `edges[i]`.
pub struct StoreState<T> {
    pub partition: Seq<u8>,
    pub slots: Seq<SlotState<T>>,
    pub anchors: Seq<Seq<u8>>,
    pub edges: Seq<EdgeState>,
}

/// The value of an optional address.
pub open spec fn option_view(address: Option<Address>) -> Option<Seq<u8>> {
    match address {
        Some(a) => Some(a@),
        None => None,
    }
}

impl<T> View for Envelope<T> {
    type V = EnvelopeState<T>;

    open spec fn view(&self) -> EnvelopeState<T> {
        EnvelopeState { identity: option_view(self.identity), payload: self.payload }
    }
}

impl View for Link {
    type V = (Seq<u8>, Seq<u8>);

    open spec fn view(&self) -> (Seq<u8>, Seq<u8>) {
        (self.id@, self.target@)
    }
}

impl<T> View for Slot<T> {
    type V = SlotState<T>;

    closed spec fn view(&self) -> SlotState<T> {
        SlotState { envelope: self.envelope@, tombstoned: self.tombstoned }
    }
}

impl View for Edge {
    type V = EdgeState;

    closed spec fn view(&self) -> EdgeState {
        EdgeState { from: self.from@, to: self.to@, label: self.label@, live: self.live }
    }
}

impl<T> View for Store<T> {
    type V = StoreState<T>;

    closed spec fn view(&self) -> StoreState<T> {
        StoreState {
            partition: self.partition@,
            slots: self.slots@.map_values(|s: Slot<T>| s@),
            anchors: self.anchors@.map_values(|a: Address| a@),
            edges: self.edges@.map_values(|e: Edge| e@),
        }
    }
}

/// The values of a list of links.
pub open spec fn links_view(links: Seq<Link>) -> Seq<(Seq<u8>, Seq<u8>)> {
    links.map_values(|l: Link| l@)
}

impl<T> StoreState<T> {
    /// The state of a store of `partition` that nothing was written to.
    pub open spec fn empty(partition: Seq<u8>) -> StoreState<T> {
        StoreState { partition, slots: seq![], anchors: seq![], edges: seq![] }
    }

    /// Whether the store can still number what it holds.
    pub open spec fn bounded(self) -> bool {
        self.slots.len() <= u64::MAX && self.edges.len() <= u64::MAX
    }

    /// The number of the content at `address`, which is also its logical
    /// timestamp; `None` where nothing was ever written.
    pub open spec fn serial(self, address: Seq<u8>) -> Option<u64> {
        match address_serial(CONTENT_KIND, address) {
            Some(n) => if n < self.slots.len() {
                Some(n)
            } else {
                None
            },
            None => None,
        }
    }

    /// What was written at `address`, deleted or not.
    pub open spec fn slot(self, address: Seq<u8>) -> Option<SlotState<T>> {
        match self.serial(address) {
            Some(n) => Some(self.slots[n as int]),
            None => None,
        }
    }

    /// The content at `address`, unless nothing is there or it was deleted.
    pub open spec fn content(self, address: Seq<u8>) -> Option<EnvelopeState<T>> {
        match self.slot(address) {
            Some(s) => if s.tombstoned {
                None
            } else {
                Some(s.envelope)
            },
            None => None,
        }
    }

    /// The address that the next content written will get.
    pub open spec fn next_content_address(self) -> Seq<u8> {
        serial_address(CONTENT_KIND, self.slots.len() as u64)
    }

    /// The store after `envelope` was written.
    pub open spec fn put(self, envelope: EnvelopeState<T>) -> StoreState<T> {
        StoreState { slots: self.slots.push(SlotState { envelope, tombstoned: false }), ..self }
    }

    /// The store after the content at `address` was deleted.
    pub open spec fn tombstone(self, address: Seq<u8>) -> StoreState<T> {
        match self.serial(address) {
            Some(n) => StoreState {
                slots: self.slots.update(
                    n as int,
                    SlotState { tombstoned: true, ..self.slots[n as int] },
                ),
                ..self
            },
            None => self,
        }
    }

    /// Whether an anchor was minted at `anchor`.
    pub open spec fn minted(self, anchor: Seq<u8>) -> bool {
        self.anchors.contains(anchor)
    }

    /// The store after an anchor was minted at `anchor`; minting twice changes nothing.
    pub open spec fn mint(self, anchor: Seq<u8>) -> StoreState<T> {
        if self.minted(anchor) {
            self
        } else {
            StoreState { anchors: self.anchors.push(anchor), ..self }
        }
    }

    /// The address that the next edge written will get.
    pub open spec fn next_edge_address(self) -> Seq<u8> {
        serial_address(EDGE_KIND, self.edges.len() as u64)
    }

    /// The store after a live edge was written.
    pub open spec fn put_edge(self, from: Seq<u8>, to: Seq<u8>, label: Seq<char>) -> StoreState<T> {
        StoreState { edges: self.edges.push(EdgeState { from, to, label, live: true }), ..self }
    }

    /// The number of the edge at `id`, if that edge is live.
    pub open spec fn live_edge(self, id: Seq<u8>) -> Option<u64> {
        match address_serial(EDGE_KIND, id) {
            Some(n) => if n < self.edges.len() && self.edges[n as int].live {
                Some(n)
            } else {
                None
            },
            None => None,
        }
    }

    /// The store after the edge at `id` was deleted.
    pub open spec fn delete_edge(self, id: Seq<u8>) -> StoreState<T> {
        match self.live_edge(id) {
            Some(n) => StoreState {
                edges: self.edges.update(n as int, EdgeState { live: false, ..self.edges[n as int] }),
                ..self
            },
            None => self,
        }
    }

    /// The addresses of the live edges that lead from `from` to `to` under `label`.
    pub open spec fn joins(self, from: Seq<u8>, to: Seq<u8>, label: Seq<char>) -> Seq<Seq<u8>> {
        joins_among(self.edges, self.edges.len(), from, to, label)
    }

    /// The store after every live edge from `from` to `to` under `label` was deleted.
    pub open spec fn unlink(self, from: Seq<u8>, to: Seq<u8>, label: Seq<char>) -> StoreState<T> {
        StoreState {
            edges: self.edges.map_values(|e: EdgeState| unlinked(e, from, to, label)),
            ..self
        }
    }

    /// All live edges that leave `from` with `label`, in the order they were
    /// written, each with its address and its target.
    pub open spec fn links(self, from: Seq<u8>, label: Seq<char>) -> Seq<(Seq<u8>, Seq<u8>)> {
        links_among(self.edges, self.edges.len(), from, label)
    }
}

impl<T> StoreState<T> {
    /// Whether `later` can be what the store holds at a later time: nothing that
    /// was written is gone or changed, and what was deleted stays deleted.
    pub open spec fn precedes(self, later: StoreState<T>) -> bool {
        &&& later.partition == self.partition
        &&& self.slots.len() <= later.slots.len()
        &&& forall|i: int|
            0 <= i < self.slots.len() ==> {
                &&& (#[trigger] later.slots[i]).envelope == self.slots[i].envelope
                &&& self.slots[i].tombstoned ==> later.slots[i].tombstoned
            }
        &&& self.edges.len() <= later.edges.len()
        &&& forall|i: int|
            0 <= i < self.edges.len() ==> {
                &&& (#[trigger] later.edges[i]).from == self.edges[i].from
                &&& later.edges[i].to == self.edges[i].to
                &&& later.edges[i].label == self.edges[i].label
                &&& later.edges[i].live ==> self.edges[i].live
            }
        &&& forall|anchor: Seq<u8>| self.minted(anchor) ==> #[trigger] later.minted(anchor)
    }

    /// What comes after a later state is a later state too.
    pub proof fn lemma_precedes_transitive(self, middle: StoreState<T>, later: StoreState<T>)
        requires
            self.precedes(middle),
            middle.precedes(later),
        ensures
            self.precedes(later),
    {
        assert forall|i: int| 0 <= i < self.slots.len() implies {
            &&& (#[trigger] later.slots[i]).envelope == self.slots[i].envelope
            &&& self.slots[i].tombstoned ==> later.slots[i].tombstoned
        } by {
            assert(middle.slots[i].envelope == self.slots[i].envelope);
        }
        assert forall|i: int| 0 <= i < self.edges.len() implies {
            &&& (#[trigger] later.edges[i]).from == self.edges[i].from
            &&& later.edges[i].to == self.edges[i].to
            &&& later.edges[i].label == self.edges[i].label
            &&& later.edges[i].live ==> self.edges[i].live
        } by {
            assert(middle.edges[i].from == self.edges[i].from);
        }
        assert forall|anchor: Seq<u8>| self.minted(anchor) implies #[trigger] later.minted(
            anchor,
        ) by {
            assert(middle.minted(anchor));
        }
    }

    /// Each operation of the store leads to a later state.
    pub proof fn lemma_operations_precede(
        self,
        envelope: EnvelopeState<T>,
        address: Seq<u8>,
        to: Seq<u8>,
        label: Seq<char>,
    )
        ensures
            self.precedes(self.put(envelope)),
            self.precedes(self.tombstone(address)),
            self.precedes(self.mint(address)),
            self.precedes(self.put_edge(address, to, label)),
            self.precedes(self.delete_edge(address)),
    {
        let minted = self.mint(address);
        assert forall|anchor: Seq<u8>| self.minted(anchor) implies #[trigger] minted.minted(
            anchor,
        ) by {
            let i = choose|i: int| 0 <= i < self.anchors.len() && self.anchors[i] == anchor;
            assert(minted.anchors[i] == anchor);
        }
    }
}

/// Whether the edge is live and leads from `from` to `to` under `label`.
pub open spec fn edge_joins(edge: EdgeState, from: Seq<u8>, to: Seq<u8>, label: Seq<char>) -> bool {
    edge_links(edge, from, label) && edge.to == to
}

/// The edge after every live edge from `from` to `to` under `label` was deleted.
pub open spec fn unlinked(edge: EdgeState, from: Seq<u8>, to: Seq<u8>, label: Seq<char>) -> EdgeState {
    if edge_joins(edge, from, to, label) {
        EdgeState { live: false, ..edge }
    } else {
        edge
    }
}

/// The addresses of the live edges among the first `n` of `edges` that lead from
/// `from` to `to` under `label`, in the order they were written.
pub open spec fn joins_among(
    edges: Seq<EdgeState>,
    n: nat,
    from: Seq<u8>,
    to: Seq<u8>,
    label: Seq<char>,
) -> Seq<Seq<u8>>
    decreases n,
{
    if n == 0 {
        seq![]
    } else {
        let before = joins_among(edges, (n - 1) as nat, from, to, label);
        if edge_joins(edges[n - 1], from, to, label) {
            before.push(serial_address(EDGE_KIND, (n - 1) as u64))
        } else {
            before
        }
    }
}

/// The values of a list of addresses.
pub open spec fn addresses_view(addresses: Seq<Address>) -> Seq<Seq<u8>> {
    addresses.map_values(|a: Address| a@)
}

/// Whether the edge is live, leaves `from` and carries `label`.
pub open spec fn edge_links(edge: EdgeState, from: Seq<u8>, label: Seq<char>) -> bool {
    edge.live && edge.from == from && edge.label == label
}

/// The live edges among the first `n` of `edges` that leave `from` with `label`,
/// in the order they were written, each with its address and its target.
pub open spec fn links_among(edges: Seq<EdgeState>, n: nat, from: Seq<u8>, label: Seq<char>) -> Seq<
    (Seq<u8>, Seq<u8>),
>
    decreases n,
{
    if n == 0 {
        seq![]
    } else {
        let before = links_among(edges, (n - 1) as nat, from, label);
        if edge_links(edges[n - 1], from, label) {
            before.push((serial_address(EDGE_KIND, (n - 1) as u64), edges[n - 1].to))
        } else {
            before
        }
    }
}

/// Every live edge that leaves `from` with `label` is among the links.
pub proof fn lemma_link_listed(
    edges: Seq<EdgeState>,
    n: nat,
    from: Seq<u8>,
    label: Seq<char>,
    j: int,
)
    requires
        0 <= j < n <= edges.len(),
        edge_links(edges[j], from, label),
    ensures
        exists|k: int|
            0 <= k < links_among(edges, n, from, label).len() && #[trigger] links_among(
                edges,
                n,
                from,
                label,
            )[k] == (serial_address(EDGE_KIND, j as u64), edges[j].to),
    decreases n,
{
    let links = links_among(edges, n, from, label);
    let before = links_among(edges, (n - 1) as nat, from, label);
    if j == n - 1 {
        assert(links[before.len() as int] == (serial_address(EDGE_KIND, j as u64), edges[j].to));
    } else {
        lemma_link_listed(edges, (n - 1) as nat, from, label, j);
        let k = choose|k: int|
            0 <= k < before.len() && #[trigger] before[k] == (
                serial_address(EDGE_KIND, j as u64),
                edges[j].to,
            );
        assert(links[k] == before[k]);
    }
}

/// Each of the links is a live edge that leaves `from` with `label`.
pub proof fn lemma_listed_link(
    edges: Seq<EdgeState>,
    n: nat,
    from: Seq<u8>,
    label: Seq<char>,
    k: int,
)
    requires
        n <= edges.len(),
        0 <= k < links_among(edges, n, from, label).len(),
    ensures
        exists|j: int|
            0 <= j < n && edge_links(#[trigger] edges[j], from, label) && links_among(
                edges,
                n,
                from,
                label,
            )[k] == (serial_address(EDGE_KIND, j as u64), edges[j].to),
    decreases n,
{
    let before = links_among(edges, (n - 1) as nat, from, label);
    if n > 0 {
        if k < before.len() {
            lemma_listed_link(edges, (n - 1) as nat, from, label, k);
        } else {
            assert(edge_links(edges[n - 1], from, label));
        }
    }
}

impl<T> Store<T> {
    /// A store of `partition` that holds nothing.
    pub fn new(partition: Partition) -> (r: Store<T>)
        ensures
            r@ == StoreState::<T>::empty(partition@),
    {
        let r = Store { partition, slots: Vec::new(), anchors: Vec::new(), edges: Vec::new() };
        proof {
            assert(r@.slots =~= seq![]);
            assert(r@.anchors =~= seq![]);
            assert(r@.edges =~= seq![]);
        }
        r
    }

    /// The partition that the store belongs to.
    pub fn partition(&self) -> (r: &Partition)
        ensures
            r@ == self@.partition,
    {
        &self.partition
    }

    /// The store always can number what it holds.
    pub proof fn lemma_bounded(&self)
        ensures
            self@.bounded(),
    {
        assert(self.slots@.len() == self.slots.len());
        assert(self.edges@.len() == self.edges.len());
    }

    /// Writes `envelope` as new content and returns its address. Content is never
    /// overwritten: each write gets an address of its own.
    pub fn put(&mut self, envelope: Envelope<T>) -> (r: Address)
        ensures
            final(self)@ == old(self)@.put(envelope@),
            r@ == old(self)@.next_content_address(),
    {
        let serial = self.slots.len() as u64;
        self.slots.push(Slot { envelope, tombstoned: false });
        proof {
            assert(self@.slots =~= old(self)@.slots.push(
                SlotState { envelope: envelope@, tombstoned: false },
            ));
        }
        Address::from_serial(CONTENT_KIND, serial)
    }

    fn slot_index(&self, address: &Address) -> (r: Option<usize>)
        ensures
            match r {
                Some(i) => i < self.slots.len() && self@.serial(address@) == Some(i as u64),
                None => self@.serial(address@) is None,
            },
    {
        let len = self.slots.len();
        match address.serial(CONTENT_KIND) {
            Some(n) => if n < len as u64 {
                Some(n as usize)
            } else {
                None
            },
            None => None,
        }
    }

    /// The logical timestamp of the content at `address`: later writes have
    /// greater timestamps. `None` where nothing was ever written.
    pub fn timestamp(&self, address: &Address) -> (r: Option<u64>)
        ensures
            r == self@.serial(address@),
    {
        match self.slot_index(address) {
            Some(i) => Some(i as u64),
            None => None,
        }
    }

    /// Reads the content at `address`. Fails with `NotFound` where nothing was
    /// written or the content was deleted.
    pub fn get(&self, address: &Address) -> (r: Result<&Envelope<T>, DataIntegrityError>)
        ensures
            match r {
                Ok(envelope) => self@.content(address@) == Some(envelope@),
                Err(e) => e == DataIntegrityError::NotFound && self@.content(address@) is None,
            },
    {
        match self.slot_index(address) {
            Some(i) => {
                let slot = &self.slots[i];
                if slot.tombstoned {
                    Err(DataIntegrityError::NotFound)
                } else {
                    Ok(&slot.envelope)
                }
            },
            None => Err(DataIntegrityError::NotFound),
        }
    }

    /// Marks the content at `address` as deleted. Edges that point to it stay.
    /// Fails with `NotFound`, changing nothing, where nothing was written or the
    /// content was deleted before.
    pub fn tombstone(&mut self, address: &Address) -> (r: Result<(), DataIntegrityError>)
        ensures
            match r {
                Ok(()) => old(self)@.content(address@) is Some && final(self)@ == old(
                    self,
                )@.tombstone(address@),
                Err(e) => e == DataIntegrityError::NotFound && old(self)@.content(address@) is None
                    && final(self)@ == old(self)@,
            },
    {
        match self.slot_index(address) {
            Some(i) => {
                if self.slots[i].tombstoned {
                    Err(DataIntegrityError::NotFound)
                } else {
                    self.slots[i].tombstoned = true;
                    proof {
                        assert(self@.slots =~= old(self)@.tombstone(address@).slots);
                    }
                    Ok(())
                }
            },
            None => Err(DataIntegrityError::NotFound),
        }
    }

    /// Whether an anchor was minted at `anchor`.
    pub fn has_anchor(&self, anchor: &Address) -> (r: bool)
        ensures
            r == self@.minted(anchor@),
    {
        let mut i: usize = 0;
        while i < self.anchors.len()
            invariant
                i <= self.anchors.len(),
                forall|j: int| 0 <= j < i ==> self@.anchors[j] != anchor@,
            decreases self.anchors.len() - i,
        {
            if self.anchors[i].same(anchor) {
                assert(self@.anchors[i as int] == anchor@);
                return true;
            }
            i += 1;
        }
        false
    }

    /// Mints an anchor at `anchor`. Minting an anchor that exists changes nothing.
    pub fn mint(&mut self, anchor: Address)
        ensures
            final(self)@ == old(self)@.mint(anchor@),
    {
        if !self.has_anchor(&anchor) {
            self.anchors.push(anchor);
            proof {
                assert(self@.anchors =~= old(self)@.anchors.push(anchor@));
            }
        }
    }

    /// Writes a live edge from `from` to `to` under `label` and returns the edge's
    /// address.
    pub fn put_edge(&mut self, from: &Address, to: &Address, label: &str) -> (r: Address)
        ensures
            final(self)@ == old(self)@.put_edge(from@, to@, label@),
            r@ == old(self)@.next_edge_address(),
    {
        let serial = self.edges.len() as u64;
        self.edges.push(
            Edge { from: from.clone(), to: to.clone(), label: label.to_owned(), live: true },
        );
        proof {
            assert(self@.edges =~= old(self)@.edges.push(
                EdgeState { from: from@, to: to@, label: label@, live: true },
            ));
        }
        Address::from_serial(EDGE_KIND, serial)
    }

    /// The live edges that leave `from` under `label`, in the order they were written.
    pub fn get_links(&self, from: &Address, label: &str) -> (r: Vec<Link>)
        ensures
            links_view(r@) == self@.links(from@, label@),
    {
        let wanted = label.to_owned();
        let mut found: Vec<Link> = Vec::new();
        let mut i: usize = 0;
        while i < self.edges.len()
            invariant
                i <= self.edges.len(),
                wanted@ == label@,
                links_view(found@) == links_among(self@.edges, i as nat, from@, label@),
            decreases self.edges.len() - i,
        {
            let edge = &self.edges[i];
            assert(self@.edges[i as int] == edge@);
            if edge.live && edge.from.same(from) && edge.label == wanted {
                let ghost before = found@;
                found.push(Link { id: Address::from_serial(EDGE_KIND, i as u64), target: edge.to.clone() });
                proof {
                    assert(links_view(found@) =~= links_view(before).push(
                        (serial_address(EDGE_KIND, i as u64), edge.to@),
                    ));
                }
            }
            i += 1;
        }
        found
    }

    /// Deletes the edge at `id`. Fails with `NotFound`, changing nothing, where no
    /// edge has that address or the edge was deleted before.
    pub fn delete_edge(&mut self, id: &Address) -> (r: Result<(), DataIntegrityError>)
        ensures
            match r {
                Ok(()) => old(self)@.live_edge(id@) is Some && final(self)@ == old(
                    self,
                )@.delete_edge(id@),
                Err(e) => e == DataIntegrityError::NotFound && old(self)@.live_edge(id@) is None
                    && final(self)@ == old(self)@,
            },
    {
        let len = self.edges.len();
        match id.serial(EDGE_KIND) {
            Some(n) => {
                if n < len as u64 {
                    let i = n as usize;
                    if self.edges[i].live {
                        self.edges[i].live = false;
                        proof {
                            assert(self@.edges =~= old(self)@.delete_edge(id@).edges);
                        }
                        Ok(())
                    } else {
                        Err(DataIntegrityError::NotFound)
                    }
                } else {
                    Err(DataIntegrityError::NotFound)
                }
            },
            None => Err(DataIntegrityError::NotFound),
        }
    }

    /// Deletes every live edge that leads from `from` to `to` under `label`, and
    /// returns the addresses of the edges deleted, in the order they were written.
    pub fn unlink(&mut self, from: &Address, to: &Address, label: &str) -> (r: Vec<Address>)
        ensures
            final(self)@ == old(self)@.unlink(from@, to@, label@),
            addresses_view(r@) == old(self)@.joins(from@, to@, label@),
    {
        let wanted = label.to_owned();
        let mut deleted: Vec<Address> = Vec::new();
        let mut i: usize = 0;
        while i < self.edges.len()
            invariant
                i <= self.edges.len(),
                wanted@ == label@,
                self@.partition == old(self)@.partition,
                self@.slots == old(self)@.slots,
                self@.anchors == old(self)@.anchors,
                self@.edges.len() == old(self)@.edges.len(),
                forall|j: int|
                    0 <= j < i ==> #[trigger] self@.edges[j] == unlinked(
                        old(self)@.edges[j],
                        from@,
                        to@,
                        label@,
                    ),
                forall|j: int|
                    i <= j < self@.edges.len() ==> #[trigger] self@.edges[j] == old(self)@.edges[j],
                addresses_view(deleted@) == joins_among(
                    old(self)@.edges,
                    i as nat,
                    from@,
                    to@,
                    label@,
                ),
            decreases self.edges.len() - i,
        {
            let ghost before = self@;
            let ghost found = deleted@;
            assert(self@.edges[i as int] == self.edges@[i as int]@);
            let joins = {
                let edge = &self.edges[i];
                edge.live && edge.from.same(from) && edge.to.same(to) && edge.label == wanted
            };
            if joins {
                self.edges[i].live = false;
                deleted.push(Address::from_serial(EDGE_KIND, i as u64));
                proof {
                    assert(addresses_view(deleted@) =~= addresses_view(found).push(
                        serial_address(EDGE_KIND, i as u64),
                    ));
                    assert(self@.edges =~= before.edges.update(
                        i as int,
                        unlinked(before.edges[i as int], from@, to@, label@),
                    ));
                }
            }
            i += 1;
        }
        proof {
            assert(self@.edges =~= old(self)@.unlink(from@, to@, label@).edges);
        }
        deleted
    }
}

} // verus!
