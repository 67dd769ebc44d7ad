//! What reconciling an index leaves behind.
//!
//! The lemmas of this module describe the store after an index was reconciled,
//! edge by edge, and conclude that reconciling a second time with the same
//! wishes changes nothing.
use crate::address::{
    addressable, anchor_address, anchor_identity, lemma_anchor_injective,
    lemma_anchor_round_trip, lemma_decoded_is_addressable, serial_address, EDGE_KIND,
};
use crate::error::DataIntegrityError;
use crate::local_indexes::{first_failure, successes, to_insert};
use crate::records::Qualified;
use crate::store::{
    edge_joins, edge_links, lemma_link_listed, lemma_listed_link, unlinked, EdgeState, StoreState,
};
use vstd::prelude::*;
use vstd::utf8::*;

verus! {

/// Whether the edge is one of the two live edges of an index between `source`
/// and `dest`.
pub open spec fn joins_either(
    edge: EdgeState,
    source: Seq<u8>,
    dest: Seq<u8>,
    label: Seq<char>,
    reciprocal: Seq<char>,
) -> bool {
    edge_joins(edge, source, dest, label) || edge_joins(edge, dest, source, reciprocal)
}

/// The edge, deleted.
pub open spec fn killed(edge: EdgeState) -> EdgeState {
    EdgeState { live: false, ..edge }
}

/// Whether the edge belongs to the index between `source` and one of the first
/// `n` linked destinations that are to be removed.
pub open spec fn erasable(
    edge: EdgeState,
    source: Seq<u8>,
    dest_type: Seq<char>,
    label: Seq<char>,
    reciprocal: Seq<char>,
    existing: Seq<Qualified>,
    remove: Seq<Qualified>,
    n: nat,
) -> bool {
    exists|k: int|
        0 <= k < n && remove.contains(#[trigger] existing[k]) && joins_either(
            edge,
            source,
            anchor_address(dest_type, existing[k]),
            label,
            reciprocal,
        )
}

/// The edge after the index to each of the first `n` linked destinations that
/// are to be removed was deleted.
pub open spec fn erase_edge(
    edge: EdgeState,
    source: Seq<u8>,
    dest_type: Seq<char>,
    label: Seq<char>,
    reciprocal: Seq<char>,
    existing: Seq<Qualified>,
    remove: Seq<Qualified>,
    n: nat,
) -> EdgeState {
    if erasable(edge, source, dest_type, label, reciprocal, existing, remove, n) {
        killed(edge)
    } else {
        edge
    }
}

impl<T> StoreState<T> {
    /// Deleting the indexes to the destinations that are to be removed changes
    /// the edges alone, each by itself: an edge is deleted exactly if it belongs
    /// to one of those indexes.
    pub proof fn lemma_erased_edge_by_edge(
        self,
        source: Seq<u8>,
        dest_type: Seq<char>,
        label: Seq<char>,
        reciprocal: Seq<char>,
        existing: Seq<Qualified>,
        remove: Seq<Qualified>,
        n: nat,
    )
        ensures
            ({
                let after = self.erased(source, dest_type, label, reciprocal, existing, remove, n);
                &&& after.partition == self.partition
                &&& after.slots == self.slots
                &&& after.anchors == self.anchors
                &&& after.edges.len() == self.edges.len()
                &&& forall|j: int|
                    0 <= j < self.edges.len() ==> #[trigger] after.edges[j] == erase_edge(
                        self.edges[j],
                        source,
                        dest_type,
                        label,
                        reciprocal,
                        existing,
                        remove,
                        n,
                    )
            }),
        decreases n,
    {
        if n > 0 {
            let m = (n - 1) as nat;
            self.lemma_erased_edge_by_edge(source, dest_type, label, reciprocal, existing, remove, m);
            let before = self.erased(source, dest_type, label, reciprocal, existing, remove, m);
            let after = self.erased(source, dest_type, label, reciprocal, existing, remove, n);
            let dest = anchor_address(dest_type, existing[n - 1]);
            assert forall|j: int| 0 <= j < self.edges.len() implies #[trigger] after.edges[j]
                == erase_edge(
                self.edges[j],
                source,
                dest_type,
                label,
                reciprocal,
                existing,
                remove,
                n,
            ) by {
                let e = self.edges[j];
                let was = erasable(e, source, dest_type, label, reciprocal, existing, remove, m);
                let now = erasable(e, source, dest_type, label, reciprocal, existing, remove, n);
                assert(before.edges[j] == erase_edge(
                    e,
                    source,
                    dest_type,
                    label,
                    reciprocal,
                    existing,
                    remove,
                    m,
                ));
                if was {
                    let k = choose|k: int|
                        0 <= k < m && remove.contains(#[trigger] existing[k]) && joins_either(
                            e,
                            source,
                            anchor_address(dest_type, existing[k]),
                            label,
                            reciprocal,
                        );
                    assert(0 <= k < n && remove.contains(existing[k]));
                    assert(now);
                }
                if remove.contains(existing[n - 1]) {
                    assert(after.edges[j] == unlinked(
                        unlinked(before.edges[j], source, dest, label),
                        dest,
                        source,
                        reciprocal,
                    ));
                    if !was && joins_either(e, source, dest, label, reciprocal) {
                        assert(remove.contains(existing[n - 1]));
                        assert(now);
                    }
                } else {
                    assert(after.edges[j] == before.edges[j]);
                }
                if now && !was {
                    let k = choose|k: int|
                        0 <= k < n && remove.contains(#[trigger] existing[k]) && joins_either(
                            e,
                            source,
                            anchor_address(dest_type, existing[k]),
                            label,
                            reciprocal,
                        );
                    if k < m {
                        assert(was);
                    }
                    assert(k == n - 1);
                }
            }
        }
    }
}

/// The edge from `source` to the destination at position `p` of `add`.
pub open spec fn forward_edge(
    source: Seq<u8>,
    dest_type: Seq<char>,
    label: Seq<char>,
    add: Seq<Qualified>,
    p: int,
) -> EdgeState {
    EdgeState { from: source, to: anchor_address(dest_type, add[p]), label, live: true }
}

/// The edge back to `source` from the destination at position `p` of `add`.
pub open spec fn backward_edge(
    source: Seq<u8>,
    dest_type: Seq<char>,
    reciprocal: Seq<char>,
    add: Seq<Qualified>,
    p: int,
) -> EdgeState {
    EdgeState { from: anchor_address(dest_type, add[p]), to: source, label: reciprocal, live: true }
}

/// Whether the edge is one of the two written for one of the first `n`
/// destinations of `add` that were to be linked.
pub open spec fn insertable(
    edge: EdgeState,
    source: Seq<u8>,
    dest_type: Seq<char>,
    label: Seq<char>,
    reciprocal: Seq<char>,
    add: Seq<Qualified>,
    existing: Seq<Qualified>,
    n: nat,
) -> bool {
    exists|p: int|
        0 <= p < n && #[trigger] to_insert(add, existing, p) && (edge == forward_edge(
            source,
            dest_type,
            label,
            add,
            p,
        ) || edge == backward_edge(source, dest_type, reciprocal, add, p))
}

/// Whether the store holds the forward edge to the destination at position `p`
/// of `add` among the edges from `first` on, and the anchor of that destination.
pub open spec fn linked_since<T>(
    after: StoreState<T>,
    first: int,
    source: Seq<u8>,
    dest_type: Seq<char>,
    label: Seq<char>,
    add: Seq<Qualified>,
    p: int,
) -> bool {
    &&& after.minted(anchor_address(dest_type, add[p]))
    &&& exists|j: int|
        first <= j < after.edges.len() && #[trigger] after.edges[j] == forward_edge(
            source,
            dest_type,
            label,
            add,
            p,
        )
}

impl<T> StoreState<T> {
    /// Writing the indexes to the destinations that are to be linked leaves what
    /// the store held as it was, and adds two live edges for each of them.
    pub proof fn lemma_inserted_edge_by_edge(
        self,
        source: Seq<u8>,
        dest_type: Seq<char>,
        label: Seq<char>,
        reciprocal: Seq<char>,
        add: Seq<Qualified>,
        existing: Seq<Qualified>,
        n: nat,
    )
        ensures
            ({
                let after = self.inserted(source, dest_type, label, reciprocal, add, existing, n);
                &&& after.partition == self.partition
                &&& after.slots == self.slots
                &&& after.edges.len() >= self.edges.len()
                &&& forall|j: int|
                    0 <= j < self.edges.len() ==> #[trigger] after.edges[j] == self.edges[j]
                &&& forall|j: int|
                    self.edges.len() <= j < after.edges.len() ==> insertable(
                        #[trigger] after.edges[j],
                        source,
                        dest_type,
                        label,
                        reciprocal,
                        add,
                        existing,
                        n,
                    )
                &&& forall|p: int|
                    0 <= p < n && #[trigger] to_insert(add, existing, p) ==> linked_since(
                        after,
                        self.edges.len() as int,
                        source,
                        dest_type,
                        label,
                        add,
                        p,
                    )
                &&& forall|anchor: Seq<u8>| self.minted(anchor) ==> #[trigger] after.minted(anchor)
            }),
        decreases n,
    {
        if n > 0 {
            let m = (n - 1) as nat;
            self.lemma_inserted_edge_by_edge(source, dest_type, label, reciprocal, add, existing, m);
            let before = self.inserted(source, dest_type, label, reciprocal, add, existing, m);
            let after = self.inserted(source, dest_type, label, reciprocal, add, existing, n);
            let first = self.edges.len() as int;
            assert forall|j: int| first <= j < before.edges.len() implies insertable(
                #[trigger] before.edges[j],
                source,
                dest_type,
                label,
                reciprocal,
                add,
                existing,
                n,
            ) by {
                let e = before.edges[j];
                assert(insertable(e, source, dest_type, label, reciprocal, add, existing, m));
                let p = choose|p: int|
                    0 <= p < m && #[trigger] to_insert(add, existing, p) && (e == forward_edge(
                        source,
                        dest_type,
                        label,
                        add,
                        p,
                    ) || e == backward_edge(source, dest_type, reciprocal, add, p));
                assert(0 <= p < n && to_insert(add, existing, p));
            }
            if to_insert(add, existing, n - 1) {
                let dest = anchor_address(dest_type, add[n - 1]);
                let first_mint = before.mint(source);
                let second_mint = first_mint.mint(dest);
                assert(second_mint.minted(dest)) by {
                    if !first_mint.minted(dest) {
                        assert(second_mint.anchors[first_mint.anchors.len() as int] == dest);
                    }
                }
                assert forall|anchor: Seq<u8>| before.minted(anchor) implies #[trigger] after.minted(
                    anchor,
                ) by {
                    let i = choose|i: int| 0 <= i < before.anchors.len() && before.anchors[i] == anchor;
                    assert(first_mint.anchors[i] == anchor);
                    assert(first_mint.minted(anchor));
                    let k = choose|k: int|
                        0 <= k < first_mint.anchors.len() && first_mint.anchors[k] == anchor;
                    assert(second_mint.anchors[k] == anchor);
                }
                assert(after.anchors == second_mint.anchors);
                let b = before.edges.len() as int;
                assert(after.edges.len() == b + 2);
                assert(after.edges[b] == forward_edge(source, dest_type, label, add, n - 1));
                assert(after.edges[b + 1] == backward_edge(
                    source,
                    dest_type,
                    reciprocal,
                    add,
                    n - 1,
                ));
                assert forall|j: int| 0 <= j < b implies #[trigger] after.edges[j]
                    == before.edges[j] by {}
                assert forall|j: int| first <= j < after.edges.len() implies insertable(
                    #[trigger] after.edges[j],
                    source,
                    dest_type,
                    label,
                    reciprocal,
                    add,
                    existing,
                    n,
                ) by {
                    if j < b {
                        assert(after.edges[j] == before.edges[j]);
                    } else {
                        assert(to_insert(add, existing, n - 1));
                    }
                }
                assert forall|p: int|
                    0 <= p < n && #[trigger] to_insert(add, existing, p) implies linked_since(
                    after,
                    first,
                    source,
                    dest_type,
                    label,
                    add,
                    p,
                ) by {
                    if p < m {
                        assert(linked_since(before, first, source, dest_type, label, add, p));
                        let j = choose|j: int|
                            first <= j < before.edges.len() && #[trigger] before.edges[j]
                                == forward_edge(source, dest_type, label, add, p);
                        assert(after.edges[j] == before.edges[j]);
                        assert(before.minted(anchor_address(dest_type, add[p])));
                    } else {
                        assert(after.edges[b] == forward_edge(source, dest_type, label, add, p));
                        assert(after.minted(dest));
                    }
                }
            } else {
                assert forall|p: int|
                    0 <= p < n && #[trigger] to_insert(add, existing, p) implies linked_since(
                    after,
                    first,
                    source,
                    dest_type,
                    label,
                    add,
                    p,
                ) by {
                    assert(p < m);
                    assert(linked_since(before, first, source, dest_type, label, add, p));
                }
            }
        }
    }
}

/// Where none of the results is a failure, each of them is the identity at its
/// position among the successes.
pub proof fn lemma_successes_all(results: Seq<Result<Qualified, DataIntegrityError>>, n: nat)
    requires
        first_failure(results, n) is None,
    ensures
        successes(results, n).len() == n,
        forall|k: int|
            0 <= k < n ==> #[trigger] results[k] == Ok::<Qualified, DataIntegrityError>(
                successes(results, n)[k],
            ),
    decreases n,
{
    if n > 0 {
        lemma_successes_all(results, (n - 1) as nat);
    }
}

/// Every identity that occurs in a list has a first occurrence.
pub proof fn lemma_first_occurrence(add: Seq<Qualified>, p: int) -> (first: int)
    requires
        0 <= p < add.len(),
    ensures
        0 <= first <= p,
        add[first] == add[p],
        !add.take(first).contains(add[p]),
    decreases p,
{
    if add.take(p).contains(add[p]) {
        let q = choose|q: int| 0 <= q < add.take(p).len() && add.take(p)[q] == add[p];
        assert(add[q] == add[p]);
        lemma_first_occurrence(add, q)
    } else {
        p
    }
}

impl<T> StoreState<T> {
    /// Where the index can be read, it holds one identity for each link, and
    /// each link leads to the anchor of the identity at its position.
    pub proof fn lemma_indexed_by_links(self, source: Seq<u8>, label: Seq<char>)
        requires
            self.indexed(source, label) is Ok,
        ensures
            ({
                let existing = self.indexed(source, label)->Ok_0;
                let links = self.links(source, label);
                &&& existing.len() == links.len()
                &&& forall|k: int|
                    0 <= k < links.len() ==> {
                        &&& self.minted(#[trigger] links[k].1)
                        &&& anchor_identity(links[k].1) == Some(existing[k])
                    }
            }),
    {
        let read = self.index(source, label);
        let links = self.links(source, label);
        lemma_successes_all(read, read.len());
        let existing = successes(read, read.len());
        assert forall|k: int| 0 <= k < links.len() implies {
            &&& self.minted(#[trigger] links[k].1)
            &&& anchor_identity(links[k].1) == Some(existing[k])
        } by {
            assert(read[k] == self.anchored(links[k].1));
            assert(read[k] == Ok::<Qualified, DataIntegrityError>(existing[k]));
        }
    }

    /// Deleting an index that no live edge belongs to changes nothing.
    pub proof fn lemma_delete_index_without_edges(
        self,
        source: Seq<u8>,
        dest: Seq<u8>,
        label: Seq<char>,
        reciprocal: Seq<char>,
    )
        requires
            forall|j: int|
                0 <= j < self.edges.len() ==> !joins_either(
                    #[trigger] self.edges[j],
                    source,
                    dest,
                    label,
                    reciprocal,
                ),
        ensures
            self.after_delete_index(source, dest, label, reciprocal) == self,
    {
        let first = self.unlink(source, dest, label);
        assert(first.edges =~= self.edges);
        let second = first.unlink(dest, source, reciprocal);
        assert(second.edges =~= self.edges);
    }

    /// Where deleting the index to each linked destination that is to be removed
    /// changes nothing, deleting them one after the other changes nothing.
    pub proof fn lemma_erased_nothing(
        self,
        source: Seq<u8>,
        dest_type: Seq<char>,
        label: Seq<char>,
        reciprocal: Seq<char>,
        existing: Seq<Qualified>,
        remove: Seq<Qualified>,
        n: nat,
    )
        requires
            n <= existing.len(),
            forall|k: int|
                0 <= k < existing.len() && remove.contains(#[trigger] existing[k])
                    ==> self.after_delete_index(
                    source,
                    anchor_address(dest_type, existing[k]),
                    label,
                    reciprocal,
                ) == self,
        ensures
            self.erased(source, dest_type, label, reciprocal, existing, remove, n) == self,
        decreases n,
    {
        if n > 0 {
            self.lemma_erased_nothing(
                source,
                dest_type,
                label,
                reciprocal,
                existing,
                remove,
                (n - 1) as nat,
            );
            if remove.contains(existing[n - 1]) {
                assert(self.after_delete_index(
                    source,
                    anchor_address(dest_type, existing[n - 1]),
                    label,
                    reciprocal,
                ) == self);
            }
        }
    }

    /// Where every destination that is to be added is linked, writing the
    /// missing indexes changes nothing.
    pub proof fn lemma_inserted_nothing(
        self,
        source: Seq<u8>,
        dest_type: Seq<char>,
        label: Seq<char>,
        reciprocal: Seq<char>,
        add: Seq<Qualified>,
        existing: Seq<Qualified>,
        n: nat,
    )
        requires
            n <= add.len(),
            forall|p: int| 0 <= p < add.len() ==> existing.contains(#[trigger] add[p]),
        ensures
            self.inserted(source, dest_type, label, reciprocal, add, existing, n) == self,
        decreases n,
    {
        if n > 0 {
            self.lemma_inserted_nothing(
                source,
                dest_type,
                label,
                reciprocal,
                add,
                existing,
                (n - 1) as nat,
            );
            assert(existing.contains(add[n - 1]));
        }
    }
}

/// Whether an index can be reconciled with these wishes: the anchors of the
/// destinations can be addressed, and no destination is to be added and to be
/// removed at once.
pub open spec fn reconcilable(dest_type: Seq<char>, add: Seq<Qualified>, remove: Seq<Qualified>) -> bool {
    &&& encode_utf8(dest_type).len() <= u64::MAX
    &&& forall|p: int| 0 <= p < add.len() ==> (#[trigger] add[p]).0.len() <= u64::MAX
    &&& forall|p: int, q: int|
        0 <= p < add.len() && 0 <= q < remove.len() ==> #[trigger] add[p] != #[trigger] remove[q]
}

impl<T> StoreState<T> {
    /// After an index was reconciled, no live edge belongs to the index between
    /// the source and a destination that is still linked and was to be removed.
    proof fn lemma_removed_stay_unlinked(
        self,
        source: Seq<u8>,
        dest_type: Seq<char>,
        label: Seq<char>,
        reciprocal: Seq<char>,
        add: Seq<Qualified>,
        remove: Seq<Qualified>,
        k: int,
    )
        requires
            reconcilable(dest_type, add, remove),
            self.indexed(source, label) is Ok,
            self.after_update_index(source, dest_type, label, reciprocal, add, remove).indexed(
                source,
                label,
            ) is Ok,
            0 <= k < self.after_update_index(
                source,
                dest_type,
                label,
                reciprocal,
                add,
                remove,
            ).indexed(source, label)->Ok_0.len(),
            remove.contains(
                self.after_update_index(source, dest_type, label, reciprocal, add, remove).indexed(
                    source,
                    label,
                )->Ok_0[k],
            ),
        ensures
            ({
                let once = self.after_update_index(source, dest_type, label, reciprocal, add, remove);
                let x = once.indexed(source, label)->Ok_0[k];
                forall|j: int|
                    0 <= j < once.edges.len() ==> !joins_either(
                        #[trigger] once.edges[j],
                        source,
                        anchor_address(dest_type, x),
                        label,
                        reciprocal,
                    )
            }),
    {
        let ex0 = self.indexed(source, label)->Ok_0;
        let e = self.erased(source, dest_type, label, reciprocal, ex0, remove, ex0.len());
        let once = e.inserted(source, dest_type, label, reciprocal, add, ex0, add.len());
        let ex1 = once.indexed(source, label)->Ok_0;
        let x = ex1[k];
        let d = anchor_address(dest_type, x);
        let n0 = self.edges.len() as int;
        self.lemma_erased_edge_by_edge(source, dest_type, label, reciprocal, ex0, remove, ex0.len());
        e.lemma_inserted_edge_by_edge(source, dest_type, label, reciprocal, add, ex0, add.len());
        self.lemma_indexed_by_links(source, label);
        once.lemma_indexed_by_links(source, label);
        let links0 = self.links(source, label);
        let links1 = once.links(source, label);
        let t = links1[k].1;
        assert(anchor_identity(t) == Some(x));
        lemma_decoded_is_addressable(t);
        assert(addressable(dest_type, x));
        let q = choose|q: int| 0 <= q < remove.len() && remove[q] == x;
        lemma_listed_link(once.edges, once.edges.len(), source, label, k);
        let j0 = choose|j: int|
            0 <= j < once.edges.len() && edge_links(#[trigger] once.edges[j], source, label)
                && links1[k] == (serial_address(EDGE_KIND, j as u64), once.edges[j].to);
        if j0 >= n0 {
            let edge = once.edges[j0];
            assert(insertable(edge, source, dest_type, label, reciprocal, add, ex0, add.len()));
            let p = choose|p: int|
                0 <= p < add.len() && #[trigger] to_insert(add, ex0, p) && (edge == forward_edge(
                    source,
                    dest_type,
                    label,
                    add,
                    p,
                ) || edge == backward_edge(source, dest_type, reciprocal, add, p));
            assert(add[p].0.len() <= u64::MAX);
            lemma_anchor_round_trip(dest_type, add[p]);
            assert(t == anchor_address(dest_type, add[p]));
            assert(add[p] == remove[q]);
            assert(false);
        }
        assert(once.edges[j0] == e.edges[j0]);
        assert(e.edges[j0] == erase_edge(
            self.edges[j0],
            source,
            dest_type,
            label,
            reciprocal,
            ex0,
            remove,
            ex0.len(),
        ));
        assert(e.edges[j0] == self.edges[j0]);
        lemma_link_listed(self.edges, self.edges.len(), source, label, j0);
        let k0 = choose|k0: int|
            0 <= k0 < links0.len() && #[trigger] links0[k0] == (
                serial_address(EDGE_KIND, j0 as u64),
                self.edges[j0].to,
            );
        assert(anchor_identity(links0[k0].1) == Some(ex0[k0]));
        assert(ex0[k0] == x);
        assert forall|j: int| 0 <= j < once.edges.len() implies !joins_either(
            #[trigger] once.edges[j],
            source,
            d,
            label,
            reciprocal,
        ) by {
            let edge = once.edges[j];
            if j < n0 {
                assert(edge == e.edges[j]);
                assert(e.edges[j] == erase_edge(
                    self.edges[j],
                    source,
                    dest_type,
                    label,
                    reciprocal,
                    ex0,
                    remove,
                    ex0.len(),
                ));
                if joins_either(self.edges[j], source, d, label, reciprocal) {
                    assert(remove.contains(ex0[k0]));
                    assert(erasable(
                        self.edges[j],
                        source,
                        dest_type,
                        label,
                        reciprocal,
                        ex0,
                        remove,
                        ex0.len(),
                    ));
                }
            } else {
                assert(insertable(edge, source, dest_type, label, reciprocal, add, ex0, add.len()));
                let p = choose|p: int|
                    0 <= p < add.len() && #[trigger] to_insert(add, ex0, p) && (edge
                        == forward_edge(source, dest_type, label, add, p) || edge == backward_edge(
                        source,
                        dest_type,
                        reciprocal,
                        add,
                        p,
                    ));
                assert(add[p].0.len() <= u64::MAX);
                assert(add[p] != remove[q]);
                if joins_either(edge, source, d, label, reciprocal) {
                    assert(anchor_address(dest_type, add[p]) == d);
                    lemma_anchor_injective(dest_type, add[p], dest_type, x);
                }
            }
        }
    }

    /// After an index was reconciled, every destination that was to be added is
    /// linked.
    proof fn lemma_added_are_linked(
        self,
        source: Seq<u8>,
        dest_type: Seq<char>,
        label: Seq<char>,
        reciprocal: Seq<char>,
        add: Seq<Qualified>,
        remove: Seq<Qualified>,
        p: int,
    )
        requires
            reconcilable(dest_type, add, remove),
            self.indexed(source, label) is Ok,
            self.after_update_index(source, dest_type, label, reciprocal, add, remove).indexed(
                source,
                label,
            ) is Ok,
            0 <= p < add.len(),
        ensures
            self.after_update_index(source, dest_type, label, reciprocal, add, remove).indexed(
                source,
                label,
            )->Ok_0.contains(add[p]),
    {
        let ex0 = self.indexed(source, label)->Ok_0;
        let e = self.erased(source, dest_type, label, reciprocal, ex0, remove, ex0.len());
        let once = e.inserted(source, dest_type, label, reciprocal, add, ex0, add.len());
        let ex1 = once.indexed(source, label)->Ok_0;
        let y = add[p];
        let n0 = self.edges.len() as int;
        self.lemma_erased_edge_by_edge(source, dest_type, label, reciprocal, ex0, remove, ex0.len());
        e.lemma_inserted_edge_by_edge(source, dest_type, label, reciprocal, add, ex0, add.len());
        self.lemma_indexed_by_links(source, label);
        once.lemma_indexed_by_links(source, label);
        let links0 = self.links(source, label);
        let links1 = once.links(source, label);
        assert(y.0.len() <= u64::MAX);
        lemma_anchor_round_trip(dest_type, y);
        if ex0.contains(y) {
            let k = choose|k: int| 0 <= k < ex0.len() && ex0[k] == y;
            let t = links0[k].1;
            assert(anchor_identity(t) == Some(y));
            lemma_listed_link(self.edges, self.edges.len(), source, label, k);
            let j = choose|j: int|
                0 <= j < self.edges.len() && edge_links(#[trigger] self.edges[j], source, label)
                    && links0[k] == (serial_address(EDGE_KIND, j as u64), self.edges[j].to);
            let edge = self.edges[j];
            assert(e.edges[j] == erase_edge(
                edge,
                source,
                dest_type,
                label,
                reciprocal,
                ex0,
                remove,
                ex0.len(),
            ));
            if erasable(edge, source, dest_type, label, reciprocal, ex0, remove, ex0.len()) {
                let m = choose|m: int|
                    0 <= m < ex0.len() && remove.contains(#[trigger] ex0[m]) && joins_either(
                        edge,
                        source,
                        anchor_address(dest_type, ex0[m]),
                        label,
                        reciprocal,
                    );
                let x = ex0[m];
                assert(anchor_identity(links0[m].1) == Some(x));
                lemma_decoded_is_addressable(links0[m].1);
                lemma_anchor_round_trip(dest_type, x);
                assert(t == anchor_address(dest_type, x));
                assert(y == x);
                let q = choose|q: int| 0 <= q < remove.len() && remove[q] == x;
                assert(add[p] != remove[q]);
                assert(false);
            }
            assert(once.edges[j] == e.edges[j]);
            lemma_link_listed(once.edges, once.edges.len(), source, label, j);
            let k1 = choose|k1: int|
                0 <= k1 < links1.len() && #[trigger] links1[k1] == (
                    serial_address(EDGE_KIND, j as u64),
                    once.edges[j].to,
                );
            assert(anchor_identity(links1[k1].1) == Some(ex1[k1]));
            assert(ex1[k1] == y);
        } else {
            let first = lemma_first_occurrence(add, p);
            assert(to_insert(add, ex0, first));
            assert(linked_since(once, n0, source, dest_type, label, add, first));
            let j = choose|j: int|
                n0 <= j < once.edges.len() && #[trigger] once.edges[j] == forward_edge(
                    source,
                    dest_type,
                    label,
                    add,
                    first,
                );
            lemma_link_listed(once.edges, once.edges.len(), source, label, j);
            let k1 = choose|k1: int|
                0 <= k1 < links1.len() && #[trigger] links1[k1] == (
                    serial_address(EDGE_KIND, j as u64),
                    once.edges[j].to,
                );
            assert(anchor_identity(links1[k1].1) == Some(ex1[k1]));
            assert(ex1[k1] == y);
        }
    }

    /// Reconciling an index a second time with the same wishes changes nothing:
    /// the store is left as the first reconciliation left it. This holds where
    /// no destination is both to be added and to be removed.
    pub proof fn lemma_update_index_idempotent(
        self,
        source: Seq<u8>,
        dest_type: Seq<char>,
        label: Seq<char>,
        reciprocal: Seq<char>,
        add: Seq<Qualified>,
        remove: Seq<Qualified>,
    )
        requires
            reconcilable(dest_type, add, remove),
        ensures
            ({
                let once = self.after_update_index(source, dest_type, label, reciprocal, add, remove);
                once.after_update_index(source, dest_type, label, reciprocal, add, remove) == once
            }),
    {
        let once = self.after_update_index(source, dest_type, label, reciprocal, add, remove);
        if self.indexed(source, label) is Ok && once.indexed(source, label) is Ok {
            let ex1 = once.indexed(source, label)->Ok_0;
            assert forall|k: int|
                0 <= k < ex1.len() && remove.contains(
                    #[trigger] ex1[k],
                ) implies once.after_delete_index(
                source,
                anchor_address(dest_type, ex1[k]),
                label,
                reciprocal,
            ) == once by {
                self.lemma_removed_stay_unlinked(
                    source,
                    dest_type,
                    label,
                    reciprocal,
                    add,
                    remove,
                    k,
                );
                once.lemma_delete_index_without_edges(
                    source,
                    anchor_address(dest_type, ex1[k]),
                    label,
                    reciprocal,
                );
            }
            once.lemma_erased_nothing(
                source,
                dest_type,
                label,
                reciprocal,
                ex1,
                remove,
                ex1.len(),
            );
            assert forall|p: int| 0 <= p < add.len() implies ex1.contains(#[trigger] add[p]) by {
                self.lemma_added_are_linked(source, dest_type, label, reciprocal, add, remove, p);
            }
            once.lemma_inserted_nothing(source, dest_type, label, reciprocal, add, ex1, add.len());
        }
    }
}

impl<T> StoreState<T> {
    /// Writing, deleting and reconciling an index each lead to a later state of
    /// the store: what was written stays, and what was deleted stays deleted.
    pub proof fn lemma_indexing_precedes(
        self,
        source: Seq<u8>,
        dest: Seq<u8>,
        dest_type: Seq<char>,
        label: Seq<char>,
        reciprocal: Seq<char>,
        add: Seq<Qualified>,
        remove: Seq<Qualified>,
    )
        ensures
            self.precedes(self.after_create_index(source, dest, label, reciprocal)),
            self.precedes(self.after_delete_index(source, dest, label, reciprocal)),
            self.precedes(
                self.after_update_index(source, dest_type, label, reciprocal, add, remove),
            ),
    {
        let first = self.mint(source);
        let second = first.mint(dest);
        let third = second.put_edge(source, dest, label);
        let fourth = third.put_edge(dest, source, reciprocal);
        let e = crate::store::EnvelopeState::<T> { identity: None, payload: arbitrary() };
        self.lemma_operations_precede(e, source, dest, label);
        first.lemma_operations_precede(e, dest, dest, label);
        second.lemma_operations_precede(e, source, dest, label);
        third.lemma_operations_precede(e, dest, source, reciprocal);
        self.lemma_precedes_transitive(first, second);
        self.lemma_precedes_transitive(second, third);
        self.lemma_precedes_transitive(third, fourth);
        let unlinked_once = self.unlink(source, dest, label);
        let unlinked_twice = unlinked_once.unlink(dest, source, reciprocal);
        assert(self.precedes(unlinked_once));
        assert(unlinked_once.precedes(unlinked_twice));
        self.lemma_precedes_transitive(unlinked_once, unlinked_twice);
        if self.indexed(source, label) is Ok {
            let existing = self.indexed(source, label)->Ok_0;
            let erased = self.erased(
                source,
                dest_type,
                label,
                reciprocal,
                existing,
                remove,
                existing.len(),
            );
            let after = erased.inserted(source, dest_type, label, reciprocal, add, existing, add.len());
            self.lemma_erased_edge_by_edge(
                source,
                dest_type,
                label,
                reciprocal,
                existing,
                remove,
                existing.len(),
            );
            erased.lemma_inserted_edge_by_edge(
                source,
                dest_type,
                label,
                reciprocal,
                add,
                existing,
                add.len(),
            );
            assert(self.precedes(erased));
            assert(erased.precedes(after));
            self.lemma_precedes_transitive(erased, after);
        }
    }
}

} // verus!
