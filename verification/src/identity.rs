//! Stable identities.
//!
//! A record's identity is the address of its first revision together with the
//! partition it was written in. Under a namespace the identity has an anchor,
//! and the anchor is linked to every revision of the record. Which revision is
//! the current one is a policy: the one written last. Two writers that update
//! the same revision both succeed, and the later write wins.
use crate::address::{
    address_serial, anchor_address, anchor_identity, calculate_identity_address,
    decode_identity_address, serial_address, Address, Identity, RevisionId, CONTENT_KIND,
};
use crate::error::DataIntegrityError;
use crate::store::{links_view, Store, StoreState};
use vstd::prelude::*;

verus! {

/// The label of the edges that lead from an identity's anchor to its revisions.
pub const RECORD_INITIAL_ENTRY_LINK_TAG: &'static str = "initial_entry";

/// Whether `timestamps[i]` is the latest of the timestamps, and the last of
/// those that are equally late.
pub open spec fn is_latest(timestamps: Seq<u64>, i: int) -> bool {
    &&& 0 <= i < timestamps.len()
    &&& forall|j: int| 0 <= j < timestamps.len() ==> timestamps[j] <= timestamps[i]
    &&& forall|j: int| i < j < timestamps.len() ==> timestamps[j] < timestamps[i]
}

/// Whether `t` is the greatest of the timestamps.
pub open spec fn is_newest(timestamps: Seq<u64>, t: u64) -> bool {
    &&& timestamps.contains(t)
    &&& forall|j: int| 0 <= j < timestamps.len() ==> timestamps[j] <= t
}

/// The greatest of the timestamps, where there is any.
pub open spec fn newest(timestamps: Seq<u64>) -> u64 {
    choose|t: u64| is_newest(timestamps, t)
}

/// The greatest timestamp is the only one that no other exceeds.
pub proof fn lemma_newest(timestamps: Seq<u64>, t: u64)
    requires
        is_newest(timestamps, t),
    ensures
        newest(timestamps) == t,
{
    let c = newest(timestamps);
    assert(is_newest(timestamps, c));
    let i = choose|i: int| 0 <= i < timestamps.len() && timestamps[i] == t;
    let j = choose|j: int| 0 <= j < timestamps.len() && timestamps[j] == c;
    assert(timestamps[i] <= c);
    assert(timestamps[j] <= t);
}

/// Finds the position of the latest timestamp. Of several that are equally late
/// the last in the list is chosen. `None` exactly when the list is empty.
pub fn latest_by_timestamp(timestamps: &Vec<u64>) -> (r: Option<usize>)
    ensures
        match r {
            Some(i) => is_latest(timestamps@, i as int),
            None => timestamps@.len() == 0,
        },
{
    if timestamps.len() == 0 {
        return None;
    }
    let mut best: usize = 0;
    let mut i: usize = 1;
    while i < timestamps.len()
        invariant
            1 <= i <= timestamps.len(),
            is_latest(timestamps@.take(i as int), best as int),
        decreases timestamps.len() - i,
    {
        if timestamps[i] >= timestamps[best] {
            best = i;
        }
        i += 1;
        proof {
            let before = timestamps@.take(i - 1);
            let now = timestamps@.take(i as int);
            assert(forall|j: int| 0 <= j < i - 1 ==> before[j] == now[j]);
        }
    }
    proof {
        assert(timestamps@.take(i as int) =~= timestamps@);
    }
    Some(best)
}

/// The timestamps of those of the first `n` links whose target is one of the
/// first `count` pieces of content, in the order of the links.
pub open spec fn stamps_among(count: nat, links: Seq<(Seq<u8>, Seq<u8>)>, n: nat) -> Seq<u64>
    decreases n,
{
    if n == 0 {
        seq![]
    } else {
        let before = stamps_among(count, links, (n - 1) as nat);
        match address_serial(CONTENT_KIND, links[n - 1].1) {
            Some(t) => if t < count {
                before.push(t)
            } else {
                before
            },
            None => before,
        }
    }
}

/// Every timestamp found is that of one of the first `count` pieces of content.
pub proof fn lemma_stamps_bounded(count: nat, links: Seq<(Seq<u8>, Seq<u8>)>, n: nat)
    ensures
        forall|k: int|
            0 <= k < stamps_among(count, links, n).len() ==> (#[trigger] stamps_among(
                count,
                links,
                n,
            )[k]) < count,
    decreases n,
{
    if n > 0 {
        lemma_stamps_bounded(count, links, (n - 1) as nat);
        let before = stamps_among(count, links, (n - 1) as nat);
        assert forall|k: int| 0 <= k < stamps_among(count, links, n).len() implies (
        #[trigger] stamps_among(count, links, n)[k]) < count by {
            if k < before.len() {
                assert(stamps_among(count, links, n)[k] == before[k]);
            }
        }
    }
}

impl<T> StoreState<T> {
    /// The timestamps of the links whose target is stored content.
    pub open spec fn stamps(self, links: Seq<(Seq<u8>, Seq<u8>)>) -> Seq<u64> {
        stamps_among(self.slots.len(), links, links.len())
    }

    /// The identity that the anchor at `anchor` stands for.
    pub open spec fn anchored(self, anchor: Seq<u8>) -> Result<(Seq<u8>, Seq<u8>), DataIntegrityError> {
        if !self.minted(anchor) {
            Err(DataIntegrityError::NotFound)
        } else {
            match anchor_identity(anchor) {
                Some(identity) => Ok(identity),
                None => Err(DataIntegrityError::Corrupt),
            }
        }
    }

    /// The current revision of the record whose anchor is at `anchor`: of the
    /// revisions that the anchor is linked to, the one written last.
    pub open spec fn resolve(self, anchor: Seq<u8>) -> Result<(Seq<u8>, Seq<u8>), DataIntegrityError> {
        if !self.minted(anchor) {
            Err(DataIntegrityError::NotFound)
        } else {
            let stamps = self.stamps(self.links(anchor, RECORD_INITIAL_ENTRY_LINK_TAG@));
            if stamps.len() == 0 {
                Err(DataIntegrityError::Corrupt)
            } else {
                let address = serial_address(CONTENT_KIND, newest(stamps));
                if self.content(address) is None {
                    Err(DataIntegrityError::NotFound)
                } else {
                    Ok((self.partition, address))
                }
            }
        }
    }
}

/// Mints the anchor of `identity` under `entry_def_id` and returns its address.
/// Minting again changes nothing and returns the same address.
pub fn create_entry_identity<T>(store: &mut Store<T>, entry_def_id: &str, identity: &Identity) -> (r:
    Address)
    ensures
        r@ == anchor_address(entry_def_id@, identity@),
        final(store)@ == old(store)@.mint(r@),
{
    let anchor = calculate_identity_address(entry_def_id, identity);
    store.mint(anchor.clone());
    anchor
}

/// Reads the identity that the anchor at `identity_address` stands for. Fails
/// with `NotFound` where no anchor was minted there, and with `Corrupt` where
/// what was minted there is not an anchor of an identity.
pub fn read_entry_identity<T>(store: &Store<T>, identity_address: &Address) -> (r: Result<
    Identity,
    DataIntegrityError,
>)
    ensures
        match r {
            Ok(identity) => store@.anchored(identity_address@) == Ok::<
                (Seq<u8>, Seq<u8>),
                DataIntegrityError,
            >(identity@),
            Err(e) => store@.anchored(identity_address@) == Err::<
                (Seq<u8>, Seq<u8>),
                DataIntegrityError,
            >(e),
        },
{
    if !store.has_anchor(identity_address) {
        return Err(DataIntegrityError::NotFound);
    }
    match decode_identity_address(identity_address) {
        Some(identity) => Ok(identity),
        None => Err(DataIntegrityError::Corrupt),
    }
}

/// Retrieves the current revision of the record whose anchor is at
/// `identity_address`.
///
/// Of the revisions that the anchor is linked to, the one with the latest
/// timestamp is current, whether or not it descends from the others.
/// Fails with `NotFound` where no anchor was minted or the current revision was
/// deleted, and with `Corrupt` where the anchor leads to no revision at all.
pub fn get_latest_header_hash<T>(store: &Store<T>, identity_address: &Address) -> (r: Result<
    RevisionId,
    DataIntegrityError,
>)
    ensures
        match r {
            Ok(revision) => store@.resolve(identity_address@) == Ok::<
                (Seq<u8>, Seq<u8>),
                DataIntegrityError,
            >(revision@),
            Err(e) => store@.resolve(identity_address@) == Err::<
                (Seq<u8>, Seq<u8>),
                DataIntegrityError,
            >(e),
        },
{
    if !store.has_anchor(identity_address) {
        return Err(DataIntegrityError::NotFound);
    }
    let links = store.get_links(identity_address, RECORD_INITIAL_ENTRY_LINK_TAG);
    let mut stamps: Vec<u64> = Vec::new();
    let mut i: usize = 0;
    while i < links.len()
        invariant
            i <= links.len(),
            stamps@ == stamps_among(store@.slots.len(), links_view(links@), i as nat),
        decreases links.len() - i,
    {
        match store.timestamp(&links[i].target) {
            Some(t) => {
                stamps.push(t);
            },
            None => {},
        }
        i += 1;
    }
    match latest_by_timestamp(&stamps) {
        None => Err(DataIntegrityError::Corrupt),
        Some(k) => {
            proof {
                assert(is_newest(stamps@, stamps@[k as int]));
                lemma_newest(stamps@, stamps@[k as int]);
            }
            let address = Address::from_serial(CONTENT_KIND, stamps[k]);
            match store.get(&address) {
                Ok(_) => Ok(RevisionId { partition: store.partition().clone(), address }),
                Err(e) => Err(e),
            }
        },
    }
}

} // verus!
