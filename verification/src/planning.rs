//! Rules and wiring of a planning partition: what a commitment must hold to be
//! accepted, and the index of fulfillments that the partition keeps for the
//! commitments of others.
use crate::address::anchor_address;
use crate::error::DataIntegrityError;
use crate::remote_indexes::{
    answers, sync_remote_index, RemoteEntryLinkRequest, RemoteEntryLinkResponse,
};
use crate::store::Store;
use vstd::prelude::*;

verus! {

/// The namespace of commitments.
pub const COMMITMENT_ENTRY_TYPE: &'static str = "vf_commitment";

/// The namespace of fulfillments.
pub const FULFILLMENT_ENTRY_TYPE: &'static str = "vf_fulfillment";

/// The label of the edges from a commitment to what fulfills it.
pub const COMMITMENT_FULFILLEDBY_LINK_TAG: &'static str = "fulfilled_by";

/// The label of the edges from a fulfillment to the commitment it fulfills.
pub const FULFILLMENT_FULFILLS_LINK_TAG: &'static str = "fulfills";

/// Why a commitment that names no resource is refused.
pub const COMMITMENT_NEEDS_RESOURCE: &'static str =
    "Commitment must reference an inventoried resource, resource specification or resource classification";

/// Why a commitment without a quantity is refused.
pub const COMMITMENT_NEEDS_QUANTITY: &'static str =
    "Commmitment must include either a resource quantity or an effort quantity";

/// Why a commitment without a time is refused.
pub const COMMITMENT_NEEDS_TIME: &'static str =
    "Commmitment must have a beginning, end, exact time or due date";

/// Which of the fields that the rules look at a commitment holds.
#[derive(Debug, Clone, Copy, PartialEq, Eq, Structural)]
pub struct CommitmentFields {
    pub resource_inventoried_as: bool,
    pub resource_classified_as: bool,
    pub resource_conforms_to: bool,
    pub resource_quantity: bool,
    pub effort_quantity: bool,
    pub has_beginning: bool,
    pub has_end: bool,
    pub has_point_in_time: bool,
    pub due: bool,
}

/// Where the records that an index leads to are stored.
#[derive(Debug, Clone, PartialEq)]
pub struct IndexingZomeConfig {
    pub record_storage_zome: String,
}

/// The part of a partition's configuration that the fulfillment index reads.
#[derive(Debug, Clone, PartialEq)]
pub struct DnaConfigSlice {
    pub fulfillment_index: IndexingZomeConfig,
}

impl CommitmentFields {
    /// Whether the commitment names a resource, a specification or a classification.
    pub open spec fn names_resource(self) -> bool {
        self.resource_inventoried_as || self.resource_classified_as || self.resource_conforms_to
    }

    /// Whether the commitment holds a quantity of a resource or of effort.
    pub open spec fn has_quantity(self) -> bool {
        self.resource_quantity || self.effort_quantity
    }

    /// Whether the commitment holds a beginning, an end, a point in time or a due date.
    pub open spec fn has_time(self) -> bool {
        self.has_beginning || self.has_end || self.has_point_in_time || self.due
    }

    /// The reason to refuse the commitment, if there is one: the first rule
    /// that it breaks.
    pub open spec fn refusal(self) -> Option<Seq<char>> {
        if !self.names_resource() {
            Some(COMMITMENT_NEEDS_RESOURCE@)
        } else if !self.has_quantity() {
            Some(COMMITMENT_NEEDS_QUANTITY@)
        } else if !self.has_time() {
            Some(COMMITMENT_NEEDS_TIME@)
        } else {
            None
        }
    }
}

/// Decides whether a commitment may be created. It must name a resource, hold
/// a quantity and hold a time; it is refused with the reason of the first of
/// these that it lacks.
pub fn validate_commitment(record: &CommitmentFields) -> (r: Result<(), String>)
    ensures
        match r {
            Ok(()) => record.refusal() is None,
            Err(reason) => record.refusal() == Some(reason@),
        },
{
    if !(record.resource_inventoried_as || record.resource_classified_as
        || record.resource_conforms_to) {
        return Err(COMMITMENT_NEEDS_RESOURCE.to_owned());
    }
    if !(record.resource_quantity || record.effort_quantity) {
        return Err(COMMITMENT_NEEDS_QUANTITY.to_owned());
    }
    if !(record.has_beginning || record.has_end || record.has_point_in_time || record.due) {
        return Err(COMMITMENT_NEEDS_TIME.to_owned());
    }
    Ok(())
}

/// Decides whether an agent may join. Every agent may.
pub fn validate_agent(agent: &[u8]) -> (r: Result<(), String>)
    ensures
        r is Ok,
{
    Ok(())
}

/// The name of the cell that stores the records of the fulfillment index.
pub fn read_index_target_zome(conf: &DnaConfigSlice) -> (r: Option<String>)
    ensures
        r matches Some(name) && name@ == conf.fulfillment_index.record_storage_zome@,
{
    Some(conf.fulfillment_index.record_storage_zome.clone())
}

/// Serves the request of another partition to reconcile this partition's index
/// of the fulfillments of one of its commitments.
pub fn _internal_reindex_commitments<T>(store: &mut Store<T>, indexes: &RemoteEntryLinkRequest) -> (r:
    Result<RemoteEntryLinkResponse, DataIntegrityError>)
    ensures
        final(store)@ == old(store)@.after_update_index(
            anchor_address(COMMITMENT_ENTRY_TYPE@, indexes@.remote_entry),
            FULFILLMENT_ENTRY_TYPE@,
            COMMITMENT_FULFILLEDBY_LINK_TAG@,
            FULFILLMENT_FULFILLS_LINK_TAG@,
            indexes@.target_entries,
            indexes@.removed_entries,
        ),
        answers(
            r,
            old(store)@.synced(
                anchor_address(COMMITMENT_ENTRY_TYPE@, indexes@.remote_entry),
                FULFILLMENT_ENTRY_TYPE@,
                COMMITMENT_FULFILLEDBY_LINK_TAG@,
                FULFILLMENT_FULFILLS_LINK_TAG@,
                indexes@.target_entries,
                indexes@.removed_entries,
            ),
        ),
{
    sync_remote_index(
        store,
        COMMITMENT_ENTRY_TYPE,
        &indexes.remote_entry,
        FULFILLMENT_ENTRY_TYPE,
        indexes.target_entries.as_slice(),
        indexes.removed_entries.as_slice(),
        COMMITMENT_FULFILLEDBY_LINK_TAG,
        FULFILLMENT_FULFILLS_LINK_TAG,
    )
}

} // verus!
