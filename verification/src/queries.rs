//! Queries for the records that an index leads to.
//!
//! A query names the record to start from by one of several filters. A query
//! that names none is refused. Records that cannot be read are left out of the
//! result; how many were left out shows in the difference to the length of the
//! index.
use crate::address::{anchor_address, calculate_identity_address, Identity, RevisionId};
use crate::error::DataIntegrityError;
use crate::records::{read_record_entry_by_identity, Qualified};
use crate::store::{links_view, Store, StoreState};
use vstd::prelude::*;

verus! {

/// The label of the edges from a satisfaction to the events that satisfy it.
pub const SATISFACTION_SATISFIEDBY_LINK_TAG: &'static str = "satisfied_by";

/// The label of the edges from a fulfillment to the events that fulfill it.
pub const FULFILLMENT_FULFILLEDBY_LINK_TAG: &'static str = "fulfilled_by";

/// The label of the edges from a process to the events that are its inputs.
pub const PROCESS_EVENT_INPUTS_LINK_TAG: &'static str = "inputs";

/// The label of the edges from a process to the events that are its outputs.
pub const PROCESS_EVENT_OUTPUTS_LINK_TAG: &'static str = "outputs";

/// The label of the edges from an agreement to the events that realize it.
pub const AGREEMENT_EVENTS_LINK_TAG: &'static str = "economic_events";

/// The filters of a query. Each names a record whose index is to be read.
#[derive(Debug, PartialEq)]
pub struct QueryParams {
    pub input_of: Option<Identity>,
    pub output_of: Option<Identity>,
    pub satisfies: Option<Identity>,
    pub fulfills: Option<Identity>,
    pub realization_of: Option<Identity>,
}

/// Where the records that a query starts from are kept: the namespace of each
/// kind of record.
#[derive(Debug, PartialEq)]
pub struct QueryHandler {
    pub process_entry_def_id: String,
    pub fulfillment_entry_def_id: String,
    pub satisfaction_entry_def_id: String,
    pub agreement_entry_def_id: String,
}

/// The index that a query reads: the namespace and identity of the record it
/// starts from, and the label of the edges it follows.
pub struct Selection {
    pub entry_type: Seq<char>,
    pub base: Qualified,
    pub link_tag: Seq<char>,
}

/// The value of an optional identity.
pub open spec fn filter_view(filter: Option<Identity>) -> Option<Qualified> {
    match filter {
        Some(identity) => Some(identity@),
        None => None,
    }
}

impl QueryHandler {
    /// The index that the query reads. Where several filters are given, the
    /// last of this list decides: what is satisfied, what is fulfilled, the
    /// process that the event is an input of, the process that it is an output
    /// of, the agreement that it realizes. `None` where no filter is given.
    pub open spec fn selection(self, params: QueryParams) -> Option<Selection> {
        if let Some(base) = params.realization_of {
            Some(
                Selection {
                    entry_type: self.agreement_entry_def_id@,
                    base: base@,
                    link_tag: AGREEMENT_EVENTS_LINK_TAG@,
                },
            )
        } else if let Some(base) = params.output_of {
            Some(
                Selection {
                    entry_type: self.process_entry_def_id@,
                    base: base@,
                    link_tag: PROCESS_EVENT_OUTPUTS_LINK_TAG@,
                },
            )
        } else if let Some(base) = params.input_of {
            Some(
                Selection {
                    entry_type: self.process_entry_def_id@,
                    base: base@,
                    link_tag: PROCESS_EVENT_INPUTS_LINK_TAG@,
                },
            )
        } else if let Some(base) = params.fulfills {
            Some(
                Selection {
                    entry_type: self.fulfillment_entry_def_id@,
                    base: base@,
                    link_tag: FULFILLMENT_FULFILLEDBY_LINK_TAG@,
                },
            )
        } else if let Some(base) = params.satisfies {
            Some(
                Selection {
                    entry_type: self.satisfaction_entry_def_id@,
                    base: base@,
                    link_tag: SATISFACTION_SATISFIEDBY_LINK_TAG@,
                },
            )
        } else {
            None
        }
    }
}

impl<T> StoreState<T> {
    /// The records that the first `n` of the links lead to, leaving out those
    /// that cannot be read.
    pub open spec fn readable_among(self, links: Seq<(Seq<u8>, Seq<u8>)>, n: nat) -> Seq<
        (Qualified, Qualified, T),
    >
        decreases n,
    {
        if n == 0 {
            seq![]
        } else {
            let before = self.readable_among(links, (n - 1) as nat);
            match self.record_of(links[n - 1].1) {
                Ok(record) => before.push(record),
                Err(_) => before,
            }
        }
    }

    /// The records that the index of `base` leads to under `link_tag`, leaving
    /// out those that cannot be read.
    pub open spec fn readable(self, entry_type: Seq<char>, base: Qualified, link_tag: Seq<char>) -> Seq<
        (Qualified, Qualified, T),
    > {
        let links = self.links(anchor_address(entry_type, base), link_tag);
        self.readable_among(links, links.len())
    }
}

/// Whether the records returned are the records held: as many, in the same
/// order, each with the same revision and identity and a clone of the record.
pub open spec fn lists<T: Clone>(
    returned: Seq<(RevisionId, Identity, T)>,
    held: Seq<(Qualified, Qualified, T)>,
) -> bool {
    &&& returned.len() == held.len()
    &&& forall|i: int|
        0 <= i < returned.len() ==> {
            &&& (#[trigger] returned[i]).0@ == held[i].0
            &&& returned[i].1@ == held[i].1
            &&& cloned(held[i].2, returned[i].2)
        }
}

/// Makes the handler of queries for the given namespaces.
pub fn generate_query_handler(
    process_entry_def_id: &str,
    fulfillment_entry_def_id: &str,
    satisfaction_entry_def_id: &str,
    agreement_entry_def_id: &str,
) -> (r: QueryHandler)
    ensures
        r.process_entry_def_id@ == process_entry_def_id@,
        r.fulfillment_entry_def_id@ == fulfillment_entry_def_id@,
        r.satisfaction_entry_def_id@ == satisfaction_entry_def_id@,
        r.agreement_entry_def_id@ == agreement_entry_def_id@,
{
    QueryHandler {
        process_entry_def_id: process_entry_def_id.to_owned(),
        fulfillment_entry_def_id: fulfillment_entry_def_id.to_owned(),
        satisfaction_entry_def_id: satisfaction_entry_def_id.to_owned(),
        agreement_entry_def_id: agreement_entry_def_id.to_owned(),
    }
}

/// Reads the records that the index of `base_address` leads to under
/// `link_tag`, in the order of the index, leaving out each record that cannot
/// be read.
pub fn handle_list_output<T: Clone>(
    store: &Store<T>,
    base_entry_type: &str,
    base_address: &Identity,
    link_tag: &str,
) -> (r: Vec<(RevisionId, Identity, T)>)
    ensures
        lists(r@, store@.readable(base_entry_type@, base_address@, link_tag@)),
{
    let index_address = calculate_identity_address(base_entry_type, base_address);
    let links = store.get_links(&index_address, link_tag);
    let mut found: Vec<(RevisionId, Identity, T)> = Vec::new();
    let mut i: usize = 0;
    while i < links.len()
        invariant
            i <= links.len(),
            lists(found@, store@.readable_among(links_view(links@), i as nat)),
        decreases links.len() - i,
    {
        assert(links_view(links@)[i as int] == links@[i as int]@);
        match read_record_entry_by_identity(store, &links[i].target) {
            Ok(record) => {
                found.push(record);
            },
            Err(_) => {},
        }
        i += 1;
    }
    found
}

impl QueryHandler {
    /// Answers a query: reads the records that the selected index leads to,
    /// leaving out those that cannot be read. Fails with `EmptyQuery` exactly
    /// where the query gives no filter.
    pub fn handle<T: Clone>(&self, store: &Store<T>, params: &QueryParams) -> (r: Result<
        Vec<(RevisionId, Identity, T)>,
        DataIntegrityError,
    >)
        ensures
            match (r, self.selection(*params)) {
                (Ok(found), Some(selected)) => lists(
                    found@,
                    store@.readable(selected.entry_type, selected.base, selected.link_tag),
                ),
                (Err(e), None) => e == DataIntegrityError::EmptyQuery,
                _ => false,
            },
    {
        if let Some(base) = &params.realization_of {
            Ok(
                handle_list_output(
                    store,
                    self.agreement_entry_def_id.as_str(),
                    base,
                    AGREEMENT_EVENTS_LINK_TAG,
                ),
            )
        } else if let Some(base) = &params.output_of {
            Ok(
                handle_list_output(
                    store,
                    self.process_entry_def_id.as_str(),
                    base,
                    PROCESS_EVENT_OUTPUTS_LINK_TAG,
                ),
            )
        } else if let Some(base) = &params.input_of {
            Ok(
                handle_list_output(
                    store,
                    self.process_entry_def_id.as_str(),
                    base,
                    PROCESS_EVENT_INPUTS_LINK_TAG,
                ),
            )
        } else if let Some(base) = &params.fulfills {
            Ok(
                handle_list_output(
                    store,
                    self.fulfillment_entry_def_id.as_str(),
                    base,
                    FULFILLMENT_FULFILLEDBY_LINK_TAG,
                ),
            )
        } else if let Some(base) = &params.satisfies {
            Ok(
                handle_list_output(
                    store,
                    self.satisfaction_entry_def_id.as_str(),
                    base,
                    SATISFACTION_SATISFIEDBY_LINK_TAG,
                ),
            )
        } else {
            Err(DataIntegrityError::EmptyQuery)
        }
    }
}

} // verus!
