use graph_records::address::{Address, Identity, Partition};
use graph_records::error::DataIntegrityError;
use graph_records::local_indexes::read_index;
use graph_records::planning::{
    _internal_reindex_commitments, read_index_target_zome, validate_agent, validate_commitment,
    CommitmentFields, DnaConfigSlice, IndexingZomeConfig,
};
use graph_records::queries::{generate_query_handler, handle_list_output, QueryParams};
use graph_records::records::{create_record, delete_record};
use graph_records::remote_indexes::{
    call_zome, create_foreign_index, read_foreign_index, sync_remote_index, update_foreign_index, Cell,
    IndexEndpoint, RemoteEntryLinkRequest,
};
use graph_records::local_indexes::create_index;
use graph_records::store::Store;

fn partition(n: u8) -> Partition {
    Partition::from_raw_36(vec![n; 36])
}

fn id(p: u8, n: u8) -> Identity {
    Identity { partition: partition(p), address: Address { bytes: vec![0, n, 0, 0, 0, 0, 0, 0, 0] } }
}

fn no_filters() -> QueryParams {
    QueryParams { input_of: None, output_of: None, satisfies: None, fulfills: None, realization_of: None }
}

fn edge(n: u8) -> Address {
    Address { bytes: vec![2, n, 0, 0, 0, 0, 0, 0, 0] }
}

fn endpoint(name: &str, remote: &str, local: &str, tag: &str, back: &str) -> IndexEndpoint {
    IndexEndpoint {
        fn_name: name.to_string(),
        remote_entry_type: remote.to_string(),
        local_entry_type: local.to_string(),
        link_tag: tag.to_string(),
        link_tag_reciprocal: back.to_string(),
    }
}

fn cells() -> Vec<Cell<u64>> {
    vec![
        Cell {
            zome_name: "event_index".to_string(),
            store: Store::new(partition(1)),
            endpoints: vec![endpoint("index_input_of", "event", "process", "input_of", "inputs")],
        },
        Cell {
            zome_name: "process_index".to_string(),
            store: Store::new(partition(2)),
            endpoints: vec![endpoint("index_inputs", "process", "event", "inputs", "input_of")],
        },
    ]
}

#[test]
fn foreign_index_is_written_on_both_sides() {
    let mut cells = cells();
    let event = id(1, 1);
    let process = id(2, 7);
    let (first, second) = create_foreign_index(
        &mut cells, Some("event_index"), "index_input_of", &event, Some("process_index"), "index_inputs", &process,
    ).unwrap();
    assert_eq!(first.indexes_created, vec![Ok(edge(0)), Ok(edge(1))]);
    assert_eq!(first.indexes_removed, vec![]);
    assert_eq!(second.indexes_created, vec![Ok(edge(0)), Ok(edge(1))]);
    assert_eq!(read_foreign_index(&cells, Some("event_index"), "index_input_of", &event), Ok(vec![process.clone()]));
    assert_eq!(read_foreign_index(&cells, Some("process_index"), "index_inputs", &process), Ok(vec![event.clone()]));
    assert_eq!(read_index(&cells[1].store, "event", &event, "input_of"), Ok(vec![Ok(process.clone())]));
}

#[test]
fn unreachable_origin_changes_nothing() {
    let mut cells = cells();
    let event = id(1, 1);
    let process = id(2, 7);
    assert_eq!(
        create_foreign_index(&mut cells, None, "index_input_of", &event, Some("process_index"), "index_inputs", &process),
        Err(DataIntegrityError::RemoteCallFailure)
    );
    assert_eq!(
        create_foreign_index(&mut cells, Some("nowhere"), "index_input_of", &event, Some("process_index"), "index_inputs", &process),
        Err(DataIntegrityError::RemoteCallFailure)
    );
    assert_eq!(
        create_foreign_index(&mut cells, Some("event_index"), "no_such_fn", &event, Some("process_index"), "index_inputs", &process),
        Err(DataIntegrityError::RemoteCallFailure)
    );
    assert_eq!(read_foreign_index(&cells, Some("process_index"), "index_inputs", &process), Ok(vec![]));
    assert_eq!(read_foreign_index(&cells, Some("event_index"), "index_input_of", &event), Ok(vec![]));
    assert_eq!(
        read_foreign_index(&cells, None, "index_input_of", &event),
        Err(DataIntegrityError::RemoteCallFailure)
    );
    assert_eq!(
        read_foreign_index(&cells, Some("event_index"), "nothing", &event),
        Err(DataIntegrityError::RemoteCallFailure)
    );
}

#[test]
fn failing_destination_leaves_the_origin_side_written() {
    let mut cells = cells();
    let event = id(1, 1);
    let process = id(2, 7);
    assert_eq!(
        create_foreign_index(&mut cells, Some("event_index"), "index_input_of", &event, None, "index_inputs", &process),
        Err(DataIntegrityError::PartialIndexFailure)
    );
    assert_eq!(read_foreign_index(&cells, Some("event_index"), "index_input_of", &event), Ok(vec![process.clone()]));
    assert_eq!(read_foreign_index(&cells, Some("process_index"), "index_inputs", &process), Ok(vec![]));
}

#[test]
fn foreign_index_is_reconciled_on_both_sides() {
    let mut cells = cells();
    let event = id(1, 1);
    let old_process = id(2, 7);
    let new_process = id(2, 8);
    create_foreign_index(
        &mut cells, Some("event_index"), "index_input_of", &event, Some("process_index"), "index_inputs", &old_process,
    ).unwrap();
    let answers = update_foreign_index(
        &mut cells, Some("event_index"), "index_input_of", &event, Some("process_index"), "index_inputs",
        &[new_process.clone()], &[old_process.clone()],
    ).unwrap();
    assert_eq!(answers.len(), 3);
    assert_eq!(answers[0].indexes_removed, vec![Ok(edge(0)), Ok(edge(1))]);
    assert_eq!(answers[0].indexes_created, vec![Ok(edge(2)), Ok(edge(3))]);
    assert_eq!(answers[1].indexes_created, vec![Ok(edge(2)), Ok(edge(3))]);
    assert_eq!(answers[2].indexes_removed, vec![Ok(edge(0)), Ok(edge(1))]);
    assert_eq!(read_foreign_index(&cells, Some("event_index"), "index_input_of", &event), Ok(vec![new_process.clone()]));
    assert_eq!(read_foreign_index(&cells, Some("process_index"), "index_inputs", &new_process), Ok(vec![event.clone()]));
    assert_eq!(read_foreign_index(&cells, Some("process_index"), "index_inputs", &old_process), Ok(vec![]));
    assert_eq!(
        update_foreign_index(
            &mut cells, Some("event_index"), "index_input_of", &event, None, "index_inputs", &[], &[new_process.clone()],
        ),
        Err(DataIntegrityError::PartialIndexFailure)
    );
    assert_eq!(read_foreign_index(&cells, Some("event_index"), "index_input_of", &event), Ok(vec![]));
    assert_eq!(read_foreign_index(&cells, Some("process_index"), "index_inputs", &new_process), Ok(vec![event.clone()]));
    assert_eq!(
        update_foreign_index(&mut cells, None, "index_input_of", &event, None, "index_inputs", &[], &[]),
        Err(DataIntegrityError::RemoteCallFailure)
    );
}

#[test]
fn request_is_served_by_the_named_endpoint() {
    let mut cells = cells();
    let request = RemoteEntryLinkRequest {
        remote_entry: id(1, 1),
        target_entries: vec![id(2, 7), id(2, 8)],
        removed_entries: vec![],
    };
    let answer = call_zome(&mut cells, Some("event_index"), "index_input_of", &request).unwrap();
    assert_eq!(answer.indexes_created.len(), 4);
    assert_eq!(cells[0].find_endpoint("index_input_of"), Some(0));
    assert_eq!(cells[0].find_endpoint("index_inputs"), None);
    assert_eq!(cells[0].read("index_input_of", &id(1, 1)), Ok(vec![id(2, 7), id(2, 8)]));
    assert_eq!(cells[0].receive("unknown", &request), Err(DataIntegrityError::RemoteCallFailure));
}

#[test]
fn remote_index_is_synchronised() {
    let mut store: Store<u64> = Store::new(partition(2));
    let commitment = id(1, 3);
    let answer = sync_remote_index(
        &mut store, "commitment", &commitment, "fulfillment", &[id(2, 1), id(2, 2)], &[], "fulfilled_by", "fulfills",
    ).unwrap();
    assert_eq!(answer.indexes_created, vec![Ok(edge(0)), Ok(edge(1)), Ok(edge(2)), Ok(edge(3))]);
    assert_eq!(answer.indexes_removed, vec![]);
    let answer = sync_remote_index(
        &mut store, "commitment", &commitment, "fulfillment", &[], &[id(2, 1)], "fulfilled_by", "fulfills",
    ).unwrap();
    assert_eq!(answer.indexes_created, vec![]);
    assert_eq!(answer.indexes_removed, vec![Ok(edge(0)), Ok(edge(1))]);
    assert_eq!(read_index(&store, "commitment", &commitment, "fulfilled_by"), Ok(vec![Ok(id(2, 2))]));
    assert_eq!(read_index(&store, "fulfillment", &id(2, 2), "fulfills"), Ok(vec![Ok(commitment.clone())]));
}

#[test]
fn commitments_are_reindexed() {
    let mut store: Store<u64> = Store::new(partition(2));
    let request = RemoteEntryLinkRequest {
        remote_entry: id(1, 3),
        target_entries: vec![id(2, 1)],
        removed_entries: vec![],
    };
    let answer = _internal_reindex_commitments(&mut store, &request).unwrap();
    assert_eq!(answer.indexes_created, vec![Ok(edge(0)), Ok(edge(1))]);
    assert_eq!(read_index(&store, "vf_commitment", &id(1, 3), "fulfilled_by"), Ok(vec![Ok(id(2, 1))]));
    assert_eq!(read_index(&store, "vf_fulfillment", &id(2, 1), "fulfills"), Ok(vec![Ok(id(1, 3))]));
}

#[test]
fn commitment_rules() {
    let all = CommitmentFields {
        resource_inventoried_as: true,
        resource_classified_as: false,
        resource_conforms_to: false,
        resource_quantity: false,
        effort_quantity: true,
        has_beginning: false,
        has_end: false,
        has_point_in_time: false,
        due: true,
    };
    assert_eq!(validate_commitment(&all), Ok(()));
    let no_resource = CommitmentFields { resource_inventoried_as: false, ..all };
    assert_eq!(
        validate_commitment(&no_resource),
        Err("Commitment must reference an inventoried resource, resource specification or resource classification".to_string())
    );
    assert_eq!(validate_commitment(&CommitmentFields { resource_conforms_to: true, ..no_resource }), Ok(()));
    assert_eq!(
        validate_commitment(&CommitmentFields { effort_quantity: false, ..all }),
        Err("Commmitment must include either a resource quantity or an effort quantity".to_string())
    );
    assert_eq!(
        validate_commitment(&CommitmentFields { due: false, ..all }),
        Err("Commmitment must have a beginning, end, exact time or due date".to_string())
    );
    assert_eq!(
        validate_commitment(&CommitmentFields { due: false, effort_quantity: false, ..all }),
        Err("Commmitment must include either a resource quantity or an effort quantity".to_string())
    );
    assert_eq!(validate_commitment(&CommitmentFields { due: false, has_end: true, ..all }), Ok(()));
    assert_eq!(validate_agent(&[1, 2, 3]), Ok(()));
    let conf = DnaConfigSlice { fulfillment_index: IndexingZomeConfig { record_storage_zome: "fulfillment".to_string() } };
    assert_eq!(read_index_target_zome(&conf), Some("fulfillment".to_string()));
}

#[test]
fn query_without_filter_is_refused() {
    let store: Store<u64> = Store::new(partition(1));
    let handler = generate_query_handler("process", "fulfillment", "satisfaction", "agreement");
    assert_eq!(handler.handle(&store, &no_filters()), Err(DataIntegrityError::EmptyQuery));
    let some = QueryParams { input_of: Some(id(1, 1)), ..no_filters() };
    assert_eq!(handler.handle(&store, &some), Ok(vec![]));
}

#[test]
fn query_reads_the_selected_index_and_leaves_out_what_cannot_be_read() {
    let mut store: Store<u64> = Store::new(partition(1));
    let (r1, e1, _) = create_record(&mut store, "event", 1).unwrap();
    let (r2, e2, _) = create_record(&mut store, "event", 2).unwrap();
    let (r3, e3, _) = create_record(&mut store, "event", 3).unwrap();
    let process = id(1, 100);
    let agreement = id(1, 101);
    create_index(&mut store, "process", &process, "event", &e1, "inputs", "input_of").unwrap();
    create_index(&mut store, "process", &process, "event", &e2, "inputs", "input_of").unwrap();
    create_index(&mut store, "process", &process, "event", &e3, "outputs", "output_of").unwrap();
    create_index(&mut store, "agreement", &agreement, "event", &e2, "economic_events", "realization_of").unwrap();
    let handler = generate_query_handler("process", "fulfillment", "satisfaction", "agreement");
    let inputs = QueryParams { input_of: Some(process.clone()), ..no_filters() };
    assert_eq!(
        handler.handle(&store, &inputs),
        Ok(vec![(r1.clone(), e1.clone(), 1), (r2.clone(), e2.clone(), 2)])
    );
    let both = QueryParams { input_of: Some(process.clone()), output_of: Some(process.clone()), satisfies: None, fulfills: None, realization_of: None };
    assert_eq!(handler.handle(&store, &both), Ok(vec![(r3.clone(), e3.clone(), 3)]));
    let all = QueryParams { input_of: Some(process.clone()), output_of: Some(process.clone()), realization_of: Some(agreement.clone()), ..no_filters() };
    assert_eq!(handler.handle(&store, &all), Ok(vec![(r2.clone(), e2.clone(), 2)]));
    delete_record(&mut store, &r1).unwrap();
    assert_eq!(handler.handle(&store, &inputs), Ok(vec![(r2.clone(), e2.clone(), 2)]));
    assert_eq!(handle_list_output(&store, "process", &process, "inputs"), vec![(r2, e2, 2)]);
    assert_eq!(read_index(&store, "process", &process, "inputs").unwrap().len(), 2);
    assert_eq!(handler.handle(&store, &QueryParams { fulfills: Some(id(1, 9)), ..no_filters() }), Ok(vec![]));
    assert_eq!(handler.handle(&store, &QueryParams { satisfies: Some(id(1, 9)), ..no_filters() }), Ok(vec![]));
}
