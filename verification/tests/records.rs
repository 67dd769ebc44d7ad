use graph_records::address::{Address, Identity, Partition, RevisionId};
use graph_records::error::DataIntegrityError;
use graph_records::identity::{
    create_entry_identity, get_latest_header_hash, latest_by_timestamp, read_entry_identity,
};
use graph_records::records::{
    create_record, delete_record, read_record_entry, read_record_entry_by_header,
    read_record_entry_by_identity, update_record, write_revision, Updateable,
};
use graph_records::store::Store;

#[derive(Clone, PartialEq, Debug)]
pub struct Entry {
    field: Option<String>,
}

#[derive(Clone)]
pub struct CreateRequest {
    field: Option<String>,
}

impl From<CreateRequest> for Entry {
    fn from(e: CreateRequest) -> Entry {
        Entry { field: e.field.into() }
    }
}

#[derive(Clone)]
pub struct UpdateRequest {
    field: Option<String>,
}

impl Updateable<UpdateRequest> for Entry {
    fn update_with(&self, e: UpdateRequest) -> Entry {
        Entry { field: e.field.to_owned() }
    }
}

fn partition() -> Partition {
    Partition::from_raw_36(vec![0xdb; 36])
}

fn other_partition() -> Partition {
    Partition::from_raw_36(vec![0x11; 36])
}

#[test]
fn test_roundtrip() {
    let entry_type: String = "testing".to_string();
    let mut store: Store<Entry> = Store::new(partition());

    // CREATE
    let (header_addr, base_address, initial_entry): (_, Identity, Entry) =
        create_record(&mut store, &entry_type, CreateRequest { field: None }.into()).unwrap();

    // Verify read
    let (header_addr_2, returned_address, first_entry) =
        read_record_entry(&store, &entry_type, &base_address.address).unwrap();
    assert_eq!(header_addr, header_addr_2, "record should have same header ID on read as for creation");
    assert_eq!(base_address.address, returned_address.address, "record should have same identifier ID on read as for creation");
    assert_eq!(initial_entry, first_entry, "record from creation output should be same as read data");

    // UPDATE
    let (updated_header_addr, identity_address, updated_entry, _previous): (_, Identity, Entry, Entry) =
        update_record(&mut store, &entry_type, &header_addr, UpdateRequest { field: Some("value".into()) }).unwrap();

    // Verify update & read
    assert_eq!(base_address.address, identity_address.address, "record should have consistent ID over updates");
    assert_ne!(header_addr, updated_header_addr, "record revision should change after update");
    assert_eq!(updated_entry, Entry { field: Some("value".into()) }, "returned record should be changed after update");
    let (header_addr_3, returned_address_3, third_entry) =
        read_record_entry(&store, &entry_type, &identity_address.address).unwrap();
    assert_eq!(base_address.address, returned_address_3.address, "record should have consistent ID over updates");
    assert_eq!(header_addr_3, updated_header_addr, "record revision should be same as latest update");
    assert_eq!(third_entry, Entry { field: Some("value".into()) }, "retrieved record should be changed after update");

    // DELETE
    let _ = delete_record(&mut store, &updated_header_addr);

    // Verify read failure
    let _failure = read_record_entry(&store, &entry_type, &identity_address.address).err().unwrap();
}

#[test]
fn create_returns_first_revision_as_identity() {
    let mut store: Store<Entry> = Store::new(partition());
    let (rev, id, entry) = create_record(&mut store, "testing", Entry { field: None }).unwrap();
    assert_eq!(rev.partition, partition());
    assert_eq!(id.partition, partition());
    assert_eq!(rev.address, id.address);
    assert_eq!(rev.address, Address { bytes: vec![0, 0, 0, 0, 0, 0, 0, 0, 0] });
    assert_eq!(entry, Entry { field: None });
    let (rev2, id2, _) = create_record(&mut store, "testing", Entry { field: None }).unwrap();
    assert_eq!(rev2.address, Address { bytes: vec![0, 1, 0, 0, 0, 0, 0, 0, 0] });
    assert_ne!(id.address, id2.address);
}

#[test]
fn scenario_create_update_delete() {
    let mut store: Store<Entry> = Store::new(partition());
    let (r1, i, _) = create_record(&mut store, "testing", Entry { field: None }).unwrap();
    let (read_rev, read_id, read_entry) = read_record_entry(&store, "testing", &i.address).unwrap();
    assert_eq!((read_rev, read_id, read_entry), (r1.clone(), i.clone(), Entry { field: None }));
    let (r2, i2, new_entry, old_entry) =
        update_record(&mut store, "testing", &r1, UpdateRequest { field: Some("value".to_string()) }).unwrap();
    assert_ne!(r2, r1);
    assert_eq!(i2, i);
    assert_eq!(new_entry, Entry { field: Some("value".to_string()) });
    assert_eq!(old_entry, Entry { field: None });
    let (rev, id, entry) = read_record_entry(&store, "testing", &i.address).unwrap();
    assert_eq!((rev, id, entry), (r2.clone(), i.clone(), Entry { field: Some("value".to_string()) }));
    assert_eq!(delete_record(&mut store, &r2), Ok(true));
    assert_eq!(read_record_entry(&store, "testing", &i.address), Err(DataIntegrityError::NotFound));
}

#[test]
fn revision_reads_the_same_after_update() {
    let mut store: Store<Entry> = Store::new(partition());
    let (r1, i, _) = create_record(&mut store, "testing", Entry { field: Some("a".to_string()) }).unwrap();
    let before = read_record_entry_by_header(&store, &r1).unwrap();
    let (r2, _, _, _) = write_revision(&mut store, "testing", &r1, Entry { field: Some("b".to_string()) }).unwrap();
    let after = read_record_entry_by_header(&store, &r1).unwrap();
    assert_eq!(before, after);
    assert_eq!(before, (i.clone(), Entry { field: Some("a".to_string()) }));
    assert_eq!(read_record_entry_by_header(&store, &r2).unwrap(), (i, Entry { field: Some("b".to_string()) }));
}

#[test]
fn delete_is_terminal() {
    let mut store: Store<Entry> = Store::new(partition());
    let (r1, i, _) = create_record(&mut store, "testing", Entry { field: None }).unwrap();
    assert_eq!(delete_record(&mut store, &r1), Ok(true));
    assert_eq!(read_record_entry_by_header(&store, &r1), Err(DataIntegrityError::NotFound));
    assert_eq!(delete_record(&mut store, &r1), Err(DataIntegrityError::NotFound));
    assert_eq!(
        update_record(&mut store, "testing", &r1, UpdateRequest { field: Some("x".to_string()) }),
        Err(DataIntegrityError::NotFound)
    );
    assert_eq!(
        write_revision(&mut store, "testing", &r1, Entry { field: None }),
        Err(DataIntegrityError::NotFound)
    );
    let _ = create_record(&mut store, "testing", Entry { field: None }).unwrap();
    assert_eq!(read_record_entry_by_header(&store, &r1), Err(DataIntegrityError::NotFound));
    assert_eq!(read_record_entry(&store, "testing", &i.address), Err(DataIntegrityError::NotFound));
}

#[test]
fn deleting_an_old_revision_keeps_the_record() {
    let mut store: Store<Entry> = Store::new(partition());
    let (r1, i, _) = create_record(&mut store, "testing", Entry { field: None }).unwrap();
    let (r2, _, _, _) =
        update_record(&mut store, "testing", &r1, UpdateRequest { field: Some("v".to_string()) }).unwrap();
    assert_eq!(delete_record(&mut store, &r1), Ok(true));
    let (rev, id, entry) = read_record_entry(&store, "testing", &i.address).unwrap();
    assert_eq!(rev, r2);
    assert_eq!(id, i);
    assert_eq!(entry, Entry { field: Some("v".to_string()) });
}

#[test]
fn later_of_two_updates_of_one_revision_wins() {
    let mut store: Store<Entry> = Store::new(partition());
    let (r1, i, _) = create_record(&mut store, "testing", Entry { field: None }).unwrap();
    let (r2, _, _, _) =
        update_record(&mut store, "testing", &r1, UpdateRequest { field: Some("first".to_string()) }).unwrap();
    let (r3, _, _, previous) =
        update_record(&mut store, "testing", &r1, UpdateRequest { field: Some("second".to_string()) }).unwrap();
    assert_ne!(r2, r3);
    assert_eq!(previous, Entry { field: None });
    let (rev, _, entry) = read_record_entry(&store, "testing", &i.address).unwrap();
    assert_eq!(rev, r3);
    assert_eq!(entry, Entry { field: Some("second".to_string()) });
}

#[test]
fn reads_fail_for_what_was_never_written() {
    let mut store: Store<Entry> = Store::new(partition());
    let missing = Address { bytes: vec![0, 5, 0, 0, 0, 0, 0, 0, 0] };
    assert_eq!(read_record_entry(&store, "testing", &missing), Err(DataIntegrityError::NotFound));
    let rev = RevisionId { partition: partition(), address: missing.clone() };
    assert_eq!(read_record_entry_by_header(&store, &rev), Err(DataIntegrityError::NotFound));
    assert_eq!(delete_record(&mut store, &rev), Err(DataIntegrityError::NotFound));
    assert_eq!(
        update_record(&mut store, "testing", &rev, UpdateRequest { field: None }),
        Err(DataIntegrityError::NotFound)
    );
}

#[test]
fn revision_of_another_partition_is_not_found() {
    let mut store: Store<Entry> = Store::new(partition());
    let (r1, _, _) = create_record(&mut store, "testing", Entry { field: None }).unwrap();
    let foreign = RevisionId { partition: other_partition(), address: r1.address.clone() };
    assert_eq!(read_record_entry_by_header(&store, &foreign), Err(DataIntegrityError::NotFound));
    assert_eq!(delete_record(&mut store, &foreign), Err(DataIntegrityError::NotFound));
    assert!(read_record_entry_by_header(&store, &r1).is_ok());
}

#[test]
fn update_under_another_namespace_is_not_found() {
    let mut store: Store<Entry> = Store::new(partition());
    let (r1, i, _) = create_record(&mut store, "testing", Entry { field: None }).unwrap();
    assert_eq!(
        update_record(&mut store, "other", &r1, UpdateRequest { field: None }),
        Err(DataIntegrityError::NotFound)
    );
    assert_eq!(read_record_entry(&store, "other", &i.address), Err(DataIntegrityError::NotFound));
    assert!(read_record_entry(&store, "testing", &i.address).is_ok());
}

#[test]
fn anchor_without_revisions_is_corrupt() {
    let mut store: Store<Entry> = Store::new(partition());
    let identity = Identity { partition: partition(), address: Address { bytes: vec![0, 9, 0, 0, 0, 0, 0, 0, 0] } };
    let anchor = create_entry_identity(&mut store, "testing", &identity);
    assert_eq!(get_latest_header_hash(&store, &anchor), Err(DataIntegrityError::Corrupt));
    assert_eq!(read_record_entry_by_identity(&store, &anchor), Err(DataIntegrityError::Corrupt));
    assert_eq!(read_record_entry(&store, "testing", &identity.address), Err(DataIntegrityError::Corrupt));
}

#[test]
fn identity_is_read_back_from_its_anchor() {
    let mut store: Store<Entry> = Store::new(partition());
    let identity = Identity { partition: other_partition(), address: Address { bytes: vec![7, 7, 7] } };
    let anchor = create_entry_identity(&mut store, "proc", &identity);
    let again = create_entry_identity(&mut store, "proc", &identity);
    assert_eq!(anchor, again);
    assert_eq!(read_entry_identity(&store, &anchor), Ok(identity.clone()));
    let elsewhere = create_entry_identity(&mut store, "commit", &identity);
    assert_ne!(anchor, elsewhere);
    let unminted = graph_records::address::calculate_identity_address("nothing", &identity);
    assert_eq!(read_entry_identity(&store, &unminted), Err(DataIntegrityError::NotFound));
    store.mint(Address { bytes: vec![3, 1, 4] });
    assert_eq!(read_entry_identity(&store, &Address { bytes: vec![3, 1, 4] }), Err(DataIntegrityError::Corrupt));
}

#[test]
fn latest_timestamp_is_found() {
    assert_eq!(latest_by_timestamp(&vec![]), None);
    assert_eq!(latest_by_timestamp(&vec![5]), Some(0));
    assert_eq!(latest_by_timestamp(&vec![5, 9, 7]), Some(1));
    assert_eq!(latest_by_timestamp(&vec![9, 5, 9, 7]), Some(2));
    assert_eq!(latest_by_timestamp(&vec![1, 2, 3]), Some(2));
    assert_eq!(latest_by_timestamp(&vec![3, 2, 1]), Some(0));
}

#[test]
fn latest_header_hash_follows_updates() {
    let mut store: Store<Entry> = Store::new(partition());
    let (r1, i, _) = create_record(&mut store, "testing", Entry { field: None }).unwrap();
    let anchor = graph_records::address::calculate_identity_address("testing", &i);
    assert_eq!(get_latest_header_hash(&store, &anchor), Ok(r1.clone()));
    let (r2, _, _, _) = update_record(&mut store, "testing", &r1, UpdateRequest { field: None }).unwrap();
    assert_eq!(get_latest_header_hash(&store, &anchor), Ok(r2.clone()));
    delete_record(&mut store, &r2).unwrap();
    assert_eq!(get_latest_header_hash(&store, &anchor), Err(DataIntegrityError::NotFound));
}

#[test]
fn error_messages() {
    assert_eq!(DataIntegrityError::NotFound.message(), "no entry at this address");
    assert_eq!(DataIntegrityError::EmptyQuery.message(), "no results found");
    assert_ne!(DataIntegrityError::Corrupt.message(), DataIntegrityError::PartialIndexFailure.message());
    assert_ne!(DataIntegrityError::RemoteCallFailure.message(), "");
}
