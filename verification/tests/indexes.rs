use graph_records::address::{calculate_identity_address, decode_identity_address, Address, Identity, Partition};
use graph_records::error::DataIntegrityError;
use graph_records::local_indexes::{
    create_index, delete_index, identity_among, query_index, read_index, reconcile_index,
    select_erasures, select_insertions, update_index,
};
use graph_records::records::{create_record, delete_record};
use graph_records::store::Store;

fn partition() -> Partition {
    Partition::from_raw_36(vec![0xdb; 36])
}

fn id(n: u8) -> Identity {
    Identity { partition: partition(), address: Address { bytes: vec![0, n, 0, 0, 0, 0, 0, 0, 0] } }
}

fn edge(n: u8) -> Address {
    Address { bytes: vec![2, n, 0, 0, 0, 0, 0, 0, 0] }
}

fn linked(store: &Store<u64>, entry_type: &str, base: &Identity, tag: &str) -> Vec<Identity> {
    read_index(store, entry_type, base, tag).unwrap().into_iter().map(|r| r.unwrap()).collect()
}

#[test]
fn scenario_reciprocal_index() {
    let mut store: Store<u64> = Store::new(partition());
    let p = id(1);
    let c = id(2);
    let created = create_index(&mut store, "proc", &p, "commit", &c, "input_of", "has_input").unwrap();
    assert_eq!(created, vec![edge(0), edge(1)]);
    assert_eq!(read_index(&store, "proc", &p, "input_of"), Ok(vec![Ok(c.clone())]));
    assert_eq!(read_index(&store, "commit", &c, "has_input"), Ok(vec![Ok(p.clone())]));
    assert_eq!(read_index(&store, "proc", &p, "has_input"), Ok(vec![]));
    assert_eq!(read_index(&store, "commit", &p, "input_of"), Ok(vec![]));
}

#[test]
fn index_of_unknown_identity_is_empty() {
    let store: Store<u64> = Store::new(partition());
    assert_eq!(read_index(&store, "proc", &id(9), "input_of"), Ok(vec![]));
    assert_eq!(query_index(&store, "proc", &id(9), "input_of"), Ok(vec![]));
}

#[test]
fn anchor_addresses_are_derived_and_decoded() {
    let a = calculate_identity_address("proc", &id(1));
    assert_eq!(a, calculate_identity_address("proc", &id(1)));
    assert_ne!(a, calculate_identity_address("proc", &id(2)));
    assert_ne!(a, calculate_identity_address("commit", &id(1)));
    assert_eq!(a.bytes[0], 1);
    assert_eq!(&a.bytes[1..9], &[4, 0, 0, 0, 0, 0, 0, 0]);
    assert_eq!(&a.bytes[9..13], "proc".as_bytes());
    assert_eq!(&a.bytes[13..21], &[36, 0, 0, 0, 0, 0, 0, 0]);
    assert_eq!(a.bytes.len(), 1 + 8 + 4 + 8 + 36 + 9);
    assert_eq!(decode_identity_address(&a), Some(id(1)));
    assert_eq!(decode_identity_address(&Address { bytes: vec![1, 2, 3] }), None);
    assert_eq!(decode_identity_address(&id(1).address), None);
    let mut short = a.bytes.clone();
    short.truncate(20);
    assert_eq!(decode_identity_address(&Address { bytes: short }), None);
    assert_eq!(Address::from_serial(0, 258).bytes, vec![0, 2, 1, 0, 0, 0, 0, 0, 0]);
    assert_eq!(Address::from_serial(0, 258).serial(0), Some(258));
    assert_eq!(Address::from_serial(0, 258).serial(2), None);
}

#[test]
fn delete_index_removes_both_directions_of_one_pair() {
    let mut store: Store<u64> = Store::new(partition());
    let p = id(1);
    create_index(&mut store, "proc", &p, "commit", &id(2), "input_of", "has_input").unwrap();
    create_index(&mut store, "proc", &p, "commit", &id(3), "input_of", "has_input").unwrap();
    let deleted = delete_index(&mut store, "proc", &p, "commit", &id(2), "input_of", "has_input").unwrap();
    assert_eq!(deleted, vec![Ok(edge(0)), Ok(edge(1))]);
    assert_eq!(linked(&store, "proc", &p, "input_of"), vec![id(3)]);
    assert_eq!(linked(&store, "commit", &id(2), "has_input"), vec![]);
    assert_eq!(linked(&store, "commit", &id(3), "has_input"), vec![p.clone()]);
    let again = delete_index(&mut store, "proc", &p, "commit", &id(2), "input_of", "has_input").unwrap();
    assert_eq!(again, vec![]);
}

#[test]
fn update_index_replaces_a_destination() {
    let mut store: Store<u64> = Store::new(partition());
    let p = id(1);
    create_index(&mut store, "proc", &p, "commit", &id(2), "input_of", "has_input").unwrap();
    let changed =
        update_index(&mut store, "proc", &p, "commit", "input_of", "has_input", &[id(3)], &[id(2)]).unwrap();
    assert_eq!(changed, vec![Ok(edge(0)), Ok(edge(1)), Ok(edge(2)), Ok(edge(3))]);
    assert_eq!(linked(&store, "proc", &p, "input_of"), vec![id(3)]);
    assert_eq!(linked(&store, "commit", &id(3), "has_input"), vec![p.clone()]);
    assert_eq!(linked(&store, "commit", &id(2), "has_input"), vec![]);
}

#[test]
fn update_index_adds_only_what_is_not_linked() {
    let mut store: Store<u64> = Store::new(partition());
    let p = id(1);
    create_index(&mut store, "proc", &p, "commit", &id(2), "input_of", "has_input").unwrap();
    let changed = update_index(
        &mut store, "proc", &p, "commit", "input_of", "has_input",
        &[id(2), id(3), id(3), id(4)], &[id(7)],
    ).unwrap();
    assert_eq!(changed, vec![Ok(edge(2)), Ok(edge(3)), Ok(edge(4)), Ok(edge(5))]);
    assert_eq!(linked(&store, "proc", &p, "input_of"), vec![id(2), id(3), id(4)]);
}

#[test]
fn update_index_twice_is_the_same_as_once() {
    let mut store: Store<u64> = Store::new(partition());
    let p = id(1);
    create_index(&mut store, "proc", &p, "commit", &id(2), "input_of", "has_input").unwrap();
    create_index(&mut store, "proc", &p, "commit", &id(5), "input_of", "has_input").unwrap();
    let first = update_index(
        &mut store, "proc", &p, "commit", "input_of", "has_input", &[id(3), id(5)], &[id(2)],
    ).unwrap();
    assert_eq!(first.len(), 4);
    let after_first = linked(&store, "proc", &p, "input_of");
    let second = update_index(
        &mut store, "proc", &p, "commit", "input_of", "has_input", &[id(3), id(5)], &[id(2)],
    ).unwrap();
    assert_eq!(second, vec![]);
    assert_eq!(linked(&store, "proc", &p, "input_of"), after_first);
    assert_eq!(after_first, vec![id(5), id(3)]);
    assert_eq!(linked(&store, "commit", &id(3), "has_input"), vec![p.clone()]);
    assert_eq!(linked(&store, "commit", &id(2), "has_input"), vec![]);
}

#[test]
fn destination_both_added_and_removed_is_not_stable() {
    let mut store: Store<u64> = Store::new(partition());
    let p = id(1);
    update_index(&mut store, "proc", &p, "commit", "input_of", "has_input", &[id(2)], &[id(2)]).unwrap();
    assert_eq!(linked(&store, "proc", &p, "input_of"), vec![id(2)]);
    update_index(&mut store, "proc", &p, "commit", "input_of", "has_input", &[id(2)], &[id(2)]).unwrap();
    assert_eq!(linked(&store, "proc", &p, "input_of"), vec![]);
}

#[test]
fn reconcile_reports_deleted_and_written_apart() {
    let mut store: Store<u64> = Store::new(partition());
    let p = id(1);
    create_index(&mut store, "proc", &p, "commit", &id(2), "input_of", "has_input").unwrap();
    let (removed, created) =
        reconcile_index(&mut store, "proc", &p, "commit", "input_of", "has_input", &[id(3)], &[id(2)]).unwrap();
    assert_eq!(removed, vec![Ok(edge(0)), Ok(edge(1))]);
    assert_eq!(created, vec![Ok(edge(2)), Ok(edge(3))]);
}

#[test]
fn index_with_a_link_to_no_anchor_cannot_be_reconciled() {
    let mut store: Store<u64> = Store::new(partition());
    let p = id(1);
    let root = calculate_identity_address("proc", &p);
    let nowhere = calculate_identity_address("commit", &id(8));
    store.put_edge(&root, &nowhere, "input_of");
    assert_eq!(read_index(&store, "proc", &p, "input_of"), Ok(vec![Err(DataIntegrityError::NotFound)]));
    assert_eq!(
        update_index(&mut store, "proc", &p, "commit", "input_of", "has_input", &[id(3)], &[]),
        Err(DataIntegrityError::NotFound)
    );
    assert_eq!(read_index(&store, "proc", &p, "input_of"), Ok(vec![Err(DataIntegrityError::NotFound)]));
    let odd = Address { bytes: vec![9, 9] };
    store.mint(odd.clone());
    store.put_edge(&root, &odd, "other");
    assert_eq!(read_index(&store, "proc", &p, "other"), Ok(vec![Err(DataIntegrityError::Corrupt)]));
}

#[test]
fn query_index_reads_records_and_reports_unreadable_ones() {
    let mut store: Store<u64> = Store::new(partition());
    let (r1, i1, _) = create_record(&mut store, "commit", 10).unwrap();
    let (r2, i2, _) = create_record(&mut store, "commit", 20).unwrap();
    let p = id(200);
    create_index(&mut store, "proc", &p, "commit", &i1, "input_of", "has_input").unwrap();
    create_index(&mut store, "proc", &p, "commit", &i2, "input_of", "has_input").unwrap();
    create_index(&mut store, "proc", &p, "commit", &id(99), "input_of", "has_input").unwrap();
    let found = query_index(&store, "proc", &p, "input_of").unwrap();
    assert_eq!(
        found,
        vec![Ok((r1.clone(), i1.clone(), 10)), Ok((r2.clone(), i2.clone(), 20)), Err(DataIntegrityError::Corrupt)]
    );
    delete_record(&mut store, &r1).unwrap();
    let found = query_index(&store, "proc", &p, "input_of").unwrap();
    assert_eq!(
        found,
        vec![Err(DataIntegrityError::NotFound), Ok((r2, i2, 20)), Err(DataIntegrityError::Corrupt)]
    );
    assert_eq!(read_index(&store, "proc", &p, "input_of").unwrap().len(), 3);
}

#[test]
fn identity_is_looked_up_among_the_first() {
    let list = vec![id(1), id(2), id(3)];
    assert!(identity_among(&list, 3, &id(3)));
    assert!(!identity_among(&list, 2, &id(3)));
    assert!(identity_among(&list, 1, &id(1)));
    assert!(!identity_among(&list, 0, &id(1)));
    assert!(!identity_among(&list, 3, &id(4)));
}

#[test]
fn store_edges_and_content() {
    let mut store: Store<u64> = Store::new(partition());
    assert_eq!(store.partition(), &partition());
    let a = Address { bytes: vec![1] };
    let b = Address { bytes: vec![2] };
    let e0 = store.put_edge(&a, &b, "x");
    let e1 = store.put_edge(&a, &a, "x");
    let _e2 = store.put_edge(&a, &b, "y");
    assert_eq!(e0, edge(0));
    let links = store.get_links(&a, "x");
    assert_eq!(links.len(), 2);
    assert_eq!((links[0].id.clone(), links[0].target.clone()), (e0.clone(), b.clone()));
    assert_eq!((links[1].id.clone(), links[1].target.clone()), (e1.clone(), a.clone()));
    assert_eq!(store.delete_edge(&e0), Ok(()));
    assert_eq!(store.delete_edge(&e0), Err(DataIntegrityError::NotFound));
    assert_eq!(store.delete_edge(&edge(9)), Err(DataIntegrityError::NotFound));
    assert_eq!(store.delete_edge(&a), Err(DataIntegrityError::NotFound));
    assert_eq!(store.get_links(&a, "x").len(), 1);
    assert_eq!(store.unlink(&a, &b, "y"), vec![edge(2)]);
    assert_eq!(store.unlink(&a, &b, "y"), vec![]);
    assert!(!store.has_anchor(&a));
    store.mint(a.clone());
    store.mint(a.clone());
    assert!(store.has_anchor(&a));
    assert_eq!(store.timestamp(&id(0).address), None);
    let written = store.put(graph_records::store::Envelope { identity: None, payload: 5 });
    assert_eq!(written, id(0).address);
    assert_eq!(store.timestamp(&written), Some(0));
    assert_eq!(store.get(&written).unwrap().payload, 5);
    assert_eq!(store.tombstone(&written), Ok(()));
    assert_eq!(store.tombstone(&written), Err(DataIntegrityError::NotFound));
    assert!(store.get(&written).is_err());
    assert_eq!(store.timestamp(&written), Some(0));
}

#[test]
fn reconciliation_selects_what_to_delete_and_write() {
    let existing = vec![id(1), id(2), id(3), id(2)];
    assert_eq!(select_erasures(&existing, &[id(2), id(9)]), vec![id(2), id(2)]);
    assert_eq!(select_erasures(&existing, &[]), vec![]);
    assert_eq!(select_erasures(&[], &[id(1)]), vec![]);
    assert_eq!(select_insertions(&[id(3), id(4), id(5), id(4)], &existing), vec![id(4), id(5)]);
    assert_eq!(select_insertions(&[], &existing), vec![]);
    assert_eq!(select_insertions(&[id(7), id(7)], &[]), vec![id(7)]);
}
