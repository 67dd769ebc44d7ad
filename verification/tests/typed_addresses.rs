use graph_records::address::{Partition, PARTITION_ID_LEN};
use graph_records::typed_addresses::{Local, Remote};

#[derive(Debug, Clone, PartialEq)]
pub struct SomeValue(pub String);

#[derive(Debug, Clone, PartialEq)]
pub struct Ident;

#[test]
fn test_addressable_type() {
    let base = SomeValue("test".to_string());
    let wrapped: Local<Ident, SomeValue> = Local::wrap(base.clone());
    let external: Remote<Ident, SomeValue> =
        Remote::new(Partition::from_raw_36(vec![0xdb; PARTITION_ID_LEN]), wrapped);
    let extracted: SomeValue = external.into_base();

    assert_eq!(base, extracted, "Original data matches wrapped, externalised, extracted roundtrip data");
}

#[test]
fn remote_identifier_keeps_partition_and_base() {
    let partition = Partition::from_raw_36(vec![0x01; PARTITION_ID_LEN]);
    let local: Local<Ident, SomeValue> = Local::wrap(SomeValue("a".to_string()));
    assert_eq!(local.as_base(), &SomeValue("a".to_string()));
    let remote = local.clone().externalise(partition.clone());
    assert_eq!(remote.partition(), &partition);
    assert_eq!(remote.as_base(), &SomeValue("a".to_string()));
    let copy = remote.clone();
    assert_eq!(copy, remote);
    assert_eq!(remote.internalise(), local);
    assert_eq!(local.into_base(), SomeValue("a".to_string()));
    let number: Local<Ident, u64> = Local::wrap(42);
    assert_eq!(number.externalise(partition).into_base(), 42);
}
