//! Addresses and identities.
//!
//! Every value the store hands out or derives is an [`Address`]: a string of
//! bytes whose first byte names its kind. Content and edges are numbered by the
//! store, anchors are derived from a namespace and an identity alone, so that a
//! lookup root can be computed before anything was written under it.
use vstd::bytes::*;
use vstd::prelude::*;
use vstd::slice::*;
use vstd::utf8::*;

verus! {

/// First byte of the address of stored content.
pub const CONTENT_KIND: u8 = 0;

/// First byte of the address of an anchor.
pub const ANCHOR_KIND: u8 = 1;

/// First byte of the address of an edge.
pub const EDGE_KIND: u8 = 2;

/// Number of raw bytes in a partition identifier.
pub const PARTITION_ID_LEN: usize = 36;

/// An opaque address: the bytes that name a piece of content, an anchor or an edge.
#[derive(Debug, PartialEq, Eq)]
pub struct Address {
    pub bytes: Vec<u8>,
}

/// The identifier of one independently replicated partition.
#[derive(Debug, PartialEq, Eq)]
pub struct Partition {
    pub bytes: Vec<u8>,
}

/// The stable identity of a logical record: the partition it was created in and
/// the address of its first revision.
#[derive(Debug, PartialEq, Eq)]
pub struct Identity {
    pub partition: Partition,
    pub address: Address,
}

/// One exact revision of a record: the partition that holds it and the address
/// of its content.
#[derive(Debug, PartialEq, Eq)]
pub struct RevisionId {
    pub partition: Partition,
    pub address: Address,
}

impl View for Address {
    type V = Seq<u8>;

    open spec fn view(&self) -> Seq<u8> {
        self.bytes@
    }
}

impl View for Partition {
    type V = Seq<u8>;

    open spec fn view(&self) -> Seq<u8> {
        self.bytes@
    }
}

impl View for Identity {
    type V = (Seq<u8>, Seq<u8>);

    open spec fn view(&self) -> (Seq<u8>, Seq<u8>) {
        (self.partition@, self.address@)
    }
}

impl View for RevisionId {
    type V = (Seq<u8>, Seq<u8>);

    open spec fn view(&self) -> (Seq<u8>, Seq<u8>) {
        (self.partition@, self.address@)
    }
}

/// Whether two byte vectors hold the same bytes.
pub fn same_bytes(a: &Vec<u8>, b: &Vec<u8>) -> (r: bool)
    ensures
        r == (a@ == b@),
{
    let r = *a == *b;
    proof {
        if r {
            assert(a@ =~= b@);
        }
    }
    r
}

impl Clone for Address {
    fn clone(&self) -> (r: Self)
        ensures
            r@ == self@,
    {
        Address { bytes: self.bytes.clone() }
    }
}

impl Clone for Partition {
    fn clone(&self) -> (r: Self)
        ensures
            r@ == self@,
    {
        Partition { bytes: self.bytes.clone() }
    }
}

impl Clone for Identity {
    fn clone(&self) -> (r: Self)
        ensures
            r@ == self@,
    {
        Identity { partition: self.partition.clone(), address: self.address.clone() }
    }
}

impl Clone for RevisionId {
    fn clone(&self) -> (r: Self)
        ensures
            r@ == self@,
    {
        RevisionId { partition: self.partition.clone(), address: self.address.clone() }
    }
}

/// The address of the item of the given kind that the store numbered `serial`.
pub open spec fn serial_address(kind: u8, serial: u64) -> Seq<u8> {
    seq![kind] + spec_u64_to_le_bytes(serial)
}

/// The number behind an address of the given kind, if it is one.
pub open spec fn address_serial(kind: u8, address: Seq<u8>) -> Option<u64> {
    if address.len() == 9 && address[0] == kind {
        Some(spec_u64_from_le_bytes(address.subrange(1, 9)))
    } else {
        None
    }
}

/// A byte string behind its own length, so that what follows it can be told apart.
pub open spec fn length_prefixed(bytes: Seq<u8>) -> Seq<u8> {
    spec_u64_to_le_bytes(bytes.len() as u64) + bytes
}

/// The address of the anchor of `identity` under `namespace`.
pub open spec fn anchor_address(namespace: Seq<char>, identity: (Seq<u8>, Seq<u8>)) -> Seq<u8> {
    seq![ANCHOR_KIND] + length_prefixed(encode_utf8(namespace)) + length_prefixed(identity.0)
        + identity.1
}

/// The identity that an anchor address was derived from, if it is an anchor address.
pub open spec fn anchor_identity(anchor: Seq<u8>) -> Option<(Seq<u8>, Seq<u8>)> {
    if anchor.len() >= 17 && anchor[0] == ANCHOR_KIND {
        let n = spec_u64_from_le_bytes(anchor.subrange(1, 9)) as int;
        if n <= anchor.len() - 17 {
            let p = spec_u64_from_le_bytes(anchor.subrange(9 + n, 17 + n)) as int;
            if p <= anchor.len() - 17 - n {
                Some(
                    (
                        anchor.subrange(17 + n, 17 + n + p),
                        anchor.subrange(17 + n + p, anchor.len() as int),
                    ),
                )
            } else {
                None
            }
        } else {
            None
        }
    } else {
        None
    }
}

/// Whether an anchor address can hold the lengths of the namespace and of the
/// identity's partition. Every namespace and identity in memory qualifies.
pub open spec fn addressable(namespace: Seq<char>, identity: (Seq<u8>, Seq<u8>)) -> bool {
    encode_utf8(namespace).len() <= u64::MAX && identity.0.len() <= u64::MAX
}

/// An address of a numbered kind decodes to the number it was made from.
pub proof fn lemma_serial_round_trip(kind: u8, serial: u64)
    ensures
        serial_address(kind, serial).len() == 9,
        address_serial(kind, serial_address(kind, serial)) == Some(serial),
{
    lemma_auto_spec_u64_to_from_le_bytes();
    let a = serial_address(kind, serial);
    assert(a.subrange(1, 9) =~= spec_u64_to_le_bytes(serial));
}

/// An anchor address decodes to the identity it was derived from.
pub proof fn lemma_anchor_round_trip(namespace: Seq<char>, identity: (Seq<u8>, Seq<u8>))
    requires
        addressable(namespace, identity),
    ensures
        anchor_identity(anchor_address(namespace, identity)) == Some(identity),
{
    lemma_auto_spec_u64_to_from_le_bytes();
    let ns = encode_utf8(namespace);
    let a = anchor_address(namespace, identity);
    let n = ns.len() as int;
    let p = identity.0.len() as int;
    assert(a.len() == 17 + n + p + identity.1.len());
    assert(a.subrange(1, 9) =~= spec_u64_to_le_bytes(ns.len() as u64));
    assert(a.subrange(9 + n, 17 + n) =~= spec_u64_to_le_bytes(identity.0.len() as u64));
    assert(a.subrange(17 + n, 17 + n + p) =~= identity.0);
    assert(a.subrange(17 + n + p, a.len() as int) =~= identity.1);
}

/// Anchor addresses are derived one to one: equal addresses come from equal
/// namespaces and equal identities.
pub proof fn lemma_anchor_injective(
    ns1: Seq<char>,
    id1: (Seq<u8>, Seq<u8>),
    ns2: Seq<char>,
    id2: (Seq<u8>, Seq<u8>),
)
    requires
        addressable(ns1, id1),
        addressable(ns2, id2),
        anchor_address(ns1, id1) == anchor_address(ns2, id2),
    ensures
        ns1 == ns2,
        id1 == id2,
{
    lemma_auto_spec_u64_to_from_le_bytes();
    lemma_anchor_round_trip(ns1, id1);
    lemma_anchor_round_trip(ns2, id2);
    let a = anchor_address(ns1, id1);
    let b1 = encode_utf8(ns1);
    let b2 = encode_utf8(ns2);
    assert(a.subrange(1, 9) =~= spec_u64_to_le_bytes(b1.len() as u64));
    assert(a.subrange(1, 9) =~= spec_u64_to_le_bytes(b2.len() as u64));
    assert(b1.len() as u64 == b2.len() as u64);
    assert(a.subrange(9, 9 + b1.len() as int) =~= b1);
    assert(a.subrange(9, 9 + b2.len() as int) =~= b2);
    encode_utf8_decode_utf8(ns1);
    encode_utf8_decode_utf8(ns2);
}

impl Address {
    /// Whether the two addresses are the same.
    pub fn same(&self, other: &Address) -> (r: bool)
        ensures
            r == (self@ == other@),
    {
        same_bytes(&self.bytes, &other.bytes)
    }

    /// The address of the item of the given kind numbered `serial`.
    pub fn from_serial(kind: u8, serial: u64) -> (r: Address)
        ensures
            r@ == serial_address(kind, serial),
    {
        let mut bytes: Vec<u8> = Vec::new();
        bytes.push(kind);
        let mut number = u64_to_le_bytes(serial);
        bytes.append(&mut number);
        proof {
            assert(bytes@ =~= serial_address(kind, serial));
        }
        Address { bytes }
    }

    /// The number behind this address, if it is an address of the given kind.
    pub fn serial(&self, kind: u8) -> (r: Option<u64>)
        ensures
            r == address_serial(kind, self@),
    {
        if self.bytes.len() == 9 && self.bytes[0] == kind {
            Some(u64_from_le_bytes(slice_subrange(self.bytes.as_slice(), 1, 9)))
        } else {
            None
        }
    }
}

impl Partition {
    /// The partition named by 36 raw bytes.
    pub fn from_raw_36(bytes: Vec<u8>) -> (r: Partition)
        requires
            bytes@.len() == PARTITION_ID_LEN,
        ensures
            r@ == bytes@,
    {
        Partition { bytes }
    }

    /// Whether the two partitions are the same.
    pub fn same(&self, other: &Partition) -> (r: bool)
        ensures
            r == (self@ == other@),
    {
        same_bytes(&self.bytes, &other.bytes)
    }
}

impl Identity {
    /// Whether the two identities are the same.
    pub fn same(&self, other: &Identity) -> (r: bool)
        ensures
            r == (self@ == other@),
    {
        self.partition.same(&other.partition) && self.address.same(&other.address)
    }
}

impl RevisionId {
    /// Whether the two revisions are the same.
    pub fn same(&self, other: &RevisionId) -> (r: bool)
        ensures
            r == (self@ == other@),
    {
        self.partition.same(&other.partition) && self.address.same(&other.address)
    }
}

/// Appends `bytes` behind its length to `out`.
fn push_length_prefixed(out: &mut Vec<u8>, bytes: &[u8])
    ensures
        final(out)@ == old(out)@ + length_prefixed(bytes@),
        bytes@.len() <= u64::MAX,
{
    let ghost before = out@;
    let mut number = u64_to_le_bytes(bytes.len() as u64);
    out.append(&mut number);
    out.extend_from_slice(bytes);
    proof {
        assert(out@ =~= before + length_prefixed(bytes@));
    }
}

/// Derives the address of the anchor of `identity` under `namespace`. The result
/// depends on the two arguments alone, and no other pair yields the same address.
pub fn calculate_identity_address(namespace: &str, identity: &Identity) -> (r: Address)
    ensures
        r@ == anchor_address(namespace@, identity@),
        addressable(namespace@, identity@),
{
    let mut bytes: Vec<u8> = Vec::new();
    bytes.push(ANCHOR_KIND);
    push_length_prefixed(&mut bytes, namespace.as_bytes());
    push_length_prefixed(&mut bytes, identity.partition.bytes.as_slice());
    bytes.extend_from_slice(identity.address.bytes.as_slice());
    proof {
        assert(bytes@ =~= anchor_address(namespace@, identity@));
    }
    Address { bytes }
}

/// Whatever an address decodes to can be addressed under any namespace that can.
pub proof fn lemma_decoded_is_addressable(anchor: Seq<u8>)
    ensures
        anchor_identity(anchor) matches Some(identity) ==> identity.0.len() <= u64::MAX,
{
}

/// Reads back the identity that an anchor address was derived from; `None` when
/// the address is not that of an anchor.
pub fn decode_identity_address(anchor: &Address) -> (r: Option<Identity>)
    ensures
        match r {
            Some(identity) => anchor_identity(anchor@) == Some(identity@),
            None => anchor_identity(anchor@) is None,
        },
{
    let len = anchor.bytes.len();
    if len < 17 || anchor.bytes[0] != ANCHOR_KIND {
        return None;
    }
    let all = anchor.bytes.as_slice();
    let n = u64_from_le_bytes(slice_subrange(all, 1, 9));
    if n > (len - 17) as u64 {
        return None;
    }
    let n = n as usize;
    let p = u64_from_le_bytes(slice_subrange(all, 9 + n, 17 + n));
    if p > (len - 17 - n) as u64 {
        return None;
    }
    let p = p as usize;
    let partition = slice_to_vec(slice_subrange(all, 17 + n, 17 + n + p));
    let address = slice_to_vec(slice_subrange(all, 17 + n + p, len));
    Some(Identity { partition: Partition { bytes: partition }, address: Address { bytes: address } })
}

} // verus!
