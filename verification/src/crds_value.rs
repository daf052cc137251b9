//! The values that nodes push to each other.

use crate::pubkey::Pubkey;
use std::sync::Arc;
use vstd::prelude::*;

verus! {

/// An IP address, as a big-endian number.
#[derive(Clone, Copy, Debug, PartialEq, Eq, Structural)]
pub enum IpAddr {
    V4(u32),
    V6(u128),
}

/// An IP address and a port.
#[derive(Clone, Copy, Debug, PartialEq, Eq, Structural)]
pub struct SocketAddr {
    pub ip: IpAddr,
    pub port: u16,
}

/// What a node tells the others of itself.
#[derive(Clone, Copy, Debug, PartialEq, Eq, Structural)]
pub struct ContactInfo {
    pub id: Pubkey,
    /// Where the node listens for gossip.
    pub gossip: SocketAddr,
    pub wallclock: u64,
    pub shred_version: u16,
}

/// The running instance of a node.
#[derive(Clone, Copy, Debug, PartialEq, Eq, Structural)]
pub struct NodeInstance {
    pub from: Pubkey,
    pub wallclock: u64,
}

/// A value that the push overlay carries without looking into it.
#[derive(Clone, Copy, Debug, PartialEq, Eq, Structural)]
pub struct Record {
    /// Tells the values of one node apart.
    pub kind: u32,
    pub from: Pubkey,
    pub wallclock: u64,
}

/// What a value says.
#[derive(Clone, Copy, Debug, PartialEq, Eq, Structural)]
pub enum CrdsData {
    ContactInfo(ContactInfo),
    NodeInstance(NodeInstance),
    Record(Record),
}

/// The name under which a table holds a value. Values of the same label are
/// versions of each other.
#[derive(Clone, Copy, Debug, PartialEq, Eq, Structural)]
pub enum CrdsValueLabel {
    ContactInfo(Pubkey),
    NodeInstance(Pubkey),
    Record(u32, Pubkey),
}

/// The digest of a signed value, as two big-endian words.
#[derive(Clone, Copy, Debug, PartialEq, Eq, Structural)]
pub struct Digest {
    pub hi: u128,
    pub lo: u128,
}

/// A signed value, with the bytes that go over the wire.
#[derive(Debug, PartialEq, Eq)]
pub struct CrdsValue {
    pub data: CrdsData,
    /// Decides between versions of the same wallclock.
    pub digest: Digest,
    /// The serialized value, shared by all copies of it.
    pub payload: Arc<Vec<u8>>,
}

/// A port other than 0 of an address that is neither unspecified nor multicast.
pub open spec fn valid_address(addr: SocketAddr) -> bool {
    &&& addr.port != 0
    &&& match addr.ip {
        IpAddr::V4(ip) => ip != 0 && !(0xe000_0000 <= ip < 0xf000_0000),
        IpAddr::V6(ip) => ip != 0 && ip < 0xff00_0000_0000_0000_0000_0000_0000_0000,
    }
}

impl ContactInfo {
    /// Tells whether a node can be reached at `addr`: the port is not 0 and the
    /// address is neither unspecified nor multicast.
    pub fn is_valid_address(addr: &SocketAddr) -> (valid: bool)
        ensures
            valid == valid_address(*addr),
    {
        if addr.port == 0 {
            return false;
        }
        match addr.ip {
            IpAddr::V4(ip) => ip != 0 && !(0xe000_0000 <= ip && ip < 0xf000_0000),
            IpAddr::V6(ip) => ip != 0 && ip < 0xff00_0000_0000_0000_0000_0000_0000_0000,
        }
    }
}

impl Digest {
    /// The order of digests by their bytes.
    pub open spec fn lt(self, other: Digest) -> bool {
        self.hi < other.hi || (self.hi == other.hi && self.lo < other.lo)
    }

    /// Tells whether this digest comes before `other` in the order of their bytes.
    pub fn is_before(&self, other: &Digest) -> (before: bool)
        ensures
            before == self.lt(*other),
    {
        self.hi < other.hi || (self.hi == other.hi && self.lo < other.lo)
    }
}

/// Another pointer to the same bytes.
///
/// Calls `Arc::clone` of std: the new pointer points to what the old one points to.
#[verifier::external_body]
fn share(payload: &Arc<Vec<u8>>) -> (shared: Arc<Vec<u8>>)
    ensures
        shared == *payload,
{
    Arc::clone(payload)
}

impl CrdsData {
    /// The node that the value comes from.
    pub open spec fn spec_pubkey(self) -> Pubkey {
        match self {
            CrdsData::ContactInfo(info) => info.id,
            CrdsData::NodeInstance(node) => node.from,
            CrdsData::Record(record) => record.from,
        }
    }

    /// The time at which its node made the value.
    pub open spec fn spec_wallclock(self) -> u64 {
        match self {
            CrdsData::ContactInfo(info) => info.wallclock,
            CrdsData::NodeInstance(node) => node.wallclock,
            CrdsData::Record(record) => record.wallclock,
        }
    }

    /// The name under which a table holds the value.
    pub open spec fn spec_label(self) -> CrdsValueLabel {
        match self {
            CrdsData::ContactInfo(info) => CrdsValueLabel::ContactInfo(info.id),
            CrdsData::NodeInstance(node) => CrdsValueLabel::NodeInstance(node.from),
            CrdsData::Record(record) => CrdsValueLabel::Record(record.kind, record.from),
        }
    }
}

impl CrdsValue {
    /// The node that the value comes from.
    pub open spec fn origin(self) -> Pubkey {
        self.data.spec_pubkey()
    }

    /// The number of bytes of the value on the wire.
    pub open spec fn size(self) -> nat {
        self.payload@.len()
    }

    /// The value goes to `peer` whatever that peer pruned: the running instance
    /// of a node goes to that node itself.
    pub open spec fn forced_to(self, peer: Pubkey) -> bool {
        self.data matches CrdsData::NodeInstance(node) && node.from == peer
    }

    /// The value takes the place of `other`, a version of the same label: it is
    /// later or, made at the same time, has the greater digest.
    pub open spec fn overrides(self, other: CrdsValue) -> bool {
        ||| self.data.spec_wallclock() > other.data.spec_wallclock()
        ||| {
            &&& self.data.spec_wallclock() == other.data.spec_wallclock()
            &&& other.digest.lt(self.digest)
        }
    }

    /// The node that the value comes from.
    pub fn pubkey(&self) -> (pubkey: Pubkey)
        ensures
            pubkey == self.origin(),
    {
        match &self.data {
            CrdsData::ContactInfo(info) => info.id,
            CrdsData::NodeInstance(node) => node.from,
            CrdsData::Record(record) => record.from,
        }
    }

    /// The time at which its node made the value.
    pub fn wallclock(&self) -> (wallclock: u64)
        ensures
            wallclock == self.data.spec_wallclock(),
    {
        match &self.data {
            CrdsData::ContactInfo(info) => info.wallclock,
            CrdsData::NodeInstance(node) => node.wallclock,
            CrdsData::Record(record) => record.wallclock,
        }
    }

    /// The name under which a table holds the value.
    pub fn label(&self) -> (label: CrdsValueLabel)
        ensures
            label == self.data.spec_label(),
    {
        match &self.data {
            CrdsData::ContactInfo(info) => CrdsValueLabel::ContactInfo(info.id),
            CrdsData::NodeInstance(node) => CrdsValueLabel::NodeInstance(node.from),
            CrdsData::Record(record) => CrdsValueLabel::Record(record.kind, record.from),
        }
    }

    /// What the value tells of its node, where it is a contact info.
    pub fn contact_info(&self) -> (info: Option<ContactInfo>)
        ensures
            info == (match self.data {
                CrdsData::ContactInfo(info) => Some(info),
                _ => None::<ContactInfo>,
            }),
    {
        match &self.data {
            CrdsData::ContactInfo(info) => Some(*info),
            _ => None,
        }
    }

    /// Tells whether the value goes to `peer` whatever that peer pruned.
    pub fn should_force_push(&self, peer: &Pubkey) -> (forced: bool)
        ensures
            forced == self.forced_to(*peer),
    {
        match &self.data {
            CrdsData::NodeInstance(node) => node.from == *peer,
            _ => false,
        }
    }

    /// The number of bytes of the value on the wire.
    pub fn serialized_size(&self) -> (size: usize)
        ensures
            size == self.size(),
    {
        self.payload.len()
    }

    /// Tells whether the value takes the place of `other`, a version of the same label.
    pub fn is_newer_than(&self, other: &CrdsValue) -> (newer: bool)
        ensures
            newer == self.overrides(*other),
    {
        self.wallclock() > other.wallclock() || (self.wallclock() == other.wallclock()
            && other.digest.is_before(&self.digest))
    }

    /// A copy of the value that shares its bytes.
    pub fn copy(&self) -> (copy: CrdsValue)
        ensures
            copy == *self,
    {
        CrdsValue { data: self.data, digest: self.digest, payload: share(&self.payload) }
    }
}

} // verus!
