//! What holds of values and of the table that holds them.

use crate::crds::{has_label, index_of_label, inserted, Crds, CrdsError, VersionedCrdsValue};
use crate::crds_value::{valid_address, CrdsData, CrdsValue, IpAddr, SocketAddr};
use crate::laws_of_messages::{source_of, time_of};
use crate::pending::in_window;
use crate::pubkey::Pubkey;
use vstd::prelude::*;

verus! {

/// What a value tells of itself is what stands in it: its source, its time, its bytes. It
/// goes to a peer in any case where it is the running instance of that peer.
pub proof fn law_values_tell_what_stands_in_them(value: CrdsValue)
    ensures
        value.origin() == source_of(value),
        value.data.spec_pubkey() == source_of(value),
        value.data.spec_wallclock() == time_of(value),
        value.size() == value.payload@.len(),
        value.forced_to(source_of(value)) <==> value.data is NodeInstance,
        forall|peer: Pubkey|
            peer != source_of(value) ==> !#[trigger] value.forced_to(peer),
{
}

/// Two values are versions of each other: they say the same sort of thing of the same node.
pub open spec fn are_versions(one: CrdsValue, other: CrdsValue) -> bool {
    match (one.data, other.data) {
        (CrdsData::ContactInfo(a), CrdsData::ContactInfo(b)) => a.id == b.id,
        (CrdsData::NodeInstance(a), CrdsData::NodeInstance(b)) => a.from == b.from,
        (CrdsData::Record(a), CrdsData::Record(b)) => a.kind == b.kind && a.from == b.from,
        _ => false,
    }
}

/// Values have the same label exactly where they are versions of each other.
pub proof fn law_labels_tell_values_apart(one: CrdsValue, other: CrdsValue)
    ensures
        one.data.spec_label() == other.data.spec_label() <==> are_versions(one, other),
{
}

/// A wallclock is in the window where it is no further from now than the timeout, to either
/// side.
pub proof fn law_window_reaches_as_far_as_the_timeout(wallclock: u64, now: u64, timeout: u64)
    ensures
        wallclock <= now ==> (in_window(wallclock, now, timeout) <==> now - wallclock <= timeout),
        wallclock >= now ==> (in_window(wallclock, now, timeout) <==> wallclock - now <= timeout),
{
}

/// The bytes of a digest as one number.
pub open spec fn number_of(value: CrdsValue) -> int {
    value.digest.hi * 0x1_0000_0000_0000_0000_0000_0000_0000_0000 + value.digest.lo
}

/// A value takes the place of a version of it exactly where it is later or, made at the same
/// time, has the greater digest. That version is returned, and the value is at the end of
/// the table in its place; a value that is turned away changes nothing.
pub proof fn law_table_keeps_the_latest_version(
    before: Crds,
    after: Crds,
    value: CrdsValue,
    local_timestamp: u64,
    replaced: Result<Option<VersionedCrdsValue>, CrdsError>,
    i: int,
)
    requires
        before.wf(),
        inserted(before, after, value, local_timestamp, replaced),
        0 <= i < before.entries().len(),
        are_versions(before.entries()[i].value, value),
    ensures
        ({
            let version = before.entries()[i];
            let entry = VersionedCrdsValue {
                ordinal: before.next_ordinal(),
                value,
                local_timestamp,
            };
            let later = time_of(value) > time_of(version.value) || (time_of(value) == time_of(
                version.value,
            ) && number_of(value) > number_of(version.value));
            &&& later ==> {
                &&& replaced == Ok::<Option<VersionedCrdsValue>, CrdsError>(Some(version))
                &&& after.entries() == before.entries().remove(i).push(entry)
                &&& after.next_ordinal() == before.next_ordinal() + 1
            }
            &&& !later ==> {
                &&& replaced == Err::<Option<VersionedCrdsValue>, CrdsError>(
                    CrdsError::InsertFailed,
                )
                &&& after.entries() == before.entries()
                &&& after.next_ordinal() == before.next_ordinal()
            }
        }),
{
    let table = before.entries();
    let label = value.data.spec_label();
    assert(table[i].value.data.spec_label() == label);
    let index = index_of_label(table, label);
    assert(has_label(table, label));
    if index < i {
        assert(table[index].value.data.spec_label() != table[i].value.data.spec_label());
    }
    if i < index {
        assert(table[i].value.data.spec_label() != table[index].value.data.spec_label());
    }
}

/// A value of which the table has no version comes in at the end, and replaces nothing.
pub proof fn law_table_takes_in_new_values(
    before: Crds,
    after: Crds,
    value: CrdsValue,
    local_timestamp: u64,
    replaced: Result<Option<VersionedCrdsValue>, CrdsError>,
)
    requires
        inserted(before, after, value, local_timestamp, replaced),
        forall|i: int|
            0 <= i < before.entries().len() ==> !are_versions(
                (#[trigger] before.entries()[i]).value,
                value,
            ),
    ensures
        replaced == Ok::<Option<VersionedCrdsValue>, CrdsError>(None),
        after.entries() == before.entries().push(
            VersionedCrdsValue { ordinal: before.next_ordinal(), value, local_timestamp },
        ),
        after.next_ordinal() == before.next_ordinal() + 1,
{
    let table = before.entries();
    let label = value.data.spec_label();
    if has_label(table, label) {
        let i = index_of_label(table, label);
        assert(!are_versions(table[i].value, value));
    }
}

/// A node can be reached at an address with a port and a host: not at the unspecified
/// address, nor at one for many hosts. Those start with the bits 1110 in the older form, and
/// with a byte of ones in the newer one.
pub proof fn law_valid_addresses(addr: SocketAddr)
    ensures
        valid_address(addr) <==> {
            &&& addr.port != 0
            &&& match addr.ip {
                IpAddr::V4(ip) => ip != 0 && ip as int / 0x1000_0000 != 14,
                IpAddr::V6(ip) => ip != 0 && ip as int
                    / 0x100_0000_0000_0000_0000_0000_0000_0000 != 255,
            }
        },
{
}

} // verus!
