//! Which of the values that came into a table are due to be pushed.

use crate::crds::{entries_since, Crds, Cursor, VersionedCrdsValue};
use crate::crds_value::CrdsValue;
use vstd::prelude::*;

verus! {

/// A wallclock is at most `timeout` away from `now`.
pub open spec fn in_window(wallclock: u64, now: u64, timeout: u64) -> bool {
    now - timeout <= wallclock <= now + timeout
}

/// The values of entries whose wallclocks are at most `timeout` away from `now`.
pub open spec fn fresh_values(
    entries: Seq<VersionedCrdsValue>,
    now: u64,
    timeout: u64,
) -> Seq<CrdsValue> {
    entries.filter_map(
        |entry: VersionedCrdsValue|
            if in_window(entry.value.data.spec_wallclock(), now, timeout) {
                Some(entry.value)
            } else {
                None
            },
    )
}

/// The bytes of values on the wire.
pub open spec fn bytes_of(values: Seq<CrdsValue>) -> nat
    decreases values.len(),
{
    if values.len() == 0 {
        0
    } else {
        bytes_of(values.drop_last()) + values.last().size()
    }
}

/// The fresh values among the first `count` entries have more than `max_bytes`
/// bytes, as far as those can be counted.
pub open spec fn too_many_bytes(
    entries: Seq<VersionedCrdsValue>,
    now: u64,
    timeout: u64,
    max_bytes: usize,
    count: nat,
) -> bool {
    bytes_of(fresh_values(entries.take(count as int), now, timeout)) > max_bytes && max_bytes
        < usize::MAX
}

/// The number of entries from the front that are consumed, at least `count`: up to
/// the first that makes too many bytes or, where none does, all.
pub open spec fn consumed_count(
    entries: Seq<VersionedCrdsValue>,
    now: u64,
    timeout: u64,
    max_bytes: usize,
    count: nat,
) -> nat
    decreases entries.len() - count,
{
    if count >= entries.len() || too_many_bytes(entries, now, timeout, max_bytes, count) {
        count
    } else {
        consumed_count(entries, now, timeout, max_bytes, count + 1)
    }
}

/// The fresh values of the consumed entries, without the one that makes too many
/// bytes.
pub open spec fn due_values(
    entries: Seq<VersionedCrdsValue>,
    now: u64,
    timeout: u64,
    max_bytes: usize,
) -> Seq<CrdsValue> {
    let count = consumed_count(entries, now, timeout, max_bytes, 0);
    if too_many_bytes(entries, now, timeout, max_bytes, count) {
        fresh_values(entries.take(count - 1), now, timeout)
    } else {
        fresh_values(entries.take(count as int), now, timeout)
    }
}

/// The ordinal behind the consumed entries.
pub open spec fn ordinal_behind(
    entries: Seq<VersionedCrdsValue>,
    ordinal: u64,
    count: nat,
) -> u64 {
    if count == 0 {
        ordinal
    } else {
        (entries[count - 1].ordinal + 1) as u64
    }
}

/// The entries from a cursor on are the last ones of the table.
pub proof fn lemma_entries_since(table: Seq<VersionedCrdsValue>, ordinal: u64, first: int)
    requires
        0 <= first <= table.len(),
        forall|i: int| 0 <= i < first ==> (#[trigger] table[i]).ordinal < ordinal,
        forall|i: int| first <= i < table.len() ==> (#[trigger] table[i]).ordinal >= ordinal,
    ensures
        entries_since(table, ordinal) == table.skip(first),
    decreases table.len(),
{
    reveal(Seq::filter);
    if table.len() > 0 {
        let fewer = table.drop_last();
        if first < table.len() {
            lemma_entries_since(fewer, ordinal, first);
            assert(table.skip(first) =~= fewer.skip(first).push(table.last()));
        } else {
            lemma_entries_since(fewer, ordinal, first - 1);
            assert(table.skip(first) =~= fewer.skip(first - 1));
        }
    } else {
        assert(table.skip(first) =~= table);
    }
}

/// The oldest and the newest wallclock that are at most `timeout` away from `now`.
pub fn wallclock_bounds(now: u64, timeout: u64) -> (bounds: (u64, u64))
    ensures
        forall|wallclock: u64|
            #![trigger in_window(wallclock, now, timeout)]
            in_window(wallclock, now, timeout) <==> bounds.0 <= wallclock <= bounds.1,
        bounds.0 == if now >= timeout { now - timeout } else { 0 },
        bounds.1 == if now + timeout <= u64::MAX { now + timeout } else { u64::MAX as int },
{
    (now.saturating_sub(timeout), now.saturating_add(timeout))
}

/// The place of the first entry from `cursor` on.
pub fn first_entry_since(crds: &Crds, cursor: &Cursor) -> (first: usize)
    requires
        crds.wf(),
    ensures
        first <= crds.entries().len(),
        entries_since(crds.entries(), cursor.ordinal) == crds.entries().skip(first as int),
{
    let ghost table = crds.entries();
    let mut low: usize = 0;
    let mut high: usize = crds.len();
    while low < high
        invariant
            crds.wf(),
            table == crds.entries(),
            low <= high <= table.len(),
            forall|i: int| 0 <= i < low ==> (#[trigger] table[i]).ordinal < cursor.ordinal,
            forall|i: int| high <= i < table.len() ==> (#[trigger] table[i]).ordinal >= cursor.ordinal,
        decreases high - low,
    {
        let mid: usize = low + (high - low) / 2;
        if crds.entry_at(mid).ordinal < cursor.ordinal {
            low = mid + 1;
        } else {
            high = mid;
        }
    }
    proof {
        lemma_entries_since(table, cursor.ordinal, low as int);
    }
    low
}

/// Consumes the entries from `cursor` on, up to the first fresh value that makes more
/// than `max_bytes` bytes. Returns the fresh values before that one, and the cursor
/// behind the consumed entries.
pub fn consume_due<'a>(
    crds: &'a Crds,
    cursor: &Cursor,
    now: u64,
    timeout: u64,
    max_bytes: usize,
) -> (due: (Vec<&'a CrdsValue>, Cursor))
    requires
        crds.wf(),
    ensures
        ({
            let entries = entries_since(crds.entries(), cursor.ordinal);
            let values = due_values(entries, now, timeout, max_bytes);
            let count = consumed_count(entries, now, timeout, max_bytes, 0);
            &&& due.0@.len() == values.len()
            &&& forall|i: int| 0 <= i < values.len() ==> *(#[trigger] due.0@[i]) == values[i]
            &&& due.1.ordinal == ordinal_behind(entries, cursor.ordinal, count)
        }),
{
    let first: usize = first_entry_since(crds, cursor);
    let ghost entries = crds.entries().skip(first as int);
    let (oldest, newest) = wallclock_bounds(now, timeout);
    let mut values: Vec<&'a CrdsValue> = Vec::new();
    let mut total_bytes: usize = 0;
    let mut next: Cursor = *cursor;
    let mut i: usize = 0;
    reveal(Seq::filter_map);
    let rest: usize = crds.len() - first;
    while i < rest
        invariant
            crds.wf(),
            first + rest == crds.entries().len(),
            first + rest <= usize::MAX,
            entries == crds.entries().skip(first as int),
            entries == entries_since(crds.entries(), cursor.ordinal),
            forall|wallclock: u64|
                #![trigger in_window(wallclock, now, timeout)]
                in_window(wallclock, now, timeout) <==> oldest <= wallclock <= newest,
            i <= entries.len(),
            !too_many_bytes(entries, now, timeout, max_bytes, i as nat),
            consumed_count(entries, now, timeout, max_bytes, 0) == consumed_count(
                entries,
                now,
                timeout,
                max_bytes,
                i as nat,
            ),
            next.ordinal == ordinal_behind(entries, cursor.ordinal, i as nat),
            ({
                let fresh = fresh_values(entries.take(i as int), now, timeout);
                let bytes = bytes_of(fresh);
                &&& total_bytes == (if bytes <= usize::MAX { bytes } else { usize::MAX as nat })
                &&& values@.len() == fresh.len()
                &&& forall|j: int| 0 <= j < fresh.len() ==> *(#[trigger] values@[j]) == fresh[j]
            }),
        decreases entries.len() - i,
    {
        reveal(Seq::filter_map);
        let entry: &'a VersionedCrdsValue = crds.entry_at(first + i);
        let ghost fresh = fresh_values(entries.take(i as int), now, timeout);
        let ghost more = fresh_values(entries.take(i + 1), now, timeout);
        assert(entries.take(i + 1).drop_last() =~= entries.take(i as int));
        assert(entries[i as int] == *entry);
        next = Cursor { ordinal: entry.ordinal + 1 };
        let wallclock: u64 = entry.value.wallclock();
        assert(in_window(wallclock, now, timeout) <==> oldest <= wallclock <= newest);
        if oldest <= wallclock && wallclock <= newest {
            assert(more =~= fresh.push(entry.value));
            assert(more.drop_last() =~= fresh);
            total_bytes = total_bytes.saturating_add(entry.value.serialized_size());
            if total_bytes > max_bytes {
                assert(too_many_bytes(entries, now, timeout, max_bytes, (i + 1) as nat));
                assert(consumed_count(entries, now, timeout, max_bytes, (i + 1) as nat) == i + 1);
                assert(entries.take(i + 1 - 1) =~= entries.take(i as int));
                return (values, next);
            }
            values.push(&entry.value);
        } else {
            assert(more =~= fresh);
        }
        i += 1;
    }
    (values, next)
}

} // verus!
