//! The table of the values that a node knows of.

use crate::crds_value::{CrdsValue, CrdsValueLabel};
use vstd::prelude::*;

verus! {

/// A place in the history of a table: the ordinal of the first value to come.
#[derive(Clone, Copy, Debug, PartialEq, Eq, Structural)]
pub struct Cursor {
    pub ordinal: u64,
}

/// A value of a table.
#[derive(Debug, PartialEq, Eq)]
pub struct VersionedCrdsValue {
    /// Counts the insertions into the table.
    pub ordinal: u64,
    pub value: CrdsValue,
    /// The local time at which the value was inserted.
    pub local_timestamp: u64,
}

/// Why a table turns a value away.
#[derive(Clone, Copy, Debug, PartialEq, Eq, Structural)]
pub enum CrdsError {
    /// The table holds a version of the value that the new one does not override.
    InsertFailed,
}

/// The latest version of each value that a node knows of, in the order in which
/// they were inserted.
#[derive(Debug)]
pub struct Crds {
    table: Vec<VersionedCrdsValue>,
    cursor: Cursor,
}

/// Some entry of the table has the label `label`.
pub open spec fn has_label(table: Seq<VersionedCrdsValue>, label: CrdsValueLabel) -> bool {
    exists|i: int| 0 <= i < table.len() && (#[trigger] table[i]).value.data.spec_label() == label
}

/// The place of an entry of the label `label`.
pub open spec fn index_of_label(table: Seq<VersionedCrdsValue>, label: CrdsValueLabel) -> int {
    choose|i: int| 0 <= i < table.len() && (#[trigger] table[i]).value.data.spec_label() == label
}

/// The table holds no version of `value`, or one that it overrides.
pub open spec fn is_news(table: Seq<VersionedCrdsValue>, value: CrdsValue) -> bool {
    let label = value.data.spec_label();
    !has_label(table, label) || value.overrides(table[index_of_label(table, label)].value)
}

/// The entries from `ordinal` on.
pub open spec fn entries_since(table: Seq<VersionedCrdsValue>, ordinal: u64) -> Seq<
    VersionedCrdsValue,
> {
    table.filter(|entry: VersionedCrdsValue| entry.ordinal >= ordinal)
}

impl Cursor {
    /// A cursor at the beginning of a table.
    pub fn new() -> (cursor: Cursor)
        ensures
            cursor.ordinal == 0,
    {
        Cursor { ordinal: 0 }
    }
}

impl Crds {
    /// The entries in the order of their ordinals.
    pub closed spec fn entries(&self) -> Seq<VersionedCrdsValue> {
        self.table@
    }

    /// The ordinal of the next insertion.
    pub closed spec fn next_ordinal(&self) -> u64 {
        self.cursor.ordinal
    }

    /// The ordinals grow and stay behind the next one, and no label occurs twice.
    pub open spec fn wf(&self) -> bool {
        &&& forall|i: int, j: int|
            #![trigger self.entries()[i], self.entries()[j]]
            0 <= i < j < self.entries().len() ==> {
                &&& self.entries()[i].ordinal < self.entries()[j].ordinal
                &&& self.entries()[i].value.data.spec_label()
                    != self.entries()[j].value.data.spec_label()
            }
        &&& forall|i: int|
            0 <= i < self.entries().len() ==> (#[trigger] self.entries()[i]).ordinal
                < self.next_ordinal()
    }

    /// An empty table.
    pub fn new() -> (crds: Self)
        ensures
            crds.wf(),
            crds.entries() == Seq::<VersionedCrdsValue>::empty(),
            crds.next_ordinal() == 0,
    {
        Crds { table: Vec::new(), cursor: Cursor::new() }
    }

    /// The number of values.
    pub fn len(&self) -> (len: usize)
        ensures
            len == self.entries().len(),
    {
        self.table.len()
    }

    /// A cursor behind all values.
    pub fn end(&self) -> (cursor: Cursor)
        ensures
            cursor.ordinal == self.next_ordinal(),
    {
        self.cursor
    }

    /// The entry at `index` in the order of the ordinals.
    pub fn entry_at(&self, index: usize) -> (entry: &VersionedCrdsValue)
        requires
            index < self.entries().len(),
        ensures
            *entry == self.entries()[index as int],
    {
        &self.table[index]
    }

    /// The place of the entry of the label `label`.
    fn find(&self, label: &CrdsValueLabel) -> (index: Option<usize>)
        requires
            self.wf(),
        ensures
            match index {
                Some(i) => {
                    &&& i < self.entries().len()
                    &&& has_label(self.entries(), *label)
                    &&& index_of_label(self.entries(), *label) == i
                },
                None => !has_label(self.entries(), *label),
            },
    {
        let mut i: usize = 0;
        while i < self.table.len()
            invariant
                self.wf(),
                i <= self.entries().len(),
                forall|j: int|
                    0 <= j < i ==> (#[trigger] self.entries()[j]).value.data.spec_label() != *label,
            decreases self.entries().len() - i,
        {
            if self.table[i].value.label() == *label {
                proof {
                    assert(self.entries()[i as int].value.data.spec_label() == *label);
                    let k = index_of_label(self.entries(), *label);
                    assert(k == i) by {
                        if k < i {
                            assert(self.entries()[k].value.data.spec_label() != *label);
                        }
                        if k > i {
                            assert(self.entries()[i as int].value.data.spec_label()
                                != self.entries()[k].value.data.spec_label());
                        }
                    }
                }
                return Some(i);
            }
            i += 1;
        }
        None
    }

    /// The value of the label `label`.
    pub fn lookup(&self, label: &CrdsValueLabel) -> (value: Option<&CrdsValue>)
        requires
            self.wf(),
        ensures
            match value {
                Some(v) => {
                    &&& has_label(self.entries(), *label)
                    &&& *v == self.entries()[index_of_label(self.entries(), *label)].value
                },
                None => !has_label(self.entries(), *label),
            },
    {
        match self.find(label) {
            Some(i) => Some(&self.table[i].value),
            None => None,
        }
    }

    /// Inserts a value, unless the table holds a version that it does not
    /// override. Returns the version that it replaced.
    pub fn insert(&mut self, value: CrdsValue, local_timestamp: u64) -> (replaced: Result<
        Option<VersionedCrdsValue>,
        CrdsError,
    >)
        requires
            old(self).wf(),
            is_news(old(self).entries(), value) ==> old(self).next_ordinal() < u64::MAX,
        ensures
            final(self).wf(),
            inserted(*old(self), *final(self), value, local_timestamp, replaced),
    {
        let label = value.label();
        let ordinal: u64 = self.cursor.ordinal;
        let ghost before = self.entries();
        match self.find(&label) {
            None => {
                self.cursor.ordinal = ordinal + 1;
                self.table.push(VersionedCrdsValue { ordinal, value, local_timestamp });
                proof {
                    assert(self.wf());
                }
                Ok(None)
            },
            Some(i) => {
                if !value.is_newer_than(&self.table[i].value) {
                    return Err(CrdsError::InsertFailed);
                }
                let replaced = self.table.remove(i);
                self.cursor.ordinal = ordinal + 1;
                self.table.push(VersionedCrdsValue { ordinal, value, local_timestamp });
                proof {
                    let rest = before.remove(i as int);
                    assert forall|j: int| 0 <= j < rest.len() implies {
                        &&& rest[j] == before[if j < i { j } else { j + 1 }]
                        &&& rest[j].value.data.spec_label() != label
                    } by {
                        let k: int = if j < i { j } else { j + 1 };
                        assert(before[i as int].value.data.spec_label() == label);
                        if k < i {
                            assert(before[k].value.data.spec_label()
                                != before[i as int].value.data.spec_label());
                        } else {
                            assert(before[i as int].value.data.spec_label()
                                != before[k].value.data.spec_label());
                        }
                    }
                    assert(self.entries() == rest.push(
                        VersionedCrdsValue { ordinal, value, local_timestamp },
                    ));
                }
                Ok(Some(replaced))
            },
        }
    }
}

/// What inserting `value` does to a table, and what it returns.
pub open spec fn inserted(
    before: Crds,
    after: Crds,
    value: CrdsValue,
    local_timestamp: u64,
    replaced: Result<Option<VersionedCrdsValue>, CrdsError>,
) -> bool {
    let label = value.data.spec_label();
    let index = index_of_label(before.entries(), label);
    let entry = VersionedCrdsValue { ordinal: before.next_ordinal(), value, local_timestamp };
    if !has_label(before.entries(), label) {
        &&& replaced == Ok::<Option<VersionedCrdsValue>, CrdsError>(None)
        &&& after.entries() == before.entries().push(entry)
        &&& after.next_ordinal() == before.next_ordinal() + 1
    } else if value.overrides(before.entries()[index].value) {
        &&& replaced == Ok::<Option<VersionedCrdsValue>, CrdsError>(Some(before.entries()[index]))
        &&& after.entries() == before.entries().remove(index).push(entry)
        &&& after.next_ordinal() == before.next_ordinal() + 1
    } else {
        &&& replaced == Err::<Option<VersionedCrdsValue>, CrdsError>(CrdsError::InsertFailed)
        &&& after == before
    }
}

} // verus!
