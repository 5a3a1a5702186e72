//! The persistence gateway: an append-only table of readings.
//!
//! `MemoryStore` is the verified model of the durable store: rows only
//! ever get appended, identifiers grow strictly, and the latest row for a
//! device is the one with the highest identifier. A process that wants
//! durability mirrors every appended row into its own store outside the
//! library and seeds this model from it at startup.

use vstd::prelude::*;
use crate::errors::{NotFound, StorageError};
use crate::reading::{copy_bytes, DeviceTableRow, Milli};
use crate::tracker::bytes_eq;

verus! {

/// One persisted row: a reading plus its auto-incrementing identifier and
/// insertion timestamp. Rows are immutable once stored.
#[derive(Debug)]
pub struct StoredRow {
    pub id: u64,
    pub friendly_name: Vec<u8>,
    pub timestamp: u64,
    pub current: Milli,
    pub energy: Milli,
    pub power: u16,
    pub voltage: u16,
}

pub ghost struct StoredRowView {
    pub id: u64,
    pub friendly_name: Seq<u8>,
    pub timestamp: u64,
    pub current: u64,
    pub energy: u64,
    pub power: u16,
    pub voltage: u16,
}

impl View for StoredRow {
    type V = StoredRowView;

    open spec fn view(&self) -> StoredRowView {
        StoredRowView {
            id: self.id,
            friendly_name: self.friendly_name@,
            timestamp: self.timestamp,
            current: self.current.0,
            energy: self.energy.0,
            power: self.power,
            voltage: self.voltage,
        }
    }
}

impl StoredRow {
    /// A copy with the same view.
    pub fn duplicate(&self) -> (r: StoredRow)
        ensures
            r@ == self@,
    {
        StoredRow {
            id: self.id,
            friendly_name: copy_bytes(&self.friendly_name),
            timestamp: self.timestamp,
            current: self.current,
            energy: self.energy,
            power: self.power,
            voltage: self.voltage,
        }
    }
}

/// The most recently appended row for device `n`, if it ever reported.
pub open spec fn latest_row(rows: Seq<StoredRowView>, n: Seq<u8>) -> Option<StoredRowView>
    decreases rows.len(),
{
    if rows.len() == 0 {
        None
    } else if rows.last().friendly_name == n {
        Some(rows.last())
    } else {
        latest_row(rows.drop_last(), n)
    }
}

/// The in-memory model of the durable table.
pub struct MemoryStore {
    rows: Vec<StoredRow>,
    next_id: u64,
    schema_ready: bool,
}

impl MemoryStore {
    /// The appended rows, oldest first.
    pub closed spec fn rows_model(self) -> Seq<StoredRowView> {
        self.rows@.map_values(|r: StoredRow| r@)
    }

    /// How many tables the schema holds: zero before `ensure_schema`, one
    /// after, never more.
    pub closed spec fn table_count(self) -> int {
        if self.schema_ready {
            1
        } else {
            0
        }
    }

    /// The identifier the next appended row will get.
    pub closed spec fn spec_next_id(self) -> u64 {
        self.next_id
    }

    /// Well-formed: identifiers grow strictly in append order and stay
    /// below the next free identifier.
    pub closed spec fn wf(self) -> bool {
        &&& forall|i: int|
            0 <= i < self.rows_model().len() ==> (#[trigger] self.rows_model()[i].id)
                < self.next_id
        &&& forall|i: int, j: int|
            0 <= i < j < self.rows_model().len() ==> self.rows_model()[i].id
                < self.rows_model()[j].id
    }

    /// Identifier order, for clients of the public contracts: stored
    /// rows carry strictly increasing identifiers in append order, all of
    /// them below the next free identifier.
    pub proof fn lemma_row_ids_ordered(self)
        requires
            self.wf(),
        ensures
            forall|i: int, j: int|
                0 <= i < j < self.rows_model().len() ==> self.rows_model()[i].id
                    < self.rows_model()[j].id,
            forall|i: int|
                0 <= i < self.rows_model().len() ==> (#[trigger] self.rows_model()[i].id)
                    < self.spec_next_id(),
    {
    }

    /// An empty store without a schema.
    pub fn new() -> (s: Self)
        ensures
            s.wf(),
            s.rows_model() == Seq::<StoredRowView>::empty(),
            s.table_count() == 0,
            s.spec_next_id() == 0,
    {
        let s = MemoryStore { rows: Vec::new(), next_id: 0, schema_ready: false };
        proof {
            assert(s.rows_model() =~= Seq::<StoredRowView>::empty());
        }
        s
    }

    /// Creates the table if it is absent. Idempotent: however often it is
    /// called, exactly one table exists afterwards and no call fails, and
    /// the stored rows are untouched.
    pub fn ensure_schema(&mut self) -> (r: Result<(), StorageError>)
        ensures
            r == Ok::<(), StorageError>(()),
            final(self).table_count() == 1,
            final(self).rows_model() == old(self).rows_model(),
            final(self).spec_next_id() == old(self).spec_next_id(),
            old(self).wf() ==> final(self).wf(),
    {
        self.schema_ready = true;
        Ok(())
    }

    /// Appends one row, stamping it with the next free identifier, and
    /// returns that identifier. Fails exactly when the schema is missing
    /// or the identifiers are exhausted; a failed append changes nothing.
    pub fn append(
        &mut self,
        name: &Vec<u8>,
        timestamp: u64,
        current: Milli,
        energy: Milli,
        power: u16,
        voltage: u16,
    ) -> (r: Result<u64, StorageError>)
        requires
            old(self).wf(),
        ensures
            final(self).wf(),
            final(self).table_count() == old(self).table_count(),
            old(self).table_count() == 0 ==> r == Err::<u64, StorageError>(
                StorageError::MissingSchema,
            ) && *final(self) == *old(self),
            old(self).table_count() == 1 && old(self).spec_next_id() == u64::MAX ==> r
                == Err::<u64, StorageError>(StorageError::IdsExhausted) && *final(self) == *old(
                self,
            ),
            old(self).table_count() == 1 && old(self).spec_next_id() < u64::MAX ==> {
                &&& r == Ok::<u64, StorageError>(old(self).spec_next_id())
                &&& final(self).rows_model() == old(self).rows_model().push(
                    StoredRowView {
                        id: old(self).spec_next_id(),
                        friendly_name: name@,
                        timestamp: timestamp,
                        current: current.0,
                        energy: energy.0,
                        power: power,
                        voltage: voltage,
                    },
                )
                &&& final(self).spec_next_id() == old(self).spec_next_id() + 1
            },
    {
        if !self.schema_ready {
            return Err(StorageError::MissingSchema);
        }
        if self.next_id == u64::MAX {
            return Err(StorageError::IdsExhausted);
        }
        let id = self.next_id;
        let row = StoredRow {
            id,
            friendly_name: copy_bytes(name),
            timestamp,
            current,
            energy,
            power,
            voltage,
        };
        let ghost old_rows = self.rows_model();
        self.rows.push(row);
        self.next_id = id + 1;
        proof {
            assert(self.rows_model() =~= old_rows.push(
                StoredRowView {
                    id: id,
                    friendly_name: name@,
                    timestamp: timestamp,
                    current: current.0,
                    energy: energy.0,
                    power: power,
                    voltage: voltage,
                },
            ));
        }
        Ok(id)
    }

    /// The most recently appended row for `name`, projected onto the
    /// persisted reading columns; `NotFound` exactly when the device never
    /// reported.
    pub fn latest_for(&self, name: &Vec<u8>) -> (r: Result<DeviceTableRow, NotFound>)
        ensures
            match r {
                Ok(row) => {
                    &&& latest_row(self.rows_model(), name@) is Some
                    &&& {
                        let found = latest_row(self.rows_model(), name@)->Some_0;
                        row@.friendly_name == found.friendly_name && row@.current == found.current
                            && row@.energy == found.energy && row@.power == found.power
                            && row@.voltage == found.voltage
                    }
                },
                Err(e) => e == NotFound && latest_row(self.rows_model(), name@) is None,
            },
    {
        let ghost full = self.rows_model();
        let mut i: usize = self.rows.len();
        proof {
            assert(full.subrange(0, i as int) =~= full);
        }
        while i > 0
            invariant
                0 <= i <= self.rows.len(),
                full == self.rows_model(),
                latest_row(full, name@) == latest_row(full.subrange(0, i as int), name@),
            decreases i,
        {
            let j = i - 1;
            let ghost sub = full.subrange(0, i as int);
            proof {
                assert(sub.last() == full[j as int]);
                assert(sub.drop_last() =~= full.subrange(0, j as int));
            }
            if bytes_eq(&self.rows[j].friendly_name, name) {
                let found = &self.rows[j];
                proof {
                    assert(full[j as int].friendly_name == name@);
                    assert(latest_row(sub, name@) == Some(full[j as int]));
                }
                return Ok(
                    DeviceTableRow {
                        friendly_name: copy_bytes(&found.friendly_name),
                        current: found.current,
                        energy: found.energy,
                        power: found.power,
                        voltage: found.voltage,
                    },
                );
            }
            proof {
                assert(full[j as int].friendly_name != name@);
                assert(latest_row(sub, name@) == latest_row(sub.drop_last(), name@));
            }
            i = j;
        }
        proof {
            assert(full.subrange(0, 0) =~= Seq::<StoredRowView>::empty());
        }
        Err(NotFound)
    }

    /// How many rows the table holds.
    pub fn row_count(&self) -> (n: usize)
        ensures
            n == self.rows_model().len(),
    {
        self.rows.len()
    }

    /// A copy of the `i`-th row, oldest first.
    pub fn row_at(&self, i: usize) -> (r: StoredRow)
        requires
            i < self.rows_model().len(),
        ensures
            r@ == self.rows_model()[i as int],
    {
        self.rows[i].duplicate()
    }
}

} // verus!
