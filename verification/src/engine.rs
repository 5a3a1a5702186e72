//! The ingestion engine: the decision core of the event loop.
//!
//! The loop outside the library waits for the next event — a message from
//! the broker, or the poll interval passing without one — and hands it
//! here. `handle_message` decodes, updates liveness and appends the
//! reading; `handle_timeout` finds the stale devices and fabricates one
//! zero-draw continuity row for each that has a baseline, resetting its
//! liveness so backfill does not repeat on the next tick.

use vstd::prelude::*;
use crate::codec::{decode, decode_spec};
use crate::errors::{DecodeError, IngestError, StorageError};
use crate::reading::Milli;
use crate::store::{latest_row, MemoryStore, StoredRow, StoredRowView};
use crate::tracker::{
    dedup_first, spec_is_stale, stale_names_of, views_of, LivenessTracker,
};

verus! {

/// The views of a sequence of stored rows.
pub open spec fn row_views(s: Seq<StoredRow>) -> Seq<StoredRowView> {
    s.map_values(|r: StoredRow| r@)
}

/// The whole observable state of the engine: the liveness map, the table
/// rows, and the next row identifier.
#[verifier::ext_equal]
pub ghost struct EngineModel {
    pub last_seen: Map<Seq<u8>, u64>,
    pub rows: Seq<StoredRowView>,
    pub next_id: u64,
}

/// One backfill step for device `n` at time `now`: a device with no
/// baseline row is skipped; otherwise a synthetic row is appended that
/// copies the latest `energy` and `voltage`, forces `current` and `power`
/// to zero, and the device's liveness is reset to `now`.
pub open spec fn backfill_one(m: EngineModel, n: Seq<u8>, now: u64) -> EngineModel {
    match latest_row(m.rows, n) {
        None => m,
        Some(row) => EngineModel {
            last_seen: m.last_seen.insert(n, now),
            rows: m.rows.push(
                StoredRowView {
                    id: m.next_id,
                    friendly_name: n,
                    timestamp: now,
                    current: 0,
                    energy: row.energy,
                    power: 0,
                    voltage: row.voltage,
                },
            ),
            next_id: (m.next_id + 1) as u64,
        },
    }
}

/// Backfill applied to each name in order.
pub open spec fn backfill_all(m: EngineModel, names: Seq<Seq<u8>>, now: u64) -> EngineModel
    decreases names.len(),
{
    if names.len() == 0 {
        m
    } else {
        backfill_all(backfill_one(m, names[0], now), names.subrange(1, names.len() as int), now)
    }
}

/// Folding one more name equals one more step on the folded state.
pub proof fn lemma_backfill_all_snoc(m: EngineModel, names: Seq<Seq<u8>>, n: Seq<u8>, now: u64)
    ensures
        backfill_all(m, names.push(n), now) == backfill_one(backfill_all(m, names, now), n, now),
    decreases names.len(),
{
    let s = names.push(n);
    if names.len() == 0 {
        assert(s[0] == n);
        assert(s.subrange(1, s.len() as int) =~= Seq::<Seq<u8>>::empty());
        assert(backfill_all(m, s, now) == backfill_all(
            backfill_one(m, n, now),
            s.subrange(1, s.len() as int),
            now,
        ));
        assert(backfill_all(backfill_one(m, n, now), s.subrange(1, s.len() as int), now)
            == backfill_one(m, n, now));
        assert(backfill_all(m, names, now) == m);
    } else {
        assert(s[0] == names[0]);
        assert(s.subrange(1, s.len() as int) =~= names.subrange(1, names.len() as int).push(n));
        assert(backfill_all(m, s, now) == backfill_all(
            backfill_one(m, names[0], now),
            s.subrange(1, s.len() as int),
            now,
        ));
        lemma_backfill_all_snoc(
            backfill_one(m, names[0], now),
            names.subrange(1, names.len() as int),
            n,
            now,
        );
        assert(backfill_all(m, names, now) == backfill_all(
            backfill_one(m, names[0], now),
            names.subrange(1, names.len() as int),
            now,
        ));
    }
}

/// A push never removes a device's latest row.
proof fn lemma_latest_row_push(rows: Seq<StoredRowView>, row: StoredRowView, n: Seq<u8>)
    requires
        latest_row(rows, n) is Some,
    ensures
        latest_row(rows.push(row), n) is Some,
{
    assert(rows.push(row).last() == row);
    assert(rows.push(row).drop_last() =~= rows);
}

/// Once a device's liveness stands at `now`, the rest of a backfill pass
/// at `now` keeps it there.
proof fn lemma_backfill_keeps(m: EngineModel, names: Seq<Seq<u8>>, now: u64, n: Seq<u8>)
    requires
        m.last_seen.contains_key(n),
        m.last_seen[n] == now,
    ensures
        backfill_all(m, names, now).last_seen.contains_key(n),
        backfill_all(m, names, now).last_seen[n] == now,
    decreases names.len(),
{
    if names.len() > 0 {
        lemma_backfill_keeps(
            backfill_one(m, names[0], now),
            names.subrange(1, names.len() as int),
            now,
            n,
        );
    }
}

/// Backfill resets liveness: a device in the pass that had a baseline
/// row is fresh afterwards, so a staleness query within the threshold
/// window does not name it again.
pub proof fn lemma_backfill_resets_liveness(
    m: EngineModel,
    names: Seq<Seq<u8>>,
    now: u64,
    n: Seq<u8>,
    later: u64,
    threshold: u64,
)
    requires
        names.contains(n),
        latest_row(m.rows, n) is Some,
        later <= now + threshold,
    ensures
        backfill_all(m, names, now).last_seen.contains_key(n),
        backfill_all(m, names, now).last_seen[n] == now,
        !spec_is_stale(backfill_all(m, names, now).last_seen[n], later, threshold),
    decreases names.len(),
{
    let rest = names.subrange(1, names.len() as int);
    let m2 = backfill_one(m, names[0], now);
    if names[0] == n {
        assert(m2.last_seen.contains_key(n) && m2.last_seen[n] == now);
        lemma_backfill_keeps(m2, rest, now, n);
    } else {
        let i = choose|i: int| 0 <= i < names.len() && names[i] == n;
        assert(rest[i - 1] == n);
        assert(rest.contains(n));
        match latest_row(m.rows, names[0]) {
            None => {
                assert(m2 == m);
            },
            Some(row) => {
                lemma_latest_row_push(
                    m.rows,
                    StoredRowView {
                        id: m.next_id,
                        friendly_name: names[0],
                        timestamp: now,
                        current: 0,
                        energy: row.energy,
                        power: 0,
                        voltage: row.voltage,
                    },
                    n,
                );
            },
        }
        lemma_backfill_resets_liveness(m2, rest, now, n, later, threshold);
    }
}

/// The ingestion-and-liveness engine.
pub struct Engine {
    tracker: LivenessTracker,
    store: MemoryStore,
    threshold: u64,
}

impl Engine {
    pub closed spec fn spec_tracker(self) -> LivenessTracker {
        self.tracker
    }

    pub closed spec fn spec_store(self) -> MemoryStore {
        self.store
    }

    /// The staleness threshold, in seconds.
    pub closed spec fn spec_threshold(self) -> u64 {
        self.threshold
    }

    /// The observable state.
    pub open spec fn model(self) -> EngineModel {
        EngineModel {
            last_seen: self.spec_tracker().model(),
            rows: self.spec_store().rows_model(),
            next_id: self.spec_store().spec_next_id(),
        }
    }

    /// Well-formed: tracker and store invariants hold and the schema
    /// exists.
    pub open spec fn wf(self) -> bool {
        &&& self.spec_tracker().wf()
        &&& self.spec_store().wf()
        &&& self.spec_store().table_count() == 1
    }

    /// Builds the engine: one liveness entry per distinct configured
    /// device, all last seen `now`; an empty table whose schema exists.
    pub fn new(device_names: &Vec<Vec<u8>>, now: u64, threshold: u64) -> (e: Self)
        ensures
            e.wf(),
            e.spec_threshold() == threshold,
            e.model().rows == Seq::<StoredRowView>::empty(),
            e.model().next_id == 0,
            e.spec_tracker().names() == dedup_first(views_of(device_names@)),
            forall|k: Seq<u8>|
                e.model().last_seen.contains_key(k) <==> views_of(device_names@).contains(k),
            forall|k: Seq<u8>| e.model().last_seen.contains_key(k) ==> e.model().last_seen[k]
                == now,
    {
        let tracker = LivenessTracker::initialize(device_names, now);
        let mut store = MemoryStore::new();
        let _schema = store.ensure_schema();
        Engine { tracker, store, threshold }
    }

    /// Ingests one incoming message at time `now`: decodes the payload —
    /// a canonical wire document, see the codec — refreshes the device's
    /// liveness, and appends the reading with timestamp `now`. A
    /// malformed payload or an untracked device changes nothing; a
    /// reading for an untracked device is never stored and never gains a
    /// liveness entry.
    pub fn handle_message(&mut self, payload: &Vec<u8>, now: u64) -> (r: Result<
        StoredRow,
        IngestError,
    >)
        requires
            old(self).wf(),
        ensures
            final(self).wf(),
            final(self).spec_threshold() == old(self).spec_threshold(),
            decode_spec(payload@) is None ==> r == Err::<StoredRow, IngestError>(
                IngestError::Decode(DecodeError),
            ) && *final(self) == *old(self),
            decode_spec(payload@) matches Some(resp) ==> {
                let name = resp.device.friendly_name;
                &&& !old(self).model().last_seen.contains_key(name) ==> r == Err::<
                    StoredRow,
                    IngestError,
                >(IngestError::UnknownDevice) && *final(self) == *old(self)
                &&& old(self).model().last_seen.contains_key(name) ==> {
                    &&& final(self).model().last_seen == old(self).model().last_seen.insert(
                        name,
                        now,
                    )
                    &&& old(self).model().next_id < u64::MAX ==> {
                        let row = StoredRowView {
                            id: old(self).model().next_id,
                            friendly_name: name,
                            timestamp: now,
                            current: resp.current,
                            energy: resp.energy,
                            power: resp.power,
                            voltage: resp.voltage,
                        };
                        &&& r matches Ok(stored) && stored@ == row
                        &&& final(self).model().rows == old(self).model().rows.push(row)
                        &&& final(self).model().next_id == old(self).model().next_id + 1
                    }
                    &&& old(self).model().next_id == u64::MAX ==> r == Err::<
                        StoredRow,
                        IngestError,
                    >(IngestError::Storage(StorageError::IdsExhausted))
                        && final(self).spec_store() == old(self).spec_store()
                }
            },
    {
        let response = match decode(payload) {
            Ok(resp) => resp,
            Err(e) => {
                return Err(IngestError::Decode(e));
            },
        };
        match self.tracker.touch(&response.device.friendly_name, now) {
            Ok(()) => {},
            Err(_) => {
                return Err(IngestError::UnknownDevice);
            },
        }
        let id = match self.store.append(
            &response.device.friendly_name,
            now,
            response.current,
            response.energy,
            response.power,
            response.voltage,
        ) {
            Ok(id) => id,
            Err(e) => {
                return Err(IngestError::Storage(e));
            },
        };
        let stored = StoredRow {
            id,
            friendly_name: response.device.friendly_name,
            timestamp: now,
            current: response.current,
            energy: response.energy,
            power: response.power,
            voltage: response.voltage,
        };
        Ok(stored)
    }

    /// Handles a poll tick at time `now` on which no message arrived:
    /// every stale device is backfilled in tracker order (devices without
    /// a baseline are skipped), and the appended synthetic rows are
    /// returned, oldest first, for mirroring. On a storage failure the
    /// work done so far stands and the failure is reported.
    pub fn handle_timeout(&mut self, now: u64) -> (r: Result<Vec<StoredRow>, StorageError>)
        requires
            old(self).wf(),
        ensures
            final(self).wf(),
            final(self).spec_threshold() == old(self).spec_threshold(),
            final(self).spec_tracker().names() == old(self).spec_tracker().names(),
            ({
                let stale = stale_names_of(
                    old(self).spec_tracker(),
                    now,
                    old(self).spec_threshold(),
                );
                &&& r matches Ok(out) ==> final(self).model() == backfill_all(
                    old(self).model(),
                    stale,
                    now,
                ) && final(self).model().rows == old(self).model().rows + row_views(out@)
                &&& old(self).model().next_id + stale.len() <= u64::MAX ==> r is Ok
                &&& r matches Err(e) ==> e == StorageError::IdsExhausted
                    && final(self).model().next_id == u64::MAX
                &&& r is Err ==> exists|k: int|
                    0 <= k <= stale.len() && final(self).model() == backfill_all(
                        old(self).model(),
                        #[trigger] stale.subrange(0, k),
                        now,
                    )
            }),
    {
        let ghost m0 = old(self).model();
        let stale = self.tracker.stale_devices(now, self.threshold);
        let ghost names_all = views_of(stale@);
        let mut out: Vec<StoredRow> = Vec::new();
        let mut i: usize = 0;
        proof {
            assert(names_all.subrange(0, 0) =~= Seq::<Seq<u8>>::empty());
            assert(self.model() =~= backfill_all(m0, names_all.subrange(0, 0), now));
            assert(row_views(out@) =~= Seq::<StoredRowView>::empty());
            assert(m0.rows + row_views(out@) =~= m0.rows);
        }
        while i < stale.len()
            invariant
                0 <= i <= stale@.len(),
                names_all == views_of(stale@),
                names_all == stale_names_of(old(self).spec_tracker(), now, old(
                    self,
                ).spec_threshold()),
                forall|k: Seq<u8>| #[trigger]
                    names_all.contains(k) ==> old(self).spec_tracker().model().contains_key(k),
                forall|k: Seq<u8>|
                    self.spec_tracker().model().contains_key(k) <==> old(
                        self,
                    ).spec_tracker().model().contains_key(k),
                self.wf(),
                self.spec_threshold() == old(self).spec_threshold(),
                self.spec_tracker().names() == old(self).spec_tracker().names(),
                self.model() == backfill_all(m0, names_all.subrange(0, i as int), now),
                self.model().rows == m0.rows + row_views(out@),
                self.model().next_id <= m0.next_id + i,
                m0 == old(self).model(),
            decreases stale@.len() - i,
        {
            let ghost prev = self.model();
            let ghost prefix = names_all.subrange(0, i as int);
            let ghost name_v = names_all[i as int];
            proof {
                assert(names_all.subrange(0, i + 1 as int) =~= prefix.push(name_v));
                lemma_backfill_all_snoc(m0, prefix, name_v, now);
                assert(names_all[i as int] == stale@[i as int]@);
                assert(names_all.contains(name_v));
            }
            match self.store.latest_for(&stale[i]) {
                Err(_) => {
                    proof {
                        assert(latest_row(prev.rows, name_v) is None);
                        assert(backfill_one(prev, name_v, now) == prev);
                    }
                },
                Ok(row) => {
                    let ghost found = latest_row(prev.rows, name_v)->Some_0;
                    let id = match self.store.append(
                        &stale[i],
                        now,
                        Milli(0),
                        row.energy,
                        0,
                        row.voltage,
                    ) {
                        Ok(id) => id,
                        Err(e) => {
                            proof {
                                let staleseq = stale_names_of(
                                    old(self).spec_tracker(),
                                    now,
                                    old(self).spec_threshold(),
                                );
                                assert(staleseq == names_all);
                                assert(staleseq.subrange(0, i as int) == names_all.subrange(
                                    0,
                                    i as int,
                                ));
                                assert(self.model() == backfill_all(
                                    m0,
                                    staleseq.subrange(0, i as int),
                                    now,
                                ));
                                assert(e == StorageError::IdsExhausted);
                                assert(self.model().next_id == u64::MAX);
                                assert(m0.next_id + staleseq.len() > u64::MAX);
                            }
                            return Err(e);
                        },
                    };
                    let touched = self.tracker.touch(&stale[i], now);
                    proof {
                        assert(touched is Ok);
                        assert(self.model() =~= backfill_one(prev, name_v, now));
                    }
                    let synthetic = StoredRow {
                        id,
                        friendly_name: crate::reading::copy_bytes(&stale[i]),
                        timestamp: now,
                        current: Milli(0),
                        energy: row.energy,
                        power: 0,
                        voltage: row.voltage,
                    };
                    let ghost syn_v = synthetic@;
                    let ghost out_old = out@;
                    out.push(synthetic);
                    proof {
                        assert(row_views(out@) =~= row_views(out_old).push(syn_v));
                        assert(self.model().rows =~= m0.rows + row_views(out@));
                    }
                },
            }
            i = i + 1;
        }
        proof {
            assert(names_all.subrange(0, stale@.len() as int) =~= names_all);
        }
        Ok(out)
    }

    /// Replays one already-persisted row into the engine's table, so
    /// that a restarted process keeps its backfill baselines. Rows must
    /// be replayed oldest first; replaying does not touch liveness.
    pub fn seed_row(
        &mut self,
        name: &Vec<u8>,
        timestamp: u64,
        current: Milli,
        energy: Milli,
        power: u16,
        voltage: u16,
    ) -> (r: Result<u64, StorageError>)
        requires
            old(self).wf(),
        ensures
            final(self).wf(),
            final(self).spec_threshold() == old(self).spec_threshold(),
            final(self).spec_tracker() == old(self).spec_tracker(),
            old(self).model().next_id < u64::MAX ==> r == Ok::<u64, StorageError>(
                old(self).model().next_id,
            ) && final(self).model().rows == old(self).model().rows.push(
                StoredRowView {
                    id: old(self).model().next_id,
                    friendly_name: name@,
                    timestamp: timestamp,
                    current: current.0,
                    energy: energy.0,
                    power: power,
                    voltage: voltage,
                },
            ) && final(self).model().next_id == old(self).model().next_id + 1,
            old(self).model().next_id == u64::MAX ==> r == Err::<u64, StorageError>(
                StorageError::IdsExhausted,
            ) && *final(self) == *old(self),
    {
        self.store.append(name, timestamp, current, energy, power, voltage)
    }

    /// The stale devices right now, in tracker order.
    pub fn stale_devices(&self, now: u64) -> (r: Vec<Vec<u8>>)
        requires
            self.wf(),
        ensures
            views_of(r@) == stale_names_of(self.spec_tracker(), now, self.spec_threshold()),
    {
        self.tracker.stale_devices(now, self.threshold)
    }

    /// The liveness tracker, read-only.
    pub fn tracker_ref(&self) -> (t: &LivenessTracker)
        ensures
            *t == self.spec_tracker(),
    {
        &self.tracker
    }

    /// The store, read-only.
    pub fn store_ref(&self) -> (s: &MemoryStore)
        ensures
            *s == self.spec_store(),
    {
        &self.store
    }

    /// The staleness threshold, in seconds.
    pub fn threshold(&self) -> (t: u64)
        ensures
            t == self.spec_threshold(),
    {
        self.threshold
    }
}

} // verus!
