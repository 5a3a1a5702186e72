//! Liveness tracking: the per-device last-seen map, and the staleness
//! query that drives backfill.
//!
//! The tracker owns one entry per configured device for the whole process
//! lifetime: entries are created when the tracking set is declared, updated
//! on every accepted reading or backfill, and never deleted. Devices
//! outside the tracking set never gain an entry.

use vstd::prelude::*;
use crate::errors::TrackerError;
use crate::reading::copy_bytes;

verus! {

/// The views of a sequence of owned byte strings.
pub open spec fn views_of(s: Seq<Vec<u8>>) -> Seq<Seq<u8>> {
    s.map_values(|v: Vec<u8>| v@)
}

/// No name occurs twice.
pub open spec fn unique_names(s: Seq<Seq<u8>>) -> bool {
    forall|p: int, q: int| 0 <= p < q < s.len() ==> s[p] != s[q]
}

proof fn lemma_unique_index(s: Seq<Seq<u8>>, p: int, q: int)
    requires
        unique_names(s),
        0 <= p < s.len(),
        0 <= q < s.len(),
        p != q,
    ensures
        s[p] != s[q],
{
    if p < q {
        assert(s[p] != s[q]);
    } else {
        assert(s[q] != s[p]);
    }
}

/// The given names with every repeated occurrence after the first removed;
/// first occurrences keep their order.
pub open spec fn dedup_first(s: Seq<Seq<u8>>) -> Seq<Seq<u8>>
    decreases s.len(),
{
    if s.len() == 0 {
        Seq::empty()
    } else {
        let rest = dedup_first(s.drop_last());
        if rest.contains(s.last()) {
            rest
        } else {
            rest.push(s.last())
        }
    }
}

/// A device is stale when strictly more than `threshold` seconds have
/// passed since it was last seen.
pub open spec fn spec_is_stale(last_seen: u64, now: u64, threshold: u64) -> bool {
    now > last_seen + threshold
}

/// The tracked names that are stale at `now`, in tracker order.
pub open spec fn stale_names_of(t: LivenessTracker, now: u64, threshold: u64) -> Seq<Seq<u8>> {
    t.names().filter(|n: Seq<u8>| spec_is_stale(t.model()[n], now, threshold))
}

pub open spec fn entry_names(s: Seq<(Vec<u8>, u64)>) -> Seq<Seq<u8>> {
    s.map_values(|e: (Vec<u8>, u64)| e.0@)
}

/// The map that a sequence of (name, last-seen) entries denotes; a later
/// entry for the same name wins, though a well-formed tracker never holds
/// two entries for one name.
pub open spec fn model_of(s: Seq<(Vec<u8>, u64)>) -> Map<Seq<u8>, u64>
    decreases s.len(),
{
    if s.len() == 0 {
        Map::empty()
    } else {
        model_of(s.drop_last()).insert(s.last().0@, s.last().1)
    }
}

proof fn lemma_model_of_contains(s: Seq<(Vec<u8>, u64)>, k: Seq<u8>)
    ensures
        model_of(s).contains_key(k) <==> entry_names(s).contains(k),
    decreases s.len(),
{
    if s.len() == 0 {
        assert(!entry_names(s).contains(k));
    } else {
        lemma_model_of_contains(s.drop_last(), k);
        assert(entry_names(s.drop_last()) =~= entry_names(s).drop_last());
        if model_of(s).contains_key(k) {
            if k == s.last().0@ {
                assert(entry_names(s)[s.len() - 1] == k);
                assert(entry_names(s).contains(k));
            } else {
                let i = choose|i: int| 0 <= i < s.len() - 1 && entry_names(s.drop_last())[i] == k;
                assert(entry_names(s)[i] == k);
            }
        }
        if entry_names(s).contains(k) {
            let i = choose|i: int| 0 <= i < s.len() && entry_names(s)[i] == k;
            if i == s.len() - 1 {
                assert(model_of(s).contains_key(k));
            } else {
                assert(entry_names(s.drop_last())[i] == k);
            }
        }
    }
}

proof fn lemma_model_of_index(s: Seq<(Vec<u8>, u64)>, i: int)
    requires
        0 <= i < s.len(),
        unique_names(entry_names(s)),
    ensures
        model_of(s).contains_key(s[i].0@),
        model_of(s)[s[i].0@] == s[i].1,
    decreases s.len(),
{
    if i == s.len() - 1 {
    } else {
        assert(entry_names(s.drop_last()) =~= entry_names(s).drop_last());
        lemma_model_of_index(s.drop_last(), i);
        lemma_unique_index(entry_names(s), i, s.len() - 1);
        assert(s.last().0@ == entry_names(s)[s.len() - 1]);
        assert(s[i].0@ == entry_names(s)[i]);
    }
}

proof fn lemma_model_of_update(s: Seq<(Vec<u8>, u64)>, i: int, e: (Vec<u8>, u64))
    requires
        0 <= i < s.len(),
        e.0@ == s[i].0@,
        unique_names(entry_names(s)),
    ensures
        model_of(s.update(i, e)) =~= model_of(s).insert(e.0@, e.1),
    decreases s.len(),
{
    let k = e.0@;
    if i == s.len() - 1 {
        assert(s.update(i, e).drop_last() =~= s.drop_last());
        assert(s.update(i, e).last() == e);
        assert(model_of(s.update(i, e)) =~= model_of(s.drop_last()).insert(k, e.1));
        assert(s.last().0@ == k);
    } else {
        assert(s.update(i, e).drop_last() =~= s.drop_last().update(i, e));
        assert(entry_names(s.drop_last()) =~= entry_names(s).drop_last());
        lemma_model_of_update(s.drop_last(), i, e);
        let last = s.last();
        assert(s.update(i, e).last() == last);
        lemma_unique_index(entry_names(s), i, s.len() - 1);
        assert(entry_names(s)[i] == k && entry_names(s)[s.len() - 1] == last.0@);
        assert(last.0@ != k);
        assert(model_of(s.update(i, e)) =~= model_of(s.drop_last().update(i, e)).insert(
            last.0@,
            last.1,
        ));
    }
}

/// Membership survives duplicate removal.
pub proof fn lemma_dedup_first_contains(s: Seq<Seq<u8>>, x: Seq<u8>)
    ensures
        dedup_first(s).contains(x) <==> s.contains(x),
    decreases s.len(),
{
    if s.len() == 0 {
    } else {
        lemma_dedup_first_contains(s.drop_last(), x);
        let rest = dedup_first(s.drop_last());
        if s.contains(x) {
            let i = choose|i: int| 0 <= i < s.len() && s[i] == x;
            if i < s.len() - 1 {
                assert(s.drop_last()[i] == x);
                assert(s.drop_last().contains(x));
                if !rest.contains(s.last()) {
                    let j = choose|j: int| 0 <= j < rest.len() && rest[j] == x;
                    assert(rest.push(s.last())[j] == x);
                }
            } else {
                assert(s[i] == s.last());
                if !rest.contains(s.last()) {
                    assert(rest.push(s.last()).last() == x);
                }
            }
        }
        if dedup_first(s).contains(x) {
            if rest.contains(s.last()) {
                assert(s.drop_last().contains(x));
                let j = choose|j: int| 0 <= j < s.len() - 1 && s.drop_last()[j] == x;
                assert(s[j] == x);
            } else {
                let j = choose|j: int| 0 <= j < rest.len() + 1 && rest.push(s.last())[j] == x;
                if j < rest.len() {
                    assert(rest[j] == x);
                    assert(s.drop_last().contains(x));
                    let p = choose|p: int| 0 <= p < s.len() - 1 && s.drop_last()[p] == x;
                    assert(s[p] == x);
                } else {
                    assert(s.last() == x);
                    assert(s[s.len() - 1] == x);
                }
            }
        }
    }
}

/// A staleness query names no device twice, for clients of the public
/// contracts: a well-formed tracker's names are unique, and filtering
/// them keeps them so.
pub proof fn lemma_stale_names_unique(t: LivenessTracker, now: u64, threshold: u64)
    requires
        t.wf(),
    ensures
        unique_names(t.names()),
        unique_names(stale_names_of(t, now, threshold)),
{
    lemma_filter_unique(t.names(), |n: Seq<u8>| spec_is_stale(t.model()[n], now, threshold));
}

proof fn lemma_filter_unique(s: Seq<Seq<u8>>, pred: spec_fn(Seq<u8>) -> bool)
    requires
        unique_names(s),
    ensures
        unique_names(s.filter(pred)),
    decreases s.len(),
{
    reveal(Seq::filter);
    if s.len() > 0 {
        let shorter = s.drop_last();
        assert(unique_names(shorter)) by {
            assert forall|p: int, q: int|
                0 <= p < q < shorter.len() implies shorter[p] != shorter[q] by {
                lemma_unique_index(s, p, q);
            }
        }
        lemma_filter_unique(shorter, pred);
        if pred(s.last()) {
            let f = shorter.filter(pred);
            if f.contains(s.last()) {
                lemma_filter_member(shorter, pred, s.last());
                let p = choose|p: int| 0 <= p < shorter.len() && shorter[p] == s.last();
                lemma_unique_index(s, p, s.len() - 1);
            }
            assert forall|p: int, q: int|
                0 <= p < q < f.push(s.last()).len() implies f.push(s.last())[p] != f.push(
                s.last(),
            )[q] by {
                if q == f.len() {
                    assert(f.push(s.last())[p] == f[p]);
                    assert(!f.contains(s.last()));
                } else {
                    lemma_unique_index(f, p, q);
                }
            }
        }
    }
}

proof fn lemma_filter_member(s: Seq<Seq<u8>>, pred: spec_fn(Seq<u8>) -> bool, x: Seq<u8>)
    requires
        s.filter(pred).contains(x),
    ensures
        s.contains(x),
        pred(x),
    decreases s.len(),
{
    reveal(Seq::filter);
    if s.len() == 0 {
    } else {
        let f = s.drop_last().filter(pred);
        if pred(s.last()) {
            let j = choose|j: int| 0 <= j < f.push(s.last()).len() && f.push(s.last())[j] == x;
            if j == f.len() {
                assert(s.last() == x);
                assert(s[s.len() - 1] == x);
            } else {
                assert(f[j] == x);
                assert(f.contains(x));
                lemma_filter_member(s.drop_last(), pred, x);
                let p = choose|p: int| 0 <= p < s.len() - 1 && s.drop_last()[p] == x;
                assert(s[p] == x);
            }
        } else {
            lemma_filter_member(s.drop_last(), pred, x);
            let p = choose|p: int| 0 <= p < s.len() - 1 && s.drop_last()[p] == x;
            assert(s[p] == x);
        }
    }
}

/// Maps each tracked device name to the timestamp (seconds since epoch) of
/// its most recent accepted reading or synthetic backfill. The only
/// mutable shared state of the core.
pub struct LivenessTracker {
    entries: Vec<(Vec<u8>, u64)>,
}

impl LivenessTracker {
    /// The tracked names, in the tracker's fixed iteration order.
    pub closed spec fn names(self) -> Seq<Seq<u8>> {
        entry_names(self.entries@)
    }

    /// The name-to-last-seen map this tracker denotes.
    pub closed spec fn model(self) -> Map<Seq<u8>, u64> {
        model_of(self.entries@)
    }

    /// Well-formed: no device name appears twice.
    pub closed spec fn wf(self) -> bool {
        unique_names(entry_names(self.entries@))
    }

    /// Creates one entry per distinct configured device name, each last
    /// seen `now`. Must run once, before ingestion starts.
    pub fn initialize(device_names: &Vec<Vec<u8>>, now: u64) -> (t: Self)
        ensures
            t.wf(),
            t.names() == dedup_first(views_of(device_names@)),
            forall|k: Seq<u8>| t.model().contains_key(k) <==> views_of(device_names@).contains(k),
            forall|k: Seq<u8>| t.model().contains_key(k) ==> t.model()[k] == now,
    {
        let mut t = LivenessTracker { entries: Vec::new() };
        let mut i: usize = 0;
        proof {
            assert(views_of(device_names@.subrange(0, 0)) =~= Seq::<Seq<u8>>::empty());
            assert(t.names() =~= Seq::<Seq<u8>>::empty());
        }
        while i < device_names.len()
            invariant
                0 <= i <= device_names.len(),
                t.wf(),
                t.names() == dedup_first(views_of(device_names@.subrange(0, i as int))),
                forall|k: Seq<u8>| t.model().contains_key(k) <==> t.names().contains(k),
                forall|k: Seq<u8>| t.model().contains_key(k) ==> t.model()[k] == now,
            decreases device_names.len() - i,
        {
            let ghost pre = views_of(device_names@.subrange(0, i as int));
            let ghost post = views_of(device_names@.subrange(0, i + 1 as int));
            proof {
                assert(post.drop_last() =~= pre);
                assert(post.last() == device_names@[i as int]@);
            }
            let present = t.contains_name(&device_names[i]);
            if !present {
                let name = copy_bytes(&device_names[i]);
                let ghost old_entries = t.entries@;
                let ghost old_names = entry_names(old_entries);
                t.entries.push((name, now));
                proof {
                    assert(t.entries@.drop_last() =~= old_entries);
                    assert(entry_names(t.entries@) =~= old_names.push(device_names@[i as int]@));
                    assert(model_of(t.entries@) == model_of(old_entries).insert(
                        device_names@[i as int]@,
                        now,
                    ));
                    assert forall|k: Seq<u8>|
                        t.model().contains_key(k) <==> t.names().contains(k) by {
                        lemma_model_of_contains(t.entries@, k);
                    }
                    assert(!dedup_first(pre).contains(post.last()));
                    assert(dedup_first(post) == dedup_first(pre).push(device_names@[i as int]@));
                    assert(t.names() == dedup_first(post));
                    assert(unique_names(entry_names(t.entries@))) by {
                        assert forall|p: int, q: int|
                            0 <= p < q < entry_names(t.entries@).len() implies entry_names(
                            t.entries@,
                        )[p] != entry_names(t.entries@)[q] by {
                            if q < entry_names(t.entries@).len() - 1 {
                                lemma_unique_index(old_names, p, q);
                                assert(entry_names(t.entries@)[p] == old_names[p]);
                                assert(entry_names(t.entries@)[q] == old_names[q]);
                            } else {
                                assert(!old_names.contains(device_names@[i as int]@));
                                assert(entry_names(t.entries@)[p] == old_names[p]);
                                assert(entry_names(t.entries@)[q] == device_names@[i as int]@);
                            }
                        }
                    }
                }
            } else {
                proof {
                    assert(dedup_first(pre).contains(post.last()));
                    assert(dedup_first(post) == dedup_first(pre));
                }
            }
            i = i + 1;
        }
        proof {
            assert(device_names@.subrange(0, device_names@.len() as int) =~= device_names@);
            assert forall|k: Seq<u8>|
                t.model().contains_key(k) <==> views_of(device_names@).contains(k) by {
                lemma_dedup_first_contains(views_of(device_names@), k);
            }
        }
        t
    }

    /// Whether `name` has an entry.
    pub fn contains_name(&self, name: &Vec<u8>) -> (r: bool)
        ensures
            r == self.names().contains(name@),
            r == self.model().contains_key(name@),
    {
        proof {
            lemma_model_of_contains(self.entries@, name@);
        }
        let mut i: usize = 0;
        while i < self.entries.len()
            invariant
                0 <= i <= self.entries.len(),
                forall|j: int| 0 <= j < i ==> entry_names(self.entries@)[j] != name@,
            decreases self.entries.len() - i,
        {
            if bytes_eq(&self.entries[i].0, name) {
                proof {
                    lemma_model_of_contains(self.entries@, name@);
                    assert(entry_names(self.entries@)[i as int] == name@);
                    assert(self.names().contains(name@));
                }
                return true;
            }
            i = i + 1;
        }
        proof {
            lemma_model_of_contains(self.entries@, name@);
            assert(!self.names().contains(name@));
        }
        false
    }

    /// Records that `name` reported (or was backfilled) at `now`. Unknown
    /// names are rejected untouched: the tracking set never grows here.
    pub fn touch(&mut self, name: &Vec<u8>, now: u64) -> (r: Result<(), TrackerError>)
        requires
            old(self).wf(),
        ensures
            final(self).wf(),
            final(self).names() == old(self).names(),
            old(self).model().contains_key(name@) ==> r == Ok::<(), TrackerError>(())
                && final(self).model() == old(self).model().insert(name@, now),
            !old(self).model().contains_key(name@) ==> r == Err::<(), TrackerError>(
                TrackerError::UnknownDevice,
            ) && *final(self) == *old(self),
    {
        proof {
            lemma_model_of_contains(self.entries@, name@);
        }
        let mut i: usize = 0;
        while i < self.entries.len()
            invariant
                0 <= i <= self.entries.len(),
                forall|j: int| 0 <= j < i ==> entry_names(self.entries@)[j] != name@,
                self == old(self),
                self.wf(),
            decreases self.entries.len() - i,
        {
            if bytes_eq(&self.entries[i].0, name) {
                proof {
                    lemma_model_of_contains(self.entries@, name@);
                    assert(entry_names(self.entries@)[i as int] == name@);
                    assert(self.names().contains(name@));
                }
                let ghost s = self.entries@;
                let entry = self.entries.remove(i);
                self.entries.insert(i, (entry.0, now));
                proof {
                    assert(self.entries@ =~= s.update(i as int, (entry.0, now)));
                    assert(s[i as int].0 == entry.0);
                    lemma_model_of_update(s, i as int, (entry.0, now));
                    assert(entry_names(self.entries@) =~= entry_names(s));
                    assert(self.model() =~= old(self).model().insert(name@, now));
                }
                return Ok(());
            }
            i = i + 1;
        }
        proof {
            lemma_model_of_contains(self.entries@, name@);
            assert(!self.names().contains(name@));
        }
        Err(TrackerError::UnknownDevice)
    }

    /// Every tracked device whose last-seen time lies strictly more than
    /// `threshold` seconds before `now`, in the tracker's own order. The
    /// query itself changes nothing; the caller re-touches a device after
    /// backfilling it.
    pub fn stale_devices(&self, now: u64, threshold: u64) -> (r: Vec<Vec<u8>>)
        requires
            self.wf(),
        ensures
            views_of(r@) == stale_names_of(*self, now, threshold),
            views_of(r@) == self.names().filter(
                |n: Seq<u8>| spec_is_stale(self.model()[n], now, threshold),
            ),
            forall|k: Seq<u8>|
                views_of(r@).contains(k) <==> (self.model().contains_key(k) && spec_is_stale(
                    self.model()[k],
                    now,
                    threshold,
                )),
    {
        let ghost pred = |n: Seq<u8>| spec_is_stale(self.model()[n], now, threshold);
        let mut r: Vec<Vec<u8>> = Vec::new();
        let mut i: usize = 0;
        proof {
            reveal(Seq::filter);
            assert(self.entries@.subrange(0, 0) =~= Seq::<(Vec<u8>, u64)>::empty());
            assert(views_of(r@) =~= entry_names(self.entries@.subrange(0, 0)).filter(pred));
        }
        while i < self.entries.len()
            invariant
                0 <= i <= self.entries.len(),
                self.wf(),
                pred == (|n: Seq<u8>| spec_is_stale(self.model()[n], now, threshold)),
                views_of(r@) == entry_names(self.entries@.subrange(0, i as int)).filter(pred),
            decreases self.entries.len() - i,
        {
            let ghost prefix = entry_names(self.entries@.subrange(0, i as int));
            let ghost longer = entry_names(self.entries@.subrange(0, i + 1 as int));
            proof {
                reveal(Seq::filter);
                assert(longer.drop_last() =~= prefix);
                assert(longer.last() == self.entries@[i as int].0@);
                lemma_model_of_index(self.entries@, i as int);
                assert(self.model()[self.entries@[i as int].0@] == self.entries@[i as int].1);
            }
            let last = self.entries[i].1;
            if now > last && now - last > threshold {
                r.push(copy_bytes(&self.entries[i].0));
                proof {
                    reveal(Seq::filter);
                    assert(pred(longer.last()));
                    assert(views_of(r@) =~= prefix.filter(pred).push(longer.last()));
                    assert(longer.filter(pred) =~= prefix.filter(pred).push(longer.last()));
                }
            } else {
                proof {
                    reveal(Seq::filter);
                    assert(!pred(longer.last()));
                    assert(longer.filter(pred) =~= prefix.filter(pred));
                }
            }
            i = i + 1;
        }
        proof {
            assert(self.entries@.subrange(0, self.entries@.len() as int) =~= self.entries@);
            let names = self.names();
            assert forall|k: Seq<u8>|
                views_of(r@).contains(k) <==> (self.model().contains_key(k) && spec_is_stale(
                    self.model()[k],
                    now,
                    threshold,
                )) by {
                lemma_model_of_contains(self.entries@, k);
                if views_of(r@).contains(k) {
                    assert(names.filter(pred).contains(k));
                    lemma_filter_member(names, pred, k);
                }
                if names.contains(k) && pred(k) {
                    let j = choose|j: int| 0 <= j < names.len() && names[j] == k;
                    names.lemma_filter_contains(pred, j);
                    assert(names.filter(pred).contains(names[j]));
                }
            }
        }
        r
    }

    /// The last-seen time of `name`, if it is tracked.
    pub fn last_seen_of(&self, name: &Vec<u8>) -> (r: Option<u64>)
        requires
            self.wf(),
        ensures
            match r {
                Some(t) => self.model().contains_key(name@) && self.model()[name@] == t,
                None => !self.model().contains_key(name@),
            },
    {
        proof {
            lemma_model_of_contains(self.entries@, name@);
        }
        let mut i: usize = 0;
        while i < self.entries.len()
            invariant
                0 <= i <= self.entries.len(),
                self.wf(),
                forall|j: int| 0 <= j < i ==> entry_names(self.entries@)[j] != name@,
            decreases self.entries.len() - i,
        {
            if bytes_eq(&self.entries[i].0, name) {
                proof {
                    assert(entry_names(self.entries@)[i as int] == name@);
                    lemma_model_of_index(self.entries@, i as int);
                }
                return Some(self.entries[i].1);
            }
            i = i + 1;
        }
        proof {
            lemma_model_of_contains(self.entries@, name@);
            assert(!self.names().contains(name@));
        }
        None
    }

    /// How many devices are tracked.
    pub fn device_count(&self) -> (n: usize)
        ensures
            n == self.names().len(),
    {
        self.entries.len()
    }
}

/// Byte-for-byte equality of two byte strings.
pub fn bytes_eq(a: &Vec<u8>, b: &Vec<u8>) -> (r: bool)
    ensures
        r == (a@ == b@),
{
    if a.len() != b.len() {
        return false;
    }
    let mut i: usize = 0;
    while i < a.len()
        invariant
            0 <= i <= a.len(),
            a@.len() == b@.len(),
            forall|j: int| 0 <= j < i ==> a@[j] == b@[j],
        decreases a.len() - i,
    {
        if a[i] != b[i] {
            return false;
        }
        i = i + 1;
    }
    assert(a@ =~= b@);
    true
}

} // verus!
