//! The counter storage contract and its strict in-memory backend.
//!
//! The one operation the decision engine needs is an atomic
//! check-and-update over a list of counters: if applying the delta keeps
//! every counter within its limit's maximum, all are incremented;
//! otherwise all are left unchanged and the name of the first exceeded
//! limit is reported.  An expired window is re-initialized by the next
//! increment.

use vstd::prelude::*;
use crate::limit::{counter_clone, counter_key, counter_key_spec, Counter, CounterV};
use crate::text::bytes_cmp;

verus! {

/// The verdict of a check-and-update: all counters were incremented, or
/// none were and the first exceeded limit's name is carried.
#[derive(Debug)]
pub enum Authorization {
    Granted,
    Limited(Option<String>),
}

/// What the caller learns about one applicable counter when it asks for
/// loaded counters: the limit's maximum and window, the capacity left
/// after this request (clamped at zero), and the window expiry when the
/// backend knows it.
#[derive(Clone, Copy, Debug)]
pub struct CounterSnapshot {
    pub max: u64,
    pub seconds: u64,
    pub remaining: u64,
    pub expires_in: Option<u64>,
}

/// One stored counter with its window state.
pub struct StoreEntry {
    pub key: Vec<u8>,
    pub counter: Counter,
    pub count: u64,
    pub expires_at: u64,
}

/// Mathematical form of a stored counter.
pub struct EntryV {
    pub key: Seq<u8>,
    pub counter: CounterV,
    pub count: u64,
    pub expires_at: u64,
}

impl View for StoreEntry {
    type V = EntryV;

    open spec fn view(&self) -> EntryV {
        EntryV {
            key: self.key@,
            counter: self.counter@,
            count: self.count,
            expires_at: self.expires_at,
        }
    }
}

/// The strict in-memory backend: one entry per counter key.
pub struct InMemoryStorage {
    pub entries: Vec<StoreEntry>,
}

impl View for InMemoryStorage {
    type V = Seq<EntryV>;

    open spec fn view(&self) -> Seq<EntryV> {
        self.entries@.map_values(|e: StoreEntry| e@)
    }
}

/// The views of a list of counters.
pub open spec fn counters_view(cs: Seq<Counter>) -> Seq<CounterV> {
    cs.map_values(|c: Counter| c@)
}

/// A well-formed store: every entry is keyed by its own counter's key,
/// never holds more than its limit allows, and keys are unique.
pub open spec fn store_wf(st: Seq<EntryV>) -> bool {
    &&& forall|i: int|
        0 <= i < st.len() ==> (#[trigger] st[i]).key == counter_key_spec(st[i].counter)
    &&& forall|i: int| 0 <= i < st.len() ==> (#[trigger] st[i]).count <= st[i].counter.limit.max
    &&& forall|i: int, j: int| 0 <= i < j < st.len() ==> st[i].key != st[j].key
}

/// The entry stored under a key.
pub open spec fn store_lookup(st: Seq<EntryV>, key: Seq<u8>) -> Option<EntryV>
    decreases st.len(),
{
    if st.len() == 0 {
        None
    } else if st[0].key == key {
        Some(st[0])
    } else {
        store_lookup(st.drop_first(), key)
    }
}

/// The count a key holds at `now`: an expired window counts as zero.
pub open spec fn eff_count(st: Seq<EntryV>, key: Seq<u8>, now: u64) -> u64 {
    match store_lookup(st, key) {
        Some(e) => if now < e.expires_at {
            e.count
        } else {
            0
        },
        None => 0,
    }
}

/// Addition on window instants, saturating at the largest instant.
pub open spec fn sat_add(a: u64, b: u64) -> u64 {
    if a + b > u64::MAX {
        u64::MAX
    } else {
        (a + b) as u64
    }
}

/// The store with `c` bound to the given state: the entry under its key
/// is replaced in place, or appended when the key is new.
pub open spec fn upsert(st: Seq<EntryV>, c: CounterV, count: u64, expires_at: u64) -> Seq<EntryV>
    decreases st.len(),
{
    let e = EntryV { key: counter_key_spec(c), counter: c, count, expires_at };
    if st.len() == 0 {
        seq![e]
    } else if st[0].key == e.key {
        seq![e] + st.drop_first()
    } else {
        seq![st[0]] + upsert(st.drop_first(), c, count, expires_at)
    }
}

/// Whether one more counter fits under its limit at `now`.
pub open spec fn step_fits(st: Seq<EntryV>, c: CounterV, delta: u64, now: u64) -> bool {
    eff_count(st, counter_key_spec(c), now) + delta <= c.limit.max
}

/// The window expiry after one increment: kept while the window is
/// active, else re-initialized to `now` plus the limit's window.
pub open spec fn step_exp(st: Seq<EntryV>, c: CounterV, now: u64) -> u64 {
    match store_lookup(st, counter_key_spec(c)) {
        Some(e) => if now < e.expires_at {
            e.expires_at
        } else {
            sat_add(now, c.limit.seconds)
        },
        None => sat_add(now, c.limit.seconds),
    }
}

/// The snapshot one counter yields: the capacity left after this request,
/// clamped at zero.  The in-memory backend does not report expiries.
pub open spec fn step_snap(st: Seq<EntryV>, c: CounterV, delta: u64, now: u64) -> CounterSnapshot {
    let cur = eff_count(st, counter_key_spec(c), now) as int;
    CounterSnapshot {
        max: c.limit.max,
        seconds: c.limit.seconds,
        remaining: if c.limit.max - cur - delta >= 0 {
            (c.limit.max - cur - delta) as u64
        } else {
            0
        },
        expires_in: None,
    }
}

/// The store after one counter's increment; unchanged when it does not
/// fit.
pub open spec fn step_st(st: Seq<EntryV>, c: CounterV, delta: u64, now: u64) -> Seq<EntryV> {
    if step_fits(st, c, delta, now) {
        upsert(
            st,
            c,
            (eff_count(st, counter_key_spec(c), now) + delta) as u64,
            step_exp(st, c, now),
        )
    } else {
        st
    }
}

/// The outcome of walking a counter list: the first exceeded limit's name
/// if any, the store with every fitting increment applied, and one
/// snapshot per counter.
pub struct ScanV {
    pub limited: Option<Option<Seq<char>>>,
    pub st: Seq<EntryV>,
    pub snaps: Seq<CounterSnapshot>,
}

/// Walks the counters in order, applying each fitting increment to the
/// evolving store and remembering the first exceeded limit.
pub open spec fn scan(st: Seq<EntryV>, cs: Seq<CounterV>, delta: u64, now: u64) -> ScanV
    decreases cs.len(),
{
    if cs.len() == 0 {
        ScanV { limited: None, st, snaps: Seq::empty() }
    } else {
        let c = cs[0];
        let fits = step_fits(st, c, delta, now);
        let rest = scan(step_st(st, c, delta, now), cs.drop_first(), delta, now);
        ScanV {
            limited: if !fits {
                Some(c.limit.name)
            } else {
                rest.limited
            },
            st: rest.st,
            snaps: seq![step_snap(st, c, delta, now)] + rest.snaps,
        }
    }
}

/// The check-and-update contract: the scan's store when everything fits,
/// the untouched store otherwise, with the verdict and the snapshots.
pub open spec fn check_update_spec(st: Seq<EntryV>, cs: Seq<CounterV>, delta: u64, now: u64) -> (
    Option<Option<Seq<char>>>,
    Seq<EntryV>,
    Seq<CounterSnapshot>,
) {
    let r = scan(st, cs, delta, now);
    (r.limited, if r.limited is Some { st } else { r.st }, r.snaps)
}

/// Appending one counter to a scan walks it on the scan's store.
#[verifier::rlimit(100)]
proof fn lemma_scan_snoc(st: Seq<EntryV>, cs: Seq<CounterV>, c: CounterV, delta: u64, now: u64)
    ensures
        ({
            let r = scan(st, cs, delta, now);
            let fits = step_fits(r.st, c, delta, now);
            scan(st, cs.push(c), delta, now) == ScanV {
                limited: if r.limited is Some {
                    r.limited
                } else if !fits {
                    Some(c.limit.name)
                } else {
                    None
                },
                st: step_st(r.st, c, delta, now),
                snaps: r.snaps.push(step_snap(r.st, c, delta, now)),
            }
        }),
    decreases cs.len(),
{
    reveal_with_fuel(scan, 3);
    if cs.len() == 0 {
        assert(cs.push(c).drop_first() =~= Seq::<CounterV>::empty());
        assert(cs.push(c)[0] == c);
        let r0 = scan(st, cs.push(c), delta, now);
        assert(r0.snaps =~= scan(st, cs, delta, now).snaps.push(step_snap(st, c, delta, now)));
    } else {
        assert(cs.push(c)[0] == cs[0]);
        assert(cs.push(c).drop_first() =~= cs.drop_first().push(c));
        lemma_scan_snoc(step_st(st, cs[0], delta, now), cs.drop_first(), c, delta, now);
        let r = scan(st, cs, delta, now);
        let full = scan(st, cs.push(c), delta, now);
        assert(full.snaps =~= r.snaps.push(step_snap(r.st, c, delta, now)));
    }
}

fn bytes_clone(v: &Vec<u8>) -> (r: Vec<u8>)
    ensures
        r@ == v@,
{
    let mut r: Vec<u8> = Vec::new();
    let mut i: usize = 0;
    while i < v.len()
        invariant
            r@.len() == i <= v@.len(),
            forall|k: int| 0 <= k < i ==> r@[k] == v@[k],
        decreases v@.len() - i,
    {
        r.push(v[i]);
        i = i + 1;
    }
    proof {
        assert(r@ =~= v@);
    }
    r
}

fn entry_clone(e: &StoreEntry) -> (r: StoreEntry)
    ensures
        r@ == e@,
{
    StoreEntry {
        key: bytes_clone(&e.key),
        counter: counter_clone(&e.counter),
        count: e.count,
        expires_at: e.expires_at,
    }
}

/// Whether two byte strings are equal.
fn bytes_eq(a: &Vec<u8>, b: &Vec<u8>) -> (r: bool)
    ensures
        r == (a@ == b@),
{
    bytes_cmp(a.as_slice(), b.as_slice()) == 0
}

/// The index of the entry under `key`, if any.
fn find_entry(entries: &Vec<StoreEntry>, key: &Vec<u8>) -> (r: Option<usize>)
    ensures
        ({
            let st = entries@.map_values(|e: StoreEntry| e@);
            match r {
                Some(i) => i < st.len() && st[i as int].key == key@ && store_lookup(st, key@)
                    == Some(st[i as int]),
                None => store_lookup(st, key@) is None,
            }
        }),
{
    let ghost st = entries@.map_values(|e: StoreEntry| e@);
    proof {
        assert(st.skip(0) =~= st);
    }
    let mut i: usize = 0;
    while i < entries.len()
        invariant
            i <= st.len(),
            st == entries@.map_values(|e: StoreEntry| e@),
            st.len() == entries@.len(),
            store_lookup(st, key@) == store_lookup(st.skip(i as int), key@),
            forall|k: int| 0 <= k < i ==> (#[trigger] st[k]).key != key@,
        decreases st.len() - i,
    {
        if bytes_eq(&entries[i].key, key) {
            proof {
                assert(st.skip(i as int)[0] == st[i as int]);
            }
            return Some(i);
        }
        proof {
            assert(st.skip(i as int)[0] == st[i as int]);
            assert(st.skip(i as int).drop_first() =~= st.skip(i + 1));
        }
        i = i + 1;
    }
    proof {
        assert(st.skip(i as int).len() == 0);
    }
    None
}

/// Replacing the entry under an existing key, or appending a new key,
/// is exactly `upsert`.
proof fn lemma_upsert_at(st: Seq<EntryV>, c: CounterV, count: u64, expires_at: u64, i: int)
    requires
        0 <= i < st.len(),
        st[i].key == counter_key_spec(c),
        forall|k: int| 0 <= k < i ==> (#[trigger] st[k]).key != counter_key_spec(c),
    ensures
        upsert(st, c, count, expires_at) == st.update(
            i,
            EntryV { key: counter_key_spec(c), counter: c, count, expires_at },
        ),
    decreases i,
{
    let e = EntryV { key: counter_key_spec(c), counter: c, count, expires_at };
    if i == 0 {
        assert(upsert(st, c, count, expires_at) =~= st.update(0, e));
    } else {
        lemma_upsert_at(st.drop_first(), c, count, expires_at, i - 1);
        assert(st.drop_first().update(i - 1, e) =~= st.update(i, e).drop_first());
        assert(upsert(st, c, count, expires_at) =~= st.update(i, e));
    }
}

/// Appending a fresh key is exactly `upsert`.
proof fn lemma_upsert_push(st: Seq<EntryV>, c: CounterV, count: u64, expires_at: u64)
    requires
        forall|k: int| 0 <= k < st.len() ==> (#[trigger] st[k]).key != counter_key_spec(c),
    ensures
        upsert(st, c, count, expires_at) == st.push(
            EntryV { key: counter_key_spec(c), counter: c, count, expires_at },
        ),
    decreases st.len(),
{
    let e = EntryV { key: counter_key_spec(c), counter: c, count, expires_at };
    if st.len() == 0 {
        assert(upsert(st, c, count, expires_at) =~= st.push(e));
    } else {
        lemma_upsert_push(st.drop_first(), c, count, expires_at);
        assert(st.drop_first().push(e) =~= st.push(e).drop_first());
        assert(upsert(st, c, count, expires_at) =~= st.push(e));
    }
}

/// `upsert` keeps well-formedness when the new count is within the new
/// counter's limit.
#[verifier::rlimit(100)]
proof fn lemma_upsert_wf(st: Seq<EntryV>, c: CounterV, count: u64, expires_at: u64)
    requires
        store_wf(st),
        count <= c.limit.max,
    ensures
        store_wf(upsert(st, c, count, expires_at)),
{
    let key = counter_key_spec(c);
    let e = EntryV { key, counter: c, count, expires_at };
    if store_lookup(st, key) is Some {
        lemma_lookup_index(st, key);
        let i = choose|i: int|
            0 <= i < st.len() && (#[trigger] st[i]).key == key && (forall|k: int|
                0 <= k < i ==> (#[trigger] st[k]).key != key);
        lemma_upsert_at(st, c, count, expires_at, i);
        let st2 = st.update(i, e);
        assert forall|a: int, b: int| 0 <= a < b < st2.len() implies st2[a].key != st2[b].key by {
            assert(st[a].key != st[b].key);
        }
        assert(store_wf(st2));
    } else {
        lemma_lookup_none(st, key);
        lemma_upsert_push(st, c, count, expires_at);
        let st2 = st.push(e);
        assert forall|a: int, b: int| 0 <= a < b < st2.len() implies st2[a].key != st2[b].key by {
            if b < st.len() {
                assert(st[a].key != st[b].key);
            } else {
                assert(st2[a] == st[a]);
                assert(st[a].key != key);
            }
        }
        assert(store_wf(st2));
    }
}

/// A present key has a first index holding it.
proof fn lemma_lookup_index(st: Seq<EntryV>, key: Seq<u8>)
    requires
        store_lookup(st, key) is Some,
    ensures
        exists|i: int|
            0 <= i < st.len() && (#[trigger] st[i]).key == key && (forall|k: int|
                0 <= k < i ==> (#[trigger] st[k]).key != key),
    decreases st.len(),
{
    if st.len() > 0 {
        if st[0].key == key {
            assert(0 <= 0 < st.len() && st[0].key == key && (forall|k: int|
                0 <= k < 0 ==> (#[trigger] st[k]).key != key));
        } else {
            lemma_lookup_index(st.drop_first(), key);
            let j = choose|j: int|
                0 <= j < st.drop_first().len() && (#[trigger] st.drop_first()[j]).key == key && (
                forall|k: int| 0 <= k < j ==> (#[trigger] st.drop_first()[k]).key != key);
            assert(st[j + 1].key == key);
            assert forall|k: int| 0 <= k < j + 1 implies (#[trigger] st[k]).key != key by {
                if k > 0 {
                    assert(st.drop_first()[k - 1] == st[k]);
                    assert((#[trigger] st.drop_first()[k - 1]).key != key);
                }
            }
        }
    }
}

/// An absent key is at no index.
proof fn lemma_lookup_none(st: Seq<EntryV>, key: Seq<u8>)
    requires
        store_lookup(st, key) is None,
    ensures
        forall|k: int| 0 <= k < st.len() ==> (#[trigger] st[k]).key != key,
    decreases st.len(),
{
    if st.len() > 0 {
        lemma_lookup_none(st.drop_first(), key);
        assert forall|k: int| 0 <= k < st.len() implies (#[trigger] st[k]).key != key by {
            if k > 0 {
                assert(st.drop_first()[k - 1] == st[k]);
                assert((#[trigger] st.drop_first()[k - 1]).key != key);
            }
        }
    }
}

impl InMemoryStorage {
    /// An empty store.
    pub fn new() -> (r: InMemoryStorage)
        ensures
            r@ == Seq::<EntryV>::empty(),
            store_wf(r@),
    {
        let r = InMemoryStorage { entries: Vec::new() };
        proof {
            assert(r@ =~= Seq::<EntryV>::empty());
        }
        r
    }

    /// Forgets every counter.
    pub fn clear(&mut self)
        ensures
            final(self)@ == Seq::<EntryV>::empty(),
            store_wf(final(self)@),
    {
        self.entries.clear();
        proof {
            assert(self@ =~= Seq::<EntryV>::empty());
        }
    }

    /// The stored counters of the given limits, with their window state.
    pub fn get_counters(&self, limits: &Vec<crate::limit::Limit>) -> (r: Vec<StoreEntry>)
        ensures
            r@.map_values(|e: StoreEntry| e@) == entries_of_limits(
                self@,
                crate::engine::limits_view(limits@),
            ),
    {
        let ghost st0 = self@;
        let ghost lv = crate::engine::limits_view(limits@);
        let mut out: Vec<StoreEntry> = Vec::new();
        let mut i: usize = 0;
        proof {
            assert(st0.take(0) =~= Seq::<EntryV>::empty());
        }
        while i < self.entries.len()
            invariant
                i <= st0.len(),
                st0 == self@,
                lv == crate::engine::limits_view(limits@),
                st0.len() == self.entries@.len(),
                forall|k: int| 0 <= k < st0.len() ==> st0[k] == self.entries@[k]@,
                out@.map_values(|e: StoreEntry| e@) == entries_of_limits(st0.take(i as int), lv),
            decreases st0.len() - i,
        {
            let e = &self.entries[i];
            let ghost prev = out@;
            if limits_contain(limits, &e.counter.limit) {
                out.push(entry_clone(e));
            }
            i = i + 1;
            proof {
                assert(st0.take(i as int).drop_last() =~= st0.take(i - 1));
                assert(st0.take(i as int).last() == st0[i - 1]);
                assert(out@.map_values(|e: StoreEntry| e@) =~= entries_of_limits(
                    st0.take(i as int),
                    lv,
                ));
            }
        }
        proof {
            assert(st0.take(st0.len() as int) =~= st0);
        }
        out
    }

    /// Deletes the counters of the given limits, keeping the rest.
    pub fn delete_counters(&mut self, limits: &Vec<crate::limit::Limit>)
        requires
            store_wf(old(self)@),
        ensures
            store_wf(final(self)@),
            final(self)@ == entries_without_limits(
                old(self)@,
                crate::engine::limits_view(limits@),
            ),
    {
        let ghost st0 = self@;
        let ghost lv = crate::engine::limits_view(limits@);
        let mut kept: Vec<StoreEntry> = Vec::new();
        let mut i: usize = 0;
        proof {
            assert(st0.take(0) =~= Seq::<EntryV>::empty());
        }
        while i < self.entries.len()
            invariant
                i <= st0.len(),
                st0 == self@,
                store_wf(st0),
                lv == crate::engine::limits_view(limits@),
                st0.len() == self.entries@.len(),
                forall|k: int| 0 <= k < st0.len() ==> st0[k] == self.entries@[k]@,
                kept@.map_values(|e: StoreEntry| e@) == entries_without_limits(
                    st0.take(i as int),
                    lv,
                ),
                forall|k: int|
                    0 <= k < kept@.len() ==> exists|m: int|
                        0 <= m < i && (#[trigger] kept@[k]@) == st0[m],
                forall|x: int, y: int|
                    0 <= x < y < kept@.len() ==> (#[trigger] kept@[x]@).key != (
                    #[trigger] kept@[y]@).key,
            decreases st0.len() - i,
        {
            let e = &self.entries[i];
            let ghost prev = kept@;
            if !limits_contain(limits, &e.counter.limit) {
                kept.push(entry_clone(e));
                proof {
                    assert forall|k: int|
                        0 <= k < kept@.len() implies exists|m: int|
                        0 <= m < i + 1 && (#[trigger] kept@[k]@) == st0[m] by {
                        if k < prev.len() {
                            let m = choose|m: int| 0 <= m < i && (#[trigger] prev[k]@) == st0[m];
                            assert(kept@[k] == prev[k]);
                            assert(0 <= m < i + 1 && kept@[k]@ == st0[m]);
                        } else {
                            assert(kept@[k]@ == st0[i as int]);
                        }
                    }
                    assert forall|x: int, y: int|
                        0 <= x < y < kept@.len() implies (#[trigger] kept@[x]@).key != (
                    #[trigger] kept@[y]@).key by {
                        if y < prev.len() {
                            assert(kept@[x] == prev[x]);
                            assert(kept@[y] == prev[y]);
                            assert((prev[x]@).key != (prev[y]@).key);
                        } else {
                            assert(kept@[x] == prev[x]);
                            let m = choose|m: int| 0 <= m < i && (#[trigger] prev[x]@) == st0[m];
                            assert(st0[m].key != st0[i as int].key);
                            assert(kept@[y]@ == st0[i as int]);
                        }
                    }
                }
            }
            i = i + 1;
            proof {
                assert(st0.take(i as int).drop_last() =~= st0.take(i - 1));
                assert(st0.take(i as int).last() == st0[i - 1]);
                assert(kept@.map_values(|e: StoreEntry| e@) =~= entries_without_limits(
                    st0.take(i as int),
                    lv,
                ));
            }
        }
        proof {
            assert(st0.take(st0.len() as int) =~= st0);
        }
        self.entries = kept;
        proof {
            assert forall|x: int, y: int|
                0 <= x < y < self@.len() implies (#[trigger] self@[x]).key != (
            #[trigger] self@[y]).key by {
                assert((kept@[x]@).key != (kept@[y]@).key);
            }
        }
    }

    /// Atomically checks and updates the given counters: if applying
    /// `delta` at `now` keeps every counter within its limit, all are
    /// incremented (an expired window restarting at `now`); otherwise the
    /// store is left unchanged and the first exceeded limit's name is
    /// returned.  With `load_counters`, one snapshot per counter is
    /// returned for response headers.
    #[verifier::rlimit(100)]
    pub fn check_and_update(
        &mut self,
        counters: &Vec<Counter>,
        delta: u64,
        load_counters: bool,
        now: u64,
    ) -> (r: (Authorization, Vec<CounterSnapshot>))
        requires
            store_wf(old(self)@),
        ensures
            store_wf(final(self)@),
            ({
                let (limited, st, snaps) = check_update_spec(
                    old(self)@,
                    counters_view(counters@),
                    delta,
                    now,
                );
                &&& final(self)@ == st
                &&& (match r.0 {
                    Authorization::Granted => limited is None,
                    Authorization::Limited(n) => limited == Some(
                        match n {
                            Some(s) => Some(s@),
                            None => None,
                        },
                    ),
                })
                &&& r.1@ == (if load_counters {
                    snaps
                } else {
                    Seq::<CounterSnapshot>::empty()
                })
            }),
    {
        let ghost cv = counters_view(counters@);
        let ghost st0 = self@;
        let mut work: Vec<StoreEntry> = Vec::new();
        let mut wi: usize = 0;
        while wi < self.entries.len()
            invariant
                work@.len() == wi <= self.entries@.len(),
                forall|k: int| 0 <= k < wi ==> work@[k]@ == self.entries@[k]@,
            decreases self.entries@.len() - wi,
        {
            work.push(entry_clone(&self.entries[wi]));
            wi = wi + 1;
        }
        proof {
            assert(work@.map_values(|e: StoreEntry| e@) =~= st0);
        }
        let mut snaps: Vec<CounterSnapshot> = Vec::new();
        let mut limited: bool = false;
        let mut limited_name: Option<String> = None;
        let mut i: usize = 0;
        while i < counters.len()
            invariant
                i <= counters@.len(),
                cv == counters_view(counters@),
                cv.len() == counters@.len(),
                forall|k: int| 0 <= k < cv.len() ==> cv[k] == counters@[k]@,
                store_wf(st0),
                store_wf(work@.map_values(|e: StoreEntry| e@)),
                ({
                    let r = scan(st0, cv.take(i as int), delta, now);
                    &&& work@.map_values(|e: StoreEntry| e@) == r.st
                    &&& snaps@ == (if load_counters {
                        r.snaps
                    } else {
                        Seq::<CounterSnapshot>::empty()
                    })
                    &&& (match r.limited {
                        Some(n) => limited && n == (match limited_name {
                            Some(s) => Some(s@),
                            None => None,
                        }),
                        None => !limited,
                    })
                }),
            decreases counters@.len() - i,
        {
            let c = &counters[i];
            let ghost stw = work@.map_values(|e: StoreEntry| e@);
            let key = counter_key(c);
            let max = c.limit.max;
            let found = find_entry(&work, &key);
            let cur: u64 = match found {
                Some(idx) => {
                    let e = &work[idx];
                    if now < e.expires_at {
                        e.count
                    } else {
                        0
                    }
                },
                None => 0,
            };
            let fits = cur <= max && delta <= max - cur;
            proof {
                assert(fits == step_fits(stw, c@, delta, now));
            }
            if load_counters {
                let remaining: u64 = if cur <= max && delta <= max - cur {
                    max - cur - delta
                } else {
                    0
                };
                let snap = CounterSnapshot {
                    max,
                    seconds: c.limit.seconds,
                    remaining,
                    expires_in: None,
                };
                proof {
                    assert(snap == step_snap(stw, c@, delta, now));
                }
                snaps.push(snap);
            }
            if fits {
                let new_count = cur + delta;
                let new_exp: u64 = match found {
                    Some(idx) => {
                        let e = &work[idx];
                        if now < e.expires_at {
                            e.expires_at
                        } else {
                            if now > u64::MAX - c.limit.seconds {
                                u64::MAX
                            } else {
                                now + c.limit.seconds
                            }
                        }
                    },
                    None => {
                        if now > u64::MAX - c.limit.seconds {
                            u64::MAX
                        } else {
                            now + c.limit.seconds
                        }
                    },
                };
                proof {
                    assert(new_exp == step_exp(stw, c@, now));
                }
                let entry = StoreEntry {
                    key,
                    counter: counter_clone(c),
                    count: new_count,
                    expires_at: new_exp,
                };
                match found {
                    Some(idx) => {
                        proof {
                            lemma_lookup_none_prefix(stw, key@, idx as int);
                            lemma_upsert_at(stw, c@, new_count, new_exp, idx as int);
                            lemma_upsert_wf(stw, c@, new_count, new_exp);
                        }
                        work[idx] = entry;
                        proof {
                            assert(work@.map_values(|e: StoreEntry| e@) =~= upsert(
                                stw,
                                c@,
                                new_count,
                                new_exp,
                            ));
                        }
                    },
                    None => {
                        proof {
                            lemma_lookup_none(stw, key@);
                            lemma_upsert_push(stw, c@, new_count, new_exp);
                            lemma_upsert_wf(stw, c@, new_count, new_exp);
                        }
                        work.push(entry);
                        proof {
                            assert(work@.map_values(|e: StoreEntry| e@) =~= upsert(
                                stw,
                                c@,
                                new_count,
                                new_exp,
                            ));
                        }
                    },
                }
            } else {
                if !limited {
                    limited = true;
                    limited_name = match &c.limit.name {
                        Some(n) => Some(n.clone()),
                        None => None,
                    };
                }
            }
            i = i + 1;
            proof {
                assert(cv.take(i as int).drop_last() =~= cv.take(i - 1));
                assert(cv.take(i as int) =~= cv.take(i - 1).push(cv[i - 1]));
                lemma_scan_snoc(st0, cv.take(i - 1), cv[i - 1], delta, now);
            }
        }
        proof {
            assert(cv.take(counters@.len() as int) =~= cv);
        }
        if limited {
            let r = Authorization::Limited(limited_name);
            (r, snaps)
        } else {
            self.entries = work;
            (Authorization::Granted, snaps)
        }
    }
}

/// Counts never escape their limits: in a well-formed store — and
/// `check_and_update` keeps every store well-formed, whatever sequence
/// of calls with whatever total delta ran before — the count observed
/// under any key is at most its limit's maximum (and so at most the
/// maximum plus any delta); counts are unsigned, so never negative.
pub proof fn lemma_count_within_limit(st: Seq<EntryV>, key: Seq<u8>)
    requires
        forall|i: int| 0 <= i < st.len() ==> (#[trigger] st[i]).count <= st[i].counter.limit.max,
    ensures
        match store_lookup(st, key) {
            Some(e) => e.count <= e.counter.limit.max,
            None => true,
        },
    decreases st.len(),
{
    if st.len() > 0 && st[0].key != key {
        assert forall|i: int|
            0 <= i < st.drop_first().len() implies (#[trigger] st.drop_first()[i]).count
            <= st.drop_first()[i].counter.limit.max by {
            assert(st.drop_first()[i] == st[i + 1]);
        }
        lemma_count_within_limit(st.drop_first(), key);
    }
}

/// The entries whose limit is one of `ls`, in store order.
pub open spec fn entries_of_limits(st: Seq<EntryV>, ls: Seq<crate::limit::LimitV>) -> Seq<EntryV>
    decreases st.len(),
{
    if st.len() == 0 {
        Seq::empty()
    } else {
        entries_of_limits(st.drop_last(), ls) + (if crate::engine::has_limit(
            ls,
            st.last().counter.limit,
        ) {
            seq![st.last()]
        } else {
            Seq::empty()
        })
    }
}

/// The entries whose limit is none of `ls`, in store order.
pub open spec fn entries_without_limits(st: Seq<EntryV>, ls: Seq<crate::limit::LimitV>) -> Seq<
    EntryV,
>
    decreases st.len(),
{
    if st.len() == 0 {
        Seq::empty()
    } else {
        entries_without_limits(st.drop_last(), ls) + (if !crate::engine::has_limit(
            ls,
            st.last().counter.limit,
        ) {
            seq![st.last()]
        } else {
            Seq::empty()
        })
    }
}

/// Whether a rule of the same identity stands in the list.
fn limits_contain(ls: &Vec<crate::limit::Limit>, l: &crate::limit::Limit) -> (r: bool)
    ensures
        r == crate::engine::has_limit(crate::engine::limits_view(ls@), l@),
{
    let mut i: usize = 0;
    while i < ls.len()
        invariant
            i <= ls@.len(),
            forall|k: int|
                0 <= k < i ==> !crate::limit::same_identity(
                    #[trigger] crate::engine::limits_view(ls@)[k],
                    l@,
                ),
        decreases ls@.len() - i,
    {
        if crate::limit::limit_same_identity(&ls[i], l) {
            proof {
                assert(crate::limit::same_identity(crate::engine::limits_view(ls@)[i as int], l@));
            }
            return true;
        }
        i = i + 1;
    }
    false
}

/// A first-match index has no earlier occurrence of its key.
proof fn lemma_lookup_none_prefix(st: Seq<EntryV>, key: Seq<u8>, i: int)
    requires
        0 <= i < st.len(),
        store_lookup(st, key) == Some(st[i]),
        st[i].key == key,
        store_wf(st),
    ensures
        forall|k: int| 0 <= k < i ==> (#[trigger] st[k]).key != key,
{
    assert(forall|k: int| 0 <= k < st.len() && k != i ==> (#[trigger] st[k]).key != key);
}

} // verus!
