//! The eventually consistent counter store of one replica.
//!
//! One replicated value per counter key.  A local decision reads the
//! local sum; a local increment grows this replica's own contribution
//! and yields the update to fan out; an inbound update raises per-actor
//! contributions and the expiry, never lowering either, so duplicated,
//! replayed or reordered deliveries cannot diverge.

use vstd::prelude::*;
use crate::crdt::{
    contrib_sum,
    contribs_wf,
    incr_spec,
    max64,
    raise_contrib,
    ContribsV,
    CrCounterValue,
    CrdtV,
};
use crate::limit::{counter_key, counter_key_spec, Counter, CounterV};
use crate::replication::{CounterUpdate, UpdateV};
use crate::storage::{counters_view, Authorization, CounterSnapshot};
use crate::text::bytes_cmp;

verus! {

/// Mathematical form of one replica's counter store.
pub type DistV = Seq<(Seq<u8>, CrdtV)>;

/// One replica's counter store: this replica's actor id and one
/// replicated value per counter key.
#[derive(Debug)]
pub struct DistributedCounters {
    pub actor: String,
    pub entries: Vec<(Vec<u8>, CrCounterValue)>,
}

impl View for DistributedCounters {
    type V = DistV;

    open spec fn view(&self) -> DistV {
        self.entries@.map_values(|p: (Vec<u8>, CrCounterValue)| (p.0@, p.1@))
    }
}

/// Keys are unique and every value's contributions are well-formed.
pub open spec fn dist_wf(es: DistV) -> bool {
    &&& forall|i: int, j: int| 0 <= i < j < es.len() ==> es[i].0 != es[j].0
    &&& forall|i: int| 0 <= i < es.len() ==> contribs_wf((#[trigger] es[i]).1.contributions)
}

/// The value stored under a key.
pub open spec fn dist_lookup(es: DistV, key: Seq<u8>) -> Option<CrdtV>
    decreases es.len(),
{
    if es.len() == 0 {
        None
    } else if es[0].0 == key {
        Some(es[0].1)
    } else {
        dist_lookup(es.drop_first(), key)
    }
}

/// The store with `v` bound under `key`: replaced in place, or appended
/// when the key is new.
pub open spec fn dist_upsert(es: DistV, key: Seq<u8>, v: CrdtV) -> DistV
    decreases es.len(),
{
    if es.len() == 0 {
        seq![(key, v)]
    } else if es[0].0 == key {
        seq![(key, v)] + es.drop_first()
    } else {
        seq![es[0]] + dist_upsert(es.drop_first(), key, v)
    }
}

/// The value a counter starts from on this replica before anything is
/// known of it: an expired window of the limit's duration.
pub open spec fn fresh_value(window: u64) -> CrdtV {
    CrdtV { expires_at: 0, initial_duration: window, contributions: Seq::empty() }
}

/// Contributions with every pair of an inbound update applied, in order,
/// each raising its actor to at least the carried value.
pub open spec fn raised_all(cs: ContribsV, pairs: ContribsV) -> ContribsV
    decreases pairs.len(),
{
    if pairs.len() == 0 {
        cs
    } else {
        raise_contrib(raised_all(cs, pairs.drop_last()), pairs.last().0, pairs.last().1)
    }
}

/// The effective local count of a value at `now`: the saturated sum of
/// the contributions while the window runs, zero once it expired.
pub open spec fn local_count(v: CrdtV, now: u64) -> u64 {
    if now < v.expires_at {
        if contrib_sum(v.contributions) <= u64::MAX {
            contrib_sum(v.contributions) as u64
        } else {
            u64::MAX
        }
    } else {
        0
    }
}

/// The count a key holds locally at `now`.
pub open spec fn d_eff(es: DistV, key: Seq<u8>, now: u64) -> u64 {
    match dist_lookup(es, key) {
        Some(v) => local_count(v, now),
        None => 0,
    }
}

/// The value one counter starts its step from: what is stored — taking
/// the window duration from the limit, since a value first learned from
/// the wire carries none — or a fresh expired window of that duration.
pub open spec fn d_base(es: DistV, c: CounterV, now: u64) -> CrdtV {
    match dist_lookup(es, counter_key_spec(c)) {
        Some(v) => CrdtV { initial_duration: c.limit.seconds, ..v },
        None => fresh_value(c.limit.seconds),
    }
}

/// Whether one more counter fits under its limit, judged locally.
pub open spec fn d_fits(es: DistV, c: CounterV, delta: u64, now: u64) -> bool {
    d_eff(es, counter_key_spec(c), now) + delta <= c.limit.max
}

/// The replicated value after one fitting increment by `actor`.
pub open spec fn d_incr(es: DistV, actor: Seq<char>, c: CounterV, delta: u64, now: u64) -> CrdtV {
    incr_spec(d_base(es, c, now), actor, delta, now)
}

/// The snapshot one counter yields: the capacity left after this
/// request, clamped at zero, and the seconds left of the window the
/// counter would run under.
pub open spec fn d_snap(es: DistV, actor: Seq<char>, c: CounterV, delta: u64, now: u64)
    -> CounterSnapshot {
    let cur = d_eff(es, counter_key_spec(c), now) as int;
    let exp = if d_fits(es, c, delta, now) {
        d_incr(es, actor, c, delta, now).expires_at
    } else {
        let base = d_base(es, c, now);
        if now < base.expires_at {
            base.expires_at
        } else {
            crate::storage::sat_add(now, c.limit.seconds)
        }
    };
    CounterSnapshot {
        max: c.limit.max,
        seconds: c.limit.seconds,
        remaining: if c.limit.max - cur - delta >= 0 {
            (c.limit.max - cur - delta) as u64
        } else {
            0
        },
        expires_in: Some((if exp >= now {
            (exp - now) as u64
        } else {
            0
        })),
    }
}

/// The store after one counter's step.
pub open spec fn d_step(es: DistV, actor: Seq<char>, c: CounterV, delta: u64, now: u64) -> DistV {
    if d_fits(es, c, delta, now) {
        dist_upsert(es, counter_key_spec(c), d_incr(es, actor, c, delta, now))
    } else {
        es
    }
}

/// The update a fitting step publishes.
pub open spec fn d_pub(es: DistV, actor: Seq<char>, c: CounterV, delta: u64, now: u64) -> UpdateV {
    let v = d_incr(es, actor, c, delta, now);
    UpdateV { key: counter_key_spec(c), values: v.contributions, expires_at: v.expires_at }
}

/// The outcome of walking a counter list on one replica.
pub struct DScanV {
    pub limited: Option<Option<Seq<char>>>,
    pub st: DistV,
    pub snaps: Seq<CounterSnapshot>,
    pub pubs: Seq<UpdateV>,
}

/// Walks the counters in order, as the strict store does, but against
/// the local replicated values, collecting the updates to fan out.
pub open spec fn dscan(es: DistV, actor: Seq<char>, cs: Seq<CounterV>, delta: u64, now: u64)
    -> DScanV
    decreases cs.len(),
{
    if cs.len() == 0 {
        DScanV { limited: None, st: es, snaps: Seq::empty(), pubs: Seq::empty() }
    } else {
        let c = cs[0];
        let fits = d_fits(es, c, delta, now);
        let rest = dscan(d_step(es, actor, c, delta, now), actor, cs.drop_first(), delta, now);
        DScanV {
            limited: if !fits {
                Some(c.limit.name)
            } else {
                rest.limited
            },
            st: rest.st,
            snaps: seq![d_snap(es, actor, c, delta, now)] + rest.snaps,
            pubs: (if fits {
                seq![d_pub(es, actor, c, delta, now)]
            } else {
                Seq::empty()
            }) + rest.pubs,
        }
    }
}

/// Appending one counter to a walk steps it on the walk's store.
#[verifier::rlimit(100)]
proof fn lemma_dscan_snoc(es: DistV, actor: Seq<char>, cs: Seq<CounterV>, c: CounterV, delta: u64, now: u64)
    ensures
        ({
            let r = dscan(es, actor, cs, delta, now);
            let fits = d_fits(r.st, c, delta, now);
            dscan(es, actor, cs.push(c), delta, now) == DScanV {
                limited: if r.limited is Some {
                    r.limited
                } else if !fits {
                    Some(c.limit.name)
                } else {
                    None
                },
                st: d_step(r.st, actor, c, delta, now),
                snaps: r.snaps.push(d_snap(r.st, actor, c, delta, now)),
                pubs: r.pubs + (if fits {
                    seq![d_pub(r.st, actor, c, delta, now)]
                } else {
                    Seq::empty()
                }),
            }
        }),
    decreases cs.len(),
{
    reveal_with_fuel(dscan, 3);
    if cs.len() == 0 {
        assert(cs.push(c).drop_first() =~= Seq::<CounterV>::empty());
        assert(cs.push(c)[0] == c);
        let r0 = dscan(es, actor, cs.push(c), delta, now);
        let r = dscan(es, actor, cs, delta, now);
        assert(r0.snaps =~= r.snaps.push(d_snap(es, actor, c, delta, now)));
        assert(r0.pubs =~= r.pubs + (if d_fits(es, c, delta, now) {
            seq![d_pub(es, actor, c, delta, now)]
        } else {
            Seq::<UpdateV>::empty()
        }));
    } else {
        assert(cs.push(c)[0] == cs[0]);
        assert(cs.push(c).drop_first() =~= cs.drop_first().push(c));
        lemma_dscan_snoc(d_step(es, actor, cs[0], delta, now), actor, cs.drop_first(), c, delta, now);
        let r = dscan(es, actor, cs, delta, now);
        let full = dscan(es, actor, cs.push(c), delta, now);
        assert(full.snaps =~= r.snaps.push(d_snap(r.st, actor, c, delta, now)));
        assert(full.pubs =~= r.pubs + (if d_fits(r.st, c, delta, now) {
            seq![d_pub(r.st, actor, c, delta, now)]
        } else {
            Seq::<UpdateV>::empty()
        }));
    }
}

fn keys_equal(a: &Vec<u8>, b: &Vec<u8>) -> (r: bool)
    ensures
        r == (a@ == b@),
{
    bytes_cmp(a.as_slice(), b.as_slice()) == 0
}

/// The index of a key's entry, if any.
fn find_key(entries: &Vec<(Vec<u8>, CrCounterValue)>, key: &Vec<u8>) -> (r: Option<usize>)
    ensures
        ({
            let es = entries@.map_values(|p: (Vec<u8>, CrCounterValue)| (p.0@, p.1@));
            match r {
                Some(i) => i < es.len() && es[i as int].0 == key@ && dist_lookup(es, key@) == Some(
                    es[i as int].1,
                ) && (forall|k: int| 0 <= k < i ==> (#[trigger] es[k]).0 != key@),
                None => dist_lookup(es, key@) is None,
            }
        }),
{
    let ghost es = entries@.map_values(|p: (Vec<u8>, CrCounterValue)| (p.0@, p.1@));
    proof {
        assert(es.skip(0) =~= es);
    }
    let mut i: usize = 0;
    while i < entries.len()
        invariant
            i <= es.len(),
            es == entries@.map_values(|p: (Vec<u8>, CrCounterValue)| (p.0@, p.1@)),
            es.len() == entries@.len(),
            dist_lookup(es, key@) == dist_lookup(es.skip(i as int), key@),
            forall|k: int| 0 <= k < i ==> (#[trigger] es[k]).0 != key@,
        decreases es.len() - i,
    {
        if keys_equal(&entries[i].0, key) {
            proof {
                assert(es.skip(i as int)[0] == es[i as int]);
            }
            return Some(i);
        }
        proof {
            assert(es.skip(i as int)[0] == es[i as int]);
            assert(es.skip(i as int).drop_first() =~= es.skip(i + 1));
        }
        i = i + 1;
    }
    proof {
        assert(es.skip(i as int).len() == 0);
    }
    None
}

proof fn lemma_dist_none(es: DistV, key: Seq<u8>)
    requires
        dist_lookup(es, key) is None,
    ensures
        forall|k: int| 0 <= k < es.len() ==> (#[trigger] es[k]).0 != key,
    decreases es.len(),
{
    if es.len() > 0 {
        lemma_dist_none(es.drop_first(), key);
        assert forall|k: int| 0 <= k < es.len() implies (#[trigger] es[k]).0 != key by {
            if k > 0 {
                assert(es.drop_first()[k - 1] == es[k]);
                assert((#[trigger] es.drop_first()[k - 1]).0 != key);
            }
        }
    }
}

proof fn lemma_dist_upsert_at(es: DistV, key: Seq<u8>, v: CrdtV, i: int)
    requires
        0 <= i < es.len(),
        es[i].0 == key,
        forall|k: int| 0 <= k < i ==> (#[trigger] es[k]).0 != key,
    ensures
        dist_upsert(es, key, v) == es.update(i, (key, v)),
    decreases i,
{
    if i == 0 {
        assert(dist_upsert(es, key, v) =~= es.update(0, (key, v)));
    } else {
        lemma_dist_upsert_at(es.drop_first(), key, v, i - 1);
        assert(es.drop_first().update(i - 1, (key, v)) =~= es.update(i, (key, v)).drop_first());
        assert(dist_upsert(es, key, v) =~= es.update(i, (key, v)));
    }
}

proof fn lemma_dist_upsert_push(es: DistV, key: Seq<u8>, v: CrdtV)
    requires
        forall|k: int| 0 <= k < es.len() ==> (#[trigger] es[k]).0 != key,
    ensures
        dist_upsert(es, key, v) == es.push((key, v)),
    decreases es.len(),
{
    if es.len() == 0 {
        assert(dist_upsert(es, key, v) =~= es.push((key, v)));
    } else {
        lemma_dist_upsert_push(es.drop_first(), key, v);
        assert(es.drop_first().push((key, v)) =~= es.push((key, v)).drop_first());
        assert(dist_upsert(es, key, v) =~= es.push((key, v)));
    }
}

impl DistributedCounters {
    /// An empty store for the replica named `actor`.
    pub fn new(actor: String) -> (r: DistributedCounters)
        ensures
            r@ == Seq::<(Seq<u8>, CrdtV)>::empty(),
            r.actor@ == actor@,
            dist_wf(r@),
    {
        let r = DistributedCounters { actor, entries: Vec::new() };
        proof {
            assert(r@ =~= Seq::<(Seq<u8>, CrdtV)>::empty());
        }
        r
    }

    /// The local effective count under a key at `now`: what this replica
    /// decides against.  The sum of contributions is a lower bound on
    /// the cluster-wide count while the window is active.
    pub fn value_of(&self, key: &Vec<u8>, now: u64) -> (r: u64)
        ensures
            r == (match dist_lookup(self@, key@) {
                Some(v) => local_count(v, now),
                None => 0u64,
            }),
    {
        match find_key(&self.entries, key) {
            Some(i) => {
                let v = &self.entries[i].1;
                if now < v.expires_at {
                    v.value()
                } else {
                    0
                }
            },
            None => 0,
        }
    }

    /// One local increment by this replica's actor at `now`, under a
    /// limit whose window lasts `window` seconds.  Returns the update to
    /// publish to the peers.
    pub fn increment_local(&mut self, key: &Vec<u8>, window: u64, delta: u64, now: u64) -> (r:
        CounterUpdate)
        requires
            dist_wf(old(self)@),
        ensures
            dist_wf(final(self)@),
            final(self).actor == old(self).actor,
            ({
                let base = match dist_lookup(old(self)@, key@) {
                    Some(v) => CrdtV { initial_duration: window, ..v },
                    None => fresh_value(window),
                };
                let v2 = incr_spec(base, old(self).actor@, delta, now);
                &&& final(self)@ == dist_upsert(old(self)@, key@, v2)
                &&& r.key@ == key@
                &&& r@.values == v2.contributions
                &&& r.expires_at == v2.expires_at
            }),
    {
        let ghost es0 = self@;
        let found = find_key(&self.entries, key);
        let mut value = match found {
            Some(i) => self.entries[i].1.duplicate(),
            None => CrCounterValue::new(window, 0),
        };
        value.initial_duration = window;
        proof {
            if found is None {
                lemma_dist_none(es0, key@);
                assert(value@ == fresh_value(window));
            }
        }
        let actor = self.actor.clone();
        value.increment(&actor, delta, now);
        let (expires_at, values) = value.snapshot();
        let update = CounterUpdate { key: clone_bytes(key), values, expires_at };
        let ghost v2 = value@;
        match found {
            Some(i) => {
                proof {
                    lemma_dist_upsert_at(es0, key@, v2, i as int);
                }
                self.entries[i] = (clone_bytes(key), value);
                proof {
                    assert(self@ =~= es0.update(i as int, (key@, v2)));
                    assert forall|x: int, y: int| 0 <= x < y < self@.len() implies (
                    #[trigger] self@[x]).0 != (#[trigger] self@[y]).0 by {
                        assert(es0[x].0 != es0[y].0);
                    }
                }
            },
            None => {
                proof {
                    lemma_dist_none(es0, key@);
                    lemma_dist_upsert_push(es0, key@, v2);
                }
                self.entries.push((clone_bytes(key), value));
                proof {
                    assert(self@ =~= es0.push((key@, v2)));
                    assert forall|x: int, y: int| 0 <= x < y < self@.len() implies (
                    #[trigger] self@[x]).0 != (#[trigger] self@[y]).0 by {
                        if y < es0.len() {
                            assert(es0[x].0 != es0[y].0);
                        } else {
                            assert(self@[x] == es0[x]);
                            assert(es0[x].0 != key@);
                        }
                    }
                }
            },
        }
        update
    }

    /// Applies one inbound counter update: every carried pair raises its
    /// actor's contribution, and the expiry is raised to the update's.
    /// Applying an update twice, or late, changes nothing it already
    /// established.
    pub fn apply_update(&mut self, update: &CounterUpdate)
        requires
            dist_wf(old(self)@),
        ensures
            dist_wf(final(self)@),
            final(self).actor == old(self).actor,
            ({
                let base = match dist_lookup(old(self)@, update.key@) {
                    Some(v) => v,
                    None => fresh_value(0),
                };
                let v2 = CrdtV {
                    expires_at: max64(base.expires_at, update.expires_at),
                    initial_duration: base.initial_duration,
                    contributions: raised_all(base.contributions, update@.values),
                };
                final(self)@ == dist_upsert(old(self)@, update.key@, v2)
            }),
    {
        let ghost es0 = self@;
        let found = find_key(&self.entries, &update.key);
        let mut value = match found {
            Some(i) => self.entries[i].1.duplicate(),
            None => CrCounterValue::new(0, 0),
        };
        proof {
            if found is None {
                lemma_dist_none(es0, update.key@);
                assert(value@ == fresh_value(0));
            }
        }
        let ghost base = value@;
        value.extend_expiry(update.expires_at);
        let mut p: usize = 0;
        proof {
            assert(update@.values.take(0) =~= Seq::<(Seq<char>, u64)>::empty());
        }
        while p < update.values.len()
            invariant
                p <= update@.values.len(),
                update@.values.len() == update.values@.len(),
                forall|k: int|
                    0 <= k < update@.values.len() ==> (#[trigger] update@.values[k]) == (
                    update.values@[k].0@, update.values@[k].1),
                value@.contributions == raised_all(base.contributions, update@.values.take(
                    p as int,
                )),
                value@.expires_at == max64(base.expires_at, update.expires_at),
                value@.initial_duration == base.initial_duration,
                contribs_wf(value@.contributions),
            decreases update@.values.len() - p,
        {
            let actor = update.values[p].0.clone();
            let contribution = update.values[p].1;
            value.raise(&actor, contribution, update.expires_at);
            p = p + 1;
            proof {
                assert(update@.values.take(p as int).drop_last() =~= update@.values.take(p - 1));
                assert(update@.values.take(p as int).last() == update@.values[p - 1]);
            }
        }
        proof {
            assert(update@.values.take(update@.values.len() as int) =~= update@.values);
        }
        let ghost v2 = value@;
        match found {
            Some(i) => {
                proof {
                    lemma_dist_upsert_at(es0, update.key@, v2, i as int);
                }
                self.entries[i] = (clone_bytes(&update.key), value);
                proof {
                    assert(self@ =~= es0.update(i as int, (update.key@, v2)));
                    assert forall|x: int, y: int| 0 <= x < y < self@.len() implies (
                    #[trigger] self@[x]).0 != (#[trigger] self@[y]).0 by {
                        assert(es0[x].0 != es0[y].0);
                    }
                }
            },
            None => {
                proof {
                    lemma_dist_none(es0, update.key@);
                    lemma_dist_upsert_push(es0, update.key@, v2);
                }
                self.entries.push((clone_bytes(&update.key), value));
                proof {
                    assert(self@ =~= es0.push((update.key@, v2)));
                    assert forall|x: int, y: int| 0 <= x < y < self@.len() implies (
                    #[trigger] self@[x]).0 != (#[trigger] self@[y]).0 by {
                        if y < es0.len() {
                            assert(es0[x].0 != es0[y].0);
                        } else {
                            assert(self@[x] == es0[x]);
                            assert(es0[x].0 != update.key@);
                        }
                    }
                }
            },
        }
    }

    /// Atomically checks and updates the given counters by `delta` at
    /// `now`, deciding against this replica's local values: if every
    /// counter fits its limit locally, each gets this replica's
    /// contribution raised and one update per counter is returned for
    /// fan-out to the peers; otherwise nothing changes, nothing is
    /// published, and the first exceeded limit's name is reported.  With
    /// `load_counters`, one snapshot per counter is returned.
    #[verifier::rlimit(100)]
    pub fn check_and_update(
        &mut self,
        counters: &Vec<Counter>,
        delta: u64,
        load_counters: bool,
        now: u64,
    ) -> (r: (Authorization, Vec<CounterSnapshot>, Vec<CounterUpdate>))
        requires
            dist_wf(old(self)@),
        ensures
            dist_wf(final(self)@),
            final(self).actor == old(self).actor,
            ({
                let s = dscan(old(self)@, old(self).actor@, counters_view(counters@), delta, now);
                &&& final(self)@ == (if s.limited is Some {
                    old(self)@
                } else {
                    s.st
                })
                &&& (match r.0 {
                    Authorization::Granted => s.limited is None,
                    Authorization::Limited(n) => s.limited == Some(
                        match n {
                            Some(x) => Some(x@),
                            None => None,
                        },
                    ),
                })
                &&& r.1@ == (if load_counters {
                    s.snaps
                } else {
                    Seq::<CounterSnapshot>::empty()
                })
                &&& r.2@.map_values(|u: CounterUpdate| u@) == (if s.limited is Some {
                    Seq::<UpdateV>::empty()
                } else {
                    s.pubs
                })
            }),
    {
        let ghost cv = counters_view(counters@);
        let ghost es0 = self@;
        let ghost ga = self.actor@;
        let actor = self.actor.clone();
        let mut work: Vec<(Vec<u8>, CrCounterValue)> = Vec::new();
        let mut wi: usize = 0;
        while wi < self.entries.len()
            invariant
                work@.len() == wi <= self.entries@.len(),
                forall|k: int|
                    0 <= k < wi ==> (#[trigger] work@[k]).0@ == self.entries@[k].0@
                        && work@[k].1@ == self.entries@[k].1@,
            decreases self.entries@.len() - wi,
        {
            work.push((clone_bytes(&self.entries[wi].0), self.entries[wi].1.duplicate()));
            wi = wi + 1;
        }
        proof {
            assert(work@.map_values(|p: (Vec<u8>, CrCounterValue)| (p.0@, p.1@)) =~= es0);
        }
        let mut snaps: Vec<CounterSnapshot> = Vec::new();
        let mut pubs: Vec<CounterUpdate> = Vec::new();
        let mut limited: bool = false;
        let mut limited_name: Option<String> = None;
        let mut i: usize = 0;
        while i < counters.len()
            invariant
                i <= counters@.len(),
                cv == counters_view(counters@),
                cv.len() == counters@.len(),
                forall|k: int| 0 <= k < cv.len() ==> cv[k] == counters@[k]@,
                actor@ == ga,
                dist_wf(work@.map_values(|p: (Vec<u8>, CrCounterValue)| (p.0@, p.1@))),
                ({
                    let s = dscan(es0, ga, cv.take(i as int), delta, now);
                    &&& work@.map_values(|p: (Vec<u8>, CrCounterValue)| (p.0@, p.1@)) == s.st
                    &&& snaps@ == (if load_counters {
                        s.snaps
                    } else {
                        Seq::<CounterSnapshot>::empty()
                    })
                    &&& pubs@.map_values(|u: CounterUpdate| u@) == s.pubs
                    &&& (match s.limited {
                        Some(n) => limited && n == (match limited_name {
                            Some(x) => Some(x@),
                            None => None,
                        }),
                        None => !limited,
                    })
                }),
            decreases counters@.len() - i,
        {
            let c = &counters[i];
            let ghost stw = work@.map_values(|p: (Vec<u8>, CrCounterValue)| (p.0@, p.1@));
            let key = counter_key(c);
            let max = c.limit.max;
            let found = find_key(&work, &key);
            let eff: u64 = match found {
                Some(idx) => {
                    let v = &work[idx].1;
                    if now < v.expires_at {
                        v.value()
                    } else {
                        0
                    }
                },
                None => 0,
            };
            proof {
                assert(eff == d_eff(stw, counter_key_spec(c@), now));
            }
            let fits = eff <= max && delta <= max - eff;
            proof {
                assert(fits == d_fits(stw, c@, delta, now));
            }
            if fits {
                let mut nv = match found {
                    Some(idx) => work[idx].1.duplicate(),
                    None => CrCounterValue::new(c.limit.seconds, 0),
                };
                nv.initial_duration = c.limit.seconds;
                proof {
                    if found is None {
                        lemma_dist_none(stw, key@);
                        assert(nv@ == fresh_value(c.limit.seconds));
                    }
                    assert(nv@ == d_base(stw, c@, now));
                }
                nv.increment(&actor, delta, now);
                proof {
                    assert(nv@ == d_incr(stw, ga, c@, delta, now));
                }
                if load_counters {
                    let remaining: u64 = max - eff - delta;
                    let expires_in: u64 = if nv.expires_at >= now {
                        nv.expires_at - now
                    } else {
                        0
                    };
                    let snap = CounterSnapshot {
                        max,
                        seconds: c.limit.seconds,
                        remaining,
                        expires_in: Some(expires_in),
                    };
                    proof {
                        assert(snap == d_snap(stw, ga, c@, delta, now));
                    }
                    snaps.push(snap);
                }
                let (exp2, values) = nv.snapshot();
                let ghost prev_pubs = pubs@;
                pubs.push(CounterUpdate { key: clone_bytes(&key), values, expires_at: exp2 });
                proof {
                    assert(pubs@.map_values(|u: CounterUpdate| u@) =~= prev_pubs.map_values(
                        |u: CounterUpdate| u@,
                    ).push(d_pub(stw, ga, c@, delta, now)));
                }
                let ghost v2 = nv@;
                match found {
                    Some(idx) => {
                        proof {
                            lemma_dist_upsert_at(stw, key@, v2, idx as int);
                        }
                        work[idx] = (clone_bytes(&key), nv);
                        proof {
                            assert(work@.map_values(|p: (Vec<u8>, CrCounterValue)| (p.0@, p.1@))
                                =~= stw.update(idx as int, (key@, v2)));
                            assert forall|x: int, y: int|
                                0 <= x < y < stw.len() implies (#[trigger] stw.update(
                                idx as int,
                                (key@, v2),
                            )[x]).0 != (#[trigger] stw.update(idx as int, (key@, v2))[y]).0 by {
                                assert(stw[x].0 != stw[y].0);
                            }
                        }
                    },
                    None => {
                        proof {
                            lemma_dist_none(stw, key@);
                            lemma_dist_upsert_push(stw, key@, v2);
                        }
                        work.push((clone_bytes(&key), nv));
                        proof {
                            assert(work@.map_values(|p: (Vec<u8>, CrCounterValue)| (p.0@, p.1@))
                                =~= stw.push((key@, v2)));
                            assert forall|x: int, y: int|
                                0 <= x < y < stw.push((key@, v2)).len() implies (
                            #[trigger] stw.push((key@, v2))[x]).0 != (#[trigger] stw.push(
                                (key@, v2),
                            )[y]).0 by {
                                if y < stw.len() {
                                    assert(stw[x].0 != stw[y].0);
                                } else {
                                    assert(stw.push((key@, v2))[x] == stw[x]);
                                    assert(stw[x].0 != key@);
                                }
                            }
                        }
                    },
                }
            } else {
                if load_counters {
                    let remaining: u64 = if eff <= max && delta <= max - eff {
                        max - eff - delta
                    } else {
                        0
                    };
                    let exp_val: u64 = match found {
                        Some(idx) => {
                            let v = &work[idx].1;
                            if now < v.expires_at {
                                v.expires_at
                            } else {
                                if now > u64::MAX - c.limit.seconds {
                                    u64::MAX
                                } else {
                                    now + c.limit.seconds
                                }
                            }
                        },
                        None => {
                            if now > u64::MAX - c.limit.seconds {
                                u64::MAX
                            } else {
                                now + c.limit.seconds
                            }
                        },
                    };
                    let expires_in: u64 = if exp_val >= now {
                        exp_val - now
                    } else {
                        0
                    };
                    let snap = CounterSnapshot {
                        max,
                        seconds: c.limit.seconds,
                        remaining,
                        expires_in: Some(expires_in),
                    };
                    proof {
                        if found is None {
                            lemma_dist_none(stw, key@);
                        }
                        assert(snap == d_snap(stw, ga, c@, delta, now));
                    }
                    snaps.push(snap);
                }
                if !limited {
                    limited = true;
                    limited_name = match &c.limit.name {
                        Some(n) => Some(n.clone()),
                        None => None,
                    };
                }
            }
            i = i + 1;
            proof {
                assert(cv.take(i as int).drop_last() =~= cv.take(i - 1));
                assert(cv.take(i as int) =~= cv.take(i - 1).push(cv[i - 1]));
                lemma_dscan_snoc(es0, ga, cv.take(i - 1), cv[i - 1], delta, now);
            }
        }
        proof {
            assert(cv.take(counters@.len() as int) =~= cv);
        }
        if limited {
            let r = Authorization::Limited(limited_name);
            proof {
                assert(Seq::<CounterUpdate>::empty().map_values(|u: CounterUpdate| u@) =~= Seq::<
                    UpdateV,
                >::empty());
            }
            (r, snaps, Vec::new())
        } else {
            self.entries = work;
            (Authorization::Granted, snaps, pubs)
        }
    }

    /// The resync stream: one update per stored counter, in store order.
    pub fn snapshot_all(&self) -> (r: Vec<CounterUpdate>)
        ensures
            r@.len() == self@.len(),
            forall|k: int|
                0 <= k < r@.len() ==> {
                    let u = #[trigger] r@[k]@;
                    u.key == self@[k].0 && u.values == self@[k].1.contributions && u.expires_at
                        == self@[k].1.expires_at
                },
    {
        let mut r: Vec<CounterUpdate> = Vec::new();
        let mut i: usize = 0;
        while i < self.entries.len()
            invariant
                r@.len() == i <= self.entries@.len(),
                self@.len() == self.entries@.len(),
                forall|k: int| 0 <= k < self@.len() ==> self@[k] == (self.entries@[k].0@,
                self.entries@[k].1@),
                forall|k: int|
                    0 <= k < i ==> {
                        let u = #[trigger] r@[k]@;
                        u.key == self@[k].0 && u.values == self@[k].1.contributions
                            && u.expires_at == self@[k].1.expires_at
                    },
            decreases self.entries@.len() - i,
        {
            let (expires_at, values) = self.entries[i].1.snapshot();
            r.push(CounterUpdate { key: clone_bytes(&self.entries[i].0), values, expires_at });
            i = i + 1;
        }
        r
    }
}

fn clone_bytes(v: &Vec<u8>) -> (r: Vec<u8>)
    ensures
        r@ == v@,
{
    let mut r: Vec<u8> = Vec::new();
    let mut i: usize = 0;
    while i < v.len()
        invariant
            r@.len() == i <= v@.len(),
            forall|k: int| 0 <= k < i ==> r@[k] == v@[k],
        decreases v@.len() - i,
    {
        r.push(v[i]);
        i = i + 1;
    }
    proof {
        assert(r@ =~= v@);
    }
    r
}

} // verus!
