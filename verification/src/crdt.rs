//! The replicated counter value.
//!
//! Each counter holds one non-negative contribution per actor (replica)
//! under a common window.  Merging takes the per-actor maximum and the
//! later expiry, which makes concurrent updates commutative, associative
//! and idempotent; the effective count is the sum of the contributions.
//! An expired value is re-initialized by the next local increment.

use vstd::prelude::*;

verus! {

/// Per-actor contributions, each actor held once.
pub type ContribsV = Seq<(Seq<char>, u64)>;

/// A replicated counter value.
#[derive(Debug)]
pub struct CrCounterValue {
    pub expires_at: u64,
    pub initial_duration: u64,
    pub contributions: Vec<(String, u64)>,
}

/// Mathematical form of a replicated counter value.
pub struct CrdtV {
    pub expires_at: u64,
    pub initial_duration: u64,
    pub contributions: ContribsV,
}

impl View for CrCounterValue {
    type V = CrdtV;

    open spec fn view(&self) -> CrdtV {
        CrdtV {
            expires_at: self.expires_at,
            initial_duration: self.initial_duration,
            contributions: self.contributions@.map_values(|p: (String, u64)| (p.0@, p.1)),
        }
    }
}

/// Each actor appears at most once.
pub open spec fn contribs_wf(cs: ContribsV) -> bool {
    forall|i: int, j: int| 0 <= i < j < cs.len() ==> cs[i].0 != cs[j].0
}

/// The contribution an actor holds.
pub open spec fn contrib_lookup(cs: ContribsV, a: Seq<char>) -> Option<u64>
    decreases cs.len(),
{
    if cs.len() == 0 {
        None
    } else if cs[0].0 == a {
        Some(cs[0].1)
    } else {
        contrib_lookup(cs.drop_first(), a)
    }
}

/// The sum of all contributions.
pub open spec fn contrib_sum(cs: ContribsV) -> int
    decreases cs.len(),
{
    if cs.len() == 0 {
        0
    } else {
        contrib_sum(cs.drop_last()) + cs.last().1
    }
}

/// Addition saturating at the largest count.
pub open spec fn sat_add64(a: u64, b: u64) -> u64 {
    if a + b > u64::MAX {
        u64::MAX
    } else {
        (a + b) as u64
    }
}

/// The larger of two counts.
pub open spec fn max64(a: u64, b: u64) -> u64 {
    if a < b {
        b
    } else {
        a
    }
}

/// The contributions with `delta` added to one actor (saturating), the
/// actor joining with `delta` when absent.
pub open spec fn bump(cs: ContribsV, a: Seq<char>, delta: u64) -> ContribsV
    decreases cs.len(),
{
    if cs.len() == 0 {
        seq![(a, delta)]
    } else if cs[0].0 == a {
        seq![(a, sat_add64(cs[0].1, delta))] + cs.drop_first()
    } else {
        seq![cs[0]] + bump(cs.drop_first(), a, delta)
    }
}

/// The contributions with one actor's entry raised to at least `value`,
/// the actor joining with `value` when absent.  Raising is how inbound
/// replication applies: it never lowers a contribution, so replayed or
/// reordered updates cannot diverge.
pub open spec fn raise_contrib(cs: ContribsV, a: Seq<char>, value: u64) -> ContribsV
    decreases cs.len(),
{
    if cs.len() == 0 {
        seq![(a, value)]
    } else if cs[0].0 == a {
        seq![(a, max64(cs[0].1, value))] + cs.drop_first()
    } else {
        seq![cs[0]] + raise_contrib(cs.drop_first(), a, value)
    }
}

/// A value after one local increment: an expired window is first
/// re-initialized, then the actor's contribution grows by `delta`.
pub open spec fn incr_spec(v: CrdtV, a: Seq<char>, delta: u64, now: u64) -> CrdtV {
    let base = if now >= v.expires_at {
        CrdtV {
            expires_at: sat_add64(now, v.initial_duration),
            initial_duration: v.initial_duration,
            contributions: Seq::empty(),
        }
    } else {
        v
    };
    CrdtV {
        expires_at: base.expires_at,
        initial_duration: base.initial_duration,
        contributions: bump(base.contributions, a, delta),
    }
}

/// `a`'s entries after a merge: each keeps its actor and takes the
/// per-actor maximum with `b`.
pub open spec fn merge_kept(a: ContribsV, b: ContribsV) -> ContribsV {
    Seq::new(
        a.len(),
        |i: int|
            (
                a[i].0,
                match contrib_lookup(b, a[i].0) {
                    Some(c) => max64(a[i].1, c),
                    None => a[i].1,
                },
            ),
    )
}

/// `b`'s entries whose actor `a` does not hold, in order.
pub open spec fn merge_joined(a: ContribsV, b: ContribsV) -> ContribsV
    decreases b.len(),
{
    if b.len() == 0 {
        Seq::empty()
    } else {
        merge_joined(a, b.drop_last()) + (if contrib_lookup(a, b.last().0) is None {
            seq![b.last()]
        } else {
            Seq::empty()
        })
    }
}

/// A merged value: per-actor maximum, later expiry, and the window kept.
pub open spec fn merge_spec(x: CrdtV, y: CrdtV) -> CrdtV {
    CrdtV {
        expires_at: max64(x.expires_at, y.expires_at),
        initial_duration: x.initial_duration,
        contributions: merge_kept(x.contributions, y.contributions) + merge_joined(
            x.contributions,
            y.contributions,
        ),
    }
}

fn sat_add_exec(a: u64, b: u64) -> (r: u64)
    ensures
        r == sat_add64(a, b),
{
    if a > u64::MAX - b {
        u64::MAX
    } else {
        a + b
    }
}

/// The index of an actor's entry, if any.
fn find_actor(cs: &Vec<(String, u64)>, a: &String) -> (r: Option<usize>)
    ensures
        ({
            let v = cs@.map_values(|p: (String, u64)| (p.0@, p.1));
            match r {
                Some(i) => i < v.len() && v[i as int].0 == a@ && contrib_lookup(v, a@) == Some(
                    v[i as int].1,
                ) && (forall|k: int| 0 <= k < i ==> (#[trigger] v[k]).0 != a@),
                None => contrib_lookup(v, a@) is None,
            }
        }),
{
    let ghost v = cs@.map_values(|p: (String, u64)| (p.0@, p.1));
    proof {
        assert(v.skip(0) =~= v);
    }
    let mut i: usize = 0;
    while i < cs.len()
        invariant
            i <= v.len(),
            v == cs@.map_values(|p: (String, u64)| (p.0@, p.1)),
            v.len() == cs@.len(),
            contrib_lookup(v, a@) == contrib_lookup(v.skip(i as int), a@),
            forall|k: int| 0 <= k < i ==> (#[trigger] v[k]).0 != a@,
        decreases v.len() - i,
    {
        if cs[i].0 == *a {
            proof {
                assert(v.skip(i as int)[0] == v[i as int]);
            }
            return Some(i);
        }
        proof {
            assert(v.skip(i as int)[0] == v[i as int]);
            assert(v.skip(i as int).drop_first() =~= v.skip(i + 1));
        }
        i = i + 1;
    }
    proof {
        assert(v.skip(i as int).len() == 0);
    }
    None
}

/// Replacing a first-match entry is the bump.
proof fn lemma_bump_at(cs: ContribsV, a: Seq<char>, delta: u64, i: int)
    requires
        0 <= i < cs.len(),
        cs[i].0 == a,
        forall|k: int| 0 <= k < i ==> (#[trigger] cs[k]).0 != a,
    ensures
        bump(cs, a, delta) == cs.update(i, (a, sat_add64(cs[i].1, delta))),
    decreases i,
{
    if i == 0 {
        assert(bump(cs, a, delta) =~= cs.update(0, (a, sat_add64(cs[0].1, delta))));
    } else {
        lemma_bump_at(cs.drop_first(), a, delta, i - 1);
        assert(cs.drop_first().update(i - 1, (a, sat_add64(cs[i].1, delta))) =~= cs.update(
            i,
            (a, sat_add64(cs[i].1, delta)),
        ).drop_first());
        assert(bump(cs, a, delta) =~= cs.update(i, (a, sat_add64(cs[i].1, delta))));
    }
}

/// Appending a new actor is the bump.
proof fn lemma_bump_push(cs: ContribsV, a: Seq<char>, delta: u64)
    requires
        forall|k: int| 0 <= k < cs.len() ==> (#[trigger] cs[k]).0 != a,
    ensures
        bump(cs, a, delta) == cs.push((a, delta)),
    decreases cs.len(),
{
    if cs.len() == 0 {
        assert(bump(cs, a, delta) =~= cs.push((a, delta)));
    } else {
        lemma_bump_push(cs.drop_first(), a, delta);
        assert(cs.drop_first().push((a, delta)) =~= cs.push((a, delta)).drop_first());
        assert(bump(cs, a, delta) =~= cs.push((a, delta)));
    }
}

proof fn lemma_raise_at(cs: ContribsV, a: Seq<char>, value: u64, i: int)
    requires
        0 <= i < cs.len(),
        cs[i].0 == a,
        forall|k: int| 0 <= k < i ==> (#[trigger] cs[k]).0 != a,
    ensures
        raise_contrib(cs, a, value) == cs.update(i, (a, max64(cs[i].1, value))),
    decreases i,
{
    if i == 0 {
        assert(raise_contrib(cs, a, value) =~= cs.update(0, (a, max64(cs[0].1, value))));
    } else {
        lemma_raise_at(cs.drop_first(), a, value, i - 1);
        assert(cs.drop_first().update(i - 1, (a, max64(cs[i].1, value))) =~= cs.update(
            i,
            (a, max64(cs[i].1, value)),
        ).drop_first());
        assert(raise_contrib(cs, a, value) =~= cs.update(i, (a, max64(cs[i].1, value))));
    }
}

proof fn lemma_raise_push(cs: ContribsV, a: Seq<char>, value: u64)
    requires
        forall|k: int| 0 <= k < cs.len() ==> (#[trigger] cs[k]).0 != a,
    ensures
        raise_contrib(cs, a, value) == cs.push((a, value)),
    decreases cs.len(),
{
    if cs.len() == 0 {
        assert(raise_contrib(cs, a, value) =~= cs.push((a, value)));
    } else {
        lemma_raise_push(cs.drop_first(), a, value);
        assert(cs.drop_first().push((a, value)) =~= cs.push((a, value)).drop_first());
        assert(raise_contrib(cs, a, value) =~= cs.push((a, value)));
    }
}

impl CrCounterValue {
    /// A fresh value for a window of `initial_duration` seconds expiring
    /// at `expires_at`, with no contributions yet.
    pub fn new(initial_duration: u64, expires_at: u64) -> (r: CrCounterValue)
        ensures
            r@.initial_duration == initial_duration,
            r@.expires_at == expires_at,
            r@.contributions == Seq::<(Seq<char>, u64)>::empty(),
            contribs_wf(r@.contributions),
    {
        let r = CrCounterValue { expires_at, initial_duration, contributions: Vec::new() };
        proof {
            assert(r@.contributions =~= Seq::<(Seq<char>, u64)>::empty());
        }
        r
    }

    /// The effective count: the sum of all contributions, saturating.
    pub fn value(&self) -> (r: u64)
        ensures
            r == (if contrib_sum(self@.contributions) <= u64::MAX {
                contrib_sum(self@.contributions)
            } else {
                u64::MAX as int
            }),
    {
        let ghost v = self@.contributions;
        let mut acc: u64 = 0;
        let mut i: usize = 0;
        proof {
            assert(v.take(0) =~= Seq::<(Seq<char>, u64)>::empty());
        }
        while i < self.contributions.len()
            invariant
                i <= v.len(),
                v == self@.contributions,
                v.len() == self.contributions@.len(),
                forall|k: int| 0 <= k < v.len() ==> v[k].1 == self.contributions@[k].1,
                acc == (if contrib_sum(v.take(i as int)) <= u64::MAX {
                    contrib_sum(v.take(i as int))
                } else {
                    u64::MAX as int
                }),
            decreases v.len() - i,
        {
            acc = sat_add_exec(acc, self.contributions[i].1);
            i = i + 1;
            proof {
                assert(v.take(i as int).drop_last() =~= v.take(i - 1));
                assert(v.take(i as int).last() == v[i - 1]);
            }
        }
        proof {
            assert(v.take(v.len() as int) =~= v);
        }
        acc
    }

    /// One local increment by `actor`: an expired window restarts at
    /// `now`, then the actor's contribution grows by `delta`.
    pub fn increment(&mut self, actor: &String, delta: u64, now: u64)
        requires
            contribs_wf(old(self)@.contributions),
        ensures
            final(self)@ == incr_spec(old(self)@, actor@, delta, now),
            contribs_wf(final(self)@.contributions),
    {
        if now >= self.expires_at {
            self.contributions.clear();
            self.expires_at = sat_add_exec(now, self.initial_duration);
            proof {
                assert(self@.contributions =~= Seq::<(Seq<char>, u64)>::empty());
            }
        }
        let ghost base = self@.contributions;
        match find_actor(&self.contributions, actor) {
            Some(i) => {
                let bumped = sat_add_exec(self.contributions[i].1, delta);
                self.contributions[i] = (actor.clone(), bumped);
                proof {
                    lemma_bump_at(base, actor@, delta, i as int);
                    assert(self@.contributions =~= bump(base, actor@, delta));
                    assert forall|x: int, y: int|
                        0 <= x < y < self@.contributions.len() implies (
                    #[trigger] self@.contributions[x]).0 != (
                    #[trigger] self@.contributions[y]).0 by {
                        assert(base[x].0 != base[y].0);
                    }
                }
            },
            None => {
                proof {
                    lemma_contrib_none(base, actor@);
                }
                self.contributions.push((actor.clone(), delta));
                proof {
                    lemma_bump_push(base, actor@, delta);
                    assert(self@.contributions =~= bump(base, actor@, delta));
                    assert forall|x: int, y: int|
                        0 <= x < y < self@.contributions.len() implies (
                    #[trigger] self@.contributions[x]).0 != (
                    #[trigger] self@.contributions[y]).0 by {
                        if y < base.len() {
                            assert(base[x].0 != base[y].0);
                        } else {
                            assert(base[x].0 != actor@);
                        }
                    }
                }
            },
        }
    }

    /// Raises one actor's contribution to at least `value` and the
    /// expiry to at least `expires_at`: one inbound pair of a counter
    /// update, applied without ever lowering what is already known.
    pub fn raise(&mut self, actor: &String, value: u64, expires_at: u64)
        requires
            contribs_wf(old(self)@.contributions),
        ensures
            final(self)@.contributions == raise_contrib(old(self)@.contributions, actor@, value),
            final(self)@.expires_at == max64(old(self)@.expires_at, expires_at),
            final(self)@.initial_duration == old(self)@.initial_duration,
            contribs_wf(final(self)@.contributions),
    {
        if self.expires_at < expires_at {
            self.expires_at = expires_at;
        }
        let ghost base = self@.contributions;
        match find_actor(&self.contributions, actor) {
            Some(i) => {
                let cur = self.contributions[i].1;
                let raised = if cur < value {
                    value
                } else {
                    cur
                };
                self.contributions[i] = (actor.clone(), raised);
                proof {
                    lemma_raise_at(base, actor@, value, i as int);
                    assert(self@.contributions =~= raise_contrib(base, actor@, value));
                    assert forall|x: int, y: int|
                        0 <= x < y < self@.contributions.len() implies (
                    #[trigger] self@.contributions[x]).0 != (
                    #[trigger] self@.contributions[y]).0 by {
                        assert(base[x].0 != base[y].0);
                    }
                }
            },
            None => {
                proof {
                    lemma_contrib_none(base, actor@);
                }
                self.contributions.push((actor.clone(), value));
                proof {
                    lemma_raise_push(base, actor@, value);
                    assert(self@.contributions =~= raise_contrib(base, actor@, value));
                    assert forall|x: int, y: int|
                        0 <= x < y < self@.contributions.len() implies (
                    #[trigger] self@.contributions[x]).0 != (
                    #[trigger] self@.contributions[y]).0 by {
                        if y < base.len() {
                            assert(base[x].0 != base[y].0);
                        } else {
                            assert(base[x].0 != actor@);
                        }
                    }
                }
            },
        }
    }

    /// Merges another value in: per-actor maximum, later expiry.
    pub fn merge(&mut self, other: &CrCounterValue)
        requires
            contribs_wf(old(self)@.contributions),
            contribs_wf(other@.contributions),
        ensures
            final(self)@ == merge_spec(old(self)@, other@),
            contribs_wf(final(self)@.contributions),
    {
        let ghost av = self@.contributions;
        let ghost bv = other@.contributions;
        let mut merged: Vec<(String, u64)> = Vec::new();
        let mut i: usize = 0;
        while i < self.contributions.len()
            invariant
                i <= av.len(),
                av == self@.contributions,
                bv == other@.contributions,
                av.len() == self.contributions@.len(),
                forall|k: int|
                    0 <= k < av.len() ==> av[k] == (self.contributions@[k].0@,
                    self.contributions@[k].1),
                merged@.map_values(|p: (String, u64)| (p.0@, p.1)) =~= merge_kept(av, bv).take(
                    i as int,
                ),
            decreases av.len() - i,
        {
            let actor = self.contributions[i].0.clone();
            let mine = self.contributions[i].1;
            let ghost ga = actor@;
            let theirs = match find_actor(&other.contributions, &actor) {
                Some(j) => {
                    let c = other.contributions[j].1;
                    if mine < c {
                        c
                    } else {
                        mine
                    }
                },
                None => mine,
            };
            proof {
                assert(ga == av[i as int].0);
                assert(mine == av[i as int].1);
                assert(merge_kept(av, bv)[i as int] == (ga, theirs));
            }
            let ghost prev = merged@;
            proof {
                assert(prev.map_values(|p: (String, u64)| (p.0@, p.1)).len() == prev.len());
                assert(prev.len() == i);
            }
            merged.push((actor, theirs));
            i = i + 1;
            proof {
                assert forall|k: int|
                    0 <= k < i implies merged@.map_values(|p: (String, u64)| (p.0@, p.1))[k]
                    == merge_kept(av, bv)[k] by {
                    if k < i - 1 {
                        assert(merged@[k] == prev[k]);
                        assert(prev.map_values(|p: (String, u64)| (p.0@, p.1))[k] == merge_kept(
                            av,
                            bv,
                        ).take(i - 1)[k]);
                    } else {
                        assert(merged@[k].0@ == ga);
                        assert(merged@[k].1 == theirs);
                    }
                }
                assert(merged@.map_values(|p: (String, u64)| (p.0@, p.1)) =~= merge_kept(
                    av,
                    bv,
                ).take(i as int));
            }
        }
        proof {
            assert(merge_kept(av, bv).take(av.len() as int) =~= merge_kept(av, bv));
        }
        let mut j: usize = 0;
        while j < other.contributions.len()
            invariant
                j <= bv.len(),
                av == self@.contributions,
                bv == other@.contributions,
                bv.len() == other.contributions@.len(),
                forall|k: int|
                    0 <= k < bv.len() ==> bv[k] == (other.contributions@[k].0@,
                    other.contributions@[k].1),
                merged@.map_values(|p: (String, u64)| (p.0@, p.1)) =~= merge_kept(av, bv)
                    + merge_joined(av, bv.take(j as int)),
            decreases bv.len() - j,
        {
            let actor = other.contributions[j].0.clone();
            let ghost ga = actor@;
            proof {
                assert(ga == bv[j as int].0);
            }
            let ghost prev = merged@;
            let ghost gval = bv[j as int].1;
            proof {
                assert(prev.map_values(|p: (String, u64)| (p.0@, p.1)).len() == prev.len());
                assert(prev.len() == merge_kept(av, bv).len() + merge_joined(
                    av,
                    bv.take(j as int),
                ).len());
            }
            match find_actor(&self.contributions, &actor) {
                Some(_) => {
                    proof {
                        assert(contrib_lookup(av, ga) is Some);
                    }
                },
                None => {
                    proof {
                        assert(contrib_lookup(av, ga) is None);
                    }
                    merged.push((actor, other.contributions[j].1));
                },
            }
            j = j + 1;
            proof {
                assert(bv.take(j as int).drop_last() =~= bv.take(j - 1));
                assert(bv.take(j as int).last() == bv[j - 1]);
                let goal = merge_kept(av, bv) + merge_joined(av, bv.take(j as int));
                assert forall|k: int|
                    0 <= k < merged@.len() implies merged@.map_values(
                    |p: (String, u64)| (p.0@, p.1),
                )[k] == goal[k] by {
                    if k < prev.len() {
                        assert(merged@[k] == prev[k]);
                        assert(prev.map_values(|p: (String, u64)| (p.0@, p.1))[k] == (merge_kept(
                            av,
                            bv,
                        ) + merge_joined(av, bv.take(j - 1)))[k]);
                    } else {
                        assert(merged@[k].0@ == ga);
                        assert(merged@[k].1 == gval);
                    }
                }
                assert(merged@.map_values(|p: (String, u64)| (p.0@, p.1)) =~= goal);
            }
        }
        proof {
            assert(bv.take(bv.len() as int) =~= bv);
        }
        let other_exp = other.expires_at;
        if self.expires_at < other_exp {
            self.expires_at = other_exp;
        }
        self.contributions = merged;
        proof {
            lemma_merge_wf(av, bv);
            assert(self@.contributions =~= merge_spec(
                CrdtV { expires_at: 0, initial_duration: 0, contributions: av },
                CrdtV { expires_at: 0, initial_duration: 0, contributions: bv },
            ).contributions);
        }
    }

    /// Raises the window expiry to at least `expires_at`, never
    /// rewinding it.
    pub fn extend_expiry(&mut self, expires_at: u64)
        ensures
            final(self)@ == (CrdtV {
                expires_at: max64(old(self)@.expires_at, expires_at),
                ..old(self)@
            }),
    {
        if self.expires_at < expires_at {
            self.expires_at = expires_at;
        }
    }

    /// An independent copy of this value.
    pub fn duplicate(&self) -> (r: CrCounterValue)
        ensures
            r@ == self@,
    {
        let mut contributions: Vec<(String, u64)> = Vec::new();
        let mut i: usize = 0;
        while i < self.contributions.len()
            invariant
                contributions@.len() == i <= self.contributions@.len(),
                forall|k: int|
                    0 <= k < i ==> (#[trigger] contributions@[k]).0@ == self.contributions@[k].0@
                        && contributions@[k].1 == self.contributions@[k].1,
            decreases self.contributions@.len() - i,
        {
            contributions.push((self.contributions[i].0.clone(), self.contributions[i].1));
            i = i + 1;
        }
        let r = CrCounterValue {
            expires_at: self.expires_at,
            initial_duration: self.initial_duration,
            contributions,
        };
        proof {
            assert(r@.contributions =~= self@.contributions);
        }
        r
    }

    /// The wire form: the expiry and every actor's contribution.
    pub fn snapshot(&self) -> (r: (u64, Vec<(String, u64)>))
        ensures
            r.0 == self@.expires_at,
            r.1@.map_values(|p: (String, u64)| (p.0@, p.1)) == self@.contributions,
    {
        let mut out: Vec<(String, u64)> = Vec::new();
        let mut i: usize = 0;
        while i < self.contributions.len()
            invariant
                out@.len() == i <= self.contributions@.len(),
                forall|k: int|
                    0 <= k < i ==> (#[trigger] out@[k]).0@ == self.contributions@[k].0@
                        && out@[k].1 == self.contributions@[k].1,
            decreases self.contributions@.len() - i,
        {
            out.push((self.contributions[i].0.clone(), self.contributions[i].1));
            i = i + 1;
        }
        proof {
            assert(out@.map_values(|p: (String, u64)| (p.0@, p.1)) =~= self@.contributions);
        }
        (self.expires_at, out)
    }
}

/// A merge of well-formed contributions is well-formed.
proof fn lemma_merge_wf(a: ContribsV, b: ContribsV)
    requires
        contribs_wf(a),
        contribs_wf(b),
    ensures
        contribs_wf(merge_kept(a, b) + merge_joined(a, b)),
{
    let m = merge_kept(a, b) + merge_joined(a, b);
    lemma_joined_shape(a, b);
    assert forall|i: int, j: int| 0 <= i < j < m.len() implies m[i].0 != m[j].0 by {
        let ka = merge_kept(a, b);
        if j < ka.len() {
            assert(a[i].0 != a[j].0);
        } else if i < ka.len() {
            assert(m[i].0 == a[i].0);
            assert(contrib_lookup(a, m[j].0) is None);
            lemma_lookup_present(a, i);
        } else {
            assert(m[i].0 != m[j].0);
        }
    }
}

/// Every joined entry comes from `b`, is absent from `a`, and the joined
/// entries keep distinct actors.
proof fn lemma_joined_shape(a: ContribsV, b: ContribsV)
    requires
        contribs_wf(b),
    ensures
        forall|k: int|
            0 <= k < merge_joined(a, b).len() ==> contrib_lookup(
                a,
                (#[trigger] merge_joined(a, b)[k]).0,
            ) is None,
        forall|x: int, y: int|
            0 <= x < y < merge_joined(a, b).len() ==> (#[trigger] merge_joined(a, b)[x]).0 != (
            #[trigger] merge_joined(a, b)[y]).0,
        forall|k: int|
            0 <= k < merge_joined(a, b).len() ==> contrib_lookup(
                b,
                (#[trigger] merge_joined(a, b)[k]).0,
            ) is Some,
    decreases b.len(),
{
    if b.len() > 0 {
        lemma_joined_shape(a, b.drop_last());
        assert(contribs_wf(b.drop_last()));
        assert forall|k: int|
            0 <= k < merge_joined(a, b.drop_last()).len() implies contrib_lookup(
            b,
            (#[trigger] merge_joined(a, b.drop_last())[k]).0,
        ) is Some by {
            lemma_lookup_sub(b, merge_joined(a, b.drop_last())[k].0);
        }
        if contrib_lookup(a, b.last().0) is None {
            lemma_lookup_present(b, b.len() - 1);
            assert forall|x: int|
                0 <= x < merge_joined(a, b.drop_last()).len() implies (#[trigger] merge_joined(
                a,
                b.drop_last(),
            )[x]).0 != b.last().0 by {
                let actor = merge_joined(a, b.drop_last())[x].0;
                lemma_lookup_index_of(b.drop_last(), actor);
                let k = choose|k: int|
                    0 <= k < b.drop_last().len() && (#[trigger] b.drop_last()[k]).0 == actor;
                assert(b[k] == b.drop_last()[k]);
                assert(b[k].0 != b[b.len() - 1].0);
            }
        }
    }
}

/// An absent actor is at no index.
proof fn lemma_contrib_none(cs: ContribsV, a: Seq<char>)
    requires
        contrib_lookup(cs, a) is None,
    ensures
        forall|k: int| 0 <= k < cs.len() ==> (#[trigger] cs[k]).0 != a,
    decreases cs.len(),
{
    if cs.len() > 0 {
        lemma_contrib_none(cs.drop_first(), a);
        assert forall|k: int| 0 <= k < cs.len() implies (#[trigger] cs[k]).0 != a by {
            if k > 0 {
                assert(cs.drop_first()[k - 1] == cs[k]);
                assert((#[trigger] cs.drop_first()[k - 1]).0 != a);
            }
        }
    }
}

/// A held actor looks up to something.
proof fn lemma_lookup_present(cs: ContribsV, i: int)
    requires
        0 <= i < cs.len(),
    ensures
        contrib_lookup(cs, cs[i].0) is Some,
    decreases i,
{
    if cs[0].0 != cs[i].0 {
        lemma_lookup_present(cs.drop_first(), i - 1);
    }
}

/// A found actor of a prefix is found in the whole.
proof fn lemma_lookup_sub(cs: ContribsV, a: Seq<char>)
    requires
        cs.len() > 0,
        contrib_lookup(cs.drop_last(), a) is Some,
    ensures
        contrib_lookup(cs, a) is Some,
    decreases cs.len(),
{
    if cs.len() > 1 && cs[0].0 != a {
        assert(cs.drop_last().drop_first() =~= cs.drop_first().drop_last());
        lemma_lookup_sub(cs.drop_first(), a);
    }
}

/// A found actor sits at some index; in well-formed contributions the
/// last entry's actor is found only if it repeats, so a distinct last
/// actor is absent from the front.
proof fn lemma_lookup_index_of(cs: ContribsV, a: Seq<char>)
    requires
        contrib_lookup(cs, a) is Some,
    ensures
        exists|k: int| 0 <= k < cs.len() && (#[trigger] cs[k]).0 == a,
    decreases cs.len(),
{
    if cs.len() > 0 {
        if cs[0].0 == a {
            assert(cs[0].0 == a);
        } else {
            lemma_lookup_index_of(cs.drop_first(), a);
            let rest = cs.drop_first();
            let k = choose|k: int| 0 <= k < rest.len() && (#[trigger] rest[k]).0 == a;
            assert(cs[k + 1].0 == a);
        }
    }
}

/// Merging states whose actors are disjoint yields a value equal to the
/// sum of both states' contributions: no update is lost and none is
/// counted twice.
pub proof fn lemma_merge_disjoint_sum(x: CrdtV, y: CrdtV)
    requires
        contribs_wf(x.contributions),
        contribs_wf(y.contributions),
        forall|k: int|
            0 <= k < x.contributions.len() ==> contrib_lookup(
                y.contributions,
                (#[trigger] x.contributions[k]).0,
            ) is None,
        forall|k: int|
            0 <= k < y.contributions.len() ==> contrib_lookup(
                x.contributions,
                (#[trigger] y.contributions[k]).0,
            ) is None,
    ensures
        contrib_sum(merge_spec(x, y).contributions) == contrib_sum(x.contributions) + contrib_sum(
            y.contributions,
        ),
{
    let a = x.contributions;
    let b = y.contributions;
    assert(merge_kept(a, b) =~= a);
    lemma_joined_all(a, b);
    assert(merge_joined(a, b) =~= b);
    lemma_sum_append(a, b);
}

/// When no actor of `b` is held by `a`, everything of `b` joins.
proof fn lemma_joined_all(a: ContribsV, b: ContribsV)
    requires
        forall|k: int| 0 <= k < b.len() ==> contrib_lookup(a, (#[trigger] b[k]).0) is None,
    ensures
        merge_joined(a, b) == b,
    decreases b.len(),
{
    if b.len() > 0 {
        lemma_joined_all(a, b.drop_last());
        assert(merge_joined(a, b) =~= b);
    }
}

/// Sums distribute over concatenation.
proof fn lemma_sum_append(a: ContribsV, b: ContribsV)
    ensures
        contrib_sum(a + b) == contrib_sum(a) + contrib_sum(b),
    decreases b.len(),
{
    if b.len() == 0 {
        assert(a + b =~= a);
    } else {
        assert((a + b).drop_last() =~= a + b.drop_last());
        lemma_sum_append(a, b.drop_last());
    }
}

} // verus!
