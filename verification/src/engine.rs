//! The rate-limit decision engine.
//!
//! Given a namespace, a descriptor context and a delta, the engine
//! selects every limit of the namespace whose conditions all hold and
//! whose variables are all bound, materializes one counter per selected
//! limit, and asks the storage backend for one atomic check-and-update
//! over them.

use vstd::prelude::*;
use crate::expr::{cond_holds, eval_condition, eval_selector, sel_value, Context};
use crate::headers::CheckResult;
use crate::limit::{limit_clone, limit_same_identity, same_identity, Counter, CounterV, Limit, LimitV};
use crate::storage::{
    check_update_spec,
    counters_view,
    store_wf,
    Authorization,
    CounterSnapshot,
    EntryV,
    InMemoryStorage,
};

verus! {

/// The views of a list of limits.
pub open spec fn limits_view(ls: Seq<Limit>) -> Seq<LimitV> {
    ls.map_values(|l: Limit| l@)
}

/// Whether a rule with the same identity is already registered.
pub open spec fn has_limit(ls: Seq<LimitV>, l: LimitV) -> bool {
    exists|k: int| 0 <= k < ls.len() && same_identity(#[trigger] ls[k], l)
}

/// Whether a limit applies to a request: every condition holds and every
/// variable is bound.
pub open spec fn limit_applies(ctx: Seq<Seq<(Seq<char>, Seq<char>)>>, l: LimitV) -> bool {
    &&& forall|k: int| 0 <= k < l.conds.len() ==> cond_holds(ctx, #[trigger] l.conds[k])
    &&& forall|k: int| 0 <= k < l.vars.len() ==> sel_value(ctx, #[trigger] l.vars[k]) is Some
}

/// The values an applying limit's variables take, in order.
pub open spec fn assignment_spec(ctx: Seq<Seq<(Seq<char>, Seq<char>)>>, l: LimitV) -> Seq<
    Seq<char>,
> {
    Seq::new(l.vars.len(), |k: int| sel_value(ctx, l.vars[k]).unwrap())
}

/// The counter an applying limit materializes for a request.
pub open spec fn counter_of(ctx: Seq<Seq<(Seq<char>, Seq<char>)>>, l: LimitV) -> CounterV {
    CounterV { limit: l, assignment: assignment_spec(ctx, l) }
}

/// The counters of every applying limit of the namespace, in
/// registration order.
pub open spec fn applicable(
    ls: Seq<LimitV>,
    ns: Seq<char>,
    ctx: Seq<Seq<(Seq<char>, Seq<char>)>>,
) -> Seq<CounterV>
    decreases ls.len(),
{
    if ls.len() == 0 {
        Seq::empty()
    } else {
        applicable(ls.drop_last(), ns, ctx) + (if ls.last().ns == ns && limit_applies(
            ctx,
            ls.last(),
        ) {
            seq![counter_of(ctx, ls.last())]
        } else {
            Seq::empty()
        })
    }
}

/// Evaluates one limit against a context: the assignment of its
/// variables when it applies, nothing otherwise.
fn limit_matches(ctx: &Context, l: &Limit) -> (r: Option<Vec<String>>)
    ensures
        match r {
            Some(vals) => limit_applies(ctx@, l@) && vals@.map_values(|s: String| s@)
                == assignment_spec(ctx@, l@),
            None => !limit_applies(ctx@, l@),
        },
{
    let mut k: usize = 0;
    while k < l.conditions.len()
        invariant
            k <= l.conditions@.len(),
            l@.conds.len() == l.conditions@.len(),
            forall|m: int| 0 <= m < l.conditions@.len() ==> l@.conds[m] == l.conditions@[m]@,
            forall|m: int| 0 <= m < k ==> cond_holds(ctx@, #[trigger] l@.conds[m]),
        decreases l.conditions@.len() - k,
    {
        if !eval_condition(ctx, &l.conditions[k]) {
            proof {
                assert(!cond_holds(ctx@, l@.conds[k as int]));
            }
            return None;
        }
        k = k + 1;
    }
    let mut vals: Vec<String> = Vec::new();
    let mut v: usize = 0;
    while v < l.variables.len()
        invariant
            v <= l.variables@.len(),
            vals@.len() == v,
            l@.vars.len() == l.variables@.len(),
            forall|m: int| 0 <= m < l.variables@.len() ==> l@.vars[m] == l.variables@[m]@,
            forall|m: int| 0 <= m < l.conditions@.len() ==> cond_holds(ctx@, #[trigger] l@.conds[m]),
            l@.conds.len() == l.conditions@.len(),
            forall|m: int|
                0 <= m < v ==> sel_value(ctx@, #[trigger] l@.vars[m]) == Some(vals@[m]@),
        decreases l.variables@.len() - v,
    {
        match eval_selector(ctx, &l.variables[v]) {
            Some(val) => {
                vals.push(val);
            },
            None => {
                proof {
                    assert(sel_value(ctx@, l@.vars[v as int]) is None);
                }
                return None;
            },
        }
        v = v + 1;
    }
    proof {
        assert(vals@.map_values(|s: String| s@) =~= assignment_spec(ctx@, l@));
    }
    Some(vals)
}

/// The rate limiter: the registered rules and the counter store.
pub struct RateLimiter {
    pub limits: Vec<Limit>,
    pub storage: InMemoryStorage,
}

impl RateLimiter {
    /// The store's well-formedness, kept by every operation.
    pub open spec fn wf(&self) -> bool {
        store_wf(self.storage@)
    }

    /// The registered rules.
    pub open spec fn limits_v(&self) -> Seq<LimitV> {
        limits_view(self.limits@)
    }

    /// A limiter with no rules and no counters.
    pub fn new() -> (r: RateLimiter)
        ensures
            r.wf(),
            r.limits_v() == Seq::<LimitV>::empty(),
            r.storage@ == Seq::<EntryV>::empty(),
    {
        let r = RateLimiter { limits: Vec::new(), storage: InMemoryStorage::new() };
        proof {
            assert(r.limits_v() =~= Seq::<LimitV>::empty());
        }
        r
    }

    /// Registers a rule; a rule of the same identity is kept once, the
    /// first registration winning.  Returns whether the rule was new.
    pub fn add_limit(&mut self, limit: Limit) -> (r: bool)
        requires
            old(self).wf(),
        ensures
            final(self).wf(),
            final(self).storage@ == old(self).storage@,
            r == !has_limit(old(self).limits_v(), limit@),
            final(self).limits_v() == (if r {
                old(self).limits_v().push(limit@)
            } else {
                old(self).limits_v()
            }),
    {
        let mut i: usize = 0;
        while i < self.limits.len()
            invariant
                i <= self.limits@.len(),
                *self == *old(self),
                store_wf(self.storage@),
                forall|k: int| 0 <= k < i ==> !same_identity(#[trigger] self.limits_v()[k], limit@),
            decreases self.limits@.len() - i,
        {
            if limit_same_identity(&self.limits[i], &limit) {
                proof {
                    assert(same_identity(self.limits_v()[i as int], limit@));
                }
                return false;
            }
            i = i + 1;
        }
        proof {
            assert(!has_limit(self.limits_v(), limit@));
        }
        let ghost before = self.limits_v();
        self.limits.push(limit);
        proof {
            assert(self.limits_v() =~= before.push(self.limits@.last()@));
        }
        true
    }

    /// Decides one request: selects the namespace's applying limits,
    /// atomically checks and updates their counters by `delta` at `now`,
    /// and reports the outcome, with loaded snapshots when
    /// `load_counters` asks for headers.
    pub fn check_rate_limited_and_update(
        &mut self,
        namespace: &String,
        ctx: &Context,
        delta: u64,
        load_counters: bool,
        now: u64,
    ) -> (r: CheckResult)
        requires
            old(self).wf(),
            delta >= 1,
        ensures
            final(self).wf(),
            final(self).limits == old(self).limits,
            ({
                let cs = applicable(old(self).limits_v(), namespace@, ctx@);
                let (limited, st, snaps) = check_update_spec(old(self).storage@, cs, delta, now);
                &&& final(self).storage@ == st
                &&& r.limited == (limited is Some)
                &&& (match limited {
                    Some(n) => n == (match r.limit_name {
                        Some(s) => Some(s@),
                        None => None,
                    }),
                    None => r.limit_name is None,
                })
                &&& r.counters@ == (if load_counters {
                    snaps
                } else {
                    Seq::<CounterSnapshot>::empty()
                })
            }),
    {
        let ghost lv = self.limits_v();
        let mut counters: Vec<Counter> = Vec::new();
        let mut i: usize = 0;
        proof {
            assert(lv.take(0) =~= Seq::<LimitV>::empty());
            assert(counters_view(counters@) =~= applicable(lv.take(0), namespace@, ctx@));
        }
        while i < self.limits.len()
            invariant
                i <= self.limits@.len(),
                lv == self.limits_v(),
                lv.len() == self.limits@.len(),
                forall|k: int| 0 <= k < lv.len() ==> lv[k] == self.limits@[k]@,
                counters_view(counters@) == applicable(lv.take(i as int), namespace@, ctx@),
            decreases self.limits@.len() - i,
        {
            let l = &self.limits[i];
            if l.namespace == *namespace {
                match limit_matches(ctx, l) {
                    Some(vals) => {
                        let c = Counter { limit: limit_clone(l), assignment: vals };
                        proof {
                            assert(c@ == counter_of(ctx@, lv[i as int]));
                        }
                        counters.push(c);
                    },
                    None => {},
                }
            }
            i = i + 1;
            proof {
                assert(lv.take(i as int).drop_last() =~= lv.take(i - 1));
                assert(lv.take(i as int).last() == lv[i - 1]);
                assert(counters_view(counters@) =~= applicable(lv.take(i as int), namespace@, ctx@));
            }
        }
        proof {
            assert(lv.take(lv.len() as int) =~= lv);
        }
        let (auth, snaps) = self.storage.check_and_update(&counters, delta, load_counters, now);
        match auth {
            Authorization::Granted => CheckResult {
                limited: false,
                limit_name: None,
                counters: snaps,
            },
            Authorization::Limited(name) => CheckResult {
                limited: true,
                limit_name: name,
                counters: snaps,
            },
        }
    }

    /// Forgets every counter, keeping the rules.
    pub fn clear_counters(&mut self)
        ensures
            final(self).wf(),
            final(self).limits == old(self).limits,
            final(self).storage@ == Seq::<EntryV>::empty(),
    {
        self.storage.clear();
    }
}

} // verus!
