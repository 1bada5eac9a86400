//! The rate-limit service façade.
//!
//! One request carries a domain, a list of descriptors and a hit count;
//! the answer is a response code and, under the draft headers policy, the
//! rate-limit response headers sorted ascending by key.  An empty domain
//! is answered `Unknown` with no side effect; a hit count of zero means
//! the protocol default of one.

use vstd::prelude::*;
use crate::engine::{applicable, RateLimiter};
use crate::expr::{Context, Descriptor};
use crate::headers::{
    header_pairs,
    limit_header_val,
    min_expiry,
    min_remaining,
    sort_snaps,
    CheckResult,
    HeaderValue,
};
use crate::limit::LimitV;
use crate::storage::{check_update_spec, CounterSnapshot, EntryV};
use crate::text::{chars_le, chars_lt};

verus! {

/// The headers policy: no response headers, or the draft-03 header set.
#[derive(PartialEq, Eq, Structural, Clone, Copy, Debug)]
pub enum RateLimitHeaders {
    Disabled,
    DraftVersion03,
}

/// The overall response code of one request.
#[derive(PartialEq, Eq, Structural, Clone, Copy, Debug)]
pub enum OverallCode {
    Unknown,
    Allowed,
    OverLimit,
}

impl OverallCode {
    /// The wire value of this code.
    pub fn code(&self) -> (r: u32)
        ensures
            r == (match self {
                OverallCode::Unknown => 0u32,
                OverallCode::Allowed => 1u32,
                OverallCode::OverLimit => 2u32,
            }),
    {
        match self {
            OverallCode::Unknown => 0,
            OverallCode::Allowed => 1,
            OverallCode::OverLimit => 2,
        }
    }
}

/// One rate-limit request.
#[derive(Debug)]
pub struct RateLimitRequest {
    pub domain: String,
    pub descriptors: Vec<Descriptor>,
    pub hits_addend: u32,
}

/// One rate-limit response.
#[derive(Debug)]
pub struct RateLimitResponse {
    pub overall_code: OverallCode,
    pub response_headers_to_add: Vec<HeaderValue>,
}

/// The delta a request's hit count means: the on-wire default of zero
/// stands for one.
pub open spec fn normalize_hits(h: u32) -> u64 {
    if h == 0 {
        1
    } else {
        h as u64
    }
}

/// A header list sorted ascending by key.
pub open spec fn headers_sorted(hs: Seq<(Seq<char>, Seq<char>)>) -> bool {
    forall|i: int, j: int| 0 <= i < j < hs.len() ==> chars_le(hs[i].0, hs[j].0)
}

/// The three response header keys come in ascending order.
proof fn lemma_header_key_order()
    ensures
        chars_lt("X-RateLimit-Limit"@, "X-RateLimit-Remaining"@),
        chars_lt("X-RateLimit-Remaining"@, "X-RateLimit-Reset"@),
        chars_lt("X-RateLimit-Limit"@, "X-RateLimit-Reset"@),
    decreases 0int,
{
    reveal_strlit("X-RateLimit-Limit");
    reveal_strlit("X-RateLimit-Remaining");
    reveal_strlit("X-RateLimit-Reset");
    reveal_with_fuel(chars_lt, 20);
    assert(chars_lt("X-RateLimit-Limit"@, "X-RateLimit-Remaining"@));
    assert(chars_lt("X-RateLimit-Remaining"@, "X-RateLimit-Reset"@));
    assert(chars_lt("X-RateLimit-Limit"@, "X-RateLimit-Reset"@));
}

/// Any header list the draft policy renders is sorted ascending by key.
pub proof fn lemma_header_pairs_sorted(snaps: Seq<CounterSnapshot>)
    ensures
        headers_sorted(header_pairs(snaps)),
{
    lemma_header_key_order();
    let hs = header_pairs(snaps);
    assert forall|i: int, j: int| 0 <= i < j < hs.len() implies chars_le(hs[i].0, hs[j].0) by {
        let sorted = sort_snaps(snaps);
        let head = seq![
            ("X-RateLimit-Limit"@, limit_header_val(sorted)),
            ("X-RateLimit-Remaining"@, crate::text::dec_str(min_remaining(sorted) as nat)),
        ];
        let tail = (match min_expiry(sorted) {
            Some(e) => seq![("X-RateLimit-Reset"@, crate::text::dec_str(e as nat))],
            None => Seq::<(Seq<char>, Seq<char>)>::empty(),
        });
        assert(snaps.len() != 0);
        assert(hs == head + tail);
        assert(hs[0] == head[0]);
        assert(hs[1] == head[1]);
        if hs.len() > 2 {
            assert(hs[2] == tail[0]);
        }
        if i == 0 && j == 1 {
            assert(chars_lt(hs[i].0, hs[j].0));
        } else if i == 0 && j == 2 {
            assert(chars_lt(hs[i].0, hs[j].0));
        } else {
            assert(i == 1 && j == 2);
            assert(chars_lt(hs[i].0, hs[j].0));
        }
    }
}

impl RateLimitHeaders {
    /// Renders a check result under this policy: nothing when disabled,
    /// the draft-03 headers otherwise.  The list is sorted ascending by
    /// key.
    pub fn headers(&self, response: &mut CheckResult) -> (r: Vec<HeaderValue>)
        ensures
            *final(response) == *old(response),
            r@.map_values(|h: HeaderValue| h@) == (match self {
                RateLimitHeaders::Disabled => Seq::<(Seq<char>, Seq<char>)>::empty(),
                RateLimitHeaders::DraftVersion03 => header_pairs(old(response).counters@),
            }),
            headers_sorted(r@.map_values(|h: HeaderValue| h@)),
    {
        let r = match self {
            RateLimitHeaders::Disabled => Vec::new(),
            RateLimitHeaders::DraftVersion03 => response.response_header(),
        };
        proof {
            if self is Disabled {
                assert(r@.map_values(|h: HeaderValue| h@) =~= Seq::<(Seq<char>, Seq<char>)>::empty());
            }
            lemma_header_pairs_sorted(response.counters@);
        }
        r
    }
}

/// The service: a rate limiter and the headers policy it answers with.
pub struct MyRateLimiter {
    pub limiter: RateLimiter,
    pub rate_limit_headers: RateLimitHeaders,
}

impl MyRateLimiter {
    /// Builds the service around a limiter and a headers policy.
    pub fn new(limiter: RateLimiter, rate_limit_headers: RateLimitHeaders) -> (r: MyRateLimiter)
        ensures
            r.limiter == limiter,
            r.rate_limit_headers == rate_limit_headers,
    {
        MyRateLimiter { limiter, rate_limit_headers }
    }

    /// Answers one request at `now`.
    ///
    /// An empty domain is answered `Unknown` with empty headers and no
    /// counter side effect.  Otherwise the domain is the namespace, the
    /// hit count (zero meaning one) is the delta, and headers are
    /// rendered and counters loaded exactly under the draft policy.
    pub fn should_rate_limit(&mut self, req: RateLimitRequest, now: u64) -> (r: RateLimitResponse)
        requires
            old(self).limiter.wf(),
        ensures
            final(self).limiter.wf(),
            final(self).rate_limit_headers == old(self).rate_limit_headers,
            final(self).limiter.limits == old(self).limiter.limits,
            req.domain@.len() == 0 ==> {
                &&& *final(self) == *old(self)
                &&& r.overall_code == OverallCode::Unknown
                &&& r.response_headers_to_add@.len() == 0
            },
            req.domain@.len() > 0 ==> ({
                let emit = old(self).rate_limit_headers is DraftVersion03;
                let ctx = req.descriptors@.map_values(|d: Descriptor| d@);
                let cs = applicable(old(self).limiter.limits_v(), req.domain@, ctx);
                let (limited, st, snaps) = check_update_spec(
                    old(self).limiter.storage@,
                    cs,
                    normalize_hits(req.hits_addend),
                    now,
                );
                &&& final(self).limiter.storage@ == st
                &&& r.overall_code == (if limited is Some {
                    OverallCode::OverLimit
                } else {
                    OverallCode::Allowed
                })
                &&& r.response_headers_to_add@.map_values(|h: HeaderValue| h@) == (if emit {
                    header_pairs(snaps)
                } else {
                    Seq::<(Seq<char>, Seq<char>)>::empty()
                })
            }),
            headers_sorted(r.response_headers_to_add@.map_values(|h: HeaderValue| h@)),
    {
        if req.domain.as_str().is_empty() {
            let r = RateLimitResponse {
                overall_code: OverallCode::Unknown,
                response_headers_to_add: Vec::new(),
            };
            proof {
                assert(r.response_headers_to_add@.map_values(|h: HeaderValue| h@) =~= Seq::<
                    (Seq<char>, Seq<char>),
                >::empty());
            }
            return r;
        }
        let delta: u64 = if req.hits_addend == 0 {
            1
        } else {
            req.hits_addend as u64
        };
        let domain = req.domain;
        let ctx = Context { descriptors: req.descriptors };
        let load = match self.rate_limit_headers {
            RateLimitHeaders::Disabled => false,
            RateLimitHeaders::DraftVersion03 => true,
        };
        let mut result = self.limiter.check_rate_limited_and_update(&domain, &ctx, delta, load, now);
        let code = if result.limited {
            OverallCode::OverLimit
        } else {
            OverallCode::Allowed
        };
        let headers = self.rate_limit_headers.headers(&mut result);
        proof {
            if self.rate_limit_headers is Disabled {
                assert(result.counters@ =~= Seq::<CounterSnapshot>::empty());
            }
        }
        RateLimitResponse { overall_code: code, response_headers_to_add: headers }
    }
}

/// A hit count of zero behaves identically to a hit count of one: both
/// mean a delta of one, so the decision, the stored counters and the
/// loaded snapshots agree.
pub proof fn lemma_zero_hits_is_one(
    ls: Seq<LimitV>,
    st: Seq<EntryV>,
    ns: Seq<char>,
    ctx: Seq<Seq<(Seq<char>, Seq<char>)>>,
    now: u64,
)
    ensures
        check_update_spec(st, applicable(ls, ns, ctx), normalize_hits(0), now) == check_update_spec(
            st,
            applicable(ls, ns, ctx),
            normalize_hits(1),
            now,
        ),
{
}

} // verus!
