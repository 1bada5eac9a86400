//! Rate-limit response headers.
//!
//! A check result carries one snapshot per applicable counter; the
//! response headers name the tightest limit, the capacity left, and the
//! soonest window expiry when the backend reports one.  The pair list of
//! `X-RateLimit-Limit` is sorted ascending by remaining capacity, ties
//! broken by the window.

use vstd::prelude::*;
use crate::storage::CounterSnapshot;
use crate::text::dec_str;

verus! {

/// One response header.
#[derive(Clone, Debug)]
pub struct HeaderValue {
    pub key: String,
    pub value: String,
}

impl View for HeaderValue {
    type V = (Seq<char>, Seq<char>);

    open spec fn view(&self) -> (Seq<char>, Seq<char>) {
        (self.key@, self.value@)
    }
}

/// The order of the `X-RateLimit-Limit` pair list: ascending remaining
/// capacity, ties broken by the window.
pub open spec fn snap_le(a: CounterSnapshot, b: CounterSnapshot) -> bool {
    a.remaining < b.remaining || (a.remaining == b.remaining && a.seconds <= b.seconds)
}

/// Stable insertion into a sorted snapshot list, after any equal entry.
pub open spec fn ins_snap(x: CounterSnapshot, s: Seq<CounterSnapshot>) -> Seq<CounterSnapshot>
    decreases s.len(),
{
    if s.len() > 0 && !snap_le(s.last(), x) {
        ins_snap(x, s.drop_last()).push(s.last())
    } else {
        s.push(x)
    }
}

/// Stable insertion sort of the snapshots by [`snap_le`].
pub open spec fn sort_snaps(s: Seq<CounterSnapshot>) -> Seq<CounterSnapshot>
    decreases s.len(),
{
    if s.len() == 0 {
        Seq::empty()
    } else {
        ins_snap(s.last(), sort_snaps(s.drop_last()))
    }
}

/// The smallest maximum over the snapshots.
pub open spec fn min_max(s: Seq<CounterSnapshot>) -> u64
    decreases s.len(),
{
    if s.len() <= 1 {
        s[0].max
    } else {
        let m = min_max(s.drop_last());
        if s.last().max < m {
            s.last().max
        } else {
            m
        }
    }
}

/// The smallest remaining capacity over the snapshots.
pub open spec fn min_remaining(s: Seq<CounterSnapshot>) -> u64
    decreases s.len(),
{
    if s.len() <= 1 {
        s[0].remaining
    } else {
        let m = min_remaining(s.drop_last());
        if s.last().remaining < m {
            s.last().remaining
        } else {
            m
        }
    }
}

/// The soonest reported window expiry, if any snapshot carries one.
pub open spec fn min_expiry(s: Seq<CounterSnapshot>) -> Option<u64>
    decreases s.len(),
{
    if s.len() == 0 {
        None
    } else {
        let m = min_expiry(s.drop_last());
        match (s.last().expires_in, m) {
            (Some(e), Some(mm)) => if e < mm {
                Some(e)
            } else {
                Some(mm)
            },
            (Some(e), None) => Some(e),
            (None, _) => m,
        }
    }
}

/// One `max;w=seconds` element of the pair list, with its separator.
pub open spec fn pair_str(x: CounterSnapshot) -> Seq<char> {
    seq![',', ' '] + dec_str(x.max as nat) + seq![';', 'w', '='] + dec_str(x.seconds as nat)
}

/// The pair list rendered in order.
pub open spec fn pairs_str(s: Seq<CounterSnapshot>) -> Seq<char>
    decreases s.len(),
{
    if s.len() == 0 {
        Seq::empty()
    } else {
        pairs_str(s.drop_last()) + pair_str(s.last())
    }
}

/// The value of `X-RateLimit-Limit` over the sorted snapshots.
pub open spec fn limit_header_val(sorted: Seq<CounterSnapshot>) -> Seq<char> {
    dec_str(min_max(sorted) as nat) + pairs_str(sorted)
}

/// The response header pairs of a check result: nothing when no counter
/// applied, else the tightest limit with the pair list, the capacity
/// left, and the soonest expiry when one was reported.
pub open spec fn header_pairs(snaps: Seq<CounterSnapshot>) -> Seq<(Seq<char>, Seq<char>)> {
    if snaps.len() == 0 {
        Seq::empty()
    } else {
        let sorted = sort_snaps(snaps);
        seq![
            ("X-RateLimit-Limit"@, limit_header_val(sorted)),
            ("X-RateLimit-Remaining"@, dec_str(min_remaining(sorted) as nat)),
        ] + (match min_expiry(sorted) {
            Some(e) => seq![("X-RateLimit-Reset"@, dec_str(e as nat))],
            None => Seq::empty(),
        })
    }
}

fn snap_le_exec(a: &CounterSnapshot, b: &CounterSnapshot) -> (r: bool)
    ensures
        r == snap_le(*a, *b),
{
    a.remaining < b.remaining || (a.remaining == b.remaining && a.seconds <= b.seconds)
}

/// Inserting before the greater tail and after any smaller-or-equal head
/// is the stable insertion.
proof fn lemma_ins_at(x: CounterSnapshot, s: Seq<CounterSnapshot>, j: int)
    requires
        0 <= j <= s.len(),
        forall|k: int| j <= k < s.len() ==> !snap_le(#[trigger] s[k], x),
        j > 0 ==> snap_le(s[j - 1], x),
    ensures
        ins_snap(x, s) == s.take(j) + seq![x] + s.skip(j),
    decreases s.len() - j,
{
    if j == s.len() {
        assert(ins_snap(x, s) =~= s.take(j) + seq![x] + s.skip(j));
    } else {
        assert(!snap_le(s[s.len() - 1], x));
        lemma_ins_at(x, s.drop_last(), j);
        assert(s.drop_last().take(j) =~= s.take(j));
        assert(ins_snap(x, s) =~= s.take(j) + seq![x] + s.skip(j));
    }
}

/// Sorts the snapshots by remaining capacity, ties broken by the window.
fn sort_snapshots(v: &Vec<CounterSnapshot>) -> (r: Vec<CounterSnapshot>)
    ensures
        r@ == sort_snaps(v@),
{
    let mut r: Vec<CounterSnapshot> = Vec::new();
    let mut i: usize = 0;
    proof {
        assert(v@.take(0) =~= Seq::<CounterSnapshot>::empty());
    }
    while i < v.len()
        invariant
            i <= v@.len(),
            r@ == sort_snaps(v@.take(i as int)),
        decreases v@.len() - i,
    {
        let x = v[i];
        let mut j: usize = r.len();
        while j > 0 && !snap_le_exec(&r[j - 1], &x)
            invariant
                j <= r@.len(),
                forall|k: int| j <= k < r@.len() ==> !snap_le(#[trigger] r@[k], x),
            decreases j,
        {
            j = j - 1;
        }
        proof {
            lemma_ins_at(x, r@, j as int);
        }
        r.insert(j, x);
        i = i + 1;
        proof {
            assert(v@.take(i as int).drop_last() =~= v@.take(i - 1));
            assert(v@.take(i as int).last() == v@[i - 1]);
            assert(r@ =~= sort_snaps(v@.take(i as int)));
        }
    }
    proof {
        assert(v@.take(v@.len() as int) =~= v@);
    }
    r
}

/// The outcome of one rate-limit check: whether it was limited, the name
/// of the first exceeded limit, and the loaded counter snapshots.
#[derive(Debug)]
pub struct CheckResult {
    pub limited: bool,
    pub limit_name: Option<String>,
    pub counters: Vec<CounterSnapshot>,
}

impl CheckResult {
    /// Renders the response headers of this result; empty when no
    /// counter applied.
    pub fn response_header(&self) -> (r: Vec<HeaderValue>)
        ensures
            r@.map_values(|h: HeaderValue| h@) == header_pairs(self.counters@),
    {
        let mut r: Vec<HeaderValue> = Vec::new();
        if self.counters.len() == 0 {
            proof {
                assert(r@.map_values(|h: HeaderValue| h@) =~= header_pairs(self.counters@));
            }
            return r;
        }
        let sorted = sort_snapshots(&self.counters);
        let ghost sv = sort_snaps(self.counters@);

        // X-RateLimit-Limit: the smallest max, then each max;w=seconds.
        let mut minmax: u64 = sorted[0].max;
        let mut minrem: u64 = sorted[0].remaining;
        let mut i: usize = 1;
        while i < sorted.len()
            invariant
                1 <= i <= sv.len(),
                sorted@ == sv,
                sv.len() >= 1,
                minmax == min_max(sv.take(i as int)),
                minrem == min_remaining(sv.take(i as int)),
            decreases sv.len() - i,
        {
            if sorted[i].max < minmax {
                minmax = sorted[i].max;
            }
            if sorted[i].remaining < minrem {
                minrem = sorted[i].remaining;
            }
            i = i + 1;
            proof {
                assert(sv.take(i as int).drop_last() =~= sv.take(i - 1));
                assert(sv.take(i as int).last() == sv[i - 1]);
            }
        }
        proof {
            assert(sv.take(sv.len() as int) =~= sv);
        }
        let mut exp: Option<u64> = None;
        let mut j: usize = 0;
        proof {
            assert(sv.take(0) =~= Seq::<CounterSnapshot>::empty());
        }
        while j < sorted.len()
            invariant
                j <= sv.len(),
                sorted@ == sv,
                exp == min_expiry(sv.take(j as int)),
            decreases sv.len() - j,
        {
            match sorted[j].expires_in {
                Some(e) => {
                    exp = match exp {
                        Some(m) => if e < m {
                            Some(e)
                        } else {
                            Some(m)
                        },
                        None => Some(e),
                    };
                },
                None => {},
            }
            j = j + 1;
            proof {
                assert(sv.take(j as int).drop_last() =~= sv.take(j - 1));
                assert(sv.take(j as int).last() == sv[j - 1]);
            }
        }
        proof {
            assert(sv.take(sv.len() as int) =~= sv);
        }

        let mut limit_val = crate::text::u64_to_string(minmax);
        let mut m: usize = 0;
        proof {
            assert(sv.take(0) =~= Seq::<CounterSnapshot>::empty());
            assert(limit_val@ =~= dec_str(minmax as nat) + pairs_str(sv.take(0)));
            reveal_strlit(", ");
            reveal_strlit(";w=");
        }
        while m < sorted.len()
            invariant
                m <= sv.len(),
                sorted@ == sv,
                limit_val@ == dec_str(min_max(sv) as nat) + pairs_str(sv.take(m as int)),
                minmax == min_max(sv),
            decreases sv.len() - m,
        {
            proof {
                reveal_strlit(", ");
                reveal_strlit(";w=");
                assert(", "@ =~= seq![',', ' ']);
                assert(";w="@ =~= seq![';', 'w', '=']);
            }
            limit_val.append(", ");
            let maxs = crate::text::u64_to_string(sorted[m].max);
            limit_val.append(maxs.as_str());
            limit_val.append(";w=");
            let secs = crate::text::u64_to_string(sorted[m].seconds);
            limit_val.append(secs.as_str());
            m = m + 1;
            proof {
                assert(sv.take(m as int).drop_last() =~= sv.take(m - 1));
                assert(sv.take(m as int).last() == sv[m - 1]);
                assert(limit_val@ =~= dec_str(min_max(sv) as nat) + pairs_str(sv.take(m as int)));
            }
        }
        proof {
            assert(sv.take(sv.len() as int) =~= sv);
        }
        r.push(
            HeaderValue { key: String::from_str("X-RateLimit-Limit"), value: limit_val },
        );
        r.push(
            HeaderValue {
                key: String::from_str("X-RateLimit-Remaining"),
                value: crate::text::u64_to_string(minrem),
            },
        );
        match exp {
            Some(e) => {
                r.push(
                    HeaderValue {
                        key: String::from_str("X-RateLimit-Reset"),
                        value: crate::text::u64_to_string(e),
                    },
                );
            },
            None => {},
        }
        proof {
            assert(r@.map_values(|h: HeaderValue| h@) =~= header_pairs(self.counters@));
        }
        r
    }
}

} // verus!
