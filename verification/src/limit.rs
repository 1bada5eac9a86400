//! Limits and counters.
//!
//! A limit is an immutable rule bound to a namespace: a maximum count over
//! a window of seconds, guarded by conditions and grouped by variables.
//! Two limits are the same rule iff their namespace, window, conditions
//! and variables are equal; `max` and `name` are metadata.  A counter is a
//! limit bound to one concrete assignment of its variables; its key is a
//! stable length-prefixed byte encoding of the identifying fields.

use vstd::prelude::*;
use vstd::utf8::encode_utf8;
use crate::expr::{CmpOp, CondV, Condition, SelV, Selector};

verus! {

/// A rate-limiting rule.
#[derive(Debug)]
pub struct Limit {
    pub namespace: String,
    pub max: u64,
    pub seconds: u64,
    pub name: Option<String>,
    pub conditions: Vec<Condition>,
    pub variables: Vec<Selector>,
}

/// Mathematical form of a limit.
pub struct LimitV {
    pub ns: Seq<char>,
    pub max: u64,
    pub seconds: u64,
    pub name: Option<Seq<char>>,
    pub conds: Seq<CondV>,
    pub vars: Seq<SelV>,
}

impl View for Limit {
    type V = LimitV;

    open spec fn view(&self) -> LimitV {
        LimitV {
            ns: self.namespace@,
            max: self.max,
            seconds: self.seconds,
            name: match self.name {
                Some(n) => Some(n@),
                None => None,
            },
            conds: self.conditions@.map_values(|c: Condition| c@),
            vars: self.variables@.map_values(|v: Selector| v@),
        }
    }
}

/// Two limits are the same rule: equal namespace, window, conditions and
/// variables (`max` and `name` are metadata, not identity).
pub open spec fn same_identity(a: LimitV, b: LimitV) -> bool {
    a.ns == b.ns && a.seconds == b.seconds && a.conds == b.conds && a.vars == b.vars
}

impl Limit {
    /// Builds a limit.
    pub fn new(
        namespace: String,
        max: u64,
        seconds: u64,
        conditions: Vec<Condition>,
        variables: Vec<Selector>,
    ) -> (r: Limit)
        ensures
            r@ == (LimitV {
                ns: namespace@,
                max,
                seconds,
                name: None,
                conds: conditions@.map_values(|c: Condition| c@),
                vars: variables@.map_values(|v: Selector| v@),
            }),
    {
        Limit { namespace, max, seconds, name: None, conditions, variables }
    }

    /// Builds a limit carrying a display name.
    pub fn new_named(
        namespace: String,
        name: String,
        max: u64,
        seconds: u64,
        conditions: Vec<Condition>,
        variables: Vec<Selector>,
    ) -> (r: Limit)
        ensures
            r@ == (LimitV {
                ns: namespace@,
                max,
                seconds,
                name: Some(name@),
                conds: conditions@.map_values(|c: Condition| c@),
                vars: variables@.map_values(|v: Selector| v@),
            }),
    {
        Limit { namespace, max, seconds, name: Some(name), conditions, variables }
    }
}

fn selector_clone(v: &Selector) -> (r: Selector)
    ensures
        r@ == v@,
{
    Selector { descriptor_index: v.descriptor_index, key: v.key.clone() }
}

fn condition_clone(c: &Condition) -> (r: Condition)
    ensures
        c@ == r@,
{
    Condition { selector: selector_clone(&c.selector), op: c.op, literal: c.literal.clone() }
}

/// Clones a limit; the copy denotes the same rule.
pub fn limit_clone(l: &Limit) -> (r: Limit)
    ensures
        r@ == l@,
{
    let mut conds: Vec<Condition> = Vec::new();
    let mut i: usize = 0;
    while i < l.conditions.len()
        invariant
            conds@.len() == i <= l.conditions@.len(),
            forall|k: int| 0 <= k < i ==> conds@[k]@ == l.conditions@[k]@,
        decreases l.conditions@.len() - i,
    {
        conds.push(condition_clone(&l.conditions[i]));
        i = i + 1;
    }
    let mut vars: Vec<Selector> = Vec::new();
    let mut j: usize = 0;
    while j < l.variables.len()
        invariant
            vars@.len() == j <= l.variables@.len(),
            forall|k: int| 0 <= k < j ==> vars@[k]@ == l.variables@[k]@,
        decreases l.variables@.len() - j,
    {
        vars.push(selector_clone(&l.variables[j]));
        j = j + 1;
    }
    let name = match &l.name {
        Some(n) => Some(n.clone()),
        None => None,
    };
    let r = Limit {
        namespace: l.namespace.clone(),
        max: l.max,
        seconds: l.seconds,
        name,
        conditions: conds,
        variables: vars,
    };
    proof {
        assert(r@.conds =~= l@.conds) by {
            assert(forall|k: int| 0 <= k < r@.conds.len() ==> r@.conds[k] == l@.conds[k]);
        }
        assert(r@.vars =~= l@.vars) by {
            assert(forall|k: int| 0 <= k < r@.vars.len() ==> r@.vars[k] == l@.vars[k]);
        }
    }
    r
}

fn selector_eq(a: &Selector, b: &Selector) -> (r: bool)
    ensures
        r == (a@ == b@),
{
    let r = a.descriptor_index == b.descriptor_index && a.key == b.key;
    proof {
        if r {
            assert(a@ == b@);
        } else {
            assert(a@ != b@);
        }
    }
    r
}

fn condition_eq(a: &Condition, b: &Condition) -> (r: bool)
    ensures
        r == (a@ == b@),
{
    let r = selector_eq(&a.selector, &b.selector) && a.op == b.op && a.literal == b.literal;
    proof {
        if r {
            assert(a@ == b@);
        } else {
            assert(a@ != b@);
        }
    }
    r
}

/// Whether two limits are the same rule (namespace, window, conditions and
/// variables; `max` and `name` do not count).
pub fn limit_same_identity(a: &Limit, b: &Limit) -> (r: bool)
    ensures
        r == same_identity(a@, b@),
{
    if !(a.namespace == b.namespace && a.seconds == b.seconds) {
        return false;
    }
    if a.conditions.len() != b.conditions.len() || a.variables.len() != b.variables.len() {
        proof {
            assert(a@.conds.len() == a.conditions@.len());
            assert(b@.conds.len() == b.conditions@.len());
            assert(a@.vars.len() == a.variables@.len());
            assert(b@.vars.len() == b.variables@.len());
        }
        return false;
    }
    let mut i: usize = 0;
    while i < a.conditions.len()
        invariant
            i <= a.conditions@.len(),
            a.conditions@.len() == b.conditions@.len(),
            forall|k: int| 0 <= k < i ==> a@.conds[k] == b@.conds[k],
        decreases a.conditions@.len() - i,
    {
        if !condition_eq(&a.conditions[i], &b.conditions[i]) {
            proof {
                assert(a@.conds[i as int] != b@.conds[i as int]);
            }
            return false;
        }
        i = i + 1;
    }
    let mut j: usize = 0;
    while j < a.variables.len()
        invariant
            j <= a.variables@.len(),
            a.variables@.len() == b.variables@.len(),
            forall|k: int| 0 <= k < j ==> a@.vars[k] == b@.vars[k],
        decreases a.variables@.len() - j,
    {
        if !selector_eq(&a.variables[j], &b.variables[j]) {
            proof {
                assert(a@.vars[j as int] != b@.vars[j as int]);
            }
            return false;
        }
        j = j + 1;
    }
    proof {
        assert(a@.conds =~= b@.conds);
        assert(a@.vars =~= b@.vars);
    }
    true
}

/// A counter: a limit bound to the values its variables took in one
/// request, in the order the limit lists its variables.
#[derive(Debug)]
pub struct Counter {
    pub limit: Limit,
    pub assignment: Vec<String>,
}

/// Mathematical form of a counter.
pub struct CounterV {
    pub limit: LimitV,
    pub assignment: Seq<Seq<char>>,
}

impl View for Counter {
    type V = CounterV;

    open spec fn view(&self) -> CounterV {
        CounterV { limit: self.limit@, assignment: self.assignment@.map_values(|s: String| s@) }
    }
}

/// Clones a counter.
pub fn counter_clone(c: &Counter) -> (r: Counter)
    ensures
        r@ == c@,
{
    let mut assignment: Vec<String> = Vec::new();
    let mut i: usize = 0;
    while i < c.assignment.len()
        invariant
            assignment@.len() == i <= c.assignment@.len(),
            forall|k: int| 0 <= k < i ==> assignment@[k]@ == c.assignment@[k]@,
        decreases c.assignment@.len() - i,
    {
        assignment.push(c.assignment[i].clone());
        i = i + 1;
    }
    let r = Counter { limit: limit_clone(&c.limit), assignment };
    proof {
        assert(r@.assignment =~= c@.assignment) by {
            assert(forall|k: int|
                0 <= k < r@.assignment.len() ==> r@.assignment[k] == c@.assignment[k]);
        }
    }
    r
}

// ------------------------------------------------------------ key encoding

/// Eight little-endian bytes of `n`.
pub open spec fn enc_u64(n: u64) -> Seq<u8> {
    seq![
        (n & 0xff) as u8,
        ((n >> 8) & 0xff) as u8,
        ((n >> 16) & 0xff) as u8,
        ((n >> 24) & 0xff) as u8,
        ((n >> 32) & 0xff) as u8,
        ((n >> 40) & 0xff) as u8,
        ((n >> 48) & 0xff) as u8,
        ((n >> 56) & 0xff) as u8,
    ]
}

/// A length-prefixed byte string.
pub open spec fn enc_bytes(b: Seq<u8>) -> Seq<u8> {
    enc_u64(b.len() as u64) + b
}

/// A length-prefixed string, as its UTF-8 bytes.
pub open spec fn enc_str(s: Seq<char>) -> Seq<u8> {
    enc_bytes(encode_utf8(s))
}

/// The encoding of a selector.
pub open spec fn enc_sel(v: SelV) -> Seq<u8> {
    enc_u64(v.idx as u64) + enc_str(v.key)
}

/// The encoding of a condition.
pub open spec fn enc_cond(c: CondV) -> Seq<u8> {
    enc_sel(c.sel) + seq![
        if c.op is Equal {
            0u8
        } else {
            1u8
        },
    ] + enc_str(c.lit)
}

pub open spec fn enc_conds(cs: Seq<CondV>) -> Seq<u8>
    decreases cs.len(),
{
    if cs.len() == 0 {
        Seq::empty()
    } else {
        enc_conds(cs.drop_last()) + enc_cond(cs.last())
    }
}

pub open spec fn enc_sels(vs: Seq<SelV>) -> Seq<u8>
    decreases vs.len(),
{
    if vs.len() == 0 {
        Seq::empty()
    } else {
        enc_sels(vs.drop_last()) + enc_sel(vs.last())
    }
}

pub open spec fn enc_strs(ss: Seq<Seq<char>>) -> Seq<u8>
    decreases ss.len(),
{
    if ss.len() == 0 {
        Seq::empty()
    } else {
        enc_strs(ss.drop_last()) + enc_str(ss.last())
    }
}

/// The replication key of a counter: length-prefixed namespace, window,
/// then the counted conditions, variables and assignment, in that order.
/// The encoding is stable across processes.
#[verifier::opaque]
pub open spec fn counter_key_spec(c: CounterV) -> Seq<u8> {
    enc_str(c.limit.ns) + enc_u64(c.limit.seconds) + enc_u64(c.limit.conds.len() as u64)
        + enc_conds(c.limit.conds) + enc_u64(c.limit.vars.len() as u64) + enc_sels(c.limit.vars)
        + enc_u64(c.assignment.len() as u64) + enc_strs(c.assignment)
}

fn push_u64(buf: &mut Vec<u8>, n: u64)
    ensures
        final(buf)@ == old(buf)@ + enc_u64(n),
{
    buf.push((n & 0xff) as u8);
    buf.push(((n >> 8) & 0xff) as u8);
    buf.push(((n >> 16) & 0xff) as u8);
    buf.push(((n >> 24) & 0xff) as u8);
    buf.push(((n >> 32) & 0xff) as u8);
    buf.push(((n >> 40) & 0xff) as u8);
    buf.push(((n >> 48) & 0xff) as u8);
    buf.push(((n >> 56) & 0xff) as u8);
    proof {
        assert(final(buf)@ =~= old(buf)@ + enc_u64(n));
    }
}

fn push_str(buf: &mut Vec<u8>, s: &String)
    ensures
        final(buf)@ == old(buf)@ + enc_str(s@),
{
    let mut bytes = s.as_str().as_bytes_vec();
    push_u64(buf, bytes.len() as u64);
    buf.append(&mut bytes);
    proof {
        assert(final(buf)@ =~= old(buf)@ + enc_str(s@));
    }
}

fn push_sel(buf: &mut Vec<u8>, v: &Selector)
    ensures
        final(buf)@ == old(buf)@ + enc_sel(v@),
{
    push_u64(buf, v.descriptor_index as u64);
    push_str(buf, &v.key);
    proof {
        assert(final(buf)@ =~= old(buf)@ + enc_sel(v@));
    }
}

fn push_cond(buf: &mut Vec<u8>, c: &Condition)
    ensures
        final(buf)@ == old(buf)@ + enc_cond(c@),
{
    push_sel(buf, &c.selector);
    let op: u8 = match c.op {
        CmpOp::Equal => 0,
        CmpOp::NotEqual => 1,
    };
    buf.push(op);
    push_str(buf, &c.literal);
    proof {
        assert(final(buf)@ =~= old(buf)@ + enc_cond(c@));
    }
}

/// Computes the replication key of a counter.
pub fn counter_key(c: &Counter) -> (r: Vec<u8>)
    ensures
        r@ == counter_key_spec(c@),
{
    let mut buf: Vec<u8> = Vec::new();
    push_str(&mut buf, &c.limit.namespace);
    push_u64(&mut buf, c.limit.seconds);
    push_u64(&mut buf, c.limit.conditions.len() as u64);
    let ghost head = buf@;
    let mut i: usize = 0;
    while i < c.limit.conditions.len()
        invariant
            i <= c.limit.conditions@.len(),
            buf@ =~= head + enc_conds(c@.limit.conds.take(i as int)),
            c@.limit.conds.len() == c.limit.conditions@.len(),
            forall|k: int|
                0 <= k < c.limit.conditions@.len() ==> c@.limit.conds[k]
                    == c.limit.conditions@[k]@,
        decreases c.limit.conditions@.len() - i,
    {
        push_cond(&mut buf, &c.limit.conditions[i]);
        i = i + 1;
        proof {
            assert(c@.limit.conds.take(i as int).drop_last() =~= c@.limit.conds.take(i - 1));
            assert(buf@ =~= head + enc_conds(c@.limit.conds.take(i as int)));
        }
    }
    proof {
        assert(c@.limit.conds.take(c.limit.conditions@.len() as int) =~= c@.limit.conds);
    }
    push_u64(&mut buf, c.limit.variables.len() as u64);
    let ghost head2 = buf@;
    let mut j: usize = 0;
    while j < c.limit.variables.len()
        invariant
            j <= c.limit.variables@.len(),
            buf@ =~= head2 + enc_sels(c@.limit.vars.take(j as int)),
            c@.limit.vars.len() == c.limit.variables@.len(),
            forall|k: int|
                0 <= k < c.limit.variables@.len() ==> c@.limit.vars[k] == c.limit.variables@[k]@,
        decreases c.limit.variables@.len() - j,
    {
        push_sel(&mut buf, &c.limit.variables[j]);
        j = j + 1;
        proof {
            assert(c@.limit.vars.take(j as int).drop_last() =~= c@.limit.vars.take(j - 1));
            assert(buf@ =~= head2 + enc_sels(c@.limit.vars.take(j as int)));
        }
    }
    proof {
        assert(c@.limit.vars.take(c.limit.variables@.len() as int) =~= c@.limit.vars);
    }
    push_u64(&mut buf, c.assignment.len() as u64);
    let ghost head3 = buf@;
    let mut m: usize = 0;
    while m < c.assignment.len()
        invariant
            m <= c.assignment@.len(),
            buf@ =~= head3 + enc_strs(c@.assignment.take(m as int)),
            c@.assignment.len() == c.assignment@.len(),
            forall|k: int| 0 <= k < c.assignment@.len() ==> c@.assignment[k] == c.assignment@[k]@,
        decreases c.assignment@.len() - m,
    {
        push_str(&mut buf, &c.assignment[m]);
        m = m + 1;
        proof {
            assert(c@.assignment.take(m as int).drop_last() =~= c@.assignment.take(m - 1));
            assert(buf@ =~= head3 + enc_strs(c@.assignment.take(m as int)));
        }
    }
    proof {
        reveal(counter_key_spec);
        assert(c@.assignment.take(c.assignment@.len() as int) =~= c@.assignment);
        assert(buf@ =~= counter_key_spec(c@));
    }
    buf
}

} // verus!
