//! Conditions and variables of a limit: a small expression language over
//! the descriptor context of one request.
//!
//! The grammar (ASCII source text) is
//! `descriptors [ index ] accessor` for a selector, where `accessor` is
//! `.ident` or `['key']`, and `selector ==|!= literal` for a condition,
//! where `literal` is a quoted string or an integer.  A missing key or an
//! out-of-range index leaves a selector unbound: conditions then evaluate
//! to false and variable extraction skips the limit.

use vstd::prelude::*;
use vstd::string::is_ascii;
use vstd::utf8::is_ascii_chars;

verus! {

/// A comparison operator of a condition.
#[derive(Clone, Copy, PartialEq, Eq, Structural, Debug)]
pub enum CmpOp {
    Equal,
    NotEqual,
}

/// A key path selecting one value of the descriptor context:
/// `descriptors[i].key` or `descriptors[i]['key']`.
#[derive(Clone, Debug)]
pub struct Selector {
    pub descriptor_index: usize,
    pub key: String,
}

/// A condition of a limit: a selector compared against a literal.
#[derive(Clone, Debug)]
pub struct Condition {
    pub selector: Selector,
    pub op: CmpOp,
    pub literal: String,
}

/// The error of a condition or variable that does not match the grammar.
#[derive(Clone, Copy, PartialEq, Eq, Structural, Debug)]
pub struct ParseError {}

/// One key/value entry of a descriptor.
#[derive(Clone, Debug)]
pub struct Entry {
    pub key: String,
    pub value: String,
}

/// One descriptor: an ordered list of key/value entries.  A key given
/// twice binds to its last value, as a map built by insertion would.
#[derive(Clone, Debug)]
pub struct Descriptor {
    pub entries: Vec<Entry>,
}

/// The descriptor context of one request: the list the expressions
/// address as `descriptors`.
#[derive(Clone, Debug)]
pub struct Context {
    pub descriptors: Vec<Descriptor>,
}

/// Mathematical form of a selector.
pub struct SelV {
    pub idx: int,
    pub key: Seq<char>,
}

/// Mathematical form of a condition.
pub struct CondV {
    pub sel: SelV,
    pub op: CmpOp,
    pub lit: Seq<char>,
}

impl View for Selector {
    type V = SelV;

    open spec fn view(&self) -> SelV {
        SelV { idx: self.descriptor_index as int, key: self.key@ }
    }
}

impl View for Condition {
    type V = CondV;

    open spec fn view(&self) -> CondV {
        CondV { sel: self.selector@, op: self.op, lit: self.literal@ }
    }
}

impl View for Entry {
    type V = (Seq<char>, Seq<char>);

    open spec fn view(&self) -> (Seq<char>, Seq<char>) {
        (self.key@, self.value@)
    }
}

impl View for Descriptor {
    type V = Seq<(Seq<char>, Seq<char>)>;

    open spec fn view(&self) -> Seq<(Seq<char>, Seq<char>)> {
        self.entries@.map_values(|e: Entry| e@)
    }
}

impl View for Context {
    type V = Seq<Seq<(Seq<char>, Seq<char>)>>;

    open spec fn view(&self) -> Seq<Seq<(Seq<char>, Seq<char>)>> {
        self.descriptors@.map_values(|d: Descriptor| d@)
    }
}

// ---------------------------------------------------------------- evaluation

/// The value bound to `key` in one descriptor: the last entry with that
/// key, as a map built by insertion order would hold it.
pub open spec fn lookup_entry(entries: Seq<(Seq<char>, Seq<char>)>, key: Seq<char>) -> Option<
    Seq<char>,
>
    decreases entries.len(),
{
    if entries.len() == 0 {
        None
    } else if entries.last().0 == key {
        Some(entries.last().1)
    } else {
        lookup_entry(entries.drop_last(), key)
    }
}

/// The value a selector takes in a context, or `None` when unbound.
pub open spec fn sel_value(ctx: Seq<Seq<(Seq<char>, Seq<char>)>>, s: SelV) -> Option<Seq<char>> {
    if 0 <= s.idx < ctx.len() {
        lookup_entry(ctx[s.idx], s.key)
    } else {
        None
    }
}

/// Whether a condition holds in a context; an unbound selector makes it
/// false.
pub open spec fn cond_holds(ctx: Seq<Seq<(Seq<char>, Seq<char>)>>, c: CondV) -> bool {
    match sel_value(ctx, c.sel) {
        Some(v) => match c.op {
            CmpOp::Equal => v == c.lit,
            CmpOp::NotEqual => v != c.lit,
        },
        None => false,
    }
}

/// Evaluates a selector against the context.
pub fn eval_selector(ctx: &Context, s: &Selector) -> (r: Option<String>)
    ensures
        match r {
            Some(v) => sel_value(ctx@, s@) == Some(v@),
            None => sel_value(ctx@, s@) is None,
        },
{
    if s.descriptor_index >= ctx.descriptors.len() {
        return None;
    }
    let d = &ctx.descriptors[s.descriptor_index];
    proof {
        assert(ctx@[s.descriptor_index as int] == d@);
    }
    proof {
        assert(d@.take(d.entries@.len() as int) =~= d@);
    }
    let mut j: usize = d.entries.len();
    while j > 0
        invariant
            j <= d.entries@.len(),
            s.descriptor_index < ctx.descriptors@.len(),
            ctx@[s.descriptor_index as int] == d@,
            lookup_entry(d@, s.key@) == lookup_entry(d@.take(j as int), s.key@),
        decreases j,
    {
        let e = &d.entries[j - 1];
        proof {
            assert(d@.take(j as int).last() == d@[j - 1]);
            assert(d@[j - 1] == (e.key@, e.value@));
            assert(d@.take(j as int).drop_last() =~= d@.take(j - 1));
        }
        if e.key == s.key {
            proof {
                assert(d@.take(j as int).len() > 0);
                assert(d@.take(j as int).last().0 == s.key@);
                assert(lookup_entry(d@.take(j as int), s.key@) == Some(e.value@));
                assert(sel_value(ctx@, s@) == Some(e.value@));
            }
            return Some(e.value.clone());
        }
        j = j - 1;
    }
    proof {
        assert(d@.take(0) =~= Seq::<(Seq<char>, Seq<char>)>::empty());
    }
    None
}

/// Evaluates a condition against the context.
pub fn eval_condition(ctx: &Context, c: &Condition) -> (r: bool)
    ensures
        r == cond_holds(ctx@, c@),
{
    match eval_selector(ctx, &c.selector) {
        Some(v) => match c.op {
            CmpOp::Equal => v == c.literal,
            CmpOp::NotEqual => !(v == c.literal),
        },
        None => false,
    }
}

// ------------------------------------------------------------------ grammar

pub open spec fn is_sp(c: char) -> bool {
    c as u8 == 32
}

pub open spec fn is_dig(c: char) -> bool {
    48 <= c as u8 <= 57
}

pub open spec fn is_id_start(c: char) -> bool {
    (65 <= c as u8 <= 90) || (97 <= c as u8 <= 122) || c as u8 == 95
}

pub open spec fn is_id_char(c: char) -> bool {
    is_id_start(c) || is_dig(c)
}

/// First position at or after `i` that is not a space.
pub open spec fn skip_ws(s: Seq<char>, i: int) -> int
    decreases s.len() - i,
{
    if 0 <= i < s.len() && is_sp(s[i]) {
        skip_ws(s, i + 1)
    } else {
        i
    }
}

/// First position at or after `i` that is not a digit.
pub open spec fn scan_digits(s: Seq<char>, i: int) -> int
    decreases s.len() - i,
{
    if 0 <= i < s.len() && is_dig(s[i]) {
        scan_digits(s, i + 1)
    } else {
        i
    }
}

/// First position at or after `i` that is not an identifier character.
pub open spec fn scan_ident(s: Seq<char>, i: int) -> int
    decreases s.len() - i,
{
    if 0 <= i < s.len() && is_id_char(s[i]) {
        scan_ident(s, i + 1)
    } else {
        i
    }
}

/// First position at or after `i` holding a single quote, or the length.
pub open spec fn scan_nonquote(s: Seq<char>, i: int) -> int
    decreases s.len() - i,
{
    if 0 <= i < s.len() && s[i] as u8 != 39 {
        scan_nonquote(s, i + 1)
    } else {
        i
    }
}

/// The number the digits of `s[i..j]` denote.
pub open spec fn digits_val(s: Seq<char>, i: int, j: int) -> int
    decreases j - i,
{
    if i >= j {
        0
    } else {
        digits_val(s, i, j - 1) * 10 + (s[j - 1] as u8 - 48)
    }
}

/// A selector parsed at position `i` with no surrounding whitespace:
/// the parsed form and the position after it.
pub open spec fn sel_at(s: Seq<char>, i: int) -> Option<(SelV, int)> {
    let kw = "descriptors"@;
    if !(0 <= i && i + 11 <= s.len() && s.subrange(i, i + 11) == kw) {
        None
    } else if !(i + 11 < s.len() && s[i + 11] as u8 == 91) {  // '['
        None
    } else {
        let d = scan_digits(s, i + 12);
        if !(d > i + 12 && d < s.len() && s[d] as u8 == 93 && digits_val(s, i + 12, d)
            <= usize::MAX) {  // ']'
            None
        } else {
            let idx = digits_val(s, i + 12, d);
            let a = d + 1;
            if a < s.len() && s[a] as u8 == 46 {  // '.'
                let e = scan_ident(s, a + 1);
                if e > a + 1 && is_id_start(s[a + 1]) {
                    Some((SelV { idx, key: s.subrange(a + 1, e) }, e))
                } else {
                    None
                }
            } else if a + 1 < s.len() && s[a] as u8 == 91 && s[a + 1] as u8 == 39 {  // "['"
                let q = scan_nonquote(s, a + 2);
                if q + 1 < s.len() && s[q + 1] as u8 == 93 {  // "']"
                    Some((SelV { idx, key: s.subrange(a + 2, q) }, q + 2))
                } else {
                    None
                }
            } else {
                None
            }
        }
    }
}

/// A literal parsed at position `i`: a quoted string or an integer, and
/// the position after it.
pub open spec fn lit_at(s: Seq<char>, i: int) -> Option<(Seq<char>, int)> {
    if 0 <= i < s.len() && s[i] as u8 == 39 {  // '\''
        let q = scan_nonquote(s, i + 1);
        if q < s.len() {
            Some((s.subrange(i + 1, q), q + 1))
        } else {
            None
        }
    } else {
        let d = scan_digits(s, i);
        if 0 <= i < s.len() && d > i {
            Some((s.subrange(i, d), d))
        } else {
            None
        }
    }
}

/// A whole variable: a selector with optional surrounding whitespace.
pub open spec fn parse_selector_spec(s: Seq<char>) -> Option<SelV> {
    if !is_ascii_chars(s) {
        None
    } else {
        match sel_at(s, skip_ws(s, 0)) {
            Some((sel, j)) => if skip_ws(s, j) == s.len() {
                Some(sel)
            } else {
                None
            },
            None => None,
        }
    }
}

/// A whole condition: `selector ==|!= literal` with optional whitespace
/// around the parts.
pub open spec fn parse_condition_spec(s: Seq<char>) -> Option<CondV> {
    if !is_ascii_chars(s) {
        None
    } else {
        match sel_at(s, skip_ws(s, 0)) {
            Some((sel, j)) => {
                let k = skip_ws(s, j);
                if !(k + 2 <= s.len() && s[k + 1] as u8 == 61 && (s[k] as u8 == 61 || s[k] as u8
                    == 33)) {
                    None
                } else {
                    let op = if s[k] as u8 == 61 {
                        CmpOp::Equal
                    } else {
                        CmpOp::NotEqual
                    };
                    match lit_at(s, skip_ws(s, k + 2)) {
                        Some((lit, n)) => if skip_ws(s, n) == s.len() {
                            Some(CondV { sel, op, lit })
                        } else {
                            None
                        },
                        None => None,
                    }
                }
            },
            None => None,
        }
    }
}

// ------------------------------------------------------------- exec parsing

fn skip_ws_exec(s: &str, i: usize) -> (j: usize)
    requires
        is_ascii(s),
        i <= s@.len(),
    ensures
        j == skip_ws(s@, i as int),
        i <= j <= s@.len(),
{
    let len = s.unicode_len();
    let mut cur = i;
    while cur < len && s.get_ascii(cur) == 32
        invariant
            is_ascii(s),
            i <= cur <= len,
            len == s@.len(),
            skip_ws(s@, i as int) == skip_ws(s@, cur as int),
        decreases len - cur,
    {
        cur = cur + 1;
    }
    cur
}

fn digit_at(s: &str, i: usize) -> (r: bool)
    requires
        is_ascii(s),
        i < s@.len(),
    ensures
        r == is_dig(s@[i as int]),
{
    let b = s.get_ascii(i);
    48 <= b && b <= 57
}

fn ident_char_at(s: &str, i: usize) -> (r: bool)
    requires
        is_ascii(s),
        i < s@.len(),
    ensures
        r == is_id_char(s@[i as int]),
{
    let b = s.get_ascii(i);
    (65 <= b && b <= 90) || (97 <= b && b <= 122) || b == 95 || (48 <= b && b <= 57)
}

fn scan_digits_exec(s: &str, i: usize) -> (j: usize)
    requires
        is_ascii(s),
        i <= s@.len(),
    ensures
        j == scan_digits(s@, i as int),
        i <= j <= s@.len(),
{
    let len = s.unicode_len();
    let mut cur = i;
    while cur < len && digit_at(s, cur)
        invariant
            is_ascii(s),
            i <= cur <= len,
            len == s@.len(),
            scan_digits(s@, i as int) == scan_digits(s@, cur as int),
        decreases len - cur,
    {
        cur = cur + 1;
    }
    cur
}

fn scan_ident_exec(s: &str, i: usize) -> (j: usize)
    requires
        is_ascii(s),
        i <= s@.len(),
    ensures
        j == scan_ident(s@, i as int),
        i <= j <= s@.len(),
{
    let len = s.unicode_len();
    let mut cur = i;
    while cur < len && ident_char_at(s, cur)
        invariant
            is_ascii(s),
            i <= cur <= len,
            len == s@.len(),
            scan_ident(s@, i as int) == scan_ident(s@, cur as int),
        decreases len - cur,
    {
        cur = cur + 1;
    }
    cur
}

fn scan_nonquote_exec(s: &str, i: usize) -> (j: usize)
    requires
        is_ascii(s),
        i <= s@.len(),
    ensures
        j == scan_nonquote(s@, i as int),
        i <= j <= s@.len(),
{
    let len = s.unicode_len();
    let mut cur = i;
    while cur < len && s.get_ascii(cur) != 39
        invariant
            is_ascii(s),
            i <= cur <= len,
            len == s@.len(),
            scan_nonquote(s@, i as int) == scan_nonquote(s@, cur as int),
        decreases len - cur,
    {
        cur = cur + 1;
    }
    cur
}

/// If the remaining digits only grow the value, a prefix already over a
/// bound puts the whole value over it.
proof fn lemma_digits_val_grows(s: Seq<char>, i: int, k: int, j: int)
    requires
        i <= k <= j,
        forall|m: int| i <= m < j ==> is_dig(s[m]),
        digits_val(s, i, k) >= 0,
    ensures
        digits_val(s, i, j) >= digits_val(s, i, k),
        digits_val(s, i, j) >= 0,
    decreases j - k,
{
    if k < j {
        lemma_digits_val_grows(s, i, k, j - 1);
        assert(digits_val(s, i, j) == digits_val(s, i, j - 1) * 10 + (s[j - 1] as u8 - 48));
        assert(digits_val(s, i, j - 1) * 10 >= digits_val(s, i, j - 1)) by (nonlinear_arith)
            requires
                digits_val(s, i, j - 1) >= 0,
        ;
    }
}

proof fn lemma_scan_digits_all_digits(s: Seq<char>, i: int, j: int)
    requires
        0 <= i,
        j == scan_digits(s, i),
    ensures
        forall|m: int| i <= m < j ==> is_dig(s[m]),
    decreases j - i,
{
    if 0 <= i < s.len() && is_dig(s[i]) && i < j {
        lemma_scan_digits_all_digits(s, i + 1, j);
    }
}

/// Reads the number `s[i..j]` denotes, where those positions are digits;
/// `None` when it does not fit in `usize`.
fn digits_to_usize(s: &str, i: usize, j: usize) -> (r: Option<usize>)
    requires
        is_ascii(s),
        i <= j <= s@.len(),
        scan_digits(s@, i as int) >= j,
    ensures
        match r {
            Some(v) => digits_val(s@, i as int, j as int) == v as int,
            None => digits_val(s@, i as int, j as int) > usize::MAX,
        },
{
    proof {
        lemma_scan_digits_all_digits(s@, i as int, scan_digits(s@, i as int));
    }
    let mut val: usize = 0;
    let mut cur = i;
    while cur < j
        invariant
            is_ascii(s),
            i <= cur <= j <= s@.len(),
            forall|m: int| i <= m < j ==> is_dig(s@[m]),
            val as int == digits_val(s@, i as int, cur as int),
        decreases j - cur,
    {
        let b = s.get_ascii(cur);
        let d = (b - 48) as usize;
        if val > (usize::MAX - d) / 10 {
            proof {
                assert(val * 10 + d > usize::MAX) by (nonlinear_arith)
                    requires
                        val > (usize::MAX - d) / 10,
                        d < 10,
                ;
                lemma_digits_val_grows(s@, i as int, cur + 1, j as int);
            }
            return None;
        }
        proof {
            assert(val * 10 + d <= usize::MAX) by (nonlinear_arith)
                requires
                    val <= (usize::MAX - d) / 10,
                    d < 10,
            ;
        }
        val = val * 10 + d;
        cur = cur + 1;
    }
    Some(val)
}

fn expect_keyword(s: &str, i: usize) -> (r: bool)
    requires
        is_ascii(s),
        i <= s@.len(),
    ensures
        r == (i + 11 <= s@.len() && s@.subrange(i as int, i + 11) == "descriptors"@),
{
    let len = s.unicode_len();
    if len - i < 11 {
        return false;
    }
    let sub = s.substring_ascii(i, i + 11);
    let a = String::from_str(sub);
    let b = String::from_str("descriptors");
    a == b
}

/// Parses a selector at `i`; mirrors [`sel_at`].
fn sel_at_exec(s: &str, i: usize) -> (r: Option<(Selector, usize)>)
    requires
        is_ascii(s),
        i <= s@.len(),
    ensures
        match r {
            Some((sel, j)) => sel_at(s@, i as int) == Some((sel@, j as int)) && j <= s@.len(),
            None => sel_at(s@, i as int) is None,
        },
{
    let len = s.unicode_len();
    if !expect_keyword(s, i) {
        return None;
    }
    if !(i + 11 < len && s.get_ascii(i + 11) == 91) {
        return None;
    }
    let d = scan_digits_exec(s, i + 12);
    if !(d > i + 12 && d < len && s.get_ascii(d) == 93) {
        return None;
    }
    let idx = match digits_to_usize(s, i + 12, d) {
        Some(v) => v,
        None => {
            return None;
        },
    };
    let a = d + 1;
    if a < len && s.get_ascii(a) == 46 {
        let e = scan_ident_exec(s, a + 1);
        if e > a + 1 && {
            let b = s.get_ascii(a + 1);
            (65 <= b && b <= 90) || (97 <= b && b <= 122) || b == 95
        } {
            let key = String::from_str(s.substring_ascii(a + 1, e));
            Some((Selector { descriptor_index: idx, key }, e))
        } else {
            None
        }
    } else if len - a >= 2 && s.get_ascii(a) == 91 && s.get_ascii(a + 1) == 39 {
        let q = scan_nonquote_exec(s, a + 2);
        if len - q >= 2 && s.get_ascii(q + 1) == 93 {
            let key = String::from_str(s.substring_ascii(a + 2, q));
            Some((Selector { descriptor_index: idx, key }, q + 2))
        } else {
            None
        }
    } else {
        None
    }
}

/// Parses a literal at `i`; mirrors [`lit_at`].
fn lit_at_exec(s: &str, i: usize) -> (r: Option<(String, usize)>)
    requires
        is_ascii(s),
        i <= s@.len(),
    ensures
        match r {
            Some((lit, j)) => lit_at(s@, i as int) == Some((lit@, j as int)) && j <= s@.len(),
            None => lit_at(s@, i as int) is None,
        },
{
    let len = s.unicode_len();
    if i < len && s.get_ascii(i) == 39 {
        let q = scan_nonquote_exec(s, i + 1);
        if q < len {
            Some((String::from_str(s.substring_ascii(i + 1, q)), q + 1))
        } else {
            None
        }
    } else {
        let d = scan_digits_exec(s, i);
        if i < len && d > i {
            Some((String::from_str(s.substring_ascii(i, d)), d))
        } else {
            None
        }
    }
}

impl Selector {
    /// Parses a variable of a limit.
    pub fn parse(s: &str) -> (r: Result<Selector, ParseError>)
        ensures
            match r {
                Ok(sel) => parse_selector_spec(s@) == Some(sel@),
                Err(_) => parse_selector_spec(s@) is None,
            },
    {
        if !s.is_ascii() {
            return Err(ParseError {});
        }
        let len = s.unicode_len();
        let i = skip_ws_exec(s, 0);
        match sel_at_exec(s, i) {
            Some((sel, j)) => {
                if skip_ws_exec(s, j) == len {
                    Ok(sel)
                } else {
                    Err(ParseError {})
                }
            },
            None => Err(ParseError {}),
        }
    }
}

impl Condition {
    /// Parses a condition of a limit.
    pub fn parse(s: &str) -> (r: Result<Condition, ParseError>)
        ensures
            match r {
                Ok(c) => parse_condition_spec(s@) == Some(c@),
                Err(_) => parse_condition_spec(s@) is None,
            },
    {
        if !s.is_ascii() {
            return Err(ParseError {});
        }
        let len = s.unicode_len();
        let i = skip_ws_exec(s, 0);
        let (sel, j) = match sel_at_exec(s, i) {
            Some(p) => p,
            None => {
                return Err(ParseError {});
            },
        };
        let k = skip_ws_exec(s, j);
        if !(len - k >= 2 && s.get_ascii(k + 1) == 61 && (s.get_ascii(k) == 61 || s.get_ascii(k)
            == 33)) {
            return Err(ParseError {});
        }
        let op = if s.get_ascii(k) == 61 {
            CmpOp::Equal
        } else {
            CmpOp::NotEqual
        };
        let m = skip_ws_exec(s, k + 2);
        let (lit, n) = match lit_at_exec(s, m) {
            Some(p) => p,
            None => {
                return Err(ParseError {});
            },
        };
        if skip_ws_exec(s, n) == len {
            Ok(Condition { selector: sel, op, literal: lit })
        } else {
            Err(ParseError {})
        }
    }
}

} // verus!
