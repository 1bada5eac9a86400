//! Decimal rendering of counters and a lexicographic order on strings,
//! used for header values and for the orderings the wire format promises.

use vstd::prelude::*;
use vstd::utf8::encode_utf8;

verus! {

/// The character for one decimal digit.
pub open spec fn digit_char(d: int) -> char {
    if d == 0 {
        '0'
    } else if d == 1 {
        '1'
    } else if d == 2 {
        '2'
    } else if d == 3 {
        '3'
    } else if d == 4 {
        '4'
    } else if d == 5 {
        '5'
    } else if d == 6 {
        '6'
    } else if d == 7 {
        '7'
    } else if d == 8 {
        '8'
    } else {
        '9'
    }
}

/// The decimal rendering of `n`, most significant digit first, no sign,
/// no leading zeros (and `0` renders as "0").
pub open spec fn dec_str(n: nat) -> Seq<char>
    decreases n,
{
    if n < 10 {
        seq![digit_char(n as int)]
    } else {
        dec_str(n / 10) + seq![digit_char((n % 10) as int)]
    }
}

/// The decimal digits of `n`, least significant first.
spec fn digits_low(n: nat) -> Seq<int>
    decreases n,
{
    if n < 10 {
        seq![n as int]
    } else {
        seq![(n % 10) as int] + digits_low(n / 10)
    }
}

proof fn lemma_dec_str_digits(n: nat)
    ensures
        dec_str(n).len() == digits_low(n).len(),
        forall|k: int|
            0 <= k < dec_str(n).len() ==> dec_str(n)[k] == digit_char(
                digits_low(n)[dec_str(n).len() - 1 - k],
            ),
    decreases n,
{
    if n >= 10 {
        lemma_dec_str_digits(n / 10);
    }
}

fn digit_str(d: u64) -> (r: &'static str)
    requires
        d < 10,
    ensures
        r@ == seq![digit_char(d as int)],
{
    proof {
        reveal_strlit("0");
        reveal_strlit("1");
        reveal_strlit("2");
        reveal_strlit("3");
        reveal_strlit("4");
        reveal_strlit("5");
        reveal_strlit("6");
        reveal_strlit("7");
        reveal_strlit("8");
        reveal_strlit("9");
    }
    let r = match d {
        0 => "0",
        1 => "1",
        2 => "2",
        3 => "3",
        4 => "4",
        5 => "5",
        6 => "6",
        7 => "7",
        8 => "8",
        _ => "9",
    };
    proof {
        assert(r@ =~= seq![digit_char(d as int)]);
    }
    r
}

/// Renders `n` in decimal.
pub fn u64_to_string(n: u64) -> (r: String)
    ensures
        r@ == dec_str(n as nat),
{
    let mut digits: Vec<u64> = Vec::new();
    let mut m: u64 = n;
    while m >= 10
        invariant
            digits_low(n as nat) =~= digits@.map_values(|d: u64| d as int) + digits_low(m as nat),
            forall|k: int| 0 <= k < digits@.len() ==> digits@[k] < 10,
        decreases m,
    {
        let d = m % 10;
        digits.push(d);
        m = m / 10;
        proof {
            assert(digits_low(n as nat) =~= digits@.map_values(|d: u64| d as int) + digits_low(
                m as nat,
            ));
        }
    }
    digits.push(m);
    proof {
        assert(digits_low(n as nat) =~= digits@.map_values(|d: u64| d as int));
        lemma_dec_str_digits(n as nat);
    }
    let len = digits.len();
    let mut r = String::new();
    let mut idx: usize = 0;
    while idx < len
        invariant
            len == digits@.len(),
            digits_low(n as nat) =~= digits@.map_values(|d: u64| d as int),
            forall|k: int| 0 <= k < digits@.len() ==> digits@[k] < 10,
            dec_str(n as nat).len() == len,
            forall|k: int|
                0 <= k < len ==> dec_str(n as nat)[k] == digit_char(digits_low(n as nat)[len - 1
                    - k]),
            idx <= len,
            r@ =~= dec_str(n as nat).subrange(0, idx as int),
        decreases len - idx,
    {
        let d = digits[len - 1 - idx];
        r.append(digit_str(d));
        idx = idx + 1;
        proof {
            assert(r@ =~= dec_str(n as nat).subrange(0, idx as int));
        }
    }
    proof {
        assert(r@ =~= dec_str(n as nat));
    }
    r
}

/// Strict lexicographic order on byte strings.
pub open spec fn lex_lt(a: Seq<u8>, b: Seq<u8>) -> bool
    decreases a.len(),
{
    if b.len() == 0 {
        false
    } else if a.len() == 0 {
        true
    } else if a[0] != b[0] {
        a[0] < b[0]
    } else {
        lex_lt(a.drop_first(), b.drop_first())
    }
}

/// Lexicographic order on byte strings, allowing equality.
pub open spec fn lex_le(a: Seq<u8>, b: Seq<u8>) -> bool {
    lex_lt(a, b) || a == b
}

/// Order on strings: the lexicographic order of their UTF-8 encodings
/// (which coincides with code-point order).
pub open spec fn str_lt(a: Seq<char>, b: Seq<char>) -> bool {
    lex_lt(encode_utf8(a), encode_utf8(b))
}

/// String order, allowing equality of the encodings.
pub open spec fn str_le(a: Seq<char>, b: Seq<char>) -> bool {
    lex_le(encode_utf8(a), encode_utf8(b))
}

/// Strict lexicographic order on strings by code point.
pub open spec fn chars_lt(a: Seq<char>, b: Seq<char>) -> bool
    decreases a.len(),
{
    if b.len() == 0 {
        false
    } else if a.len() == 0 {
        true
    } else if a[0] != b[0] {
        (a[0] as u32) < (b[0] as u32)
    } else {
        chars_lt(a.drop_first(), b.drop_first())
    }
}

/// Code-point order on strings, allowing equality.
pub open spec fn chars_le(a: Seq<char>, b: Seq<char>) -> bool {
    chars_lt(a, b) || a == b
}

/// Of two distinct byte strings, exactly one is lexicographically smaller.
pub proof fn lemma_lex_trichotomy(a: Seq<u8>, b: Seq<u8>)
    ensures
        a != b ==> (lex_lt(a, b) <==> !lex_lt(b, a)),
        !(lex_lt(a, b) && lex_lt(b, a)),
        lex_lt(a, b) ==> a != b,
    decreases a.len(),
{
    if a.len() == 0 && b.len() == 0 {
        assert(a =~= b);
    }
    if a.len() != 0 && b.len() != 0 && a[0] == b[0] {
        lemma_lex_trichotomy(a.drop_first(), b.drop_first());
        if a.drop_first() == b.drop_first() {
            assert(a =~= b) by {
                assert forall|k: int| 0 <= k < a.len() implies a[k] == b[k] by {
                    if k > 0 {
                        assert(a.drop_first()[k - 1] == a[k]);
                        assert(b.drop_first()[k - 1] == b[k]);
                    }
                }
            }
        }
    }
}

/// A common prefix does not affect the order of what follows it.
proof fn lemma_lex_skip(a: Seq<u8>, b: Seq<u8>, i: int)
    requires
        0 <= i <= a.len(),
        i <= b.len(),
        a.subrange(0, i) == b.subrange(0, i),
    ensures
        lex_lt(a, b) == lex_lt(a.skip(i), b.skip(i)),
    decreases i,
{
    if i > 0 {
        assert(a[0] == b[0]) by {
            assert(a.subrange(0, i)[0] == a[0]);
            assert(b.subrange(0, i)[0] == b[0]);
        }
        assert(a.drop_first().subrange(0, i - 1) =~= b.drop_first().subrange(0, i - 1)) by {
            assert forall|k: int| 0 <= k < i - 1 implies a.drop_first()[k] == b.drop_first()[k] by {
                assert(a.subrange(0, i)[k + 1] == a[k + 1]);
                assert(b.subrange(0, i)[k + 1] == b[k + 1]);
            }
        }
        lemma_lex_skip(a.drop_first(), b.drop_first(), i - 1);
        assert(a.drop_first().skip(i - 1) =~= a.skip(i));
        assert(b.drop_first().skip(i - 1) =~= b.skip(i));
    } else {
        assert(a.skip(0) =~= a);
        assert(b.skip(0) =~= b);
    }
}

/// Compares two byte slices lexicographically: negative for less, zero for
/// equal, positive for greater.
pub fn bytes_cmp(a: &[u8], b: &[u8]) -> (r: i8)
    ensures
        (r < 0) == lex_lt(a@, b@),
        (r == 0) == (a@ == b@),
        (r > 0) == lex_lt(b@, a@),
{
    proof {
        lemma_lex_trichotomy(a@, b@);
    }
    let alen = a.len();
    let blen = b.len();
    let min = if alen < blen {
        alen
    } else {
        blen
    };
    let mut i: usize = 0;
    while i < min
        invariant
            min <= a@.len(),
            min <= b@.len(),
            i <= min,
            a@.subrange(0, i as int) =~= b@.subrange(0, i as int),
            alen == a@.len(),
            blen == b@.len(),
            min == if alen < blen {
                alen
            } else {
                blen
            },
        decreases min - i,
    {
        let x = a[i];
        let y = b[i];
        if x < y {
            proof {
                lemma_lex_skip(a@, b@, i as int);
                assert(lex_lt(a@.skip(i as int), b@.skip(i as int))) by {
                    assert(a@.skip(i as int)[0] == x);
                    assert(b@.skip(i as int)[0] == y);
                    assert(a@.skip(i as int).len() > 0);
                    assert(b@.skip(i as int).len() > 0);
                }
                assert(lex_lt(a@, b@));
                lemma_lex_trichotomy(a@, b@);
            }
            return -1;
        }
        if x > y {
            proof {
                lemma_lex_skip(b@, a@, i as int);
                assert(lex_lt(b@.skip(i as int), a@.skip(i as int))) by {
                    assert(a@.skip(i as int)[0] == x);
                    assert(b@.skip(i as int)[0] == y);
                    assert(a@.skip(i as int).len() > 0);
                    assert(b@.skip(i as int).len() > 0);
                }
                assert(lex_lt(b@, a@));
                lemma_lex_trichotomy(a@, b@);
            }
            return 1;
        }
        proof {
            assert(a@.subrange(0, i + 1) =~= b@.subrange(0, i + 1)) by {
                assert(forall|k: int|
                    0 <= k < i ==> a@.subrange(0, i + 1)[k] == a@.subrange(0, i as int)[k]);
                assert(forall|k: int|
                    0 <= k < i ==> b@.subrange(0, i + 1)[k] == b@.subrange(0, i as int)[k]);
            }
        }
        i = i + 1;
    }
    if alen < blen {
        proof {
            lemma_lex_skip(a@, b@, min as int);
            assert(a@.skip(min as int).len() == 0);
            assert(b@.skip(min as int).len() > 0);
        }
        -1
    } else if alen > blen {
        proof {
            lemma_lex_skip(b@, a@, min as int);
            assert(b@.skip(min as int).len() == 0);
            assert(a@.skip(min as int).len() > 0);
        }
        1
    } else {
        proof {
            assert(a@ =~= b@) by {
                assert forall|k: int| 0 <= k < a@.len() implies a@[k] == b@[k] by {
                    assert(a@.subrange(0, min as int)[k] == a@[k]);
                    assert(b@.subrange(0, min as int)[k] == b@[k]);
                }
            }
        }
        0
    }
}

/// Compares two strings by the lexicographic order of their UTF-8 bytes.
pub fn str_cmp(a: &str, b: &str) -> (r: i8)
    ensures
        (r < 0) == str_lt(a@, b@),
        (r == 0) == (a@ == b@),
        (r > 0) == str_lt(b@, a@),
{
    let r = bytes_cmp(a.as_bytes(), b.as_bytes());
    proof {
        vstd::utf8::encode_utf8_decode_utf8(a@);
        vstd::utf8::encode_utf8_decode_utf8(b@);
    }
    r
}

} // verus!
