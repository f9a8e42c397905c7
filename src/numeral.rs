use vstd::prelude::*;

verus! {

/// The widest numeral that the parsers below accept: its digits fit a `u64`.
pub const MAX_NUMERAL_LEN: usize = 18;

/// Whether `c` is an ASCII decimal digit.
pub open spec fn is_digit(c: char) -> bool {
    '0' <= c && c <= '9'
}

/// The value of the digit `c`.
pub open spec fn digit_value(c: char) -> nat {
    (c as nat - '0' as nat) as nat
}

/// Whether every character of `s` is a decimal digit.
pub open spec fn all_digits(s: Seq<char>) -> bool {
    forall|i: int| 0 <= i < s.len() ==> is_digit(#[trigger] s[i])
}

/// The number that the decimal digits `s` denote, most significant first.
pub open spec fn digits_value(s: Seq<char>) -> nat
    decreases s.len(),
{
    if s.len() == 0 {
        0
    } else {
        digits_value(s.drop_last()) * 10 + digit_value(s.last())
    }
}

pub open spec fn pow10(n: nat) -> nat
    decreases n,
{
    if n == 0 {
        1
    } else {
        10 * pow10((n - 1) as nat)
    }
}

/// An unsigned numeral: an optional `+` followed by one or more digits.
pub open spec fn unsigned_of(s: Seq<char>) -> Option<nat> {
    let d = if s.len() > 0 && s[0] == '+' {
        s.drop_first()
    } else {
        s
    };
    if d.len() > 0 && all_digits(d) {
        Some(digits_value(d))
    } else {
        None
    }
}

/// A decimal number `(-1)^negative * mantissa * 10^exponent`, kept exactly as written.
#[derive(Clone, Copy, Debug, PartialEq, Eq, Structural)]
pub struct Coordinate {
    pub negative: bool,
    pub mantissa: u64,
    pub exponent: i64,
}

/// The length of the sign in front of a decimal numeral (0 or 1).
pub open spec fn sign_len(s: Seq<char>) -> int {
    if s.len() > 0 && (s[0] == '+' || s[0] == '-') {
        1
    } else {
        0
    }
}

/// `b` is digits, a point at `d`, and digits, with at least one digit in all.
pub open spec fn is_point_at(b: Seq<char>, d: int) -> bool {
    &&& 0 <= d < b.len()
    &&& b[d] == '.'
    &&& b.len() >= 2
    &&& all_digits(b.take(d))
    &&& all_digits(b.skip(d + 1))
}

/// A decimal numeral without exponent: an optional sign, then digits with at most one
/// decimal point, and at least one digit.
pub open spec fn decimal_of(s: Seq<char>) -> Option<Coordinate> {
    let negative = s.len() > 0 && s[0] == '-';
    let b = s.skip(sign_len(s));
    if b.len() > 0 && all_digits(b) {
        Some(Coordinate { negative, mantissa: digits_value(b) as u64, exponent: 0 })
    } else if exists|d: int| is_point_at(b, d) {
        let d = choose|d: int| is_point_at(b, d);
        Some(
            Coordinate {
                negative,
                mantissa: digits_value(b.take(d) + b.skip(d + 1)) as u64,
                exponent: (d + 1 - b.len()) as i64,
            },
        )
    } else {
        None
    }
}

proof fn lemma_pow10_mono(a: nat, b: nat)
    requires
        a <= b,
    ensures
        pow10(a) <= pow10(b),
    decreases b,
{
    if a < b {
        lemma_pow10_mono(a, (b - 1) as nat);
    }
}

proof fn lemma_digits_bound(s: Seq<char>)
    requires
        all_digits(s),
    ensures
        digits_value(s) < pow10(s.len()),
    decreases s.len(),
{
    if s.len() > 0 {
        let p = s.drop_last();
        assert(all_digits(p)) by {
            assert forall|i: int| 0 <= i < p.len() implies is_digit(#[trigger] p[i]) by {
                assert(is_digit(s[i]));
            }
        }
        lemma_digits_bound(p);
        assert(is_digit(s[s.len() - 1]));
        let v = digits_value(p);
        let q = pow10(p.len());
        assert(v * 10 + digit_value(s.last()) < 10 * q) by (nonlinear_arith)
            requires
                v < q,
                digit_value(s.last()) < 10,
        ;
    }
}

proof fn lemma_digits_push(s: Seq<char>, c: char)
    ensures
        digits_value(s.push(c)) == digits_value(s) * 10 + digit_value(c),
{
    assert(s.push(c).drop_last() =~= s);
}

/// Bounds the value of at most eighteen digits.
proof fn lemma_digits_fit(s: Seq<char>)
    requires
        all_digits(s),
        s.len() <= MAX_NUMERAL_LEN,
    ensures
        digits_value(s) < 1_000_000_000_000_000_000,
{
    lemma_digits_bound(s);
    lemma_pow10_mono(s.len(), 18);
    reveal_with_fuel(pow10, 19);
    assert(pow10(18) == 1_000_000_000_000_000_000);
}

/// Parses an unsigned decimal integer: an optional `+`, then one or more digits.
pub fn parse_unsigned(text: &str) -> (r: Option<u64>)
    requires
        text@.len() <= MAX_NUMERAL_LEN,
    ensures
        r.is_some() == unsigned_of(text@).is_some(),
        r.is_some() ==> r.unwrap() as nat == unsigned_of(text@).unwrap(),
{
    let n = text.unicode_len();
    let mut start: usize = 0;
    if n > 0 && text.get_char(0) == '+' {
        start = 1;
    }
    let ghost d = text@.subrange(start as int, n as int);
    assert(d =~= if text@.len() > 0 && text@[0] == '+' { text@.drop_first() } else { text@ });
    if start == n {
        return None;
    }
    let mut value: u64 = 0;
    let mut i: usize = start;
    while i < n
        invariant
            start <= i <= n,
            n == text@.len(),
            n <= MAX_NUMERAL_LEN,
            d == text@.subrange(start as int, n as int),
            unsigned_of(text@) == (if d.len() > 0 && all_digits(d) {
                Some(digits_value(d))
            } else {
                None
            }),
            all_digits(text@.subrange(start as int, i as int)),
            value as nat == digits_value(text@.subrange(start as int, i as int)),
        decreases n - i,
    {
        let c = text.get_char(i);
        if !('0' <= c && c <= '9') {
            assert(d[i - start] == c);
            assert(!all_digits(d));
            return None;
        }
        let ghost prev = text@.subrange(start as int, i as int);
        let ghost next = text@.subrange(start as int, i + 1);
        assert(next =~= prev.push(c));
        proof {
            lemma_digits_push(prev, c);
            assert(all_digits(next));
            lemma_digits_fit(next);
        }
        value = value * 10 + (c as u64 - '0' as u64);
        i = i + 1;
    }
    Some(value)
}

/// Parses a decimal numeral without exponent.
fn parse_decimal(text: &str) -> (r: Option<Coordinate>)
    requires
        text@.len() <= MAX_NUMERAL_LEN,
    ensures
        r == decimal_of(text@),
        r is Some ==> -(MAX_NUMERAL_LEN as int) <= r.unwrap().exponent <= 0,
{
    let n = text.unicode_len();
    let mut start: usize = 0;
    let mut negative = false;
    if n > 0 {
        let c = text.get_char(0);
        if c == '+' {
            start = 1;
        } else if c == '-' {
            start = 1;
            negative = true;
        }
    }
    let ghost s = text@;
    let ghost b = s.skip(sign_len(s));
    assert(b =~= s.subrange(start as int, n as int));
    if start == n {
        assert(!is_point_at(b, 0));
        return None;
    }
    let mut mantissa: u64 = 0;
    let mut point: Option<usize> = None;
    let mut i: usize = start;
    while i < n
        invariant
            start <= i <= n,
            n == s.len(),
            s == text@,
            n <= MAX_NUMERAL_LEN,
            b == s.subrange(start as int, n as int),
            b == s.skip(sign_len(s)),
            point.is_none() ==> all_digits(s.subrange(start as int, i as int)) && mantissa as nat
                == digits_value(s.subrange(start as int, i as int)),
            point.is_some() ==> ({
                let p = point.unwrap() as int;
                &&& start <= p < i
                &&& s[p] == '.'
                &&& all_digits(s.subrange(start as int, p))
                &&& all_digits(s.subrange(p + 1, i as int))
                &&& mantissa as nat == digits_value(
                    s.subrange(start as int, p) + s.subrange(p + 1, i as int),
                )
            }),
        decreases n - i,
    {
        let c = text.get_char(i);
        if c == '.' {
            if point.is_some() {
                let p = point.unwrap();
                assert forall|d: int| !is_point_at(b, d) by {
                    if is_point_at(b, d) {
                        if d != p - start {
                            if d < p - start {
                                assert(b.skip(d + 1)[p - start - d - 1] == b[p - start]);
                            } else {
                                assert(b.take(d)[p - start] == b[p - start]);
                            }
                        } else {
                            assert(b.skip(d + 1)[i - start - d - 1] == b[i - start]);
                        }
                    }
                }
                assert(!all_digits(b) || b.len() == 0) by {
                    assert(b[i - start] == '.');
                }
                return None;
            }
            point = Some(i);
            assert(s.subrange(start as int, i as int) + s.subrange(i + 1, i + 1) =~= s.subrange(
                start as int,
                i as int,
            ));
        } else if '0' <= c && c <= '9' {
            let ghost prev = if point.is_none() {
                s.subrange(start as int, i as int)
            } else {
                s.subrange(start as int, point.unwrap() as int) + s.subrange(
                    point.unwrap() + 1,
                    i as int,
                )
            };
            let ghost next = if point.is_none() {
                s.subrange(start as int, i + 1)
            } else {
                s.subrange(start as int, point.unwrap() as int) + s.subrange(
                    point.unwrap() + 1,
                    i + 1,
                )
            };
            assert(next =~= prev.push(c));
            proof {
                lemma_digits_push(prev, c);
                assert(all_digits(next)) by {
                    assert forall|k: int| 0 <= k < next.len() implies is_digit(#[trigger] next[k]) by {
                        if k < prev.len() {
                            assert(next[k] == prev[k]);
                            if point.is_some() {
                                let p = point.unwrap() as int;
                                if k < p - start {
                                    assert(prev[k] == s.subrange(start as int, p)[k]);
                                } else {
                                    assert(prev[k] == s.subrange(p + 1, i as int)[k - (p - start)]);
                                }
                            } else {
                                assert(prev[k] == s.subrange(start as int, i as int)[k]);
                            }
                        }
                    }
                }
                lemma_digits_fit(next);
            }
            mantissa = mantissa * 10 + (c as u64 - '0' as u64);
            if point.is_some() {
                let p = point.unwrap();
                assert(s.subrange(p + 1, i + 1) =~= s.subrange(p + 1, i as int).push(c));
            } else {
                assert(s.subrange(start as int, i + 1) =~= s.subrange(start as int, i as int).push(c));
            }
        } else {
            assert forall|d: int| !is_point_at(b, d) by {
                if is_point_at(b, d) {
                    if i - start < d {
                        assert(b.take(d)[i - start] == b[i - start]);
                    } else if i - start > d {
                        assert(b.skip(d + 1)[i - start - d - 1] == b[i - start]);
                    }
                }
            }
            assert(!is_digit(b[i - start]));
            return None;
        }
        i = i + 1;
    }
    match point {
        None => {
            assert(b =~= s.subrange(start as int, i as int));
            Some(Coordinate { negative, mantissa, exponent: 0 })
        },
        Some(p) => {
            let ghost pd: int = p - start;
            assert(b.take(pd) =~= s.subrange(start as int, p as int));
            assert(b.skip(pd + 1) =~= s.subrange(p + 1, n as int));
            if n - start < 2 {
                assert forall|d: int| !is_point_at(b, d) by {}
                assert(!is_digit(b[0]));
                return None;
            }
            assert(is_point_at(b, pd));
            assert(!all_digits(b)) by {
                assert(!is_digit(b[pd]));
            }
            let ghost d = choose|d: int| is_point_at(b, d);
            assert(d == pd) by {
                if d < pd {
                    assert(b.skip(d + 1)[pd - d - 1] == b[pd]);
                } else if d > pd {
                    assert(b.take(d)[pd] == b[pd]);
                }
            }
            Some(Coordinate { negative, mantissa, exponent: -((n - p - 1) as i64) })
        },
    }
}

/// Whether `c` marks the start of an exponent.
pub open spec fn is_exponent_mark(c: char) -> bool {
    c == 'e' || c == 'E'
}

/// `k` is the first exponent mark of `s`.
pub open spec fn is_first_mark(s: Seq<char>, k: int) -> bool {
    &&& 0 <= k < s.len()
    &&& is_exponent_mark(s[k])
    &&& forall|j: int| 0 <= j < k ==> !is_exponent_mark(#[trigger] s[j])
}

/// An exponent: an optional sign, then one or more digits.
pub open spec fn exponent_of(s: Seq<char>) -> Option<int> {
    let d = s.skip(sign_len(s));
    if d.len() > 0 && all_digits(d) {
        if s[0] == '-' {
            Some(-digits_value(d))
        } else {
            Some(digits_value(d) as int)
        }
    } else {
        None
    }
}

/// A numeral: a decimal numeral without exponent, then optionally `e` or `E` and an
/// exponent, which scales the number by a power of ten.
pub open spec fn coordinate_of(s: Seq<char>) -> Option<Coordinate> {
    if exists|k: int| is_first_mark(s, k) {
        let k = choose|k: int| is_first_mark(s, k);
        match (decimal_of(s.take(k)), exponent_of(s.skip(k + 1))) {
            (Some(d), Some(e)) => Some(
                Coordinate {
                    negative: d.negative,
                    mantissa: d.mantissa,
                    exponent: (d.exponent + e) as i64,
                },
            ),
            _ => None,
        }
    } else {
        decimal_of(s)
    }
}

/// Parses an exponent: an optional `+` or `-`, then one or more digits.
fn parse_exponent(text: &str) -> (r: Option<i64>)
    requires
        text@.len() <= MAX_NUMERAL_LEN,
    ensures
        r.is_some() == exponent_of(text@).is_some(),
        r.is_some() ==> r.unwrap() == exponent_of(text@).unwrap(),
        r.is_some() ==> -1_000_000_000_000_000_000 < r.unwrap() < 1_000_000_000_000_000_000,
{
    let ghost s = text@;
    let n = text.unicode_len();
    if n == 0 {
        return None;
    }
    let first = text.get_char(0);
    let start: usize = if first == '+' || first == '-' {
        1
    } else {
        0
    };
    let digits = text.substring_char(start, n);
    assert(digits@ =~= s.skip(sign_len(s)));
    if start < n && digits.get_char(0) == '+' {
        assert(!is_digit(digits@[0]));
        return None;
    }
    assert(digits@.len() > 0 && digits@[0] == '+' ==> !all_digits(digits@));
    match parse_unsigned(digits) {
        None => None,
        Some(v) => {
            proof {
                lemma_digits_fit(digits@);
            }
            if first == '-' {
                Some(-(v as i64))
            } else {
                Some(v as i64)
            }
        },
    }
}

/// Parses a numeral: an optional `+` or `-`, then digits with at most one decimal point
/// and at least one digit, then optionally `e` or `E` and an exponent with an optional
/// sign. The number is kept exactly, as its digits and a power of ten.
pub fn parse_coordinate(text: &str) -> (r: Option<Coordinate>)
    requires
        text@.len() <= MAX_NUMERAL_LEN,
    ensures
        r == coordinate_of(text@),
{
    let ghost s = text@;
    let n = text.unicode_len();
    let mut k: usize = 0;
    while k < n && !(text.get_char(k) == 'e' || text.get_char(k) == 'E')
        invariant
            k <= n,
            n == s.len(),
            s == text@,
            forall|j: int| 0 <= j < k ==> !is_exponent_mark(#[trigger] s[j]),
        decreases n - k,
    {
        k = k + 1;
    }
    if k == n {
        assert forall|m: int| !is_first_mark(s, m) by {
            if 0 <= m < s.len() {
                assert(!is_exponent_mark(s[m]));
            }
        }
        return parse_decimal(text);
    }
    assert(is_first_mark(s, k as int));
    let ghost c = choose|m: int| is_first_mark(s, m);
    assert(c == k) by {
        if c < k {
            assert(!is_exponent_mark(s[c]));
        } else if c > k {
            assert(!is_exponent_mark(s[k as int]));
        }
    }
    let head = text.substring_char(0, k);
    let tail = text.substring_char(k + 1, n);
    assert(head@ =~= s.take(k as int));
    assert(tail@ =~= s.skip(k + 1));
    match (parse_decimal(head), parse_exponent(tail)) {
        (Some(d), Some(e)) => Some(
            Coordinate { negative: d.negative, mantissa: d.mantissa, exponent: d.exponent + e },
        ),
        _ => None,
    }
}

} // verus!
