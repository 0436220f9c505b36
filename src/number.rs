//! Fixed-point decimal values and the numeric expression reader.
//!
//! Every quantity of a layout is held as a whole number of thousandths of a
//! page unit, so `12.5` is held as `12500`.
use vstd::prelude::*;

verus! {

/// Thousandths per page unit.
pub const SCALE: i64 = 1000;

/// The largest magnitude a value may have, in thousandths.
pub const MAX_VALUE: i64 = 1_000_000_000_000_000;

/// Why a numeric token was refused.
#[derive(Debug, Clone, Copy, PartialEq, Eq, Structural)]
pub enum NumberError {
    /// The token is not a decimal number.
    Malformed,
    /// The token, or the value computed from it, exceeds `MAX_VALUE`.
    OutOfRange,
}

pub open spec fn in_range(v: int) -> bool {
    -MAX_VALUE <= v <= MAX_VALUE
}

pub open spec fn is_digit(c: char) -> bool {
    '0' <= c && c <= '9'
}

pub open spec fn digit_value(c: char) -> int {
    c as int - '0' as int
}

pub open spec fn all_digits(s: Seq<char>) -> bool {
    forall|i: int| 0 <= i < s.len() ==> is_digit(#[trigger] s[i])
}

/// The natural number written by a string of decimal digits.
pub open spec fn digits_value(s: Seq<char>) -> int
    decreases s.len(),
{
    if s.len() == 0 {
        0
    } else {
        digits_value(s.drop_last()) * 10 + digit_value(s.last())
    }
}

/// `s` is `int_part . frac_part` with the point at index `k`.
pub open spec fn point_at(s: Seq<char>, k: int) -> bool {
    &&& 0 <= k < s.len()
    &&& s[k] == '.'
    &&& all_digits(s.take(k))
    &&& all_digits(s.skip(k + 1))
    &&& s.len() > 1
}

pub open spec fn is_exp_mark(c: char) -> bool {
    c == 'e' || c == 'E'
}

/// The index of the first exponent mark at or after `i`, or the length.
pub open spec fn find_mark(u: Seq<char>, i: int) -> int
    decreases u.len() - i,
{
    if i >= u.len() {
        u.len() as int
    } else if is_exp_mark(u[i]) {
        i
    } else {
        find_mark(u, i + 1)
    }
}

/// The digits of a mantissa (digits, optionally a point and more digits, at
/// least one digit in all) with the point taken out, and how many of them
/// follow the point.
pub open spec fn mantissa_digits(m: Seq<char>) -> Option<(Seq<char>, int)> {
    if m.len() > 0 && all_digits(m) {
        Some((m, 0))
    } else if exists|k: int| point_at(m, k) {
        let k = choose|k: int| point_at(m, k);
        Some((m.take(k) + m.skip(k + 1), m.len() - k - 1))
    } else {
        None
    }
}

/// The value of an exponent: digits with an optional sign.
pub open spec fn exponent_value(x: Seq<char>) -> Option<int> {
    if x.len() > 0 && (x[0] == '+' || x[0] == '-') {
        let d = x.drop_first();
        if d.len() > 0 && all_digits(d) {
            Some(
                if x[0] == '-' {
                    -digits_value(d)
                } else {
                    digits_value(d)
                },
            )
        } else {
            None
        }
    } else if x.len() > 0 && all_digits(x) {
        Some(digits_value(x))
    } else {
        None
    }
}

/// The digits `d` moved `p` places: `p` zeros appended, or the last `-p`
/// digits dropped.
pub open spec fn shifted(d: Seq<char>, p: int) -> Seq<char> {
    if p >= 0 {
        d + Seq::new(p as nat, |i: int| '0')
    } else if d.len() + p >= 0 {
        d.take(d.len() + p)
    } else {
        Seq::empty()
    }
}

/// The value, in thousandths, of an unsigned decimal literal: a mantissa,
/// then optionally `e` or `E` and an exponent with an optional sign. The
/// value is the literal's number times a thousand with any fraction dropped,
/// so `1.5e-2` is `15` and `1.23456` is `1234`. Words such as `inf` or `nan`
/// are no literal here: no fixed-point value holds them.
pub open spec fn unsigned_value(u: Seq<char>) -> Option<int> {
    let m = find_mark(u, 0);
    let e = if m < u.len() {
        exponent_value(u.skip(m + 1))
    } else {
        Some(0int)
    };
    match mantissa_digits(u.take(m)) {
        Some((d, f)) => match e {
            Some(e) => Some(digits_value(shifted(d, 3 + e - f))),
            None => None,
        },
        None => None,
    }
}

/// The value, in thousandths, of a decimal with an optional sign.
pub open spec fn number_value(s: Seq<char>) -> Option<int> {
    if s.len() > 0 && s[0] == '+' {
        unsigned_value(s.drop_first())
    } else if s.len() > 0 && s[0] == '-' {
        match unsigned_value(s.drop_first()) {
            Some(v) => Some(-v),
            None => None,
        }
    } else {
        unsigned_value(s)
    }
}

/// What `parse_number` returns for `s`.
pub open spec fn number_result(s: Seq<char>) -> Result<int, NumberError> {
    match number_value(s) {
        None => Err(NumberError::Malformed),
        Some(v) => if in_range(v) {
            Ok(v)
        } else {
            Err(NumberError::OutOfRange)
        },
    }
}

/// The operand of an expression token: after a leading `+` or `-`, the rest
/// of the token; otherwise the whole token.
pub open spec fn operand_text(t: Seq<char>) -> Seq<char> {
    if t.len() > 0 && (t[0] == '+' || t[0] == '-') {
        t.drop_first()
    } else {
        t
    }
}

/// The value of an expression token against the current value `c`, given the
/// value `v` of its operand.
pub open spec fn combine(t: Seq<char>, c: int, v: int) -> int {
    if t.len() > 0 && t[0] == '+' {
        c + v
    } else if t.len() > 0 && t[0] == '-' {
        c - v
    } else {
        v
    }
}

/// What `read_value` returns for token `t` and current value `c`.
pub open spec fn read_result(t: Seq<char>, c: int) -> Result<int, NumberError> {
    if t.len() == 0 {
        Ok(c)
    } else {
        match number_result(operand_text(t)) {
            Err(e) => Err(e),
            Ok(v) => if in_range(combine(t, c, v)) {
                Ok(combine(t, c, v))
            } else {
                Err(NumberError::OutOfRange)
            },
        }
    }
}


/// A result of the library's fixed-point readers, with the value as an `int`.
pub open spec fn widen(r: Result<i64, NumberError>) -> Result<int, NumberError> {
    match r {
        Ok(v) => Ok(v as int),
        Err(e) => Err(e),
    }
}

/// Reads a decimal number with an optional leading sign, in thousandths.
pub fn parse_number(s: &str) -> (r: Result<i64, NumberError>)
    ensures
        widen(r) == number_result(s@),
{
    let cs = chars_of(s);
    proof {
        assert(cs@.skip(0) =~= cs@);
    }
    signed_from(&cs, 0)
}

/// Reads the signed decimal `s[start..]`.
fn signed_from(s: &Vec<char>, start: usize) -> (r: Result<i64, NumberError>)
    requires
        start <= s@.len(),
    ensures
        widen(r) == number_result(s@.skip(start as int)),
{
    let ghost t = s@.skip(start as int);
    proof {
        if t.len() > 0 {
            assert(t[0] == s@[start as int]);
        }
    }
    if start < s.len() && (s[start] == '+' || s[start] == '-') {
        proof {
            assert(t.drop_first() =~= s@.skip(start + 1));
        }
        let neg = s[start] == '-';
        match parse_unsigned(s, start + 1) {
            Ok(v) => if neg {
                Ok(-v)
            } else {
                Ok(v)
            },
            Err(e) => Err(e),
        }
    } else {
        parse_unsigned(s, start)
    }
}

/// Reads an expression token against the current value: an empty token keeps
/// `current`, `+n` adds `n` to it, `-n` takes `n` from it, and any other
/// token is an absolute value.
pub fn read_value(token: &str, current: i64) -> (r: Result<i64, NumberError>)
    requires
        in_range(current as int),
    ensures
        widen(r) == read_result(token@, current as int),
{
    let cs = chars_of(token);
    if cs.len() == 0 {
        return Ok(current);
    }
    let relative = cs[0] == '+' || cs[0] == '-';
    let start: usize = if relative { 1 } else { 0 };
    proof {
        if !relative {
            assert(cs@.skip(0) =~= cs@);
        }
    }
    let v = signed_from(&cs, start)?;
    let r = if cs[0] == '+' {
        current + v
    } else if cs[0] == '-' {
        current - v
    } else {
        v
    };
    if r < -MAX_VALUE || r > MAX_VALUE {
        return Err(NumberError::OutOfRange);
    }
    Ok(r)
}

/// The four forms of an expression token: an empty token keeps the current
/// value; `+` followed by a number adds it; `-` followed by a number takes it
/// away; a number alone replaces the current value, whatever that was.
pub proof fn lemma_read_value_forms(t: Seq<char>, c: int, c2: int)
    requires
        in_range(c),
        in_range(c2),
        number_result(t) is Ok,
        t.len() > 0 ==> t[0] != '+' && t[0] != '-',
    ensures
        read_result(Seq::<char>::empty(), c) == Ok::<int, NumberError>(c),
        in_range(c + number_result(t)->Ok_0) ==> read_result(seq!['+'] + t, c)
            == Ok::<int, NumberError>(c + number_result(t)->Ok_0),
        in_range(c - number_result(t)->Ok_0) ==> read_result(seq!['-'] + t, c)
            == Ok::<int, NumberError>(c - number_result(t)->Ok_0),
        read_result(t, c) == read_result(t, c2),
        read_result(t, c) == number_result(t),
{
    assert((seq!['+'] + t).drop_first() =~= t);
    assert((seq!['-'] + t).drop_first() =~= t);
    assert((seq!['+'] + t)[0] == '+');
    assert((seq!['-'] + t)[0] == '-');
    if t.len() == 0 {
        assert(number_value(t) is None);
    }
}

/// A relative increase is undone by the same relative decrease.
pub proof fn lemma_relative_round_trip(t: Seq<char>, c: int)
    requires
        in_range(c),
        number_result(t) is Ok,
        in_range(c + number_result(t)->Ok_0),
        t.len() > 0 ==> t[0] != '+' && t[0] != '-',
    ensures
        read_result(seq!['+'] + t, c) == Ok::<int, NumberError>(c + number_result(t)->Ok_0),
        read_result(seq!['-'] + t, c + number_result(t)->Ok_0) == Ok::<int, NumberError>(c),
{
    let v = number_result(t)->Ok_0;
    lemma_read_value_forms(t, c, c);
    lemma_read_value_forms(t, c + v, c + v);
}

pub open spec fn min_int(a: int, b: int) -> int {
    if a <= b { a } else { b }
}

proof fn lemma_point_unique(s: Seq<char>, k1: int, k2: int)
    requires
        point_at(s, k1),
        point_at(s, k2),
    ensures
        k1 == k2,
{
    if k1 < k2 {
        assert(s.take(k2)[k1] == s[k1]);
        assert(is_digit(s.take(k2)[k1]));
    } else if k2 < k1 {
        assert(s.take(k1)[k2] == s[k2]);
        assert(is_digit(s.take(k1)[k2]));
    }
}

/// The characters of `s`, in order.
pub fn chars_of(s: &str) -> (r: Vec<char>)
    ensures
        r@ == s@,
{
    let n = s.unicode_len();
    let mut r: Vec<char> = Vec::new();
    let mut i: usize = 0;
    while i < n
        invariant
            n == s@.len(),
            i <= n,
            r@ == s@.take(i as int),
        decreases n - i,
    {
        r.push(s.get_char(i));
        i = i + 1;
        proof {
            assert(r@ =~= s@.take(i as int));
        }
    }
    proof {
        assert(s@.take(n as int) =~= s@);
    }
    r
}

/// Powers of ten.
pub open spec fn pow10(k: nat) -> int
    decreases k,
{
    if k == 0 {
        1
    } else {
        10 * pow10((k - 1) as nat)
    }
}

/// The bound past which an exponent's own size no longer matters.
pub const EXP_CAP: i128 = 0x10_0000_0000_0000_0000_0000_0000;

pub open spec fn clamp(e: int, c: int) -> int {
    if e > c {
        c
    } else if e < -c {
        -c
    } else {
        e
    }
}

proof fn lemma_pow10_grows(k: nat, j: nat)
    requires
        k <= j,
    ensures
        1 <= pow10(k) <= pow10(j),
    decreases j,
{
    if k < j {
        lemma_pow10_grows(k, (j - 1) as nat);
    } else if k > 0 {
        lemma_pow10_grows((k - 1) as nat, (k - 1) as nat);
    }
}

proof fn lemma_digits_nonneg(s: Seq<char>)
    requires
        all_digits(s),
    ensures
        digits_value(s) >= 0,
    decreases s.len(),
{
    if s.len() > 0 {
        assert(all_digits(s.drop_last())) by {
            assert forall|j: int| 0 <= j < s.drop_last().len() implies is_digit(#[trigger] s.drop_last()[j]) by {
                assert(s.drop_last()[j] == s[j]);
            }
        }
        lemma_digits_nonneg(s.drop_last());
        assert(is_digit(s[s.len() - 1]));
    }
}

/// Appending zeros multiplies by a power of ten.
proof fn lemma_digits_zeros(d: Seq<char>, k: nat)
    ensures
        digits_value(d + Seq::new(k, |i: int| '0')) == digits_value(d) * pow10(k),
    decreases k,
{
    let z = Seq::new(k, |i: int| '0');
    if k == 0 {
        assert(d + z =~= d);
    } else {
        let z0 = Seq::new((k - 1) as nat, |i: int| '0');
        lemma_digits_zeros(d, (k - 1) as nat);
        assert((d + z).drop_last() =~= d + z0);
        assert((d + z).last() == '0');
        assert(digits_value(d) * pow10((k - 1) as nat) * 10 == digits_value(d) * pow10(k)) by (nonlinear_arith)
            requires
                pow10(k) == 10 * pow10((k - 1) as nat),
        ;
    }
}

/// Where a shift is large enough either way, its exact size does not change
/// the capped value.
proof fn lemma_shift_clamp(d: Seq<char>, f: int, e: int, cap: int)
    requires
        all_digits(d),
        0 <= f <= d.len() <= 0x1_0000_0000_0000_0000,
        0 < cap <= 100_000_000_000_000_000,
    ensures
        min_int(digits_value(shifted(d, 3 + e - f)), cap) == min_int(
            digits_value(shifted(d, 3 + clamp(e, EXP_CAP as int) - f)),
            cap,
        ),
{
    let c = EXP_CAP as int;
    if e > c {
        let p1 = 3 + e - f;
        let p2 = 3 + c - f;
        lemma_digits_zeros(d, p1 as nat);
        lemma_digits_zeros(d, p2 as nat);
        lemma_pow10_grows(17, p1 as nat);
        lemma_pow10_grows(17, p2 as nat);
        lemma_digits_nonneg(d);
        reveal_with_fuel(pow10, 18);
        assert(pow10(17) == 100_000_000_000_000_000);
        let x = digits_value(d);
        let q1 = pow10(p1 as nat);
        let q2 = pow10(p2 as nat);
        let r = pow10(17);
        if x > 0 {
            assert(x * q1 >= r) by (nonlinear_arith)
                requires x >= 1, q1 >= r, r >= 0;
            assert(x * q2 >= r) by (nonlinear_arith)
                requires x >= 1, q2 >= r, r >= 0;
        } else {
            assert(x == 0);
            assert(x * q1 == 0) by (nonlinear_arith)
                requires x == 0;
            assert(x * q2 == 0) by (nonlinear_arith)
                requires x == 0;
        }
    } else if e < -c {
        assert(digits_value(Seq::<char>::empty()) == 0);
    }
}

/// The number written by the digits `s[a..b]`, or `cap` where it is larger.
fn digits_capped(s: &Vec<char>, a: usize, b: usize, cap: i128) -> (r: i128)
    requires
        a <= b <= s@.len(),
        all_digits(s@.subrange(a as int, b as int)),
        0 < cap <= EXP_CAP,
    ensures
        r == min_int(digits_value(s@.subrange(a as int, b as int)), cap as int),
        0 <= r <= cap,
{
    let mut acc: i128 = 0;
    let mut i: usize = a;
    while i < b
        invariant
            a <= i <= b <= s@.len(),
            all_digits(s@.subrange(a as int, b as int)),
            0 < cap <= EXP_CAP,
            0 <= acc <= cap,
            acc == min_int(digits_value(s@.subrange(a as int, i as int)), cap as int),
        decreases b - i,
    {
        let c = s[i];
        proof {
            assert(s@.subrange(a as int, b as int)[i - a] == c);
        }
        let d = (c as u32 - '0' as u32) as i128;
        let next = if acc * 10 + d < cap { acc * 10 + d } else { cap };
        proof {
            let x = digits_value(s@.subrange(a as int, i as int));
            assert(s@.subrange(a as int, i + 1).drop_last() =~= s@.subrange(a as int, i as int));
            assert(s@.subrange(a as int, i + 1).last() == c);
            assert(digits_value(s@.subrange(a as int, i + 1)) == x * 10 + digit_value(c));
            if x >= cap {
                assert(x * 10 + digit_value(c) >= cap) by (nonlinear_arith)
                    requires x >= cap, cap > 0, digit_value(c) >= 0;
            }
        }
        acc = next;
        i = i + 1;
    }
    acc
}

/// Whether `s[a..b]` is all digits.
fn all_digits_in(s: &Vec<char>, a: usize, b: usize) -> (r: bool)
    requires
        a <= b <= s@.len(),
    ensures
        r == all_digits(s@.subrange(a as int, b as int)),
{
    let mut i = a;
    while i < b
        invariant
            a <= i <= b <= s@.len(),
            forall|j: int| a <= j < i ==> is_digit(#[trigger] s@[j]),
        decreases b - i,
    {
        if s[i] < '0' || s[i] > '9' {
            proof {
                assert(s@.subrange(a as int, b as int)[i - a] == s@[i as int]);
            }
            return false;
        }
        i = i + 1;
    }
    proof {
        assert forall|j: int| 0 <= j < s@.subrange(a as int, b as int).len() implies is_digit(
            #[trigger] s@.subrange(a as int, b as int)[j],
        ) by {
            assert(s@.subrange(a as int, b as int)[j] == s@[a + j]);
        }
    }
    true
}

/// Appends `s[a..b]` to `v`.
fn push_range(v: &mut Vec<char>, s: &Vec<char>, a: usize, b: usize)
    requires
        a <= b <= s@.len(),
    ensures
        final(v)@ == old(v)@ + s@.subrange(a as int, b as int),
{
    let mut i = a;
    while i < b
        invariant
            a <= i <= b <= s@.len(),
            v@ == old(v)@ + s@.subrange(a as int, i as int),
        decreases b - i,
    {
        v.push(s[i]);
        i = i + 1;
        proof {
            assert(v@ =~= old(v)@ + s@.subrange(a as int, i as int));
        }
    }
}

/// Reads the mantissa `s[start..end]`.
fn read_mantissa(s: &Vec<char>, start: usize, end: usize) -> (r: Option<(Vec<char>, usize)>)
    requires
        start <= end <= s@.len(),
    ensures
        r is None <==> mantissa_digits(s@.subrange(start as int, end as int)) is None,
        r matches Some((d, f)) ==> mantissa_digits(s@.subrange(start as int, end as int)) == Some(
            (d@, f as int),
        ) && all_digits(d@) && f <= d@.len(),
{
    let ghost u = s@.subrange(start as int, end as int);
    let mut dot: Option<usize> = None;
    let mut i: usize = start;
    while i < end
        invariant
            start <= i <= end <= s@.len(),
            u == s@.subrange(start as int, end as int),
            dot matches Some(d) ==> start <= d < i && s@[d as int] == '.'
                && all_digits(s@.subrange(start as int, d as int))
                && all_digits(s@.subrange(d + 1, i as int)),
            dot is None ==> all_digits(s@.subrange(start as int, i as int)),
        decreases end - i,
    {
        let c = s[i];
        if c == '.' {
            if dot.is_some() {
                proof {
                    let d = dot->0;
                    assert(!is_digit(c));
                    assert forall|k: int| point_at(u, k) implies false by {
                        if k < d - start {
                            assert(u.skip(k + 1)[d - start - k - 1] == s@[d as int]);
                        } else if k > d - start {
                            assert(u.take(k)[d - start] == s@[d as int]);
                        } else {
                            assert(u.skip(k + 1)[i - start - k - 1] == c);
                        }
                    }
                    assert(u[i - start] == c);
                    assert(!all_digits(u));
                }
                return None;
            }
            dot = Some(i);
            proof {
                assert(s@.subrange(i + 1, i + 1) =~= Seq::<char>::empty());
            }
        } else if c < '0' || c > '9' {
            proof {
                assert(u[i - start] == c);
                assert(!all_digits(u));
                assert forall|k: int| point_at(u, k) implies false by {
                    if k < i - start {
                        assert(u.skip(k + 1)[i - start - k - 1] == c);
                    } else if k > i - start {
                        assert(u.take(k)[i - start] == c);
                    }
                }
            }
            return None;
        } else {
            proof {
                if dot is Some {
                    let d = dot->0;
                    assert forall|j: int| 0 <= j < s@.subrange(d + 1, i + 1).len() implies is_digit(
                        #[trigger] s@.subrange(d + 1, i + 1)[j],
                    ) by {
                        if j < i - d - 1 {
                            assert(s@.subrange(d + 1, i + 1)[j] == s@.subrange(d + 1, i as int)[j]);
                        }
                    }
                } else {
                    assert forall|j: int| 0 <= j < s@.subrange(start as int, i + 1).len() implies is_digit(
                        #[trigger] s@.subrange(start as int, i + 1)[j],
                    ) by {
                        if j < i - start {
                            assert(s@.subrange(start as int, i + 1)[j] == s@.subrange(start as int, i as int)[j]);
                        }
                    }
                }
            }
        }
        i = i + 1;
    }
    match dot {
        None => {
            if start == end {
                proof {
                    assert forall|k: int| point_at(u, k) implies false by {}
                }
                return None;
            }
            let mut d: Vec<char> = Vec::new();
            push_range(&mut d, s, start, end);
            proof {
                assert(d@ =~= u);
            }
            Some((d, 0))
        },
        Some(k) => {
            proof {
                assert(u.take(k - start) =~= s@.subrange(start as int, k as int));
                assert(u.skip(k - start + 1) =~= s@.subrange(k + 1, end as int));
                assert(u[k - start] == '.');
                assert(!is_digit(u[k - start]));
            }
            if end - start == 1 {
                proof {
                    assert forall|j: int| point_at(u, j) implies false by {}
                }
                return None;
            }
            proof {
                assert(point_at(u, k - start));
                let j = choose|j: int| point_at(u, j);
                lemma_point_unique(u, j, k - start);
            }
            let mut d: Vec<char> = Vec::new();
            push_range(&mut d, s, start, k);
            push_range(&mut d, s, k + 1, end);
            proof {
                assert(d@ =~= u.take(k - start) + u.skip(k - start + 1));
                assert forall|j: int| 0 <= j < d@.len() implies is_digit(#[trigger] d@[j]) by {
                    if j < k - start {
                        assert(d@[j] == u.take(k - start)[j]);
                    } else {
                        assert(d@[j] == u.skip(k - start + 1)[j - (k - start)]);
                    }
                }
            }
            Some((d, end - k - 1))
        },
    }
}

/// Reads the exponent `s[a..b]`, its size clamped to `EXP_CAP`.
fn read_exponent(s: &Vec<char>, a: usize, b: usize) -> (r: Option<i128>)
    requires
        a <= b <= s@.len(),
    ensures
        r is None <==> exponent_value(s@.subrange(a as int, b as int)) is None,
        r matches Some(v) ==> v == clamp(
            exponent_value(s@.subrange(a as int, b as int))->Some_0,
            EXP_CAP as int,
        ),
{
    let ghost x = s@.subrange(a as int, b as int);
    let signed = a < b && (s[a] == '+' || s[a] == '-');
    let neg = a < b && s[a] == '-';
    let from = if signed { a + 1 } else { a };
    proof {
        if a < b {
            assert(x[0] == s@[a as int]);
        }
        if signed {
            assert(x.drop_first() =~= s@.subrange(from as int, b as int));
        } else {
            assert(x =~= s@.subrange(from as int, b as int));
        }
    }
    if from == b || !all_digits_in(s, from, b) {
        return None;
    }
    let v = digits_capped(s, from, b, EXP_CAP);
    proof {
        lemma_digits_nonneg(s@.subrange(from as int, b as int));
    }
    if neg {
        Some(-v)
    } else {
        Some(v)
    }
}

/// The digits `d` moved `p` places, or `cap` where that is larger.
fn shifted_capped(d: &Vec<char>, p: i128, cap: i128) -> (r: i128)
    requires
        all_digits(d@),
        0 < cap <= 100_000_000_000_000_000,
    ensures
        r == min_int(digits_value(shifted(d@, p as int)), cap as int),
        0 <= r <= cap,
{
    let n = d.len();
    proof {
        assert(d@.subrange(0, n as int) =~= d@);
    }
    if p < 0 {
        if (n as i128) + p < 0 {
            proof {
                assert(digits_value(Seq::<char>::empty()) == 0);
            }
            return 0;
        }
        let keep = ((n as i128) + p) as usize;
        proof {
            assert(d@.subrange(0, keep as int) =~= d@.take(keep as int));
            assert forall|j: int| 0 <= j < keep implies is_digit(#[trigger] d@.subrange(0, keep as int)[j]) by {
                assert(d@.subrange(0, keep as int)[j] == d@[j]);
            }
        }
        return digits_capped(d, 0, keep, cap);
    }
    let mut acc = digits_capped(d, 0, n, cap);
    let ghost x = digits_value(d@);
    proof {
        lemma_digits_nonneg(d@);
    }
    let mut k: i128 = 0;
    while k < p && acc > 0 && acc < cap
        invariant
            0 <= k <= p,
            0 < cap <= 100_000_000_000_000_000,
            x >= 0,
            0 <= acc <= cap,
            acc == min_int(x * pow10(k as nat), cap as int),
        decreases p - k,
    {
        proof {
            let y = x * pow10(k as nat);
            assert(pow10((k + 1) as nat) == 10 * pow10(k as nat));
            assert(x * pow10((k + 1) as nat) == y * 10) by (nonlinear_arith)
                requires pow10((k + 1) as nat) == 10 * pow10(k as nat), y == x * pow10(k as nat);
        }
        acc = if acc * 10 < cap { acc * 10 } else { cap };
        k = k + 1;
    }
    proof {
        lemma_digits_zeros(d@, p as nat);
        lemma_pow10_grows(k as nat, p as nat);
        let a = pow10(k as nat);
        let b = pow10(p as nat);
        let y = x * a;
        let z = x * b;
        assert(y <= z) by (nonlinear_arith)
            requires x >= 0, a <= b, y == x * a, z == x * b;
        if acc == 0 {
            assert(x == 0) by (nonlinear_arith)
                requires x >= 0, a >= 1, x * a == 0;
            assert(z == 0) by (nonlinear_arith)
                requires x == 0, z == x * b;
        }
    }
    acc
}

/// What `parse_unsigned` returns for `u`.
pub open spec fn unsigned_result(u: Seq<char>) -> Result<int, NumberError> {
    match unsigned_value(u) {
        None => Err(NumberError::Malformed),
        Some(v) => if v <= MAX_VALUE {
            Ok(v)
        } else {
            Err(NumberError::OutOfRange)
        },
    }
}

/// Reads the unsigned decimal literal `s[start..]`.
fn parse_unsigned(s: &Vec<char>, start: usize) -> (r: Result<i64, NumberError>)
    requires
        start <= s@.len(),
    ensures
        widen(r) == unsigned_result(s@.skip(start as int)),
        r matches Ok(v) ==> 0 <= v <= MAX_VALUE,
{
    let n = s.len();
    let ghost u = s@.skip(start as int);
    let mut m = start;
    while m < n && !(s[m] == 'e' || s[m] == 'E')
        invariant
            start <= m <= n == s@.len(),
            u == s@.skip(start as int),
            find_mark(u, 0) == find_mark(u, m - start),
        decreases n - m,
    {
        proof {
            assert(u[m - start] == s@[m as int]);
        }
        m = m + 1;
    }
    proof {
        if m < n {
            assert(u[m - start] == s@[m as int]);
        }
        assert(find_mark(u, 0) == m - start);
        assert(u.take(m - start) =~= s@.subrange(start as int, m as int));
        if m < n {
            assert(u.skip(m - start + 1) =~= s@.subrange(m + 1, n as int));
        }
    }
    let mant = read_mantissa(s, start, m);
    let e: Option<i128> = if m < n {
        read_exponent(s, m + 1, n)
    } else {
        Some(0)
    };
    let (d, f) = match mant {
        Some(x) => x,
        None => {
            return Err(NumberError::Malformed);
        },
    };
    let e = match e {
        Some(e) => e,
        None => {
            return Err(NumberError::Malformed);
        },
    };
    let dn = d.len();
    proof {
        let ev = if m < n {
            exponent_value(u.skip(m - start + 1))->Some_0
        } else {
            0int
        };
        assert(e == clamp(ev, EXP_CAP as int));
        lemma_shift_clamp(d@, f as int, ev, MAX_VALUE + 1);
    }
    let p: i128 = 3 + e - f as i128;
    let v = shifted_capped(&d, p, (MAX_VALUE + 1) as i128);
    if v > MAX_VALUE as i128 {
        return Err(NumberError::OutOfRange);
    }
    Ok(v as i64)
}

} // verus!
