use vstd::prelude::*;
use vstd::string::StrSliceExecFns;

verus! {

pub open spec fn is_digit(c: char) -> bool {
    '0' <= c && c <= '9'
}

pub open spec fn digit_value(c: char) -> int {
    c as int - '0' as int
}

pub open spec fn all_digits(s: Seq<char>) -> bool {
    forall|i: int| 0 <= i < s.len() ==> is_digit(#[trigger] s[i])
}

/// The number that a run of decimal digits spells.
pub open spec fn digits_value(s: Seq<char>) -> int
    decreases s.len(),
{
    if s.len() == 0 {
        0
    } else {
        digits_value(s.drop_last()) * 10 + digit_value(s.last())
    }
}

/// How many digits `s` starts with.
pub open spec fn leading_digits(s: Seq<char>) -> nat
    decreases s.len(),
{
    if s.len() > 0 && is_digit(s[0]) {
        1 + leading_digits(s.skip(1))
    } else {
        0
    }
}

pub open spec fn pow10(e: nat) -> int
    decreases e,
{
    if e == 0 {
        1
    } else {
        10 * pow10((e - 1) as nat)
    }
}

pub open spec fn has_sign(t: Seq<char>) -> bool {
    t.len() > 0 && (t[0] == '-' || t[0] == '+')
}

pub open spec fn unsigned_part(t: Seq<char>) -> Seq<char> {
    if has_sign(t) {
        t.skip(1)
    } else {
        t
    }
}

/// Exponents larger than this, either way, are refused.
pub const EXP_LIMIT: u64 = 99;

/// The largest magnitude read before rounding, in ten-thousandths: numbers whose whole part
/// exceeds a million are refused.
pub const SCALED_LIMIT: u64 = 10000009999;

/// The value of the `j`th digit of `d`, reading 0 before its start and past its end.
pub open spec fn digit_at(d: Seq<char>, j: int) -> int {
    if 0 <= j < d.len() {
        digit_value(d[j])
    } else {
        0
    }
}

/// The number spelled by the first `m` digits of `d`.
pub open spec fn prefix_value(d: Seq<char>, m: nat) -> int
    decreases m,
{
    if m == 0 {
        0
    } else {
        prefix_value(d, (m - 1) as nat) * 10 + digit_at(d, m - 1)
    }
}

/// The value in ten-thousandths of the digits `d` with the point after the first `p` of them
/// (`p` may lie before their start or past their end), rounded half away from zero.
pub open spec fn scaled_value(d: Seq<char>, p: int) -> Option<int> {
    let whole = if p + 4 >= 0 {
        prefix_value(d, (p + 4) as nat)
    } else {
        0
    };
    if whole > SCALED_LIMIT {
        None
    } else {
        Some(
            whole + if digit_at(d, p + 4) >= 5 {
                1int
            } else {
                0
            },
        )
    }
}

/// The power of ten that the text after the digits gives: an `e` or `E`, an optional sign and
/// digits; no text at all gives 0.
pub open spec fn exponent_of(r: Seq<char>) -> Option<int> {
    if r.len() == 0 {
        Some(0)
    } else if r[0] == 'e' || r[0] == 'E' {
        let s = r.skip(1);
        let ds = unsigned_part(s);
        if ds.len() >= 1 && all_digits(ds) && digits_value(ds) <= EXP_LIMIT {
            if s[0] == '-' {
                Some(-digits_value(ds))
            } else {
                Some(digits_value(ds))
            }
        } else {
            None
        }
    } else {
        None
    }
}

pub open spec fn has_point(b: Seq<char>, k: int) -> bool {
    k < b.len() && b[k] == '.'
}

/// How many digits follow the point after a whole part of `k` digits.
pub open spec fn frac_len(b: Seq<char>, k: int) -> int {
    if has_point(b, k) {
        leading_digits(b.skip(k + 1)) as int
    } else {
        0
    }
}

/// The digits before and after the point, without the point.
pub open spec fn mantissa(b: Seq<char>, k: int) -> Seq<char> {
    if has_point(b, k) {
        b.take(k) + b.subrange(k + 1, k + 1 + frac_len(b, k))
    } else {
        b.take(k)
    }
}

pub open spec fn mantissa_end(b: Seq<char>, k: int) -> int {
    if has_point(b, k) {
        k + 1 + frac_len(b, k)
    } else {
        k
    }
}

/// The value in ten-thousandths of the unsigned number `b`: digits with an optional point, at
/// least one digit in all, then an optional exponent.
pub open spec fn decimal_magnitude(b: Seq<char>) -> Option<int> {
    let k = leading_digits(b) as int;
    if k + frac_len(b, k) == 0 {
        None
    } else {
        match exponent_of(b.skip(mantissa_end(b, k))) {
            Some(e) => scaled_value(mantissa(b, k), k + e),
            None => None,
        }
    }
}

/// The value in ten-thousandths of the text `t`: an optional sign, then an unsigned number.
pub open spec fn parsed_decimal(t: Seq<char>) -> Option<int> {
    match decimal_magnitude(unsigned_part(t)) {
        Some(v) => if t.len() > 0 && t[0] == '-' {
            Some(-v)
        } else {
            Some(v)
        },
        None => None,
    }
}

proof fn lemma_take_all_digits(s: Seq<char>, i: int)
    requires
        0 <= i <= leading_digits(s),
    ensures
        all_digits(s.take(i)),
        leading_digits(s) <= s.len(),
    decreases s.len(),
{
    if s.len() > 0 && is_digit(s[0]) {
        if i > 0 {
            lemma_take_all_digits(s.skip(1), i - 1);
            assert forall|j: int| 0 <= j < i implies is_digit(#[trigger] s.take(i)[j]) by {
                if j > 0 {
                    assert(s.take(i)[j] == s.skip(1).take(i - 1)[j - 1]);
                }
            }
        } else {
            lemma_take_all_digits(s.skip(1), 0);
        }
    }
}

proof fn lemma_digits_step(s: Seq<char>, i: int)
    requires
        0 <= i < s.len(),
    ensures
        digits_value(s.take(i + 1)) == digits_value(s.take(i)) * 10 + digit_value(s[i]),
{
    assert(s.take(i + 1).drop_last() =~= s.take(i));
}

/// Reads the digits `s[from..to]`, giving their value, or `None` when it exceeds `limit`.
fn read_digits(s: &str, from: usize, to: usize, limit: u64) -> (r: Option<u64>)
    requires
        from <= to <= s@.len(),
        all_digits(s@.subrange(from as int, to as int)),
        limit <= EXP_LIMIT,
    ensures
        digits_value(s@.subrange(from as int, to as int)) <= limit ==> r == Some(
            digits_value(s@.subrange(from as int, to as int)) as u64,
        ),
        digits_value(s@.subrange(from as int, to as int)) > limit ==> r is None,
        r matches Some(w) ==> w <= limit && w as int == digits_value(
            s@.subrange(from as int, to as int),
        ),
{
    let ghost d = s@.subrange(from as int, to as int);
    let mut acc: u64 = 0;
    let mut i: usize = from;
    while i < to
        invariant
            from <= i <= to,
            to <= s@.len(),
            d == s@.subrange(from as int, to as int),
            all_digits(d),
            limit <= EXP_LIMIT,
            acc <= limit + 1,
            acc as int == if digits_value(d.take(i - from)) <= limit {
                digits_value(d.take(i - from))
            } else {
                limit + 1
            },
            digits_value(d.take(i - from)) >= 0,
        decreases to - i,
    {
        let c = s.get_char(i);
        proof {
            assert(c == d[i - from]);
            assert(is_digit(d[i - from]));
            lemma_digits_step(d, i - from);
            assert(d.take(i - from + 1) == d.take((i + 1) - from));
        }
        let dv = (c as u32 - '0' as u32) as u64;
        if acc > limit {
            acc = limit + 1;
        } else {
            let next = acc * 10 + dv;
            if next > limit {
                acc = limit + 1;
            } else {
                acc = next;
            }
        }
        i = i + 1;
    }
    proof {
        assert(d.take(to - from) =~= d);
        lemma_digits_bound(d);
    }
    if acc > limit {
        None
    } else {
        Some(acc)
    }
}

/// Counts the digits of `text` from `start` on.
fn leading_digit_end(text: &str, start: usize) -> (k: usize)
    requires
        start <= text@.len(),
    ensures
        start <= k <= text@.len(),
        k - start == leading_digits(text@.subrange(start as int, text@.len() as int)),
        all_digits(text@.subrange(start as int, k as int)),
{
    let ghost t = text@;
    let ghost b = t.subrange(start as int, t.len() as int);
    let len = text.unicode_len();
    let mut k: usize = start;
    proof {
        assert(b.skip(0) =~= b);
    }
    while k < len && is_ascii_digit(text.get_char(k))
        invariant
            start <= k <= len,
            len == t.len(),
            t == text@,
            b == t.subrange(start as int, len as int),
            leading_digits(b) == (k - start) + leading_digits(b.skip(k - start)),
        decreases len - k,
    {
        proof {
            let rest = b.skip(k - start);
            assert(rest[0] == t[k as int]);
            assert(rest.skip(1) =~= b.skip(k + 1 - start));
        }
        k = k + 1;
    }
    proof {
        let rest = b.skip(k - start);
        if k < len {
            assert(rest[0] == t[k as int]);
        }
        assert(leading_digits(rest) == 0);
        lemma_take_all_digits(b, (k - start) as int);
        assert(b.take(k - start) =~= t.subrange(start as int, k as int));
    }
    k
}

/// Whether `text[from..]` is all digits.
fn digits_to_end(text: &str, from: usize) -> (r: bool)
    requires
        from <= text@.len(),
    ensures
        r == all_digits(text@.subrange(from as int, text@.len() as int)),
{
    let ghost t = text@;
    let len = text.unicode_len();
    let mut j: usize = from;
    while j < len
        invariant
            from <= j <= len,
            len == t.len(),
            t == text@,
            all_digits(t.subrange(from as int, j as int)),
        decreases len - j,
    {
        if !is_ascii_digit(text.get_char(j)) {
            proof {
                assert(t.subrange(from as int, len as int)[j - from] == t[j as int]);
            }
            return false;
        }
        proof {
            assert forall|x: int| 0 <= x < j + 1 - from implies is_digit(
                #[trigger] t.subrange(from as int, j + 1)[x],
            ) by {
                if x < j - from {
                    assert(t.subrange(from as int, j + 1)[x] == t.subrange(from as int, j as int)[x]);
                }
            }
        }
        j = j + 1;
    }
    true
}

/// The exponent that `text[from..]` gives.
fn exponent_value(text: &str, from: usize) -> (r: Option<i64>)
    requires
        from <= text@.len(),
    ensures
        r matches Some(e) ==> exponent_of(text@.skip(from as int)) == Some(e as int),
        r is None ==> exponent_of(text@.skip(from as int)) is None,
        r matches Some(e) ==> -(EXP_LIMIT as int) <= e <= EXP_LIMIT,
{
    let ghost t = text@;
    let ghost r = t.skip(from as int);
    let len = text.unicode_len();
    if from == len {
        return Some(0);
    }
    let c = text.get_char(from);
    proof {
        assert(r[0] == t[from as int]);
    }
    if c != 'e' && c != 'E' {
        return None;
    }
    let ghost sr = r.skip(1);
    let mut s: usize = from + 1;
    let mut negative = false;
    if s < len {
        let c2 = text.get_char(s);
        proof {
            assert(sr[0] == t[s as int]);
        }
        if c2 == '-' {
            negative = true;
            s = s + 1;
        } else if c2 == '+' {
            s = s + 1;
        }
    }
    proof {
        assert(unsigned_part(sr) =~= t.subrange(s as int, len as int));
    }
    if s == len {
        return None;
    }
    if !digits_to_end(text, s) {
        return None;
    }
    match read_digits(text, s, len, EXP_LIMIT) {
        Some(v) => if negative {
            Some(-(v as i64))
        } else {
            Some(v as i64)
        },
        None => None,
    }
}

/// The digits of `text[start..k]`, and after the point those of `text[k + 1..fend]`.
pub open spec fn written_digits(t: Seq<char>, start: int, k: int, fend: int, point: bool) -> Seq<
    char,
> {
    if point {
        t.subrange(start, k) + t.subrange(k + 1, fend)
    } else {
        t.subrange(start, k)
    }
}

/// The value of the `j`th written digit, 0 past the last.
fn digit_of(text: &str, start: usize, k: usize, fend: usize, point: bool, j: u128) -> (r: u64)
    requires
        start <= k <= text@.len(),
        point ==> k + 1 <= fend <= text@.len(),
        !point ==> fend == k,
        all_digits(text@.subrange(start as int, k as int)),
        point ==> all_digits(text@.subrange(k + 1, fend as int)),
    ensures
        r as int == digit_at(written_digits(text@, start as int, k as int, fend as int, point), j as int),
        r <= 9,
{
    let ghost t = text@;
    let ghost d = written_digits(t, start as int, k as int, fend as int, point);
    let whole = (k - start) as u128;
    if j < whole {
        let c = text.get_char(start + j as usize);
        proof {
            assert(d[j as int] == t.subrange(start as int, k as int)[j as int]);
            assert(is_digit(t.subrange(start as int, k as int)[j as int]));
        }
        (c as u32 - '0' as u32) as u64
    } else if point && j < whole + (fend - k - 1) as u128 {
        let c = text.get_char(start + j as usize + 1);
        proof {
            let i = j - whole;
            assert(d[j as int] == t.subrange(k + 1, fend as int)[i as int]);
            assert(is_digit(t.subrange(k + 1, fend as int)[i as int]));
        }
        (c as u32 - '0' as u32) as u64
    } else {
        0
    }
}

/// The value in ten-thousandths of the written digits with the point after the first
/// `whole + e` of them.
fn scaled_digits(text: &str, start: usize, k: usize, fend: usize, point: bool, e: i64) -> (r: Option<i64>)
    requires
        start <= k <= text@.len(),
        point ==> k + 1 <= fend <= text@.len(),
        !point ==> fend == k,
        all_digits(text@.subrange(start as int, k as int)),
        point ==> all_digits(text@.subrange(k + 1, fend as int)),
        -(EXP_LIMIT as int) <= e <= EXP_LIMIT,
    ensures
        r matches Some(v) ==> scaled_value(
            written_digits(text@, start as int, k as int, fend as int, point),
            (k - start) + e,
        ) == Some(v as int) && 0 <= v <= SCALED_LIMIT + 1,
        r is None ==> scaled_value(
            written_digits(text@, start as int, k as int, fend as int, point),
            (k - start) + e,
        ) is None,
{
    let ghost d = written_digits(text@, start as int, k as int, fend as int, point);
    let top: i128 = (k - start) as i128 + e as i128 + 4;
    let mut acc: u64 = 0;
    let mut j: u128 = 0;
    while (j as i128) < top
        invariant
            j as int <= if top > 0 {
                top as int
            } else {
                0
            },
            top == (k - start) + e + 4,
            top <= usize::MAX + 104,
            start <= k <= text@.len(),
            point ==> k + 1 <= fend <= text@.len(),
            !point ==> fend == k,
            all_digits(text@.subrange(start as int, k as int)),
            point ==> all_digits(text@.subrange(k + 1, fend as int)),
            d == written_digits(text@, start as int, k as int, fend as int, point),
            prefix_value(d, j as nat) >= 0,
            acc as int == if prefix_value(d, j as nat) <= SCALED_LIMIT {
                prefix_value(d, j as nat)
            } else {
                SCALED_LIMIT + 1
            },
        decreases top - j,
    {
        let dg = digit_of(text, start, k, fend, point, j);
        if acc <= SCALED_LIMIT {
            let next = acc * 10 + dg;
            acc = if next > SCALED_LIMIT {
                SCALED_LIMIT + 1
            } else {
                next
            };
        }
        j = j + 1;
    }
    if acc > SCALED_LIMIT {
        return None;
    }
    let round: u64 = if top >= 0 {
        digit_of(text, start, k, fend, point, top as u128)
    } else {
        0
    };
    proof {
        if top >= 0 {
            assert(j as int == top);
        }
    }
    Some(
        acc as i64 + if round >= 5 {
            1i64
        } else {
            0
        },
    )
}

/// Reads an entered score as a whole number of ten-thousandths.
pub fn parse_decimal(text: &str) -> (r: Option<i64>)
    ensures
        r matches Some(v) ==> parsed_decimal(text@) == Some(v as int),
        r is None ==> parsed_decimal(text@) is None,
{
    let ghost t = text@;
    let len = text.unicode_len();
    let mut start: usize = 0;
    let mut negative = false;
    if len > 0 {
        let c = text.get_char(0);
        if c == '-' {
            negative = true;
            start = 1;
        } else if c == '+' {
            start = 1;
        }
    }
    let ghost b = unsigned_part(t);
    proof {
        assert(b =~= t.subrange(start as int, len as int));
    }
    let k = leading_digit_end(text, start);
    let ghost kk = (k - start) as int;
    let point = k < len && text.get_char(k) == '.';
    proof {
        if k < len {
            assert(b[kk] == t[k as int]);
        }
        assert(point == has_point(b, kk));
    }
    let fend = if point {
        leading_digit_end(text, k + 1)
    } else {
        k
    };
    proof {
        if point {
            assert(b.skip(kk + 1) =~= t.subrange(k + 1, len as int));
        }
        assert(frac_len(b, kk) == if point { fend - k - 1 } else { 0 });
        assert(mantissa(b, kk) =~= written_digits(t, start as int, k as int, fend as int, point));
        assert(mantissa_end(b, kk) == fend - start);
        assert(b.skip(fend - start) =~= t.skip(fend as int));
    }
    if k == start && (!point || fend == k + 1) {
        return None;
    }
    let e = match exponent_value(text, fend) {
        Some(e) => e,
        None => {
            return None;
        },
    };
    match scaled_digits(text, start, k, fend, point, e) {
        Some(v) => if negative {
            Some(-v)
        } else {
            Some(v)
        },
        None => None,
    }
}

fn is_ascii_digit(c: char) -> (r: bool)
    ensures
        r == is_digit(c),
{
    '0' <= c && c <= '9'
}

proof fn lemma_digits_bound(s: Seq<char>)
    requires
        all_digits(s),
    ensures
        0 <= digits_value(s) < pow10(s.len()),
    decreases s.len(),
{
    if s.len() > 0 {
        assert(all_digits(s.drop_last())) by {
            assert forall|i: int| 0 <= i < s.drop_last().len() implies is_digit(
                #[trigger] s.drop_last()[i],
            ) by {
                assert(s.drop_last()[i] == s[i]);
            }
        }
        lemma_digits_bound(s.drop_last());
        assert(is_digit(s[s.len() - 1]));
        assert(pow10(s.len()) == 10 * pow10((s.len() - 1) as nat));
    }
}

} // verus!
