use vstd::prelude::*;

verus! {

/// A decimal number: `mantissa` times ten to the power `exponent`, negated
/// where `negative` is set. It keeps the digits as written: `1.0400` is
/// mantissa 10400 with exponent -4.
#[derive(Debug, Copy, Clone, PartialEq, Eq, Structural)]
pub struct Decimal {
    pub negative: bool,
    pub mantissa: u64,
    pub exponent: i32,
}

/// An ASCII decimal digit.
pub open spec fn is_digit(c: u8) -> bool {
    0x30 <= c <= 0x39
}

/// Every byte is a decimal digit.
pub open spec fn all_digits(d: Seq<u8>) -> bool {
    forall|i: int| 0 <= i < d.len() ==> is_digit(#[trigger] d[i])
}

/// The value of a run of decimal digits.
pub open spec fn digits_value(d: Seq<u8>) -> nat
    decreases d.len(),
{
    if d.len() == 0 {
        0
    } else {
        digits_value(d.drop_last()) * 10 + (d.last() - 0x30) as nat
    }
}

/// The end of the run of digits that starts at `i`.
pub open spec fn digit_run(w: Seq<u8>, i: int) -> int
    decreases w.len() - i,
{
    if 0 <= i < w.len() && is_digit(w[i]) {
        digit_run(w, i + 1)
    } else {
        i
    }
}

/// An optional sign `+` or `-` followed by one or more digits: whether the
/// sign is `-`, and the value of the digits.
pub open spec fn magnitude(w: Seq<u8>) -> Option<(bool, nat)> {
    let negative = w.len() > 0 && w[0] == 0x2d;
    let d = if w.len() > 0 && (w[0] == 0x2b || w[0] == 0x2d) {
        w.drop_first()
    } else {
        w
    };
    if d.len() > 0 && all_digits(d) {
        Some((negative, digits_value(d)))
    } else {
        None
    }
}

/// A numeral for a `u32`: an optional `+`, then digits, of a value that fits.
pub open spec fn u32_numeral(w: Seq<u8>) -> Option<u32> {
    match magnitude(w) {
        Some((negative, v)) => if !negative && v <= u32::MAX {
            Some(v as u32)
        } else {
            None
        },
        None => None,
    }
}

/// A numeral for an `i32`: an optional `+` or `-`, then digits, of a value
/// that fits.
pub open spec fn i32_numeral(w: Seq<u8>) -> Option<i32> {
    match magnitude(w) {
        Some((negative, v)) => if negative && v <= 0x8000_0000 {
            Some((-v) as i32)
        } else if !negative && v <= i32::MAX {
            Some(v as i32)
        } else {
            None
        },
        None => None,
    }
}

/// A decimal numeral: an optional sign, digits with an optional `.` among
/// them (one digit at least), then optionally `e` or `E` and an `i32`
/// numeral. All digits together must fit in a `u64`, and the exponent, less
/// the number of digits after the `.`, in an `i32`.
pub open spec fn decimal_numeral(w: Seq<u8>) -> Option<Decimal> {
    let signed = w.len() > 0 && (w[0] == 0x2b || w[0] == 0x2d);
    let a: int = if signed {
        1
    } else {
        0
    };
    let b = digit_run(w, a);
    let c = if b < w.len() && w[b] == 0x2e {
        b + 1
    } else {
        b
    };
    let d = digit_run(w, c);
    let digits = w.subrange(a, b) + w.subrange(c, d);
    let exp = if d == w.len() {
        Some(0i32)
    } else if w[d] == 0x65 || w[d] == 0x45 {
        i32_numeral(w.subrange(d + 1, w.len() as int))
    } else {
        None
    };
    if digits.len() > 0 && exp is Some && digits_value(digits) <= u64::MAX && i32::MIN <= exp->0
        - (d - c) <= i32::MAX {
        Some(
            Decimal {
                negative: w.len() > 0 && w[0] == 0x2d,
                mantissa: digits_value(digits) as u64,
                exponent: (exp->0 - (d - c)) as i32,
            },
        )
    } else {
        None
    }
}

proof fn lemma_digit_run(w: Seq<u8>, i: int)
    requires
        0 <= i <= w.len(),
    ensures
        i <= digit_run(w, i) <= w.len(),
        forall|k: int| i <= k < digit_run(w, i) ==> is_digit(#[trigger] w[k]),
        digit_run(w, i) < w.len() ==> !is_digit(w[digit_run(w, i)]),
    decreases w.len() - i,
{
    if i < w.len() && is_digit(w[i]) {
        lemma_digit_run(w, i + 1);
    }
}

/// A prefix of a run of digits is worth no more than the run.
proof fn lemma_prefix_value(d: Seq<u8>, k: int)
    requires
        0 <= k <= d.len(),
    ensures
        digits_value(d.subrange(0, k)) <= digits_value(d),
    decreases d.len(),
{
    if k < d.len() {
        lemma_prefix_value(d.drop_last(), k);
        assert(d.drop_last().subrange(0, k) =~= d.subrange(0, k));
    } else {
        assert(d.subrange(0, k) =~= d);
    }
}

/// The end of the run of digits in `w` that starts at `i`.
fn scan_digits(w: &[u8], i: usize) -> (r: usize)
    requires
        i <= w@.len(),
    ensures
        r == digit_run(w@, i as int),
{
    let mut k = i;
    while k < w.len() && w[k] >= 0x30 && w[k] <= 0x39
        invariant
            i <= k <= w@.len(),
            digit_run(w@, k as int) == digit_run(w@, i as int),
        decreases w@.len() - k,
    {
        k += 1;
    }
    k
}

/// Appends the digits `w[from..to]` to `acc`, the value of `pre`: the value
/// of `pre` followed by those digits, where it is at most `limit`.
fn accumulate(w: &[u8], from: usize, to: usize, acc: u64, limit: u64, Ghost(pre): Ghost<Seq<u8>>) -> (r:
    Option<u64>)
    requires
        from <= to <= w@.len(),
        forall|k: int| from <= k < to ==> is_digit(#[trigger] w@[k]),
        acc == digits_value(pre),
        acc <= limit,
        9 <= limit,
    ensures
        ({
            let v = digits_value(pre + w@.subrange(from as int, to as int));
            if v <= limit {
                r == Some(v as u64)
            } else {
                r is None
            }
        }),
{
    let ghost all = pre + w@.subrange(from as int, to as int);
    let mut v = acc;
    let mut k = from;
    assert(pre + w@.subrange(from as int, from as int) =~= pre);
    while k < to
        invariant
            from <= k <= to <= w@.len(),
            forall|j: int| from <= j < to ==> is_digit(#[trigger] w@[j]),
            all == pre + w@.subrange(from as int, to as int),
            v == digits_value(pre + w@.subrange(from as int, k as int)),
            v <= limit,
            9 <= limit,
        decreases to - k,
    {
        let ghost before = pre + w@.subrange(from as int, k as int);
        let ghost after = pre + w@.subrange(from as int, k + 1);
        assert(after.drop_last() =~= before);
        assert(after.last() == w@[k as int]);
        let dig = (w[k] - 0x30) as u64;
        assert(is_digit(w@[k as int]));
        if v > (limit - dig) / 10 {
            assert(v * 10 + dig > limit) by (nonlinear_arith)
                requires
                    v > (limit - dig) / 10,
                    dig <= limit,
            {}
            assert(after =~= all.subrange(0, after.len() as int));
            proof {
                lemma_prefix_value(all, after.len() as int);
            }
            return None;
        }
        assert(v * 10 + dig <= limit) by (nonlinear_arith)
            requires
                v <= (limit - dig) / 10,
                dig <= limit,
        {}
        v = v * 10 + dig;
        k += 1;
    }
    Some(v)
}

/// The sign and value of the numeral `w[from..]`, where the value is at
/// most `limit`.
fn scan_magnitude(w: &[u8], from: usize, limit: u64) -> (r: Option<(bool, u64)>)
    requires
        from <= w@.len(),
        9 <= limit,
    ensures
        match magnitude(w@.subrange(from as int, w@.len() as int)) {
            Some((negative, v)) => if v <= limit {
                r == Some((negative, v as u64))
            } else {
                r is None
            },
            None => r is None,
        },
{
    let ghost s = w@.subrange(from as int, w@.len() as int);
    let n = w.len();
    let signed = from < n && (w[from] == 0x2b || w[from] == 0x2d);
    let negative = from < n && w[from] == 0x2d;
    let a = if signed {
        from + 1
    } else {
        from
    };
    let ghost d = w@.subrange(a as int, n as int);
    assert(d =~= (if signed {
        s.drop_first()
    } else {
        s
    }));
    let b = scan_digits(w, a);
    proof {
        lemma_digit_run(w@, a as int);
    }
    if b != n || b == a {
        if b < n {
            assert(d[b - a] == w@[b as int]);
            assert(!is_digit(d[b - a]));
        }
        return None;
    }
    assert(all_digits(d));
    assert(Seq::<u8>::empty() + d =~= d);
    match accumulate(w, a, n, 0, limit, Ghost(Seq::empty())) {
        Some(v) => Some((negative, v)),
        None => None,
    }
}

/// Reads a `u32` numeral: an optional `+`, then digits.
pub fn parse_u32(w: &[u8]) -> (r: Option<u32>)
    ensures
        r == u32_numeral(w@),
{
    assert(w@.subrange(0, w@.len() as int) =~= w@);
    match scan_magnitude(w, 0, 0xffff_ffff) {
        Some((negative, v)) => if negative {
            None
        } else {
            Some(v as u32)
        },
        None => None,
    }
}

fn parse_i32_from(w: &[u8], from: usize) -> (r: Option<i32>)
    requires
        from <= w@.len(),
    ensures
        r == i32_numeral(w@.subrange(from as int, w@.len() as int)),
{
    match scan_magnitude(w, from, 0x8000_0000) {
        Some((negative, v)) => if negative {
            Some((0 - v as i64) as i32)
        } else if v <= 0x7fff_ffff {
            Some(v as i32)
        } else {
            None
        },
        None => None,
    }
}

/// Reads an `i32` numeral: an optional `+` or `-`, then digits.
pub fn parse_i32(w: &[u8]) -> (r: Option<i32>)
    ensures
        r == i32_numeral(w@),
{
    assert(w@.subrange(0, w@.len() as int) =~= w@);
    parse_i32_from(w, 0)
}

/// Reads a decimal numeral such as `1.0400`, `-.5` or `1e+06`.
pub fn parse_decimal(w: &[u8]) -> (r: Option<Decimal>)
    ensures
        r == decimal_numeral(w@),
{
    let n = w.len();
    let signed = n > 0 && (w[0] == 0x2b || w[0] == 0x2d);
    let a: usize = if signed {
        1
    } else {
        0
    };
    let b = scan_digits(w, a);
    proof {
        lemma_digit_run(w@, a as int);
    }
    let c = if b < n && w[b] == 0x2e {
        b + 1
    } else {
        b
    };
    let d = scan_digits(w, c);
    proof {
        lemma_digit_run(w@, c as int);
    }
    let ghost digits = w@.subrange(a as int, b as int) + w@.subrange(c as int, d as int);
    if b - a + (d - c) == 0 {
        return None;
    }
    let exp: i32 = if d == n {
        0
    } else if w[d] == 0x65 || w[d] == 0x45 {
        match parse_i32_from(w, d + 1) {
            Some(e) => e,
            None => {
                return None;
            },
        }
    } else {
        return None;
    };
    assert(Seq::<u8>::empty() + w@.subrange(a as int, b as int) =~= w@.subrange(a as int, b as int));
    let high = match accumulate(w, a, b, 0, 0xffff_ffff_ffff_ffff, Ghost(Seq::empty())) {
        Some(v) => v,
        None => {
            assert(digits.subrange(0, (b - a) as int) =~= w@.subrange(a as int, b as int));
            proof {
                lemma_prefix_value(digits, (b - a) as int);
            }
            return None;
        },
    };
    let mantissa = match accumulate(
        w,
        c,
        d,
        high,
        0xffff_ffff_ffff_ffff,
        Ghost(w@.subrange(a as int, b as int)),
    ) {
        Some(v) => v,
        None => {
            return None;
        },
    };
    let frac = (d - c) as u64;
    if frac > 0x1_0000_0000 {
        return None;
    }
    let exponent = exp as i64 - frac as i64;
    if exponent < -0x8000_0000 || exponent > 0x7fff_ffff {
        return None;
    }
    Some(Decimal { negative: n > 0 && w[0] == 0x2d, mantissa, exponent: exponent as i32 })
}

} // verus!
