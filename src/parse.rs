use vstd::prelude::*;
use vstd::string::StringSliceAdditionalSpecFns;

verus! {

/// The byte is an ASCII decimal digit.
pub open spec fn is_digit(b: u8) -> bool {
    48 <= b <= 57
}

pub open spec fn all_digits(s: Seq<u8>) -> bool {
    forall|i: int| 0 <= i < s.len() ==> is_digit(#[trigger] s[i])
}

/// The number written by the decimal digits `s`.
pub open spec fn digits_value(s: Seq<u8>) -> nat
    decreases s.len(),
{
    if s.len() == 0 {
        0
    } else {
        digits_value(s.drop_last()) * 10 + (s.last() - 48) as nat
    }
}

pub open spec fn pow10(n: nat) -> nat
    decreases n,
{
    if n == 0 {
        1
    } else {
        10 * pow10((n - 1) as nat)
    }
}

/// Number of fraction digits kept: values are read in thousandths.
pub const FRACTION_DIGITS: usize = 3;

/// `v`, or the largest `u64` where `v` exceeds it.
pub open spec fn saturate(v: nat) -> u64 {
    if v <= u64::MAX {
        v as u64
    } else {
        u64::MAX
    }
}

/// The text without a leading `+`.
pub open spec fn unsigned_part(s: Seq<u8>) -> Seq<u8> {
    if s.len() > 0 && s[0] == 43 {
        s.drop_first()
    } else {
        s
    }
}

/// `u` reads as digits, a point at `p`, and digits, with at least one digit.
pub open spec fn point_at(u: Seq<u8>, p: int) -> bool {
    &&& 0 <= p < u.len()
    &&& u[p] == 46
    &&& all_digits(u.take(p))
    &&& all_digits(u.skip(p + 1))
    &&& u.len() >= 2
}

/// The first three fraction digits, padded with zeros.
pub open spec fn first_three(f: Seq<u8>) -> Seq<u8> {
    if f.len() >= 3 {
        f.take(3)
    } else {
        f + Seq::new((3 - f.len()) as nat, |k: int| 48u8)
    }
}

/// One where the fourth fraction digit rounds the thousandths up.
pub open spec fn round_up(f: Seq<u8>) -> nat {
    if f.len() > 3 && f[3] >= 53 {
        1
    } else {
        0
    }
}

pub open spec fn has_nonzero_digit(f: Seq<u8>) -> bool {
    exists|k: int| 0 <= k < f.len() && 49 <= #[trigger] f[k] <= 57
}

/// The value of the decimal text `s` in thousandths, rounded to the nearest
/// (halves up), if `s` is a decimal. A decimal is an optional `+`, then digits
/// with at most one point and at least one digit. A positive value that rounds
/// to zero reads as one thousandth.
pub open spec fn decimal_milli(s: Seq<u8>) -> Option<nat> {
    let u = unsigned_part(s);
    if u.len() > 0 && all_digits(u) {
        Some(digits_value(u) * 1000)
    } else if exists|p: int| point_at(u, p) {
        let p = choose|p: int| point_at(u, p);
        let f = u.skip(p + 1);
        let v = digits_value(u.take(p) + first_three(f)) + round_up(f);
        Some(
            if v == 0 && has_nonzero_digit(f) {
                1
            } else {
                v
            },
        )
    } else {
        None
    }
}

/// What `parse_milli` returns: the value, saturated to a `u64`.
pub open spec fn parse_milli_spec(s: Seq<u8>) -> Option<u64> {
    match decimal_milli(s) {
        Some(v) => Some(saturate(v)),
        None => None,
    }
}

proof fn lemma_saturate_chain(x: nat, k: nat, y: nat)
    requires
        k >= 1,
    ensures
        saturate((saturate(x) * k + y) as nat) == saturate(x * k + y),
{
    if x > u64::MAX {
        assert(x * k >= x) by (nonlinear_arith)
            requires
                k >= 1,
        ;
        assert(u64::MAX * k >= u64::MAX) by (nonlinear_arith)
            requires
                k >= 1,
        ;
    }
}

proof fn lemma_zeros_value(k: nat)
    ensures
        digits_value(Seq::new(k, |i: int| 48u8)) == 0,
    decreases k,
{
    if k > 0 {
        assert(Seq::new(k, |i: int| 48u8).drop_last() =~= Seq::new((k - 1) as nat, |i: int| 48u8));
        lemma_zeros_value((k - 1) as nat);
    }
}

proof fn lemma_digits_append(a: Seq<u8>, b: Seq<u8>)
    ensures
        digits_value(a + b) == digits_value(a) * pow10(b.len()) + digits_value(b),
    decreases b.len(),
{
    if b.len() == 0 {
        assert(a + b =~= a);
        assert(pow10(0) == 1);
        assert(digits_value(b) == 0);
    } else {
        lemma_digits_append(a, b.drop_last());
        assert((a + b).drop_last() =~= a + b.drop_last());
        let x = digits_value(a);
        let y = pow10(b.drop_last().len());
        let z = digits_value(b.drop_last());
        let l = (b.last() - 48) as nat;
        assert(b.last() == (a + b).last());
        assert(digits_value(a + b) == digits_value(a + b.drop_last()) * 10 + l);
        assert(digits_value(b) == z * 10 + l);
        assert(pow10(b.len()) == 10 * y);
        assert((x * y + z) * 10 + l == x * (10 * y) + (z * 10 + l)) by (nonlinear_arith);
    }
}

proof fn lemma_pow10_positive(n: nat)
    ensures
        pow10(n) >= 1,
    decreases n,
{
    if n > 0 {
        lemma_pow10_positive((n - 1) as nat);
    }
}

/// Folds the digits `b[start..end]` into `acc`, saturating at the largest `u64`.
fn accumulate(b: &[u8], start: usize, end: usize, acc: u64) -> (r: u64)
    requires
        start <= end <= b@.len(),
        all_digits(b@.subrange(start as int, end as int)),
    ensures
        r == saturate(
            (acc * pow10((end - start) as nat) + digits_value(
                b@.subrange(start as int, end as int),
            )) as nat,
        ),
{
    let mut i = start;
    let mut cur = acc;
    assert(pow10(0) == 1);
    assert(digits_value(b@.subrange(start as int, start as int)) == 0);
    assert(acc * pow10((i - start) as nat) == acc * 1);
    while i < end
        invariant
            start <= i <= end <= b@.len(),
            all_digits(b@.subrange(start as int, end as int)),
            cur == acc * pow10((i - start) as nat) + digits_value(
                b@.subrange(start as int, i as int),
            ),
        decreases end - i,
    {
        let ghost done = b@.subrange(start as int, i as int);
        let ghost rest = b@.subrange(i as int, end as int);
        let ghost whole = b@.subrange(start as int, end as int);
        assert(b@[i as int] == whole[i - start]);
        let d = (b[i] - 48) as u64;
        let ghost next = b@.subrange(start as int, i + 1);
        assert(next.drop_last() =~= done);
        assert(digits_value(next) == digits_value(done) * 10 + d);
        assert(cur * 10 + d == acc * pow10((i + 1 - start) as nat) + digits_value(next)) by {
            let p = pow10((i - start) as nat);
            assert(pow10((i + 1 - start) as nat) == 10 * p);
            assert((acc * p + digits_value(done)) * 10 == acc * (10 * p) + digits_value(done) * 10)
                by (nonlinear_arith);
        }
        if cur > (u64::MAX - d) / 10 {
            proof {
                lemma_digits_append(next, b@.subrange(i + 1, end as int));
                assert(next + b@.subrange(i + 1, end as int) =~= whole);
                lemma_pow10_positive((end - i - 1) as nat);
                let y = pow10((end - i - 1) as nat);
                assert(acc * pow10((end - start) as nat) + digits_value(whole) >= cur * 10 + d) by {
                    assert(pow10((end - start) as nat) == pow10((i + 1 - start) as nat) * y) by {
                        lemma_pow10_add((i + 1 - start) as nat, (end - i - 1) as nat);
                    }
                    let q = pow10((i + 1 - start) as nat);
                    assert(digits_value(whole) == digits_value(next) * y + digits_value(
                        b@.subrange(i + 1, end as int),
                    ));
                    assert(acc * (q * y) + digits_value(next) * y >= acc * q + digits_value(next))
                        by (nonlinear_arith)
                        requires
                            y >= 1,
                    ;
                }
                assert(cur * 10 + d > u64::MAX) by (nonlinear_arith)
                    requires
                        cur > (u64::MAX - d) / 10,
                        d <= 9,
                ;
            }
            return u64::MAX;
        }
        cur = cur * 10 + d;
        i = i + 1;
    }
    assert(b@.subrange(start as int, end as int) =~= b@.subrange(start as int, i as int));
    cur
}

proof fn lemma_pow10_add(a: nat, b: nat)
    ensures
        pow10(a + b) == pow10(a) * pow10(b),
    decreases a,
{
    if a > 0 {
        lemma_pow10_add((a - 1) as nat, b);
        let x = pow10((a - 1) as nat);
        let y = pow10(b);
        assert(pow10(a) == 10 * x);
        assert(pow10((a + b) as nat) == 10 * pow10((a - 1 + b) as nat));
        assert(10 * (x * y) == (10 * x) * y) by (nonlinear_arith);
    } else {
        assert(pow10(0) == 1);
        assert(a + b == b);
    }
}

/// Multiplier that turns a value with `f` fraction digits into thousandths.
fn fraction_scale(f: usize) -> (r: u64)
    requires
        f <= FRACTION_DIGITS,
    ensures
        r == pow10((FRACTION_DIGITS - f) as nat),
{
    assert(pow10(0) == 1);
    assert(pow10(1) == 10);
    assert(pow10(2) == 100);
    assert(pow10(3) == 1000);
    if f == 0 {
        1000
    } else if f == 1 {
        100
    } else if f == 2 {
        10
    } else {
        1
    }
}

/// The value in thousandths, as `decimal_milli` gives it, of the digits
/// `b[st..p]`, a point at `p`, and the digits after it; saturated.
fn read_point_decimal(b: &[u8], st: usize, p: usize) -> (r: u64)
    requires
        st <= p < b@.len(),
        point_at(b@.skip(st as int), p - st),
    ensures
        ({
            let u = b@.skip(st as int);
            let f = u.skip(p - st + 1);
            let v = digits_value(u.take(p - st) + first_three(f)) + round_up(f);
            r == saturate(
                if v == 0 && has_nonzero_digit(f) {
                    1
                } else {
                    v
                },
            )
        }),
{
    let n = b.len();
    let ghost s = b@;
    let ghost u = s.skip(st as int);
    let ghost q0 = p - st;
    let ghost f = u.skip(q0 + 1);
    let ghost ip = u.take(q0);
    proof {
        assert(s.subrange(p + 1, n as int) =~= f);
        assert(s.subrange(st as int, p as int) =~= ip);
    }
    let flen = n - p - 1;
    let t: usize = if flen < FRACTION_DIGITS {
        flen
    } else {
        FRACTION_DIGITS
    };
    let ghost ft = f.take(t as int);
    assert(s.subrange(p + 1, p + 1 + t) =~= ft);
    let a = accumulate(b, st, p, 0);
    let c = accumulate(b, p + 1, p + 1 + t, a);
    let scale = fraction_scale(t);
    let ghost zs = Seq::new((FRACTION_DIGITS - t) as nat, |i: int| 48u8);
    proof {
        lemma_pow10_positive(t as nat);
        lemma_saturate_chain(digits_value(ip), pow10(t as nat), digits_value(ft));
        lemma_digits_append(ip, ft);
        lemma_pow10_positive((FRACTION_DIGITS - t) as nat);
        lemma_saturate_chain(digits_value(ip + ft), scale as nat, 0);
        lemma_digits_append(ip + ft, zs);
        lemma_zeros_value((FRACTION_DIGITS - t) as nat);
        assert(ip + ft + zs =~= ip + first_three(f));
    }
    let ghost v0 = digits_value(ip + first_three(f));
    assert(c == saturate(digits_value(ip + ft)));
    let mut d = match c.checked_mul(scale) {
        Some(w) => w,
        None => u64::MAX,
    };
    assert(d == saturate(v0));
    if flen > FRACTION_DIGITS && b[p + 4] >= 53 {
        assert(f[3] == s[p + 4]);
        if d < u64::MAX {
            d = d + 1;
        }
    }
    let ghost v = v0 + round_up(f);
    assert(d == saturate(v));
    if d == 0 {
        let mut k: usize = p + 1;
        while k < n
            invariant
                p < k <= n,
                n == s.len(),
                s == b@,
                f == s.subrange(p + 1, n as int),
                st <= p,
                f == b@.skip(st as int).skip(p - st + 1),
                v == digits_value(b@.skip(st as int).take(p - st) + first_three(f)) + round_up(f),
                v == 0,
                forall|i: int| 0 <= i < k - p - 1 ==> !(49 <= #[trigger] f[i] <= 57),
            decreases n - k,
        {
            if 49 <= b[k] && b[k] <= 57 {
                assert(f[k - p - 1] == s[k as int]);
                assert(has_nonzero_digit(f));
                assert(saturate(1) == 1);
                return 1;
            }
            assert(f[k - p - 1] == s[k as int]);
            k = k + 1;
        }
        return 0;
    }
    d
}


/// Reads a decimal such as `1600`, `+1600.0`, `.5` or `0.2505` as a count of
/// thousandths, rounded to the nearest; values beyond a `u64` read as its
/// largest value. Returns `None` where the text is no decimal.
pub fn parse_milli(text: &str) -> (r: Option<u64>)
    ensures
        r == parse_milli_spec(text.spec_bytes()),
{
    let b = text.as_bytes();
    let ghost s = b@;
    let n = b.len();
    let st: usize = if n > 0 && b[0] == 43 {
        1
    } else {
        0
    };
    let ghost u = unsigned_part(s);
    assert(u =~= s.skip(st as int));
    let mut p: usize = st;
    while p < n && 48 <= b[p] && b[p] <= 57
        invariant
            st <= p <= n,
            n == s.len(),
            s == b@,
            s == text.spec_bytes(),
            u == s.skip(st as int),
            u == unsigned_part(s),
            all_digits(u.take(p - st)),
        decreases n - p,
    {
        proof {
            assert forall|i: int| 0 <= i < p + 1 - st implies is_digit(
                #[trigger] u.take(p + 1 - st)[i],
            ) by {
                if i < p - st {
                    assert(u.take(p + 1 - st)[i] == u.take(p - st)[i]);
                }
            }
        }
        p = p + 1;
    }
    let ghost q0 = p - st;
    // A point can only stand where the leading digits end.
    proof {
        assert forall|q: int| point_at(u, q) implies q == q0 by {
            if q < q0 {
                assert(u.take(q0)[q] == u[q]);
            } else if q > q0 {
                assert(u.take(q)[q0] == u[q0]);
            }
        }
    }
    if p == n {
        if p == st {
            return None;
        }
        proof {
            assert(u.take(q0) =~= u);
            assert(s.subrange(st as int, n as int) =~= u);
            assert(!point_at(u, q0));
        }
        let v = accumulate(b, st, n, 0);
        proof {
            lemma_saturate_chain(digits_value(u), 1000, 0);
        }
        return match v.checked_mul(1000) {
            Some(w) => Some(w),
            None => Some(u64::MAX),
        };
    }
    assert(u[q0] == s[p as int]);
    if b[p] != 46 {
        proof {
            assert(!is_digit(u[q0]));
            assert(!point_at(u, q0));
        }
        return None;
    }
    assert(!all_digits(u)) by {
        assert(!is_digit(u[q0]));
    }
    let mut j: usize = p + 1;
    while j < n
        invariant
            !all_digits(u),
            p < j <= n,
            st <= p,
            n == s.len(),
            s == b@,
            s == text.spec_bytes(),
            u == s.skip(st as int),
            u == unsigned_part(s),
            q0 == p - st,
            u[q0] == 46,
            forall|q: int| point_at(u, q) ==> q == q0,
            all_digits(s.subrange(p + 1, j as int)),
        decreases n - j,
    {
        if b[j] < 48 || b[j] > 57 {
            proof {
                assert(u.skip(q0 + 1)[j - p - 1] == s[j as int]);
                assert(!point_at(u, q0));
                assert(forall|q: int| !point_at(u, q));
            }
            return None;
        }
        proof {
            assert forall|i: int| 0 <= i < j + 1 - (p + 1) implies is_digit(
                #[trigger] s.subrange(p + 1, j + 1)[i],
            ) by {
                if i < j - (p + 1) {
                    assert(s.subrange(p + 1, j + 1)[i] == s.subrange(p + 1, j as int)[i]);
                }
            }
        }
        j = j + 1;
    }
    assert(s.subrange(p + 1, n as int) =~= u.skip(q0 + 1));
    if n - st < 2 {
        proof {
            assert(!point_at(u, q0));
        }
        return None;
    }
    proof {
        assert(point_at(u, q0));
    }
    Some(read_point_decimal(b, st, p))
}

} // verus!
