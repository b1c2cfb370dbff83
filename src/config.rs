use vstd::prelude::*;
use vstd::arithmetic::div_mod::lemma_div_denominator;

verus! {

pub open spec fn is_space(c: char) -> bool {
    c == ' ' || c == '\t' || c == '\n' || c == '\r'
}

pub open spec fn trim_start(s: Seq<char>) -> Seq<char>
    decreases s.len(),
{
    if s.len() > 0 && is_space(s[0]) {
        trim_start(s.drop_first())
    } else {
        s
    }
}

pub open spec fn trim_end(s: Seq<char>) -> Seq<char>
    decreases s.len(),
{
    if s.len() > 0 && is_space(s.last()) {
        trim_end(s.drop_last())
    } else {
        s
    }
}

/// The text without leading and trailing ASCII whitespace.
pub open spec fn trimmed(s: Seq<char>) -> Seq<char> {
    trim_end(trim_start(s))
}

pub open spec fn is_digit(c: char) -> bool {
    '0' <= c && c <= '9'
}

pub open spec fn all_digits(s: Seq<char>) -> bool {
    forall|i: int| 0 <= i < s.len() ==> is_digit(#[trigger] s[i])
}

pub open spec fn digits_value(s: Seq<char>) -> nat
    decreases s.len(),
{
    if s.len() == 0 {
        0
    } else {
        digits_value(s.drop_last()) * 10 + ((s.last() as nat) - ('0' as nat)) as nat
    }
}

pub open spec fn pow10(n: nat) -> nat
    decreases n,
{
    if n == 0 {
        1
    } else {
        10 * pow10((n - 1) as nat)
    }
}

/// The number part and the milliseconds in one unit: `ms`, `s`, `m`, `h`, or seconds when
/// no suffix is given.
pub open spec fn split_unit(t: Seq<char>) -> (Seq<char>, nat) {
    if t.len() >= 2 && t[t.len() - 2] == 'm' && t.last() == 's' {
        (t.subrange(0, t.len() - 2), 1)
    } else if t.len() >= 1 && t.last() == 's' {
        (t.drop_last(), 1000)
    } else if t.len() >= 1 && t.last() == 'm' {
        (t.drop_last(), 60_000)
    } else if t.len() >= 1 && t.last() == 'h' {
        (t.drop_last(), 3_600_000)
    } else {
        (t, 1000)
    }
}

/// Fraction digits that count: the first nine.
pub open spec fn counted_fraction(f: Seq<char>) -> Seq<char> {
    if f.len() > 9 {
        f.subrange(0, 9)
    } else {
        f
    }
}

/// The mantissa `int.frac` as a whole number of units of its last counted fraction digit.
pub open spec fn mantissa_value(int_part: Seq<char>, frac: Seq<char>) -> nat {
    let f = counted_fraction(frac);
    digits_value(int_part) * pow10(f.len()) + digits_value(f)
}

/// `x` times ten to the power `s`, rounded down.
pub open spec fn scaled(x: nat, s: int) -> nat {
    if s >= 0 {
        x * pow10(s as nat)
    } else {
        x / pow10((-s) as nat)
    }
}

/// The number text without one leading `+`.
pub open spec fn unsigned_text(n: Seq<char>) -> Seq<char> {
    if n.len() > 0 && n[0] == '+' {
        n.drop_first()
    } else {
        n
    }
}

/// The first `e` or `E` at or after `i`, or -1.
pub open spec fn exponent_mark(n: Seq<char>, i: int) -> int
    decreases n.len() - i,
{
    if i < 0 || i >= n.len() {
        -1
    } else if n[i] == 'e' || n[i] == 'E' {
        i
    } else {
        exponent_mark(n, i + 1)
    }
}

/// An exponent: an optional sign and one to four digits.
pub open spec fn exponent_value(x: Seq<char>) -> Option<int> {
    let neg = x.len() > 0 && x[0] == '-';
    let d = if x.len() > 0 && (x[0] == '-' || x[0] == '+') {
        x.drop_first()
    } else {
        x
    };
    if 1 <= d.len() <= 4 && all_digits(d) {
        Some(if neg {
            -(digits_value(d) as int)
        } else {
            digits_value(d) as int
        })
    } else {
        None
    }
}

/// Milliseconds in a number text of units of `unit` ms, rounded down: an optional `+`, a
/// decimal mantissa, and an optional exponent after `e` or `E`.
pub open spec fn number_ms(n: Seq<char>, unit: nat) -> Option<nat> {
    let u = unsigned_text(n);
    let k = exponent_mark(u, 0);
    let m = if k < 0 {
        u
    } else {
        u.subrange(0, k)
    };
    let e = if k < 0 {
        Some(0int)
    } else {
        exponent_value(u.subrange(k + 1, u.len() as int))
    };
    match (decimal_parts(m), e) {
        (Some((a, b)), Some(e)) => Some(
            scaled(mantissa_value(a, b) * unit, e - counted_fraction(b).len()),
        ),
        _ => None,
    }
}

/// A decimal number is digits with at most one point and at least one digit; the integer
/// part holds at most 18 digits.
pub open spec fn decimal_parts(n: Seq<char>) -> Option<(Seq<char>, Seq<char>)> {
    if exists|k: int| 0 <= k < n.len() && n[k] == '.' {
        let k = choose|k: int| 0 <= k < n.len() && n[k] == '.';
        let a = n.subrange(0, k);
        let b = n.subrange(k + 1, n.len() as int);
        if all_digits(a) && all_digits(b) && a.len() + b.len() > 0 && a.len() <= 18 {
            Some((a, b))
        } else {
            None
        }
    } else if all_digits(n) && n.len() > 0 && n.len() <= 18 {
        Some((n, seq![]))
    } else {
        None
    }
}

/// What a duration text means in milliseconds, when it means one.
pub open spec fn duration_ms_of(s: Seq<char>) -> Option<nat> {
    let t = trimmed(s);
    if t.len() == 0 {
        None
    } else {
        let (num, unit) = split_unit(t);
        match number_ms(trimmed(num), unit) {
            Some(v) => if v <= u64::MAX {
                Some(v)
            } else {
                None
            },
            None => None,
        }
    }
}

proof fn lemma_digits_bound(s: Seq<char>)
    requires
        all_digits(s),
    ensures
        digits_value(s) < pow10(s.len()),
    decreases s.len(),
{
    if s.len() > 0 {
        let p = s.drop_last();
        assert(all_digits(p)) by {
            assert forall|i: int| 0 <= i < p.len() implies is_digit(#[trigger] p[i]) by {
                assert(p[i] == s[i]);
            }
        }
        lemma_digits_bound(p);
        assert(is_digit(s[s.len() - 1]));
    }
}

proof fn lemma_pow10_mono(a: nat, b: nat)
    requires
        a <= b,
    ensures
        pow10(a) <= pow10(b),
        pow10(a) >= 1,
    decreases b,
{
    if a < b {
        lemma_pow10_mono(a, (b - 1) as nat);
    } else if a > 0 {
        lemma_pow10_mono((a - 1) as nat, (a - 1) as nat);
    }
}

/// The characters of `s` from `start` to `end` as a sequence.
fn chars_of(s: &str) -> (r: Vec<char>)
    ensures
        r@ == s@,
{
    let n = s.unicode_len();
    let mut r: Vec<char> = Vec::new();
    let mut i: usize = 0;
    while i < n
        invariant
            n == s@.len(),
            0 <= i <= n,
            r@ == s@.subrange(0, i as int),
        decreases n - i,
    {
        r.push(s.get_char(i));
        proof {
            assert(r@ =~= s@.subrange(0, i + 1));
        }
        i += 1;
    }
    assert(s@.subrange(0, n as int) =~= s@);
    r
}

/// Bounds `[lo, hi)` of `c[lo..hi]` with ASCII whitespace removed at both ends.
pub fn trim_bounds_of(c: &Vec<char>, lo: usize, hi: usize) -> (r: (usize, usize))
    requires
        lo <= hi <= c@.len(),
    ensures
        lo <= r.0 <= r.1 <= hi,
        c@.subrange(r.0 as int, r.1 as int) == trimmed(c@.subrange(lo as int, hi as int)),
{
    let mut a = lo;
    while a < hi && (c[a] == ' ' || c[a] == '\t' || c[a] == '\n' || c[a] == '\r')
        invariant
            lo <= a <= hi <= c@.len(),
            trim_start(c@.subrange(lo as int, hi as int)) == trim_start(
                c@.subrange(a as int, hi as int),
            ),
        decreases hi - a,
    {
        assert(c@.subrange(a as int, hi as int).drop_first() =~= c@.subrange(a + 1, hi as int));
        a += 1;
    }
    assert(trim_start(c@.subrange(a as int, hi as int)) == c@.subrange(a as int, hi as int));
    let mut b = hi;
    while b > a && (c[b - 1] == ' ' || c[b - 1] == '\t' || c[b - 1] == '\n' || c[b - 1] == '\r')
        invariant
            lo <= a <= b <= hi <= c@.len(),
            trim_end(c@.subrange(a as int, hi as int)) == trim_end(c@.subrange(a as int, b as int)),
        decreases b - a,
    {
        assert(c@.subrange(a as int, b as int).drop_last() =~= c@.subrange(a as int, b - 1));
        b -= 1;
    }
    (a, b)
}

/// Value of the digits `c[lo..hi]`, which are at most 18 and all digits.
fn digits_at(c: &Vec<char>, lo: usize, hi: usize) -> (r: u64)
    requires
        lo <= hi <= c@.len(),
        hi - lo <= 18,
        all_digits(c@.subrange(lo as int, hi as int)),
    ensures
        r == digits_value(c@.subrange(lo as int, hi as int)),
        r < pow10((hi - lo) as nat),
{
    let mut v: u64 = 0;
    let mut i = lo;
    proof {
        lemma_pow10_mono((hi - lo) as nat, 18);
        reveal_with_fuel(pow10, 19);
        assert(pow10(18) == 1_000_000_000_000_000_000nat);
    }
    while i < hi
        invariant
            lo <= i <= hi <= c@.len(),
            hi - lo <= 18,
            pow10((hi - lo) as nat) <= 1_000_000_000_000_000_000,
            all_digits(c@.subrange(lo as int, hi as int)),
            v == digits_value(c@.subrange(lo as int, i as int)),
        decreases hi - i,
    {
        let ghost sub = c@.subrange(lo as int, i + 1);
        assert(sub.drop_last() =~= c@.subrange(lo as int, i as int));
        assert(sub.last() == c@.subrange(lo as int, hi as int)[i - lo]);
        proof {
            assert(all_digits(sub)) by {
                assert forall|k: int| 0 <= k < sub.len() implies is_digit(#[trigger] sub[k]) by {
                    assert(sub[k] == c@.subrange(lo as int, hi as int)[k]);
                }
            }
            lemma_digits_bound(sub);
            lemma_pow10_mono(sub.len(), (hi - lo) as nat);
        }
        let d = (c[i] as u32 - '0' as u32) as u64;
        v = v * 10 + d;
        i += 1;
    }
    proof {
        lemma_digits_bound(c@.subrange(lo as int, hi as int));
    }
    v
}

fn all_digits_at(c: &Vec<char>, lo: usize, hi: usize) -> (r: bool)
    requires
        lo <= hi <= c@.len(),
    ensures
        r == all_digits(c@.subrange(lo as int, hi as int)),
{
    let mut i = lo;
    while i < hi
        invariant
            lo <= i <= hi <= c@.len(),
            all_digits(c@.subrange(lo as int, i as int)),
        decreases hi - i,
    {
        if !('0' <= c[i] && c[i] <= '9') {
            assert(!is_digit(c@.subrange(lo as int, hi as int)[i - lo]));
            return false;
        }
        assert(c@.subrange(lo as int, i + 1) =~= c@.subrange(lo as int, i as int).push(c@[i as int]));
        i += 1;
    }
    true
}

proof fn lemma_parts_with_dot(n: Seq<char>, d: int)
    requires
        0 <= d < n.len(),
        n[d] == '.',
        forall|k: int| 0 <= k < d ==> n[k] != '.',
    ensures
        decimal_parts(n) == if all_digits(n.subrange(0, d)) && all_digits(
            n.subrange(d + 1, n.len() as int),
        ) && n.len() > 1 && d <= 18 {
            Some((n.subrange(0, d), n.subrange(d + 1, n.len() as int)))
        } else {
            None
        },
{
    let k = choose|k: int| 0 <= k < n.len() && n[k] == '.';
    if k > d {
        assert(n.subrange(0, k)[d] == '.');
        assert(!is_digit(n.subrange(0, k)[d]));
        assert(n.subrange(d + 1, n.len() as int)[k - d - 1] == '.');
        assert(!is_digit(n.subrange(d + 1, n.len() as int)[k - d - 1]));
    } else if k < d {
        assert(n[k] != '.');
    }
}

proof fn lemma_parts_no_dot(n: Seq<char>)
    requires
        forall|k: int| 0 <= k < n.len() ==> n[k] != '.',
    ensures
        decimal_parts(n) == if all_digits(n) && n.len() > 0 && n.len() <= 18 {
            Some((n, Seq::<char>::empty()))
        } else {
            None
        },
{
    assert(seq![] =~= Seq::<char>::empty());
}

/// The mantissa `c[a..b]` as a whole number, with the count of its fraction digits.
fn decimal_mantissa(c: &Vec<char>, a: usize, b: usize) -> (r: Option<(u128, u64)>)
    requires
        a <= b <= c@.len(),
    ensures
        match (r, decimal_parts(c@.subrange(a as int, b as int))) {
            (Some((x, k)), Some((i, f))) => x as nat == mantissa_value(i, f) && k as nat
                == counted_fraction(f).len() && x < 1_000_000_000_000_000_000_000_000_000u128 && k <= 9,
            (None, None) => true,
            _ => false,
        },
{
    let ghost n = c@.subrange(a as int, b as int);
    let mut dot = a;
    while dot < b && c[dot] != '.'
        invariant
            a <= dot <= b <= c@.len(),
            forall|k: int| a <= k < dot ==> c@[k] != '.',
        decreases b - dot,
    {
        dot += 1;
    }
    let (int_end, frac_start): (usize, usize) = if dot < b {
        (dot, dot + 1)
    } else {
        (b, b)
    };
    proof {
        if dot < b {
            assert forall|k: int| 0 <= k < dot - a implies n[k] != '.' by {
                assert(n[k] == c@[a + k]);
            }
            lemma_parts_with_dot(n, dot - a);
            assert(n.subrange(0, dot - a) =~= c@.subrange(a as int, int_end as int));
            assert(n.subrange(dot - a + 1, n.len() as int) =~= c@.subrange(
                frac_start as int,
                b as int,
            ));
        } else {
            assert forall|k: int| 0 <= k < n.len() implies n[k] != '.' by {
                assert(n[k] == c@[a + k]);
            }
            lemma_parts_no_dot(n);
            assert(n =~= c@.subrange(a as int, int_end as int));
            assert(c@.subrange(frac_start as int, b as int) =~= Seq::<char>::empty());
        }
    }
    if !all_digits_at(c, a, int_end) || !all_digits_at(c, frac_start, b) {
        return None;
    }
    if int_end - a > 18 || (int_end == a && b == frac_start) {
        return None;
    }
    let frac_end: usize = if b - frac_start > 9 {
        frac_start + 9
    } else {
        b
    };
    let iv = digits_at(c, a, int_end);
    proof {
        let fs = c@.subrange(frac_start as int, b as int);
        assert(c@.subrange(frac_start as int, frac_end as int) =~= counted_fraction(fs));
        assert forall|k: int| 0 <= k < counted_fraction(fs).len() implies is_digit(
            #[trigger] counted_fraction(fs)[k],
        ) by {
            assert(counted_fraction(fs)[k] == fs[k]);
        }
    }
    let fv = digits_at(c, frac_start, frac_end);
    let mut scale: u64 = 1;
    let mut k: usize = frac_start;
    proof {
        reveal_with_fuel(pow10, 10);
        assert(pow10(9) == 1_000_000_000);
    }
    while k < frac_end
        invariant
            frac_start <= k <= frac_end,
            frac_end - frac_start <= 9,
            pow10(9) == 1_000_000_000,
            scale == pow10((k - frac_start) as nat),
        decreases frac_end - k,
    {
        proof {
            lemma_pow10_mono((k + 1 - frac_start) as nat, 9);
        }
        scale = scale * 10;
        k += 1;
    }
    proof {
        reveal_with_fuel(pow10, 19);
        assert(pow10(18) == 1_000_000_000_000_000_000nat);
        lemma_pow10_mono((int_end - a) as nat, 18);
        lemma_pow10_mono((frac_end - frac_start) as nat, 9);
        assert((iv as u128) * (scale as u128) + (fv as u128) < 1_000_000_000_000_000_000_000_000_000u128)
            by (nonlinear_arith)
            requires
                iv < 1_000_000_000_000_000_000u64,
                scale <= 1_000_000_000,
                fv < 1_000_000_000,
        ;
    }
    let x: u128 = (iv as u128) * (scale as u128) + fv as u128;
    proof {
        let fs = c@.subrange(frac_start as int, b as int);
        assert(c@.subrange(frac_start as int, frac_end as int) =~= counted_fraction(fs));
        assert(x as nat == mantissa_value(c@.subrange(a as int, int_end as int), fs));
    }
    Some((x, (frac_end - frac_start) as u64))
}

/// `x` times ten to the power `s`, when that fits in `u64`.
fn scale_value(x: u128, s: i64) -> (r: Option<u64>)
    ensures
        match r {
            Some(v) => v as nat == scaled(x as nat, s as int),
            None => scaled(x as nat, s as int) > u64::MAX,
        },
{
    proof {
        reveal_with_fuel(pow10, 1);
        assert(pow10(0) == 1);
        assert(x as nat * 1 == x as nat);
        assert(x as nat / 1 == x as nat);
    }
    if s >= 0 {
        let mut v: u128 = x;
        let mut j: i64 = 0;
        if v > u64::MAX as u128 {
            proof {
                lemma_pow10_mono(0, s as nat);
                assert(x as nat * pow10(s as nat) >= x as nat) by (nonlinear_arith)
                    requires
                        pow10(s as nat) >= 1,
                ;
            }
            return None;
        }
        while j < s
            invariant
                0 <= j <= s,
                v as nat == x as nat * pow10(j as nat),
                v <= u64::MAX,
            decreases s - j,
        {
            proof {
                assert(pow10((j + 1) as nat) == 10 * pow10(j as nat));
                assert(x as nat * pow10((j + 1) as nat) == v as nat * 10) by (nonlinear_arith)
                    requires
                        pow10((j + 1) as nat) == 10 * pow10(j as nat),
                        v as nat == x as nat * pow10(j as nat),
                ;
            }
            if v > (u64::MAX as u128) / 10 {
                proof {
                    lemma_pow10_mono((j + 1) as nat, s as nat);
                    assert(x as nat * pow10(s as nat) >= x as nat * pow10((j + 1) as nat)) by (nonlinear_arith)
                        requires
                            pow10(s as nat) >= pow10((j + 1) as nat),
                    ;
                }
                return None;
            }
            v = v * 10;
            j = j + 1;
        }
        Some(v as u64)
    } else {
        let mut v: u128 = x;
        let mut j: i64 = 0;
        let d: i64 = if s < -60 { 60 } else { -s };
        while j < d
            invariant
                0 <= j <= d <= 60,
                v as nat == x as nat / pow10(j as nat),
            decreases d - j,
        {
            proof {
                lemma_pow10_mono(0, j as nat);
                lemma_div_denominator(x as int, pow10(j as nat) as int, 10);
                assert(pow10((j + 1) as nat) == pow10(j as nat) * 10);
            }
            v = v / 10;
            j = j + 1;
        }
        proof {
            if s < -60 {
                // past 10^60 every mantissa here rounds down to zero
                lemma_pow10_mono(60, (-s) as nat);
                lemma_pow10_mono(39, 60);
                assert(pow10(39) == 1_000_000_000_000_000_000_000_000_000_000_000_000_000nat) by {
                    reveal_with_fuel(pow10, 40);
                }
                assert(x as nat / pow10(60) == 0) by (nonlinear_arith)
                    requires
                        (x as nat) < pow10(39),
                        pow10(39) <= pow10(60),
                ;
                assert(x as nat / pow10((-s) as nat) == 0) by (nonlinear_arith)
                    requires
                        (x as nat) < pow10(39),
                        pow10(39) <= pow10((-s) as nat),
                ;
            }
        }
        if v > u64::MAX as u128 {
            return None;
        }
        Some(v as u64)
    }
}

/// The exponent `c[a..b]`, when it is one.
fn exponent_at(c: &Vec<char>, a: usize, b: usize) -> (r: Option<i64>)
    requires
        a <= b <= c@.len(),
    ensures
        match r {
            Some(e) => exponent_value(c@.subrange(a as int, b as int)) == Some(e as int) && -10000 < e < 10000,
            None => exponent_value(c@.subrange(a as int, b as int)) is None,
        },
{
    let ghost x = c@.subrange(a as int, b as int);
    let neg = a < b && c[a] == '-';
    let start = if a < b && (c[a] == '-' || c[a] == '+') { a + 1 } else { a };
    assert(c@.subrange(start as int, b as int) =~= if x.len() > 0 && (x[0] == '-' || x[0] == '+') {
        x.drop_first()
    } else {
        x
    });
    if b - start < 1 || b - start > 4 || !all_digits_at(c, start, b) {
        return None;
    }
    proof {
        reveal_with_fuel(pow10, 5);
    }
    let v = digits_at(c, start, b);
    proof {
        lemma_pow10_mono((b - start) as nat, 4);
        assert(pow10(4) == 10000);
    }
    if neg {
        Some(-(v as i64))
    } else {
        Some(v as i64)
    }
}

/// Reads a duration: a decimal number (digits, at most one point) with an optional unit
/// suffix `ms`, `s`, `m` or `h` (seconds when none), surrounding whitespace ignored.
/// The result is in whole milliseconds, rounded down; only the first nine fraction digits
/// count. `None` for empty or malformed text, or a value past `u64::MAX` milliseconds.
pub fn parse_duration(value: &str) -> (r: Option<u64>)
    ensures
        match (r, duration_ms_of(value@)) {
            (Some(x), Some(y)) => x as nat == y,
            (None, None) => true,
            _ => false,
        },
{
    let c = chars_of(value);
    assert(c@.subrange(0, c@.len() as int) =~= value@);
    let (lo, hi) = trim_bounds_of(&c, 0, c.len());
    let ghost t = c@.subrange(lo as int, hi as int);
    if lo == hi {
        return None;
    }
    let (num_end, unit): (usize, u64) = if hi - lo >= 2 && c[hi - 2] == 'm' && c[hi - 1] == 's' {
        (hi - 2, 1)
    } else if c[hi - 1] == 's' {
        (hi - 1, 1000)
    } else if c[hi - 1] == 'm' {
        (hi - 1, 60_000)
    } else if c[hi - 1] == 'h' {
        (hi - 1, 3_600_000)
    } else {
        (hi, 1000)
    };
    assert(split_unit(t).0 =~= c@.subrange(lo as int, num_end as int));
    assert(split_unit(t).1 == unit as nat);
    let (a0, b) = trim_bounds_of(&c, lo, num_end);
    number_value(&c, a0, b, unit)
}

/// Milliseconds in the number text `c[a0..b]` of units of `unit` ms, when it fits.
fn number_value(c: &Vec<char>, a0: usize, b: usize, unit: u64) -> (r: Option<u64>)
    requires
        a0 <= b <= c@.len(),
        1 <= unit <= 3_600_000,
    ensures
        match (r, number_ms(c@.subrange(a0 as int, b as int), unit as nat)) {
            (Some(x), Some(y)) => x as nat == y,
            (None, Some(y)) => y > u64::MAX,
            (None, None) => true,
            _ => false,
        },
{
    let ghost n = c@.subrange(a0 as int, b as int);
    let a = if a0 < b && c[a0] == '+' { a0 + 1 } else { a0 };
    let ghost u = c@.subrange(a as int, b as int);
    assert(u =~= unsigned_text(n));
    let mut k = a;
    assert(exponent_mark(u, 0) == exponent_mark(u, k - a));
    while k < b && c[k] != 'e' && c[k] != 'E'
        invariant
            a <= k <= b <= c@.len(),
            u == c@.subrange(a as int, b as int),
            exponent_mark(u, 0) == exponent_mark(u, k - a),
        decreases b - k,
    {
        k += 1;
    }
    let (mant_end, e): (usize, Option<i64>) = if k < b {
        (k, exponent_at(&c, k + 1, b))
    } else {
        (b, Some(0))
    };
    proof {
        if k < b {
            assert(u.subrange(0, k - a) =~= c@.subrange(a as int, k as int));
            assert(u.subrange(k - a + 1, u.len() as int) =~= c@.subrange(k + 1, b as int));
        }
    }
    let e = match e {
        Some(e) => e,
        None => {
            return None;
        },
    };
    let (x, fk) = match decimal_mantissa(&c, a, mant_end) {
        Some(p) => p,
        None => {
            return None;
        },
    };
    proof {
        assert(x * (unit as u128) <= 1_000_000_000_000_000_000_000_000_000u128 * 3_600_000u128) by (nonlinear_arith)
            requires
                x < 1_000_000_000_000_000_000_000_000_000u128,
                unit <= 3_600_000,
        ;
    }
    scale_value(x * (unit as u128), e - fk as i64)
}

/// Overrides for the lease registry, as read from configuration. Durations are texts
/// read by `parse_duration`; `consensus_threshold` is in thousandths; heat scores in
/// millionths, and `heat_retention_per_ms` in parts per billion.
#[derive(Debug, Clone)]
pub struct TerritoryConfig {
    pub default_lease_duration: Option<String>,
    pub max_lease_duration: Option<String>,
    pub auto_extend_threshold: Option<String>,
    pub negotiation_timeout: Option<String>,
    pub negotiation_max_rounds: Option<u32>,
    pub escalation_queue_threshold: Option<usize>,
    pub escalation_deadlock_timeout: Option<String>,
    pub fairness_starvation_threshold: Option<String>,
    pub fairness_priority_boost_after: Option<String>,
    pub consensus_threshold: Option<u64>,
    pub heat_retention_per_ms: Option<u64>,
    pub heat_increment: Option<u64>,
    pub heat_max: Option<u64>,
}

/// Overrides for the router's dispatcher. Token amounts are in thousandths of a token and
/// the refill rate in thousandths of a token per second.
#[derive(Debug, Clone)]
pub struct RouterConfig {
    pub token_bucket_capacity: Option<u64>,
    pub token_bucket_refill_rate: Option<u64>,
    pub token_bucket_initial: Option<u64>,
    pub aging_threshold: Option<String>,
    pub max_aging_boosts: Option<u8>,
    pub idle_backoff: Option<String>,
    pub queue_depth_warning: Option<usize>,
    pub queue_depth_critical: Option<usize>,
}

/// Where the ledger lives and how its segments roll over.
#[derive(Debug, Clone)]
pub struct LedgerConfig {
    pub root_path: String,
    pub segment_size_bytes: u64,
    pub segment_duration_secs: u64,
    pub checkpoint_interval_secs: u64,
    pub retain_epochs: usize,
    pub retain_days: Option<u64>,
    pub current_epoch: Option<String>,
}

#[derive(Debug, Clone)]
pub struct QueueHealthConfig {
    pub max_depth: Option<usize>,
    pub warning_depth: Option<usize>,
    pub stale_threshold: Option<String>,
}

#[derive(Debug, Clone)]
pub struct EscalationRateConfig {
    pub warning: Option<String>,
    pub critical: Option<String>,
}

#[derive(Debug, Clone)]
pub struct DeadlockFrequencyConfig {
    pub warning: Option<String>,
    pub critical: Option<String>,
}

pub fn default_ledger_root() -> (r: String)
    ensures
        r@ == "ledger"@,
{
    String::from_str("ledger")
}

/// Five MiB.
pub fn default_segment_size_bytes() -> (r: u64)
    ensures
        r == 5 * 1024 * 1024,
{
    5 * 1024 * 1024
}

pub fn default_segment_duration_secs() -> (r: u64)
    ensures
        r == 60,
{
    60
}

pub fn default_checkpoint_interval_secs() -> (r: u64)
    ensures
        r == 30,
{
    30
}

pub fn default_retain_epochs() -> (r: usize)
    ensures
        r == 7,
{
    7
}

impl LedgerConfig {
    pub fn default() -> (r: LedgerConfig)
        ensures
            r.root_path@ == "ledger"@,
            r.segment_size_bytes == 5 * 1024 * 1024,
            r.segment_duration_secs == 60,
            r.checkpoint_interval_secs == 30,
            r.retain_epochs == 7,
            r.retain_days is None,
            r.current_epoch is None,
    {
        LedgerConfig {
            root_path: default_ledger_root(),
            segment_size_bytes: default_segment_size_bytes(),
            segment_duration_secs: default_segment_duration_secs(),
            checkpoint_interval_secs: default_checkpoint_interval_secs(),
            retain_epochs: default_retain_epochs(),
            retain_days: None,
            current_epoch: None,
        }
    }
}

/// A duration override: the parsed text when it parses, else `fallback`.
pub open spec fn duration_or(text: Option<String>, fallback: u64) -> u64 {
    match text {
        Some(t) => match duration_ms_of(t@) {
            Some(v) => v as u64,
            None => fallback,
        },
        None => fallback,
    }
}

pub fn parse_duration_or(text: &Option<String>, fallback: u64) -> (r: u64)
    ensures
        r == duration_or(*text, fallback),
{
    match text {
        Some(t) => match parse_duration(t.as_str()) {
            Some(v) => v,
            None => fallback,
        },
        None => fallback,
    }
}

} // verus!
