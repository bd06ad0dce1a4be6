use vstd::prelude::*;

verus! {

/// A decimal number: `mantissa` times ten to the power `exponent`.
#[derive(Clone, Copy, Debug, PartialEq, Eq, Structural)]
pub struct Decimal {
    pub mantissa: i128,
    pub exponent: i128,
}

/// Read mantissas stay below this bound: eighteen significant digits.
pub const MANTISSA_LIMIT: u64 = 1_000_000_000_000_000_000;

/// Written exponents are held up to this magnitude; a number written with a
/// larger one lies far outside the range of any float either way.
pub const EXPONENT_CAP: u64 = 1_000_000_000_000_000_000;

pub open spec fn is_digit(c: char) -> bool {
    '0' <= c && c <= '9'
}

pub open spec fn digit_value(c: char) -> int {
    c as int - '0' as int
}

pub open spec fn all_digits(s: Seq<char>) -> bool {
    forall|i: int| 0 <= i < s.len() ==> is_digit(#[trigger] s[i])
}

/// The value of a run of decimal digits, most significant first.
pub open spec fn digits_value(s: Seq<char>) -> int
    decreases s.len(),
{
    if s.len() == 0 {
        0
    } else {
        digits_value(s.drop_last()) * 10 + digit_value(s.last())
    }
}

/// The number of consecutive digits of `s` from position `i` on.
pub open spec fn digit_run(s: Seq<char>, i: int) -> int
    decreases s.len() - i,
{
    if 0 <= i < s.len() && is_digit(s[i]) {
        1 + digit_run(s, i + 1)
    } else {
        0
    }
}

/// The length of an optional leading `+` or `-`.
pub open spec fn sign_len(s: Seq<char>) -> int {
    if s.len() > 0 && (s[0] == '+' || s[0] == '-') {
        1
    } else {
        0
    }
}

pub open spec fn is_negative(s: Seq<char>) -> bool {
    s.len() > 0 && s[0] == '-'
}

/// Integer text: an optional sign, then one or more digits, and nothing else.
pub open spec fn integer_text(s: Seq<char>) -> bool {
    let body = s.subrange(sign_len(s), s.len() as int);
    body.len() > 0 && all_digits(body)
}

pub open spec fn integer_value(s: Seq<char>) -> int {
    let v = digits_value(s.subrange(sign_len(s), s.len() as int));
    if is_negative(s) {
        -v
    } else {
        v
    }
}

/// Text that reads as an `i8`.
pub open spec fn small_int_ok(s: Seq<char>) -> bool {
    integer_text(s) && -128 <= integer_value(s) <= 127
}

pub open spec fn int_end(s: Seq<char>) -> int {
    sign_len(s) + digit_run(s, sign_len(s))
}

pub open spec fn has_point(s: Seq<char>) -> bool {
    int_end(s) < s.len() && s[int_end(s)] == '.'
}

pub open spec fn frac_start(s: Seq<char>) -> int {
    if has_point(s) {
        int_end(s) + 1
    } else {
        int_end(s)
    }
}

pub open spec fn frac_end(s: Seq<char>) -> int {
    frac_start(s) + digit_run(s, frac_start(s))
}

/// The digits before and after the point, without the point.
pub open spec fn mantissa_digits(s: Seq<char>) -> Seq<char> {
    s.subrange(sign_len(s), int_end(s)) + s.subrange(frac_start(s), frac_end(s))
}

pub open spec fn has_exponent(s: Seq<char>) -> bool {
    frac_end(s) < s.len() && (s[frac_end(s)] == 'e' || s[frac_end(s)] == 'E')
}

pub open spec fn exponent_text(s: Seq<char>) -> Seq<char> {
    s.subrange(frac_end(s) + 1, s.len() as int)
}

/// Decimal text: an optional sign, digits with an optional point and at least
/// one digit in all, then an optional `e` or `E` followed by integer text.
pub open spec fn decimal_text(s: Seq<char>) -> bool {
    &&& mantissa_digits(s).len() > 0
    &&& (frac_end(s) == s.len() || (has_exponent(s) && integer_text(exponent_text(s))))
}

pub open spec fn written_exponent(s: Seq<char>) -> int {
    if has_exponent(s) {
        integer_value(exponent_text(s))
    } else {
        0
    }
}

/// Text that reads as a `Decimal`: every decimal text does.
pub open spec fn decimal_ok(s: Seq<char>) -> bool {
    decimal_text(s)
}

/// How many leading digits of `md` are kept: the longest prefix whose value
/// is below `MANTISSA_LIMIT`. Leading zeros cost nothing.
pub open spec fn kept_len(md: Seq<char>, k: int) -> int
    decreases md.len() - k,
{
    if 0 <= k < md.len() && digits_value(md.take(k + 1)) < MANTISSA_LIMIT {
        kept_len(md, k + 1)
    } else {
        k
    }
}

pub open spec fn clamp_exponent(e: int) -> int {
    if e > EXPONENT_CAP {
        EXPONENT_CAP as int
    } else if e < -EXPONENT_CAP {
        -EXPONENT_CAP
    } else {
        e
    }
}

/// The number that decimal text writes. Up to eighteen significant digits it
/// is exact; digits past those that fit are dropped, each raising the
/// exponent by one, which truncates toward zero by less than one part in
/// 10^17. A written exponent is clamped to `EXPONENT_CAP`.
pub open spec fn decimal_of(s: Seq<char>) -> Decimal {
    let md = mantissa_digits(s);
    let k = kept_len(md, 0);
    let m = digits_value(md.take(k));
    Decimal {
        mantissa: (if is_negative(s) { -m } else { m }) as i128,
        exponent: (clamp_exponent(written_exponent(s)) - (frac_end(s) - frac_start(s)) + (md.len()
            - k)) as i128,
    }
}

proof fn lemma_digits_push(s: Seq<char>, i: int)
    requires
        0 <= i < s.len(),
    ensures
        digits_value(s.subrange(0, i + 1)) == digits_value(s.subrange(0, i)) * 10 + digit_value(
            s[i],
        ),
{
    assert(s.subrange(0, i + 1).drop_last() =~= s.subrange(0, i));
}

/// Scans the digits of `s` from `start` on; returns where they stop.
fn scan_digits(s: &Vec<char>, start: usize) -> (end: usize)
    requires
        start <= s@.len(),
    ensures
        start <= end,
        end == start + digit_run(s@, start as int),
        end <= s@.len(),
        all_digits(s@.subrange(start as int, end as int)),
        end < s@.len() ==> !is_digit(s@[end as int]),
{
    let mut i = start;
    while i < s.len() && '0' <= s[i] && s[i] <= '9'
        invariant
            start <= i <= s@.len(),
            digit_run(s@, start as int) == (i - start) + digit_run(s@, i as int),
            all_digits(s@.subrange(start as int, i as int)),
        decreases s@.len() - i,
    {
        assert(s@.subrange(start as int, i + 1) =~= s@.subrange(start as int, i as int).push(s[i as int]));
        i += 1;
    }
    i
}

/// Adds the digits `s[start..end]` to an accumulated value `acc` of the digits
/// `prefix`; `big` marks that the value is over `limit`.
fn push_digits(
    s: &Vec<char>,
    start: usize,
    end: usize,
    acc: u64,
    big: bool,
    limit: u64,
    Ghost(prefix): Ghost<Seq<char>>,
) -> (r: (u64, bool))
    requires
        start <= end <= s@.len(),
        9 <= limit <= i64::MAX,
        all_digits(s@.subrange(start as int, end as int)),
        !big ==> acc == digits_value(prefix) && acc <= limit,
        big ==> digits_value(prefix) > limit,
    ensures
        !r.1 ==> r.0 == digits_value(prefix + s@.subrange(start as int, end as int)) && r.0 <= limit,
        r.1 ==> digits_value(prefix + s@.subrange(start as int, end as int)) > limit,
{
    let mut acc = acc;
    let mut big = big;
    let mut i = start;
    while i < end
        invariant
            start <= i <= end <= s@.len(),
            9 <= limit <= i64::MAX,
            all_digits(s@.subrange(start as int, end as int)),
            !big ==> acc == digits_value(prefix + s@.subrange(start as int, i as int)) && acc <= limit,
            big ==> digits_value(prefix + s@.subrange(start as int, i as int)) > limit,
        decreases end - i,
    {
        let ghost done = prefix + s@.subrange(start as int, i as int);
        let ghost next = prefix + s@.subrange(start as int, i + 1);
        proof {
            assert(next.drop_last() =~= done);
            assert(is_digit(s@.subrange(start as int, end as int)[i - start]));
        }
        let d = (s[i] as u32 - '0' as u32) as u64;
        assert(d == digit_value(s@[i as int]));
        if !big {
            if acc > (limit - d) / 10 {
                assert(acc * 10 + d > limit) by (nonlinear_arith)
                    requires
                        acc > (limit - d) / 10,
                        d <= limit,
                ;
                big = true;
            } else {
                assert(acc * 10 + d <= limit) by (nonlinear_arith)
                    requires
                        acc <= (limit - d) / 10,
                        d <= limit,
                ;
                acc = acc * 10 + d;
            }
        }
        i += 1;
    }
    (acc, big)
}


/// Reads integer text from `s[start..]`: its sign, and its magnitude unless
/// that is over `limit`, which the third part then marks.
fn read_integer(s: &Vec<char>, start: usize, limit: u64) -> (r: Option<(bool, u64, bool)>)
    requires
        start <= s@.len(),
        9 <= limit <= i64::MAX,
    ensures
        ({
            let t = s@.subrange(start as int, s@.len() as int);
            let m = digits_value(t.subrange(sign_len(t), t.len() as int));
            match r {
                Some((neg, v, big)) => integer_text(t) && neg == is_negative(t) && (!big ==> v == m
                    && m <= limit) && (big ==> m > limit),
                None => !integer_text(t),
            }
        }),
{
    let ghost t = s@.subrange(start as int, s@.len() as int);
    let n = s.len();
    let sl: usize = if start < n && (s[start] == '+' || s[start] == '-') {
        1
    } else {
        0
    };
    let first = start + sl;
    assert(sign_len(t) == sl);
    let end = scan_digits(s, first);
    assert(t.subrange(sign_len(t), t.len() as int) =~= s@.subrange(first as int, n as int));
    if end != n || end == first {
        if end != n {
            assert(s@.subrange(first as int, n as int)[end - first] == s@[end as int]);
        }
        return None;
    }
    let (v, big) = push_digits(s, first, n, 0, false, limit, Ghost(Seq::empty()));
    assert(Seq::<char>::empty() + s@.subrange(first as int, n as int) =~= s@.subrange(
        first as int,
        n as int,
    ));
    let neg = start < n && s[start] == '-';
    Some((neg, v, big))
}

/// Reads `s` as an `i8`, in the way `str::parse::<i8>` reads it.
pub fn parse_small_int(s: &Vec<char>) -> (r: Option<i8>)
    ensures
        r == (if small_int_ok(s@) {
            Some(integer_value(s@) as i8)
        } else {
            None::<i8>
        }),
{
    assert(s@.subrange(0, s@.len() as int) =~= s@);
    match read_integer(s, 0, 128) {
        None => None,
        Some((_, _, true)) => None,
        Some((neg, v, false)) => {
            if neg {
                Some((0 - v as i64) as i8)
            } else if v <= 127 {
                Some(v as i8)
            } else {
                None
            }
        },
    }
}

/// Copies the characters `s[start..end]` onto the end of `out`.
fn append_range(out: &mut Vec<char>, s: &Vec<char>, start: usize, end: usize)
    requires
        start <= end <= s@.len(),
    ensures
        final(out)@ == old(out)@ + s@.subrange(start as int, end as int),
{
    let ghost before = out@;
    let mut i = start;
    while i < end
        invariant
            start <= i <= end <= s@.len(),
            out@ == before + s@.subrange(start as int, i as int),
        decreases end - i,
    {
        out.push(s[i]);
        assert(out@ =~= before + s@.subrange(start as int, i + 1));
        i += 1;
    }
}

/// Reads `s` as a `Decimal` (see `decimal_of`): decimal text as
/// `str::parse::<f32>` reads it. The words `inf`, `infinity` and `nan` are
/// not taken: a label's box and confidence are finite numbers.
pub fn parse_decimal(s: &Vec<char>) -> (r: Option<Decimal>)
    ensures
        r == (if decimal_ok(s@) {
            Some(decimal_of(s@))
        } else {
            None::<Decimal>
        }),
{
    let n = s.len();
    let sl: usize = if n > 0 && (s[0] == '+' || s[0] == '-') {
        1
    } else {
        0
    };
    let ie = scan_digits(s, sl);
    let fs: usize = if ie < n && s[ie] == '.' {
        ie + 1
    } else {
        ie
    };
    let fe = scan_digits(s, fs);
    assert(sign_len(s@) == sl);
    assert(int_end(s@) == ie);
    assert(frac_start(s@) == fs);
    assert(frac_end(s@) == fe);
    let mut md: Vec<char> = Vec::new();
    append_range(&mut md, s, sl, ie);
    append_range(&mut md, s, fs, fe);
    assert(md@ =~= mantissa_digits(s@));
    if md.len() == 0 {
        return None;
    }
    assert(all_digits(md@));
    let mut written: i128 = 0;
    if fe < n {
        if s[fe] != 'e' && s[fe] != 'E' {
            return None;
        }
        match read_integer(s, fe + 1, EXPONENT_CAP) {
            None => {
                return None;
            },
            Some((neg, v, big)) => {
                let e: i128 = if big {
                    EXPONENT_CAP as i128
                } else {
                    v as i128
                };
                written = if neg {
                    0 - e
                } else {
                    e
                };
            },
        }
    }
    assert(written == clamp_exponent(written_exponent(s@)));
    let mut acc: u64 = 0;
    let mut k: usize = 0;
    while k < md.len()
        invariant
            k <= md@.len(),
            all_digits(md@),
            acc == digits_value(md@.take(k as int)),
            acc < MANTISSA_LIMIT,
            kept_len(md@, 0) == kept_len(md@, k as int),
        ensures
            acc == digits_value(md@.take(k as int)),
            acc < MANTISSA_LIMIT,
            kept_len(md@, 0) == k,
        decreases md@.len() - k,
    {
        assert(md@.take(k + 1).drop_last() =~= md@.take(k as int));
        assert(is_digit(md@[k as int]));
        let d = (md[k] as u32 - '0' as u32) as u64;
        let next = acc * 10 + d;
        if next < MANTISSA_LIMIT {
            acc = next;
            k += 1;
        } else {
            break;
        }
    }
    let dropped = md.len() - k;
    let neg = n > 0 && s[0] == '-';
    let mantissa: i128 = if neg {
        0 - acc as i128
    } else {
        acc as i128
    };
    Some(Decimal { mantissa, exponent: written - (fe - fs) as i128 + dropped as i128 })
}

/// `d` times `factor` can be held: the product's mantissa fits an `i128`.
pub open spec fn can_scale(d: Decimal, factor: u32) -> bool {
    i128::MIN <= d.mantissa * factor <= i128::MAX
}

pub open spec fn scaled(d: Decimal, factor: u32) -> Decimal {
    Decimal { mantissa: (d.mantissa * factor) as i128, exponent: d.exponent }
}

impl Decimal {
    /// This number times `factor`, exactly.
    pub fn scale(self, factor: u32) -> (r: Decimal)
        requires
            can_scale(self, factor),
        ensures
            r == scaled(self, factor),
    {
        Decimal { mantissa: self.mantissa * factor as i128, exponent: self.exponent }
    }

    /// Whether `scale` can take `factor`.
    pub fn can_scale_by(self, factor: u32) -> (r: bool)
        ensures
            r == can_scale(self, factor),
    {
        self.mantissa.checked_mul(factor as i128).is_some()
    }
}


proof fn lemma_digits_nonneg(s: Seq<char>)
    requires
        all_digits(s),
    ensures
        digits_value(s) >= 0,
    decreases s.len(),
{
    if s.len() > 0 {
        assert(all_digits(s.drop_last())) by {
            assert forall|i: int| 0 <= i < s.drop_last().len() implies is_digit(
                #[trigger] s.drop_last()[i],
            ) by {
                assert(s.drop_last()[i] == s[i]);
            }
        }
        lemma_digits_nonneg(s.drop_last());
    }
}

proof fn lemma_run_digits(s: Seq<char>, i: int)
    requires
        0 <= i <= s.len(),
    ensures
        0 <= digit_run(s, i),
        i + digit_run(s, i) <= s.len(),
        all_digits(s.subrange(i, i + digit_run(s, i))),
    decreases s.len() - i,
{
    if i < s.len() && is_digit(s[i]) {
        lemma_run_digits(s, i + 1);
        assert forall|j: int| 0 <= j < digit_run(s, i) implies is_digit(
            #[trigger] s.subrange(i, i + digit_run(s, i))[j],
        ) by {
            if j > 0 {
                assert(s.subrange(i, i + digit_run(s, i))[j] == s.subrange(
                    i + 1,
                    i + 1 + digit_run(s, i + 1),
                )[j - 1]);
            }
        }
    }
}

proof fn lemma_kept_fits(md: Seq<char>, k: int)
    requires
        0 <= k <= md.len(),
        digits_value(md.take(k)) < MANTISSA_LIMIT,
    ensures
        k <= kept_len(md, k) <= md.len(),
        digits_value(md.take(kept_len(md, k))) < MANTISSA_LIMIT,
    decreases md.len() - k,
{
    if k < md.len() && digits_value(md.take(k + 1)) < MANTISSA_LIMIT {
        lemma_kept_fits(md, k + 1);
    }
}

/// The mantissa read from decimal text is below `MANTISSA_LIMIT` in magnitude.
pub proof fn lemma_read_mantissa_bound(s: Seq<char>)
    requires
        decimal_ok(s),
    ensures
        -MANTISSA_LIMIT < decimal_of(s).mantissa < MANTISSA_LIMIT,
{
    let md = mantissa_digits(s);
    assert(md.take(0) =~= Seq::<char>::empty());
    lemma_kept_fits(md, 0);
    let k = kept_len(md, 0);
    lemma_run_digits(s, sign_len(s));
    lemma_run_digits(s, frac_start(s));
    let a = s.subrange(sign_len(s), int_end(s));
    let b = s.subrange(frac_start(s), frac_end(s));
    assert forall|i: int| 0 <= i < md.take(k).len() implies is_digit(#[trigger] md.take(k)[i]) by {
        assert(md.take(k)[i] == md[i]);
        if i < a.len() {
            assert(md[i] == a[i]);
        } else {
            assert(md[i] == b[i - a.len()]);
        }
    }
    lemma_digits_nonneg(md.take(k));
}

/// A number read from text can be multiplied by any factor.
pub proof fn lemma_read_scales(s: Seq<char>, factor: u32)
    requires
        decimal_ok(s),
    ensures
        can_scale(decimal_of(s), factor),
{
    lemma_read_mantissa_bound(s);
    let m = decimal_of(s).mantissa as int;
    let f = factor as int;
    assert(-0x1_0000_0000_0000_0000_0000_0000 <= m * f <= 0x1_0000_0000_0000_0000_0000_0000)
        by (nonlinear_arith)
        requires
            -0x1_0000_0000_0000_0000 <= m <= 0x1_0000_0000_0000_0000,
            0 <= f <= 0x1_0000_0000,
    ;
}

} // verus!
