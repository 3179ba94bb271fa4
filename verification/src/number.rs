use vstd::prelude::*;

verus! {

/// Why a text is not an integer of the wanted type, in the categories of
/// `core::num::IntErrorKind`.
#[derive(Clone, Copy, Debug, PartialEq, Eq, Structural)]
pub enum IntErrorKind {
    /// The text is empty.
    Empty,
    /// The text holds a character that is not a digit of the radix (or only
    /// a sign).
    InvalidDigit,
    /// The number is above the largest value of the type.
    PosOverflow,
    /// The number is below the smallest value of the type.
    NegOverflow,
}

/// The value of `c` as a digit of `radix` (at most 36), if it is one:
/// `0-9`, then `a-z` or `A-Z` for ten and up.
pub open spec fn digit_of(c: char, radix: nat) -> Option<nat> {
    let u = c as u32;
    let d: int = if 0x30 <= u <= 0x39 {
        u - 0x30
    } else if 0x61 <= u <= 0x7A {
        u - 0x61 + 10
    } else if 0x41 <= u <= 0x5A {
        u - 0x41 + 10
    } else {
        36
    };
    if d < radix {
        Some(d as nat)
    } else {
        None
    }
}

/// How many characters at the start of `d` are digits of `radix`.
pub open spec fn valid_prefix_len(d: Seq<char>, radix: nat) -> nat
    decreases d.len(),
{
    if d.len() == 0 || digit_of(d[0], radix) is None {
        0
    } else {
        1 + valid_prefix_len(d.drop_first(), radix)
    }
}

/// The value of a string of digits of `radix`, most significant first.
pub open spec fn digits_value(d: Seq<char>, radix: nat) -> nat
    decreases d.len(),
{
    if d.len() == 0 {
        0
    } else {
        digits_value(d.drop_last(), radix) * radix + match digit_of(d.last(), radix) {
            Some(x) => x,
            None => 0,
        }
    }
}

/// What `from_str_radix` of an integer type with range `lo..=hi` gives for
/// `s`: an optional `+` (or `-` when `lo` is negative) and then digits.
/// Digits are read from the left and the first fault met decides the error:
/// a number leaving the range before the first non-digit, else the
/// non-digit.
pub open spec fn parse_int(s: Seq<char>, radix: nat, lo: int, hi: int) -> Result<
    int,
    IntErrorKind,
> {
    if s.len() == 0 {
        Err(IntErrorKind::Empty)
    } else if s.len() == 1 && (s[0] == '+' || s[0] == '-') {
        Err(IntErrorKind::InvalidDigit)
    } else {
        let neg = s[0] == '-' && lo < 0;
        let d = if s[0] == '+' || neg {
            s.drop_first()
        } else {
            s
        };
        let k = valid_prefix_len(d, radix);
        let v = digits_value(d.take(k as int), radix);
        if neg && -v < lo {
            Err(IntErrorKind::NegOverflow)
        } else if !neg && v > hi {
            Err(IntErrorKind::PosOverflow)
        } else if k < d.len() {
            Err(IntErrorKind::InvalidDigit)
        } else {
            Ok(
                if neg {
                    -v
                } else {
                    v as int
                },
            )
        }
    }
}

/// The value of `c` as a digit of `radix`.
fn digit_value(c: char, radix: u32) -> (r: Option<u32>)
    requires
        2 <= radix <= 36,
    ensures
        r matches Some(x) ==> digit_of(c, radix as nat) == Some(x as nat),
        r is None ==> digit_of(c, radix as nat) is None,
{
    let u = c as u32;
    let d: u32 = if 0x30 <= u && u <= 0x39 {
        u - 0x30
    } else if 0x61 <= u && u <= 0x7A {
        u - 0x61 + 10
    } else if 0x41 <= u && u <= 0x5A {
        u - 0x41 + 10
    } else {
        36
    };
    if d < radix {
        Some(d)
    } else {
        None
    }
}

proof fn lemma_valid_prefix_len(d: Seq<char>, radix: nat, m: int)
    requires
        0 <= m <= d.len(),
        forall|j: int| 0 <= j < m ==> digit_of(#[trigger] d[j], radix) is Some,
    ensures
        valid_prefix_len(d, radix) >= m,
        m == d.len() || digit_of(d[m], radix) is None ==> valid_prefix_len(d, radix) == m,
    decreases m,
{
    if m > 0 {
        assert forall|j: int| 0 <= j < m - 1 implies digit_of(
            #[trigger] d.drop_first()[j],
            radix,
        ) is Some by {
            assert(d.drop_first()[j] == d[j + 1]);
        }
        lemma_valid_prefix_len(d.drop_first(), radix, m - 1);
        if m < d.len() {
            assert(d.drop_first()[m - 1] == d[m]);
        }
    }
}

proof fn lemma_valid_prefix_len_bound(d: Seq<char>, radix: nat)
    ensures
        valid_prefix_len(d, radix) <= d.len(),
    decreases d.len(),
{
    if d.len() > 0 {
        lemma_valid_prefix_len_bound(d.drop_first(), radix);
    }
}

proof fn lemma_digits_value_step(d: Seq<char>, radix: nat, m: int)
    requires
        0 <= m < d.len(),
    ensures
        digits_value(d.take(m + 1), radix) == digits_value(d.take(m), radix) * radix + match digit_of(d[m], radix) {
            Some(x) => x,
            None => 0,
        },
{
    assert(d.take(m + 1).drop_last() =~= d.take(m));
}

proof fn lemma_digits_value_monotonic(d: Seq<char>, radix: nat, a: int, b: int)
    requires
        radix >= 1,
        0 <= a <= b <= d.len(),
    ensures
        digits_value(d.take(a), radix) <= digits_value(d.take(b), radix),
    decreases b - a,
{
    if a < b {
        lemma_digits_value_monotonic(d, radix, a, b - 1);
        lemma_digits_value_step(d, radix, b - 1);
        let v = digits_value(d.take(b - 1), radix);
        assert(v <= v * radix) by (nonlinear_arith)
            requires
                radix >= 1,
        ;
    }
}

/// `from_str_radix` for a type with range `lo..=hi` where that range is
/// the one of `i32` (signed) or of `u32` (unsigned).
fn parse_int_chars(s: &[char], radix: u32, signed: bool) -> (r: Result<i64, IntErrorKind>)
    requires
        radix == 10 || radix == 16,
    ensures
        r matches Ok(v) ==> parse_int(
            s@,
            radix as nat,
            if signed { i32::MIN as int } else { 0 },
            if signed { i32::MAX as int } else { u32::MAX as int },
        ) == Ok::<int, IntErrorKind>(v as int),
        r matches Err(e) ==> parse_int(
            s@,
            radix as nat,
            if signed { i32::MIN as int } else { 0 },
            if signed { i32::MAX as int } else { u32::MAX as int },
        ) == Err::<int, IntErrorKind>(e),
{
    let ghost lo: int = if signed { i32::MIN as int } else { 0 };
    let ghost hi: int = if signed { i32::MAX as int } else { u32::MAX as int };
    let n = s.len();
    if n == 0 {
        return Err(IntErrorKind::Empty);
    }
    let first = s[0];
    if n == 1 && (first == '+' || first == '-') {
        return Err(IntErrorKind::InvalidDigit);
    }
    let neg = first == '-' && signed;
    let start: usize = if first == '+' || neg { 1 } else { 0 };
    let ghost d = if first == '+' || neg { s@.drop_first() } else { s@ };
    assert(d =~= s@.subrange(start as int, n as int));
    let mut acc: i64 = 0;
    let mut i: usize = start;
    assert(d.take(0) =~= Seq::<char>::empty());
    while i < n
        invariant
            start <= i <= n == s@.len(),
            n > 0,
            !(n == 1 && (s@[0] == '+' || s@[0] == '-')),
            start == (if s@[0] == '+' || neg { 1int } else { 0 }),
            d == (if s@[0] == '+' || neg { s@.drop_first() } else { s@ }),
            d == s@.subrange(start as int, n as int),
            lo == (if signed { i32::MIN as int } else { 0 }),
            hi == (if signed { i32::MAX as int } else { u32::MAX as int }),
            neg == (s@[0] == '-' && signed),
            forall|j: int| 0 <= j < i - start ==> digit_of(#[trigger] d[j], radix as nat) is Some,
            acc == (if neg {
                -digits_value(d.take(i - start), radix as nat)
            } else {
                digits_value(d.take(i - start), radix as nat) as int
            }),
            lo <= acc <= hi,
            radix == 10 || radix == 16,
        decreases n - i,
    {
        let ghost m = i - start;
        assert(d[m] == s@[i as int]);
        match digit_value(s[i], radix) {
            None => {
                proof {
                    lemma_valid_prefix_len(d, radix as nat, m);
                    assert(valid_prefix_len(d, radix as nat) == m);
                    assert(m < d.len());
                }
                return Err(IntErrorKind::InvalidDigit);
            },
            Some(x) => {
                proof {
                    lemma_digits_value_step(d, radix as nat, m);
                }
                let next: i64 = if neg {
                    acc * (radix as i64) - (x as i64)
                } else {
                    acc * (radix as i64) + (x as i64)
                };
                if neg && next < -2147483648 {
                    proof {
                        assert forall|j: int| 0 <= j < m + 1 implies digit_of(
                            #[trigger] d[j],
                            radix as nat,
                        ) is Some by {
                            if j == m {
                            }
                        }
                        lemma_valid_prefix_len(d, radix as nat, m + 1);
                        lemma_valid_prefix_len_bound(d, radix as nat);
                        lemma_digits_value_monotonic(
                            d,
                            radix as nat,
                            m + 1,
                            valid_prefix_len(d, radix as nat) as int,
                        );
                    }
                    return Err(IntErrorKind::NegOverflow);
                }
                let max: i64 = if signed { 2147483647 } else { 4294967295 };
                if !neg && next > max {
                    proof {
                        assert forall|j: int| 0 <= j < m + 1 implies digit_of(
                            #[trigger] d[j],
                            radix as nat,
                        ) is Some by {
                            if j == m {
                            }
                        }
                        lemma_valid_prefix_len(d, radix as nat, m + 1);
                        lemma_valid_prefix_len_bound(d, radix as nat);
                        lemma_digits_value_monotonic(
                            d,
                            radix as nat,
                            m + 1,
                            valid_prefix_len(d, radix as nat) as int,
                        );
                    }
                    return Err(IntErrorKind::PosOverflow);
                }
                acc = next;
            },
        }
        i += 1;
    }
    proof {
        lemma_valid_prefix_len(d, radix as nat, n - start);
        assert(d.take(n - start) =~= d);
    }
    Ok(acc)
}

/// `i32::from_str_radix(s, radix)` for radix 10 or 16.
pub fn parse_i32(s: &[char], radix: u32) -> (r: Result<i32, IntErrorKind>)
    requires
        radix == 10 || radix == 16,
    ensures
        r matches Ok(v) ==> parse_int(s@, radix as nat, i32::MIN as int, i32::MAX as int) == Ok::<
            int,
            IntErrorKind,
        >(v as int),
        r matches Err(e) ==> parse_int(s@, radix as nat, i32::MIN as int, i32::MAX as int)
            == Err::<int, IntErrorKind>(e),
{
    match parse_int_chars(s, radix, true) {
        Ok(v) => Ok(v as i32),
        Err(e) => Err(e),
    }
}

/// `u32::from_str_radix(s, radix)` for radix 10 or 16.
pub fn parse_u32(s: &[char], radix: u32) -> (r: Result<u32, IntErrorKind>)
    requires
        radix == 10 || radix == 16,
    ensures
        r matches Ok(v) ==> parse_int(s@, radix as nat, 0, u32::MAX as int) == Ok::<
            int,
            IntErrorKind,
        >(v as int),
        r matches Err(e) ==> parse_int(s@, radix as nat, 0, u32::MAX as int) == Err::<
            int,
            IntErrorKind,
        >(e),
{
    match parse_int_chars(s, radix, false) {
        Ok(v) => Ok(v as u32),
        Err(e) => Err(e),
    }
}

/// The character of digit `d`: `0-9`, then `a-z` for ten and up.
pub open spec fn digit_char(d: nat) -> char {
    if d < 10 {
        (0x30 + d) as char
    } else {
        (0x61 + d - 10) as char
    }
}

/// The digits of `n` in `radix` (2 or more), most significant first,
/// without leading zeros.
pub open spec fn render(n: nat, radix: nat) -> Seq<char>
    decreases n,
{
    if n < radix || radix < 2 {
        seq![digit_char(n)]
    } else {
        proof {
            assert(n / radix < n) by (nonlinear_arith)
                requires
                    radix >= 2,
                    n >= radix,
            ;
        }
        render(n / radix, radix).push(digit_char(n % radix))
    }
}

proof fn lemma_digit_char(d: nat, radix: nat)
    requires
        d < radix <= 16,
    ensures
        digit_of(digit_char(d), radix) == Some(d),
        digit_char(d) != '+' && digit_char(d) != '-',
{
    if d < 10 {
        assert(((0x30 + d) as char) as u32 == 0x30 + d);
    } else {
        assert(((0x61 + d - 10) as char) as u32 == 0x61 + d - 10);
    }
}

pub proof fn lemma_render(n: nat, radix: nat)
    requires
        2 <= radix <= 16,
    ensures
        render(n, radix).len() >= 1,
        forall|i: int|
            0 <= i < render(n, radix).len() ==> digit_of(#[trigger] render(n, radix)[i], radix) is Some,
        digit_of(render(n, radix)[0], radix) is Some,
        render(n, radix)[0] != '+' && render(n, radix)[0] != '-',
        digits_value(render(n, radix), radix) == n,
    decreases n,
{
    if n < radix {
        lemma_digit_char(n, radix);
        let d = render(n, radix);
        assert(d.drop_last() =~= Seq::<char>::empty());
        assert(digits_value(d.drop_last(), radix) == 0);
        assert(0 * radix == 0) by (nonlinear_arith);
    } else {
        let q = n / radix;
        let r = n % radix;
        assert(q < n) by (nonlinear_arith)
            requires
                radix >= 2,
                n >= radix,
                q == n / radix,
        ;
        lemma_render(q, radix);
        lemma_digit_char(r, radix);
        let p = render(q, radix);
        assert(render(n, radix) == p.push(digit_char(r)));
        assert(p.push(digit_char(r)).drop_last() =~= p);
        assert(n == q * radix + r) by (nonlinear_arith)
            requires
                radix >= 2,
                q == n / radix,
                r == n % radix,
        ;
        assert forall|i: int| 0 <= i < render(n, radix).len() implies digit_of(
            #[trigger] render(n, radix)[i],
            radix,
        ) is Some by {
            if i < p.len() {
                assert(render(n, radix)[i] == p[i]);
            }
        }
        assert(render(n, radix)[0] == p[0]);
    }
}

/// Parsing reads back the digits of every number in range: `n` written in
/// radix 10 or 16 parses as `n`, also after a `+`, and after a `-` as `-n`
/// when the type is signed and `-n` is in range; out of range it reports
/// the overflow, and an empty text or a lone sign is refused.
pub proof fn law_parse_reads_back(n: nat, radix: nat, lo: int, hi: int)
    requires
        radix == 10 || radix == 16,
        lo <= 0,
    ensures
        n <= hi ==> parse_int(render(n, radix), radix, lo, hi) == Ok::<int, IntErrorKind>(
            n as int,
        ),
        n <= hi ==> parse_int(seq!['+'] + render(n, radix), radix, lo, hi) == Ok::<
            int,
            IntErrorKind,
        >(n as int),
        lo < 0 && lo <= -n ==> parse_int(seq!['-'] + render(n, radix), radix, lo, hi) == Ok::<
            int,
            IntErrorKind,
        >(-n),
        n > hi ==> parse_int(render(n, radix), radix, lo, hi) == Err::<int, IntErrorKind>(
            IntErrorKind::PosOverflow,
        ),
        lo < 0 && -n < lo ==> parse_int(seq!['-'] + render(n, radix), radix, lo, hi) == Err::<
            int,
            IntErrorKind,
        >(IntErrorKind::NegOverflow),
        parse_int(seq![], radix, lo, hi) == Err::<int, IntErrorKind>(IntErrorKind::Empty),
        parse_int(seq!['-'], radix, lo, hi) == Err::<int, IntErrorKind>(
            IntErrorKind::InvalidDigit,
        ),
{
    let d = render(n, radix);
    lemma_render(n, radix);
    lemma_valid_prefix_len(d, radix, d.len() as int);
    assert(d.take(d.len() as int) =~= d);
    let plus = seq!['+'] + d;
    assert(plus.drop_first() =~= d);
    let minus = seq!['-'] + d;
    assert(minus.drop_first() =~= d);
}

} // verus!
