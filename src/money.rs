//! Monetary values as signed fixed-point numbers with six decimal places,
//! and the tolerant parser for the decimal strings the aggregation API sends.
use vstd::prelude::*;

verus! {

/// Number of micro-units in one whole currency unit.
pub const MICROS_PER_UNIT: i64 = 1000000;

/// Fractional digits kept by the fixed-point representation.
pub const FRACTION_DIGITS: usize = 6;

/// One cent, in micro-units: the tolerance under which two balances count as equal.
pub const CENT_MICROS: i64 = 10000;

/// A signed monetary value, counted in millionths of a currency unit.
#[derive(Clone, Copy, Debug, PartialEq, Eq, Structural)]
pub struct Amount {
    pub micros: i64,
}

pub open spec fn is_digit(c: char) -> bool {
    '0' <= c && c <= '9'
}

pub open spec fn digit_value(c: char) -> int {
    (c as int) - ('0' as int)
}

pub open spec fn all_digits(t: Seq<char>) -> bool {
    forall|i: int| 0 <= i < t.len() ==> is_digit(#[trigger] t[i])
}

/// The natural number that a string of decimal digits spells.
pub open spec fn digits_value(t: Seq<char>) -> int
    decreases t.len(),
{
    if t.len() == 0 {
        0
    } else {
        digits_value(t.drop_last()) * 10 + digit_value(t.last())
    }
}

pub open spec fn pow10(n: nat) -> int
    decreases n,
{
    if n == 0 {
        1
    } else {
        10 * pow10((n - 1) as nat)
    }
}

/// Micro-units spelled by the digits after the decimal point; digits past the
/// sixth are dropped (truncation toward zero).
pub open spec fn fraction_micros(f: Seq<char>) -> int {
    if f.len() >= 6 {
        digits_value(f.take(6))
    } else {
        digits_value(f) * pow10((6 - f.len()) as nat)
    }
}

/// Length of the optional leading sign.
pub open spec fn sign_len(s: Seq<char>) -> int {
    if s.len() > 0 && (s[0] == '-' || s[0] == '+') {
        1
    } else {
        0
    }
}

pub open spec fn unsigned_part(s: Seq<char>) -> Seq<char> {
    s.skip(sign_len(s))
}

/// `b` is `digits` or `digits '.' digits` with the point at `p` (or `p == b.len()`
/// when there is no point), holding at least one digit.
pub open spec fn decimal_split(b: Seq<char>, p: int) -> bool {
    &&& 0 <= p <= b.len()
    &&& all_digits(b.take(p))
    &&& (p == b.len() || (b[p] == '.' && all_digits(b.skip(p + 1))))
    &&& b.len() > (if p < b.len() { 1int } else { 0int })
}

pub open spec fn fraction_of(b: Seq<char>, p: int) -> Seq<char> {
    if p < b.len() {
        b.skip(p + 1)
    } else {
        Seq::empty()
    }
}

/// The unsigned magnitude in micro-units of `b` split at `p`.
pub open spec fn magnitude_at(b: Seq<char>, p: int) -> int {
    digits_value(b.take(p)) * 1000000 + fraction_micros(fraction_of(b, p))
}

/// The signed value in micro-units of `s` when its unsigned part splits at `p`.
pub open spec fn signed_value_at(s: Seq<char>, p: int) -> int {
    if sign_len(s) == 1 && s[0] == '-' {
        -magnitude_at(unsigned_part(s), p)
    } else {
        magnitude_at(unsigned_part(s), p)
    }
}

pub open spec fn fits_amount(v: int) -> bool {
    -0x7fff_ffff_ffff_ffff <= v <= 0x7fff_ffff_ffff_ffff
}

/// `s` is a well-formed decimal whose value, split at `p`, fits an `Amount`.
pub open spec fn parses_at(s: Seq<char>, p: int) -> bool {
    decimal_split(unsigned_part(s), p) && fits_amount(signed_value_at(s, p))
}

/// The value `parse_amount` gives `s`: the decimal it spells, or zero when it
/// is malformed or out of range.
pub open spec fn amount_of(s: Seq<char>) -> int {
    if exists|p: int| parses_at(s, p) {
        signed_value_at(s, choose|p: int| parses_at(s, p))
    } else {
        0
    }
}

/// A decimal splits at one place only: the position of its point.
pub proof fn lemma_split_unique(b: Seq<char>, p: int, q: int)
    requires
        decimal_split(b, p),
        decimal_split(b, q),
    ensures
        p == q,
{
    if p < q {
        assert(b.take(q)[p] == b[p]);
        assert(!is_digit(b[p]));
    } else if q < p {
        assert(b.take(p)[q] == b[q]);
        assert(!is_digit(b[q]));
    }
}

/// `amount_of` always fits an `Amount`.
pub proof fn lemma_amount_of_fits(s: Seq<char>)
    ensures
        fits_amount(amount_of(s)),
{
}

proof fn lemma_digits_push(t: Seq<char>, c: char)
    ensures
        digits_value(t.push(c)) == digits_value(t) * 10 + digit_value(c),
{
    assert(t.push(c).drop_last() =~= t);
}

/// Parses a decimal string such as `"-12.50"` into micro-units. Malformed or
/// out-of-range input yields zero instead of an error: an optional sign, digits,
/// and an optional point followed by digits are accepted; digits beyond the
/// sixth after the point are truncated. Exponent forms such as `"1e3"`, and
/// `"inf"` or `"NaN"`, which a floating-point parse would accept, are malformed
/// here and yield zero.
pub fn parse_amount(s: &str) -> (r: Amount)
    ensures
        r.micros == amount_of(s@),
{
    let n = s.unicode_len();
    let ghost sv = s@;
    let mut i: usize = 0;
    let mut negative = false;
    if n > 0 {
        let c0 = s.get_char(0);
        if c0 == '-' || c0 == '+' {
            negative = c0 == '-';
            i = 1;
        }
    }
    let start = i;
    let ghost b = sv.skip(start as int);
    assert(start as int == sign_len(sv));
    assert(b =~= unsigned_part(sv));

    // Whole part: stop accumulating once it cannot fit anyway.
    let limit: u64 = 9223372036855;
    let mut whole: u64 = 0;
    let mut capped = false;
    let ghost mut whole_exact: int = 0;
    while i < n
        invariant
            start <= i <= n,
            n == sv.len(),
            sv == s@,
            b == sv.skip(start as int),
            all_digits(b.take(i - start)),
            whole_exact == digits_value(b.take(i - start)),
            !capped ==> whole as int == whole_exact && whole <= limit,
            capped ==> whole_exact > limit,
            whole_exact >= 0,
            limit == 9223372036855,
        ensures
            start <= i <= n,
            i < n ==> !is_digit(sv[i as int]),
            all_digits(b.take(i - start)),
            whole_exact == digits_value(b.take(i - start)),
            !capped ==> whole as int == whole_exact && whole <= limit,
            capped ==> whole_exact > limit,
            whole_exact >= 0,
        decreases n - i,
    {
        let c = s.get_char(i);
        if !('0' <= c && c <= '9') {
            break;
        }
        let d = (c as u32 - '0' as u32) as u64;
        assert(d <= 9);
        proof {
            assert(b.take(i + 1 - start) =~= b.take(i - start).push(c));
            lemma_digits_push(b.take(i - start), c);
            whole_exact = whole_exact * 10 + d;
        }
        if !capped {
            if whole <= (limit - d) / 10 {
                whole = whole * 10 + d;
            } else {
                capped = true;
            }
        }
        i = i + 1;
    }
    let p = i;
    let ghost pg = (p - start) as int;
    assert(pg == b.len() || b[pg] == sv[p as int]);

    let mut has_point = false;
    let mut frac: u64 = 0;
    let mut frac_len: usize = 0;
    if i < n && s.get_char(i) == '.' {
        has_point = true;
        i = i + 1;
        while i < n
            invariant
                p < i <= n,
                n == sv.len(),
                sv == s@,
                b == sv.skip(start as int),
                pg == p - start,
                0 <= pg < b.len(),
                b[pg] == '.',
                all_digits(b.skip(pg + 1).take(i - p - 1)),
                frac_len as int == if i - p - 1 < 6 { i - p - 1 } else { 6 },
                frac as int == digits_value(b.skip(pg + 1).take(frac_len as int)),
                frac_len <= 6,
                frac < pow10(frac_len as nat),
            ensures
                p < i <= n,
                0 <= pg < b.len(),
                b[pg] == '.',
                i < n ==> !is_digit(sv[i as int]),
                all_digits(b.skip(pg + 1).take(i - p - 1)),
                frac_len as int == if i - p - 1 < 6 { i - p - 1 } else { 6 },
                frac as int == digits_value(b.skip(pg + 1).take(frac_len as int)),
                frac_len <= 6,
                frac < pow10(frac_len as nat),
            decreases n - i,
        {
            let c = s.get_char(i);
            if !('0' <= c && c <= '9') {
                break;
            }
            let ghost f = b.skip(pg + 1);
            assert(f[i - p - 1] == sv[i as int]);
            assert(f.take(i + 1 - p - 1) =~= f.take(i - p - 1).push(c));
            if frac_len < FRACTION_DIGITS {
                let d = (c as u32 - '0' as u32) as u64;
                proof {
                    assert(f.take(frac_len + 1) =~= f.take(frac_len as int).push(c));
                    lemma_digits_push(f.take(frac_len as int), c);
                    assert(frac_len < 6);
                    lemma_pow10_bounded(frac_len as nat);
                }
                frac = frac * 10 + d;
                frac_len = frac_len + 1;
            }
            i = i + 1;
        }
    }
    let ghost f = fraction_of(b, pg);
    if i < n || p == start && (!has_point || i == p + 1) {
        // Trailing garbage, or no digit at all.
        proof {
            if has_point && i < n {
                assert(b[i - start] == sv[i as int]);
            }
            lemma_no_parse(sv, pg, i - start, has_point);
        }
        return Amount { micros: 0 };
    }
    proof {
        assert(decimal_split(b, pg)) by {
            if has_point {
                assert(b.skip(pg + 1).take(i - p - 1) =~= b.skip(pg + 1));
            } else {
                assert(b.take(pg) =~= b.take(i - start));
            }
        }
        if has_point {
            assert(f == b.skip(pg + 1));
            assert(b.skip(pg + 1).take(i - p - 1) =~= f);
            if f.len() >= 6 {
            } else {
                assert(f.take(frac_len as int) =~= f);
            }
        } else {
            assert(f.len() == 0);
            assert(f.take(0) =~= f);
        }
        assert(pow10(0) == 1);
        assert(digits_value(f.take(0)) == 0);
    }
    // Pad the fraction to six digits.
    let mut k: usize = frac_len;
    assert(frac as int == digits_value(f.take(frac_len as int)));
    assert(frac < pow10(frac_len as nat));
    assert(pow10((k - frac_len) as nat) == 1);
    while k < FRACTION_DIGITS
        invariant
            frac_len <= k <= 6,
            frac as int == digits_value(f.take(frac_len as int)) * pow10((k - frac_len) as nat),
            frac < pow10(k as nat),
        decreases 6 - k,
    {
        proof {
            lemma_pow10_bounded(k as nat);
            let m = (k - frac_len) as nat;
            assert(pow10(m + 1) == 10 * pow10(m));
            let dv = digits_value(f.take(frac_len as int));
            assert(dv * pow10(m + 1) == dv * pow10(m) * 10) by (nonlinear_arith)
                requires
                    pow10(m + 1) == 10 * pow10(m),
            ;
            assert((k + 1 - frac_len) as nat == m + 1);
        }
        frac = frac * 10;
        k = k + 1;
    }
    proof {
        assert(frac as int == fraction_micros(f)) by {
            assert(pow10(0) == 1);
            if f.len() >= 6 {
                assert(frac_len == 6);
            } else {
                assert(frac_len as int == f.len());
                assert(f.take(frac_len as int) =~= f);
            }
        }
        assert(magnitude_at(b, pg) == whole_exact * 1000000 + frac as int);
        lemma_pow10_bounded(6);
    }
    if capped || whole > 9223372036854 || whole == 9223372036854 && frac > 775807 {
        proof {
            lemma_out_of_range(sv, pg, whole_exact, frac as int);
        }
        return Amount { micros: 0 };
    }
    assert(whole * 1000000 + frac <= 0x7fff_ffff_ffff_ffff) by (nonlinear_arith)
        requires
            frac < 1000000,
            whole < 9223372036854 || whole == 9223372036854 && frac <= 775807,
    ;
    let magnitude: i64 = (whole * 1000000 + frac) as i64;
    let r = if negative { Amount { micros: -magnitude } } else { Amount { micros: magnitude } };
    proof {
        assert(parses_at(sv, pg));
        assert forall|q: int| parses_at(sv, q) implies q == pg by {
            lemma_split_unique(b, pg, q);
        }
    }
    r
}

proof fn lemma_pow10_bounded(n: nat)
    requires
        n <= 6,
    ensures
        1 <= pow10(n) <= 1000000,
        pow10(n) * 10 == pow10(n + 1),
    decreases n,
{
    reveal_with_fuel(pow10, 7);
}

proof fn lemma_no_parse(s: Seq<char>, pg: int, e: int, has_point: bool)
    requires
        0 <= pg <= e <= unsigned_part(s).len(),
        all_digits(unsigned_part(s).take(pg)),
        pg == unsigned_part(s).len() || !is_digit(unsigned_part(s)[pg]),
        has_point ==> pg < unsigned_part(s).len() && unsigned_part(s)[pg] == '.' && e > pg,
        !has_point ==> e == pg && (pg == unsigned_part(s).len() || unsigned_part(s)[pg] != '.'),
        (e < unsigned_part(s).len() && !is_digit(unsigned_part(s)[e])) || (pg == 0 && e
            == unsigned_part(s).len() && (!has_point || e == pg + 1)),
    ensures
        amount_of(s) == 0,
{
    let b = unsigned_part(s);
    assert forall|q: int| !parses_at(s, q) by {
        if decimal_split(b, q) {
            if q < pg {
                assert(b.take(pg)[q] == b[q]);
            }
            if pg < q {
                assert(b.take(q)[pg] == b[pg]);
            }
            assert(q == pg);
            if has_point && e < b.len() {
                assert(b.skip(q + 1)[e - q - 1] == b[e]);
            }
        }
    }
}

proof fn lemma_out_of_range(s: Seq<char>, pg: int, whole: int, frac: int)
    requires
        0 <= frac <= 1000000,
        magnitude_at(unsigned_part(s), pg) == whole * 1000000 + frac,
        decimal_split(unsigned_part(s), pg),
        whole > 9223372036854 || whole == 9223372036854 && frac > 775807,
    ensures
        amount_of(s) == 0,
{
    assert(whole * 1000000 + frac > 0x7fff_ffff_ffff_ffff) by (nonlinear_arith)
        requires
            0 <= frac,
            whole > 9223372036854 || whole == 9223372036854 && frac > 775807,
    ;
    assert forall|q: int| !parses_at(s, q) by {
        if decimal_split(unsigned_part(s), q) {
            lemma_split_unique(unsigned_part(s), pg, q);
        }
    }
}

/// `b` is digits with at most one point, and at least one digit is not zero:
/// a well-formed unsigned decimal whose value is not exactly zero.
pub open spec fn nonzero_decimal(b: Seq<char>) -> bool {
    &&& forall|i: int| 0 <= i < b.len() ==> is_digit(#[trigger] b[i]) || b[i] == '.'
    &&& forall|i: int, j: int| 0 <= i < j < b.len() ==> !(#[trigger] b[i] == '.' && #[trigger] b[j] == '.')
    &&& exists|i: int| 0 <= i < b.len() && '1' <= #[trigger] b[i] && b[i] <= '9'
}

/// Whether `s` is a well-formed decimal (with optional sign) whose value is not
/// exactly zero; digits past the sixth after the point count too.
pub fn is_nonzero_decimal(s: &str) -> (r: bool)
    ensures
        r == nonzero_decimal(unsigned_part(s@)),
{
    let n = s.unicode_len();
    let ghost sv = s@;
    let mut start: usize = 0;
    if n > 0 {
        let c0 = s.get_char(0);
        if c0 == '-' || c0 == '+' {
            start = 1;
        }
    }
    let ghost b = sv.skip(start as int);
    assert(b =~= unsigned_part(sv));
    let mut seen_point = false;
    let mut seen_nonzero = false;
    let mut i: usize = start;
    while i < n
        invariant
            start <= i <= n,
            n == sv.len(),
            sv == s@,
            b == sv.skip(start as int),
            b == unsigned_part(sv),
            forall|j: int| 0 <= j < i - start ==> is_digit(#[trigger] b[j]) || b[j] == '.',
            seen_point <==> exists|j: int| 0 <= j < i - start && #[trigger] b[j] == '.',
            forall|a: int, c: int| 0 <= a < c < i - start ==> !(#[trigger] b[a] == '.' && #[trigger] b[c] == '.'),
            seen_nonzero <==> exists|j: int| 0 <= j < i - start && '1' <= #[trigger] b[j] && b[j] <= '9',
        decreases n - i,
    {
        let c = s.get_char(i);
        let ghost k = i - start;
        assert(b.len() == n - start);
        assert(b[k] == c);
        if c == '.' {
            if seen_point {
                let ghost a = choose|j: int| 0 <= j < i - start && #[trigger] b[j] == '.';
                assert(0 <= a < k < b.len() && b[a] == '.' && b[k] == '.');
                return false;
            }
            seen_point = true;
        } else if '0' <= c && c <= '9' {
            if c != '0' {
                seen_nonzero = true;
            }
        } else {
            assert(!(is_digit(b[k]) || b[k] == '.'));
            return false;
        }
        i = i + 1;
    }
    assert(b.len() == n - start);
    seen_nonzero
}

/// There is no previous sample, or it differs from `current` by a cent or more.
pub open spec fn moved_by_a_cent(previous: Option<Amount>, current: Amount) -> bool {
    match previous {
        None => true,
        Some(p) => !(-CENT_MICROS < p.micros - current.micros < CENT_MICROS),
    }
}

/// Whether a balance moved away from the previous sample by a cent or more:
/// there is no previous sample, or the two differ by at least `CENT_MICROS`.
pub fn balance_changed(previous: Option<Amount>, current: Amount) -> (r: bool)
    ensures
        r == moved_by_a_cent(previous, current),
{
    match previous {
        None => true,
        Some(p) => {
            let diff: i128 = p.micros as i128 - current.micros as i128;
            !(-(CENT_MICROS as i128) < diff && diff < CENT_MICROS as i128)
        },
    }
}

} // verus!
