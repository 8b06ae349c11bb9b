use crate::text::push_char;
use vstd::prelude::*;
use vstd::string::StringExecFns;

verus! {

/// A calendar date in the proleptic Gregorian calendar.
#[derive(Clone, Copy, PartialEq, Eq, Structural, Hash, Debug)]
pub struct Date {
    pub year: i32,
    pub month: u32,
    pub day: u32,
}

/// A log timestamp: a calendar date and a time of day, no time zone.
#[derive(Clone, Copy, PartialEq, Eq, Structural, Hash, Debug)]
pub struct Timestamp {
    pub year: i32,
    pub month: u32,
    pub day: u32,
    pub hour: u32,
    pub minute: u32,
    pub second: u32,
    pub nanosecond: u32,
}

impl Timestamp {
    /// The calendar date of this timestamp.
    pub open spec fn date_spec(self) -> Date {
        Date { year: self.year, month: self.month, day: self.day }
    }

    pub fn date(&self) -> (d: Date)
        ensures
            d == self.date_spec(),
    {
        Date { year: self.year, month: self.month, day: self.day }
    }

    /// A valid timestamp: the date is a real calendar day in the range a log
    /// timestamp can carry, and the time of day is in range (nanoseconds may
    /// name a leap second).
    pub open spec fn wf(self) -> bool {
        &&& date_wf(self.date_spec())
        &&& -262143 <= self.year <= 262142
        &&& self.hour <= 23
        &&& self.minute <= 59
        &&& self.second <= 59
        &&& self.nanosecond <= 1_999_999_999
    }
}

pub open spec fn is_leap_year(y: int) -> bool {
    (y % 4 == 0 && y % 100 != 0) || y % 400 == 0
}

/// The number of days in the given month of the given year.
pub open spec fn days_in_month(y: int, m: int) -> int {
    if m == 2 {
        if is_leap_year(y) {
            29
        } else {
            28
        }
    } else if m == 4 || m == 6 || m == 9 || m == 11 {
        30
    } else {
        31
    }
}

/// A real calendar day, within the year range a parsed timestamp can carry
/// (with one extra year of headroom for the day after the last one).
pub open spec fn date_wf(d: Date) -> bool {
    &&& 1 <= d.month <= 12
    &&& 1 <= d.day <= days_in_month(d.year as int, d.month as int)
    &&& -262143 <= d.year <= 262143
}

/// Calendar order: year, then month, then day.
pub open spec fn date_le(a: Date, b: Date) -> bool {
    ||| a.year < b.year
    ||| (a.year == b.year && a.month < b.month)
    ||| (a.year == b.year && a.month == b.month && a.day <= b.day)
}

pub open spec fn date_lt(a: Date, b: Date) -> bool {
    date_le(a, b) && a != b
}

/// A measure that lexicographic date order agrees with on valid dates.
pub open spec fn date_idx(d: Date) -> int {
    d.year * 600 + d.month * 40 + d.day
}

pub proof fn lemma_date_le_idx(a: Date, b: Date)
    requires
        date_wf(a),
        date_wf(b),
    ensures
        date_le(a, b) <==> date_idx(a) <= date_idx(b),
        date_lt(a, b) <==> date_idx(a) < date_idx(b),
{
}

pub fn is_leap_year_x(y: i32) -> (b: bool)
    requires
        -400_000 <= y,
    ensures
        b == is_leap_year(y as int),
{
    let z: i64 = y as i64 + 1_600_000_000;
    assert(z >= 0);
    let r = (z % 4 == 0 && z % 100 != 0) || z % 400 == 0;
    assert(r == is_leap_year(y as int)) by {
        assert(z % 4 == (y as int) % 4 && z % 100 == (y as int) % 100 && z % 400 == (y as int)
            % 400) by (nonlinear_arith)
            requires
                z == y + 1_600_000_000,
        ;
    }
    r
}

pub fn days_in_month_x(y: i32, m: u32) -> (n: u32)
    requires
        -400_000 <= y,
    ensures
        n == days_in_month(y as int, m as int),
{
    if m == 2 {
        if is_leap_year_x(y) {
            29
        } else {
            28
        }
    } else if m == 4 || m == 6 || m == 9 || m == 11 {
        30
    } else {
        31
    }
}

pub fn date_le_x(a: &Date, b: &Date) -> (r: bool)
    ensures
        r == date_le(*a, *b),
{
    if a.year != b.year {
        a.year < b.year
    } else if a.month != b.month {
        a.month < b.month
    } else {
        a.day <= b.day
    }
}

pub fn date_eq_x(a: &Date, b: &Date) -> (r: bool)
    ensures
        r == (*a == *b),
{
    a.year == b.year && a.month == b.month && a.day == b.day
}

/// The next calendar day.
pub open spec fn next_date_spec(d: Date) -> Date {
    if d.day < days_in_month(d.year as int, d.month as int) {
        Date { year: d.year, month: d.month, day: (d.day + 1) as u32 }
    } else if d.month < 12 {
        Date { year: d.year, month: (d.month + 1) as u32, day: 1 }
    } else {
        Date { year: (d.year + 1) as i32, month: 1, day: 1 }
    }
}

/// The successor of a valid date is the least valid date strictly after it.
pub proof fn lemma_next_date(d: Date)
    requires
        date_wf(d),
    ensures
        d.year < 262143 || d.month < 12 || d.day < 31 ==> date_wf(next_date_spec(d)),
        date_lt(d, next_date_spec(d)),
        forall|e: Date| date_wf(e) && date_lt(d, e) ==> date_le(next_date_spec(d), e),
{
    let n = next_date_spec(d);
    assert forall|e: Date| date_wf(e) && date_lt(d, e) implies date_le(n, e) by {
        if e.year == d.year && e.month == d.month {
            assert(e.day > d.day);
        }
    }
}

pub fn next_date(d: &Date) -> (n: Date)
    requires
        date_wf(*d),
        d.year < 262143,
    ensures
        n == next_date_spec(*d),
        date_wf(n),
{
    proof {
        lemma_next_date(*d);
    }
    if d.day < days_in_month_x(d.year, d.month) {
        Date { year: d.year, month: d.month, day: d.day + 1 }
    } else if d.month < 12 {
        Date { year: d.year, month: d.month + 1, day: 1 }
    } else {
        Date { year: d.year + 1, month: 1, day: 1 }
    }
}

/// Every calendar day from `lo` to `hi`, inclusive, in order.
pub open spec fn date_seq(lo: Date, hi: Date) -> Seq<Date>
    decreases date_idx(hi) - date_idx(lo),
    when date_wf(lo) && date_wf(hi)
    via date_seq_decreases
{
    if !date_le(lo, hi) {
        seq![]
    } else if lo == hi {
        seq![lo]
    } else {
        seq![lo] + date_seq(next_date_spec(lo), hi)
    }
}

#[via_fn]
proof fn date_seq_decreases(lo: Date, hi: Date) {
    if date_le(lo, hi) && lo != hi {
        if lo.year == 262143 && lo.month == 12 && lo.day == 31 {
            assert(date_le(hi, lo));
            assert(false);
        }
        lemma_next_date(lo);
        lemma_date_le_idx(next_date_spec(lo), hi);
        lemma_date_le_idx(lo, hi);
    }
}

/// Shape of a full date range: it starts at `lo`, ends at `hi`, and each
/// entry is the calendar successor of the one before it.
pub proof fn lemma_date_seq(lo: Date, hi: Date)
    requires
        date_wf(lo),
        date_wf(hi),
        date_le(lo, hi),
    ensures
        date_seq(lo, hi).len() >= 1,
        date_seq(lo, hi)[0] == lo,
        date_seq(lo, hi).last() == hi,
        forall|k: int|
            0 <= k < date_seq(lo, hi).len() ==> date_wf(#[trigger] date_seq(lo, hi)[k]) && date_le(
                lo,
                date_seq(lo, hi)[k],
            ) && date_le(date_seq(lo, hi)[k], hi),
        forall|k: int|
            0 <= k < date_seq(lo, hi).len() - 1 ==> #[trigger] date_seq(lo, hi)[k + 1]
                == next_date_spec(date_seq(lo, hi)[k]),
    decreases date_idx(hi) - date_idx(lo),
{
    if lo == hi {
    } else {
        if lo.year == 262143 && lo.month == 12 && lo.day == 31 {
            assert(date_le(hi, lo));
            assert(false);
        }
        lemma_next_date(lo);
        lemma_date_le_idx(next_date_spec(lo), hi);
        lemma_date_le_idx(lo, hi);
        lemma_date_seq(next_date_spec(lo), hi);
        let s = date_seq(lo, hi);
        let t = date_seq(next_date_spec(lo), hi);
        assert(s == seq![lo] + t);
        assert forall|k: int| 0 <= k < s.len() - 1 implies #[trigger] s[k + 1] == next_date_spec(
            s[k],
        ) by {
            if k > 0 {
                assert(s[k] == t[k - 1]);
                assert(s[k + 1] == t[k]);
                assert(t[(k - 1) + 1] == next_date_spec(t[k - 1]));
            }
        }
    }
}

/// Distinct dates in a full range: strictly increasing, hence no repeats.
pub proof fn lemma_date_seq_distinct(lo: Date, hi: Date)
    requires
        date_wf(lo),
        date_wf(hi),
        date_le(lo, hi),
    ensures
        forall|i: int, j: int|
            0 <= i < j < date_seq(lo, hi).len() ==> date_lt(
                #[trigger] date_seq(lo, hi)[i],
                #[trigger] date_seq(lo, hi)[j],
            ),
{
    lemma_date_seq(lo, hi);
    let s = date_seq(lo, hi);
    assert forall|i: int, j: int| 0 <= i < j < s.len() implies date_lt(
        #[trigger] s[i],
        #[trigger] s[j],
    ) by {
        lemma_date_seq_increasing(lo, hi, i, j);
    }
}

proof fn lemma_date_seq_increasing(lo: Date, hi: Date, i: int, j: int)
    requires
        date_wf(lo),
        date_wf(hi),
        date_le(lo, hi),
        0 <= i < j < date_seq(lo, hi).len(),
    ensures
        date_lt(date_seq(lo, hi)[i], date_seq(lo, hi)[j]),
    decreases j - i,
{
    lemma_date_seq(lo, hi);
    let s = date_seq(lo, hi);
    if j == i + 1 {
        lemma_next_lt(s[i]);
    } else {
        lemma_date_seq_increasing(lo, hi, i, j - 1);
        lemma_date_seq_increasing(lo, hi, j - 1, j);
    }
}

proof fn lemma_next_lt(d: Date)
    requires
        date_wf(d),
    ensures
        date_lt(d, next_date_spec(d)),
{
}

/// Every valid day between the bounds appears in the range.
pub proof fn lemma_date_seq_contains(lo: Date, hi: Date, d: Date)
    requires
        date_wf(lo),
        date_wf(hi),
        date_le(lo, hi),
        date_wf(d),
        date_le(lo, d),
        date_le(d, hi),
    ensures
        exists|k: int| 0 <= k < date_seq(lo, hi).len() && #[trigger] date_seq(lo, hi)[k] == d,
    decreases date_idx(hi) - date_idx(lo),
{
    lemma_date_seq(lo, hi);
    if d == lo {
        assert(date_seq(lo, hi)[0] == d);
    } else {
        assert(lo != hi || d == lo);
        lemma_next_date(lo);
        lemma_date_le_idx(lo, hi);
        lemma_date_le_idx(next_date_spec(lo), hi);
        lemma_date_le_idx(next_date_spec(lo), d);
        lemma_date_seq_contains(next_date_spec(lo), hi, d);
        let s = date_seq(lo, hi);
        let t = date_seq(next_date_spec(lo), hi);
        assert(s == seq![lo] + t);
        let k = choose|k: int| 0 <= k < t.len() && #[trigger] t[k] == d;
        assert(s[k + 1] == d);
    }
}

/// The decimal digit character for `n` in 0..=9.
pub open spec fn digit_char(n: int) -> char {
    if n == 0 {
        '0'
    } else if n == 1 {
        '1'
    } else if n == 2 {
        '2'
    } else if n == 3 {
        '3'
    } else if n == 4 {
        '4'
    } else if n == 5 {
        '5'
    } else if n == 6 {
        '6'
    } else if n == 7 {
        '7'
    } else if n == 8 {
        '8'
    } else {
        '9'
    }
}

/// `n` in 0..=99 as two decimal digits.
pub open spec fn two_digits(n: int) -> Seq<char> {
    seq![digit_char(n / 10), digit_char(n % 10)]
}

/// The three-letter English abbreviation of month `m` in 1..=12.
pub open spec fn month_abbrev(m: int) -> Seq<char> {
    if m == 1 {
        seq!['J', 'a', 'n']
    } else if m == 2 {
        seq!['F', 'e', 'b']
    } else if m == 3 {
        seq!['M', 'a', 'r']
    } else if m == 4 {
        seq!['A', 'p', 'r']
    } else if m == 5 {
        seq!['M', 'a', 'y']
    } else if m == 6 {
        seq!['J', 'u', 'n']
    } else if m == 7 {
        seq!['J', 'u', 'l']
    } else if m == 8 {
        seq!['A', 'u', 'g']
    } else if m == 9 {
        seq!['S', 'e', 'p']
    } else if m == 10 {
        seq!['O', 'c', 't']
    } else if m == 11 {
        seq!['N', 'o', 'v']
    } else {
        seq!['D', 'e', 'c']
    }
}

/// The decimal digits of `n` without leading zeros; empty for zero and below.
pub open spec fn dec_digits(n: int) -> Seq<char>
    decreases n,
{
    if n <= 0 {
        seq![]
    } else {
        dec_digits(n / 10).push(digit_char(n % 10))
    }
}

/// `n >= 0` in decimal, zero-padded on the left to at least four digits.
pub open spec fn padded4(n: int) -> Seq<char> {
    if n == 0 {
        seq!['0', '0', '0', '0']
    } else if n < 10 {
        seq!['0', '0', '0'] + dec_digits(n)
    } else if n < 100 {
        seq!['0', '0'] + dec_digits(n)
    } else if n < 1000 {
        seq!['0'] + dec_digits(n)
    } else {
        dec_digits(n)
    }
}

/// A year as at least four digits, with a leading minus sign if negative.
pub open spec fn year_chars(y: int) -> Seq<char> {
    if y < 0 {
        seq!['-'] + padded4(-y)
    } else {
        padded4(y)
    }
}

/// A date label: two-digit day, month abbreviation, year.
pub open spec fn fmt_date(d: Date) -> Seq<char> {
    two_digits(d.day as int) + seq![' '] + month_abbrev(d.month as int) + seq![' '] + year_chars(
        d.year as int,
    )
}

proof fn lemma_dec_digits_shape(n: int)
    requires
        n >= 1,
    ensures
        dec_digits(n).len() >= 1,
        dec_digits(n)[0] != '0',
        n < 10 ==> dec_digits(n) == seq![digit_char(n)],
        n >= 10 ==> dec_digits(n).len() >= 2,
        n >= 100 ==> dec_digits(n).len() >= 3,
        n >= 1000 ==> dec_digits(n).len() >= 4,
        n < 10 ==> dec_digits(n).len() == 1,
        n < 100 ==> dec_digits(n).len() <= 2,
        n < 1000 ==> dec_digits(n).len() <= 3,
        n < 10000 ==> dec_digits(n).len() <= 4,
    decreases n,
{
    if n < 10 {
        reveal_with_fuel(dec_digits, 2);
        assert(dec_digits(n) =~= seq![digit_char(n)]);
    } else {
        lemma_dec_digits_shape(n / 10);
        assert(dec_digits(n)[0] == dec_digits(n / 10)[0]);
    }
}

proof fn lemma_dec_digits_injective(a: int, b: int)
    requires
        a >= 0,
        b >= 0,
        dec_digits(a) == dec_digits(b),
    ensures
        a == b,
    decreases a,
{
    if a == 0 || b == 0 {
        if a >= 1 {
            lemma_dec_digits_shape(a);
        }
        if b >= 1 {
            lemma_dec_digits_shape(b);
        }
    } else {
        lemma_dec_digits_shape(a);
        lemma_dec_digits_shape(b);
        assert(dec_digits(a).last() == digit_char(a % 10));
        assert(dec_digits(b).last() == digit_char(b % 10));
        assert(a % 10 == b % 10);
        assert(dec_digits(a).drop_last() =~= dec_digits(a / 10));
        assert(dec_digits(b).drop_last() =~= dec_digits(b / 10));
        lemma_dec_digits_injective(a / 10, b / 10);
    }
}

proof fn lemma_padded4_injective(a: int, b: int)
    requires
        a >= 0,
        b >= 0,
        padded4(a) == padded4(b),
    ensures
        a == b,
    decreases a,
{
    if a >= 1 {
        lemma_dec_digits_shape(a);
    }
    if b >= 1 {
        lemma_dec_digits_shape(b);
    }
    let pa = padded4(a);
    let pb = padded4(b);
    if a == 0 {
        if b >= 1000 {
            assert(pb[0] != '0');
        } else if b > 0 {
            assert(pb.last() == dec_digits(b).last());
            assert(dec_digits(b).last() == digit_char(b % 10));
            if b < 10 {
                assert(pb == seq!['0', '0', '0'] + dec_digits(b));
                assert(pb[3] == digit_char(b));
                assert(pa[3] == '0');
                assert(digit_char(b) != '0');
            } else if b < 100 {
                assert(pb[2] == dec_digits(b)[0]);
                assert(pa[2] == '0');
            } else {
                assert(pb[1] == dec_digits(b)[0]);
                assert(pa[1] == '0');
            }
        }
    } else if b == 0 {
        lemma_padded4_injective(b, a);
    } else {
        // both at least 1: compare the padding brackets, then the digits
        if a < 10 && b < 10 {
            assert(pa[3] == digit_char(a) && pb[3] == digit_char(b));
        } else if 10 <= a < 100 && 10 <= b < 100 {
            assert(pa.skip(2) =~= dec_digits(a));
            assert(pb.skip(2) =~= dec_digits(b));
            lemma_dec_digits_injective(a, b);
        } else if 100 <= a < 1000 && 100 <= b < 1000 {
            assert(pa.skip(1) =~= dec_digits(a));
            assert(pb.skip(1) =~= dec_digits(b));
            lemma_dec_digits_injective(a, b);
        } else if a >= 1000 && b >= 1000 {
            lemma_dec_digits_injective(a, b);
        } else {
            // brackets differ: a zero in one aligns with a leading digit of
            // the other, or the lengths disagree
            lemma_padded4_brackets(a, b, pa, pb);
            assert(a == b);
        }
    }
}

/// Two positive numbers from different padding brackets never share a
/// padded representation, so under these hypotheses anything follows.
proof fn lemma_padded4_brackets(a: int, b: int, pa: Seq<char>, pb: Seq<char>)
    requires
        a >= 1,
        b >= 1,
        pa == padded4(a),
        pb == padded4(b),
        pa == pb,
        !(a < 10 && b < 10),
        !(10 <= a < 100 && 10 <= b < 100),
        !(100 <= a < 1000 && 100 <= b < 1000),
        !(a >= 1000 && b >= 1000),
    ensures
        a == b,
{
    lemma_dec_digits_shape(a);
    lemma_dec_digits_shape(b);
    if a >= 10000 || b >= 10000 {
        // lengths differ: one side is exactly four characters
        if a >= 10000 {
            assert(pa.len() >= 5);
            assert(b < 10000);
            if b < 1000 {
                assert(pb.len() == 4);
            } else {
                assert(pb =~= dec_digits(b));
                lemma_dec_digits_len4(b);
            }
        } else {
            assert(pb.len() >= 5);
            assert(a < 10000);
            if a < 1000 {
                assert(pa.len() == 4);
            } else {
                assert(pa =~= dec_digits(a));
                lemma_dec_digits_len4(a);
            }
        }
    } else {
        // both under 10000: all four characters long, and the first nonzero
        // position tells the bracket
        if a < 1000 {
            assert(pa.len() == 4);
        } else {
            lemma_dec_digits_len4(a);
        }
        if b < 1000 {
            assert(pb.len() == 4);
        } else {
            lemma_dec_digits_len4(b);
        }
        let la = lead_pos(a);
        let lb = lead_pos(b);
        assert(la != lb);
        lemma_padded4_lead(a);
        lemma_padded4_lead(b);
        assert(pa[la] != '0' && (la > 0 ==> pa[la - 1] == '0'));
        assert(pb[lb] != '0' && (lb > 0 ==> pb[lb - 1] == '0'));
        if la < lb {
            assert(pa[la] == pb[la]);
            assert(pb[lb - 1] == '0');
            if la < lb - 1 {
                lemma_padded4_zeros(b);
                assert(pb[la] == '0');
            }
        } else {
            assert(pb[lb] == pa[lb]);
            if lb < la - 1 {
                lemma_padded4_zeros(a);
                assert(pa[lb] == '0');
            }
        }
    }
}

/// Index of the leading (first nonzero) digit of `padded4(n)` for n in
/// 1..=9999.
spec fn lead_pos(n: int) -> int {
    if n < 10 {
        3
    } else if n < 100 {
        2
    } else if n < 1000 {
        1
    } else {
        0
    }
}

proof fn lemma_dec_digits_len4(n: int)
    requires
        1000 <= n < 10000,
    ensures
        dec_digits(n).len() == 4,
{
    lemma_dec_digits_shape(n / 1000);
    assert(n / 10 / 10 / 10 == n / 1000) by (nonlinear_arith)
        requires
            n >= 1,
    ;
    assert(n / 10 / 10 >= 10 && n / 10 / 10 < 100) by (nonlinear_arith)
        requires
            1000 <= n < 10000,
    ;
    assert(dec_digits(n) == dec_digits(n / 10).push(digit_char(n % 10)));
    assert(dec_digits(n / 10) == dec_digits(n / 10 / 10).push(digit_char(n / 10 % 10)));
    assert(dec_digits(n / 10 / 10) == dec_digits(n / 10 / 10 / 10).push(
        digit_char(n / 10 / 10 % 10),
    ));
}

proof fn lemma_padded4_lead(n: int)
    requires
        1 <= n < 10000,
    ensures
        padded4(n).len() == 4,
        padded4(n)[lead_pos(n)] != '0',
        lead_pos(n) > 0 ==> padded4(n)[lead_pos(n) - 1] == '0',
{
    lemma_dec_digits_shape(n);
    if n < 100 {
        if n >= 10 {
            assert(padded4(n)[2] == dec_digits(n)[0]);
        }
    } else if n < 1000 {
        assert(padded4(n)[1] == dec_digits(n)[0]);
    } else {
        lemma_dec_digits_len4(n);
    }
}

proof fn lemma_padded4_zeros(n: int)
    requires
        1 <= n < 10000,
    ensures
        forall|k: int| 0 <= k < lead_pos(n) ==> #[trigger] padded4(n)[k] == '0',
{
}

/// Distinct years give distinct label suffixes.
proof fn lemma_year_chars_injective(a: int, b: int)
    requires
        year_chars(a) == year_chars(b),
    ensures
        a == b,
{
    if a >= 0 && b >= 0 {
        lemma_padded4_injective(a, b);
    } else if a < 0 && b < 0 {
        assert(year_chars(a).skip(1) =~= padded4(-a));
        assert(year_chars(b).skip(1) =~= padded4(-b));
        lemma_padded4_injective(-a, -b);
    } else if a < 0 {
        assert(year_chars(a)[0] == '-');
        lemma_padded4_first_digit(b);
    } else {
        assert(year_chars(b)[0] == '-');
        lemma_padded4_first_digit(a);
    }
}

proof fn lemma_padded4_first_digit(n: int)
    requires
        n >= 0,
    ensures
        padded4(n).len() >= 4,
        padded4(n)[0] != '-',
{
    if n >= 1 {
        lemma_dec_digits_shape(n);
        if n >= 1000 {
            let d = dec_digits(n)[0];
            lemma_dec_digits_first_is_digit(n);
        }
    }
}

proof fn lemma_dec_digits_first_is_digit(n: int)
    requires
        n >= 1,
    ensures
        dec_digits(n)[0] != '-',
    decreases n,
{
    if n < 10 {
        lemma_dec_digits_shape(n);
    } else {
        lemma_dec_digits_first_is_digit(n / 10);
        lemma_dec_digits_shape(n / 10);
        assert(dec_digits(n)[0] == dec_digits(n / 10)[0]);
    }
}

/// Distinct valid dates always get distinct labels.
pub proof fn lemma_fmt_date_injective(a: Date, b: Date)
    requires
        date_wf(a),
        date_wf(b),
        fmt_date(a) == fmt_date(b),
    ensures
        a == b,
{
    let fa = fmt_date(a);
    let fb = fmt_date(b);
    assert(fa[0] == digit_char(a.day as int / 10) && fa[1] == digit_char(a.day as int % 10));
    assert(fb[0] == digit_char(b.day as int / 10) && fb[1] == digit_char(b.day as int % 10));
    assert(a.day as int / 10 == b.day as int / 10 && a.day as int % 10 == b.day as int % 10);
    assert(a.day == b.day);
    assert(fa.subrange(3, 6) =~= month_abbrev(a.month as int));
    assert(fb.subrange(3, 6) =~= month_abbrev(b.month as int));
    assert(month_abbrev(a.month as int) == month_abbrev(b.month as int));
    assert(a.month == b.month) by {
        let ma = month_abbrev(a.month as int);
        let mb = month_abbrev(b.month as int);
        assert(ma[0] == mb[0] && ma[1] == mb[1] && ma[2] == mb[2]);
    }
    assert(fa.skip(7) =~= year_chars(a.year as int));
    assert(fb.skip(7) =~= year_chars(b.year as int));
    lemma_year_chars_injective(a.year as int, b.year as int);
}

/// Appends the decimal digits of `n` (nothing for zero).
fn push_dec_digits(out: &mut String, n: u32)
    ensures
        final(out)@ == old(out)@ + dec_digits(n as int),
    decreases n,
{
    if n == 0 {
        assert(old(out)@ + dec_digits(0) =~= old(out)@);
        return ;
    }
    push_dec_digits(out, n / 10);
    let d = digit_char_x(n % 10);
    push_char(out, d);
    assert(old(out)@ + dec_digits(n as int) =~= (old(out)@ + dec_digits(n as int / 10)).push(
        digit_char(n as int % 10),
    ));
}

pub fn digit_char_x(n: u32) -> (c: char)
    requires
        n <= 9,
    ensures
        c == digit_char(n as int),
{
    if n == 0 {
        '0'
    } else if n == 1 {
        '1'
    } else if n == 2 {
        '2'
    } else if n == 3 {
        '3'
    } else if n == 4 {
        '4'
    } else if n == 5 {
        '5'
    } else if n == 6 {
        '6'
    } else if n == 7 {
        '7'
    } else if n == 8 {
        '8'
    } else {
        '9'
    }
}

/// Appends `n` zero-padded on the left to at least four digits.
pub fn push_padded4(out: &mut String, n: u32)
    ensures
        final(out)@ == old(out)@ + padded4(n as int),
{
    if n == 0 {
        push_char(out, '0');
        push_char(out, '0');
        push_char(out, '0');
        push_char(out, '0');
        assert(final(out)@ =~= old(out)@ + padded4(0));
    } else {
        if n < 10 {
            push_char(out, '0');
            push_char(out, '0');
            push_char(out, '0');
        } else if n < 100 {
            push_char(out, '0');
            push_char(out, '0');
        } else if n < 1000 {
            push_char(out, '0');
        }
        let ghost mid = out@;
        push_dec_digits(out, n);
        proof {
            if n < 10 {
                assert(old(out)@ + padded4(n as int) =~= mid + dec_digits(n as int));
            } else if n < 100 {
                assert(old(out)@ + padded4(n as int) =~= mid + dec_digits(n as int));
            } else if n < 1000 {
                assert(old(out)@ + padded4(n as int) =~= mid + dec_digits(n as int));
            } else {
                assert(old(out)@ + padded4(n as int) =~= mid + dec_digits(n as int));
            }
        }
    }
}

/// The label for a date, formatted as two-digit day, English month
/// abbreviation and year, separated by spaces.
pub fn fmt_date_x(d: &Date) -> (r: String)
    requires
        date_wf(*d),
    ensures
        r@ == fmt_date(*d),
{
    let mut out = String::new();
    let c1 = digit_char_x(d.day / 10);
    push_char(&mut out, c1);
    let c2 = digit_char_x(d.day % 10);
    push_char(&mut out, c2);
    push_char(&mut out, ' ');
    let ghost before_month = out@;
    if d.month == 1 {
        out.append("Jan");
        proof {
            reveal_strlit("Jan");
            assert("Jan"@ =~= month_abbrev(1));
        }
    } else if d.month == 2 {
        out.append("Feb");
        proof {
            reveal_strlit("Feb");
            assert("Feb"@ =~= month_abbrev(2));
        }
    } else if d.month == 3 {
        out.append("Mar");
        proof {
            reveal_strlit("Mar");
            assert("Mar"@ =~= month_abbrev(3));
        }
    } else if d.month == 4 {
        out.append("Apr");
        proof {
            reveal_strlit("Apr");
            assert("Apr"@ =~= month_abbrev(4));
        }
    } else if d.month == 5 {
        out.append("May");
        proof {
            reveal_strlit("May");
            assert("May"@ =~= month_abbrev(5));
        }
    } else if d.month == 6 {
        out.append("Jun");
        proof {
            reveal_strlit("Jun");
            assert("Jun"@ =~= month_abbrev(6));
        }
    } else if d.month == 7 {
        out.append("Jul");
        proof {
            reveal_strlit("Jul");
            assert("Jul"@ =~= month_abbrev(7));
        }
    } else if d.month == 8 {
        out.append("Aug");
        proof {
            reveal_strlit("Aug");
            assert("Aug"@ =~= month_abbrev(8));
        }
    } else if d.month == 9 {
        out.append("Sep");
        proof {
            reveal_strlit("Sep");
            assert("Sep"@ =~= month_abbrev(9));
        }
    } else if d.month == 10 {
        out.append("Oct");
        proof {
            reveal_strlit("Oct");
            assert("Oct"@ =~= month_abbrev(10));
        }
    } else if d.month == 11 {
        out.append("Nov");
        proof {
            reveal_strlit("Nov");
            assert("Nov"@ =~= month_abbrev(11));
        }
    } else {
        out.append("Dec");
        proof {
            reveal_strlit("Dec");
            assert("Dec"@ =~= month_abbrev(12));
        }
    }
    push_char(&mut out, ' ');
    if d.year < 0 {
        push_char(&mut out, '-');
        let m = (-(d.year as i64)) as u32;
        assert(m == -(d.year as int));
        push_padded4(&mut out, m);
    } else {
        push_padded4(&mut out, d.year as u32);
    }
    proof {
        assert(out@ =~= fmt_date(*d));
    }
    out
}

} // verus!
