//! Shadow recordings: clips of raw samples named by UTC time, of which the
//! newest are kept.

use crate::text::{decimal, digit_of, digits, put_decimal, put_digits, same};
use vstd::prelude::*;
use vstd::relations::{sorted_by, total_ordering};

verus! {

broadcast use vstd::seq_lib::group_to_multiset_ensures;

/// Years of 366 days.
pub open spec fn is_leap(y: int) -> bool {
    y % 4 == 0 && (y % 100 != 0 || y % 400 == 0)
}

/// Days in the month `m` of the year `y`.
pub open spec fn month_days(y: int, m: int) -> int {
    if m == 2 {
        if is_leap(y) { 29 } else { 28 }
    } else if m == 4 || m == 6 || m == 9 || m == 11 {
        30
    } else {
        31
    }
}

/// The date exists.
pub open spec fn is_date(y: int, m: int, d: int) -> bool {
    1 <= m <= 12 && 1 <= d <= month_days(y, m)
}

/// Leap years before the year `y`, counted from the year 1.
pub open spec fn leaps_before(y: int) -> int {
    (y - 1) / 4 - (y - 1) / 100 + (y - 1) / 400
}

/// Days from the first of January 1970 to that of the year `y`.
pub open spec fn year_start(y: int) -> int {
    365 * (y - 1970) + leaps_before(y) - 477
}

/// Days of the year `y` before its month `m`.
pub open spec fn month_start(y: int, m: int) -> int
    decreases m,
{
    if m <= 1 {
        0
    } else {
        month_start(y, m - 1) + month_days(y, m - 1)
    }
}

/// Days from the first of January 1970 to a date.
pub open spec fn day_number(y: int, m: int, d: int) -> int {
    year_start(y) + month_start(y, m) + d - 1
}

/// The date a number of days after the first of January 1970.
pub open spec fn date_of(days: int) -> (int, int, int) {
    choose|y: int, m: int, d: int| is_date(y, m, d) && #[trigger] day_number(y, m, d) == days
}

proof fn lemma_year_length(y: int)
    ensures
        year_start(y + 1) == year_start(y) + if is_leap(y) { 366int } else { 365 },
        month_start(y, 13) == if is_leap(y) { 366int } else { 365 },
{
    reveal_with_fuel(month_start, 14);
    let z = y - 1;
    assert(y / 4 == z / 4 + if y % 4 == 0 { 1int } else { 0 });
    assert(y / 100 == z / 100 + if y % 100 == 0 { 1int } else { 0 });
    assert(y / 400 == z / 400 + if y % 400 == 0 { 1int } else { 0 });
    assert(y % 400 == 0 ==> y % 100 == 0);
    assert(y % 100 == 0 ==> y % 4 == 0);
}

proof fn lemma_years_grow(y: int, z: int)
    requires
        y <= z,
    ensures
        year_start(y) <= year_start(z),
    decreases z - y,
{
    if y < z {
        lemma_years_grow(y, z - 1);
        lemma_year_length(z - 1);
    }
}

proof fn lemma_month_grows(y: int, m: int, n: int)
    requires
        1 <= m <= n,
    ensures
        0 <= month_start(y, m) <= month_start(y, n),
    decreases n,
{
    if m < n {
        lemma_month_grows(y, m, n - 1);
    } else if m > 1 {
        lemma_month_grows(y, 1, m - 1);
    }
}

proof fn lemma_day_in_year(y: int, m: int, d: int)
    requires
        is_date(y, m, d),
    ensures
        year_start(y) <= day_number(y, m, d) < year_start(y + 1),
{
    lemma_year_length(y);
    lemma_month_grows(y, 1, m);
    lemma_month_grows(y, m + 1, 13);
}

/// A day has one date.
pub proof fn law_dates_are_unique(y: int, m: int, d: int, y2: int, m2: int, d2: int)
    requires
        is_date(y, m, d),
        is_date(y2, m2, d2),
        day_number(y, m, d) == day_number(y2, m2, d2),
    ensures
        (y, m, d) == (y2, m2, d2),
{
    lemma_day_in_year(y, m, d);
    lemma_day_in_year(y2, m2, d2);
    if y < y2 {
        lemma_years_grow(y + 1, y2);
    } else if y2 < y {
        lemma_years_grow(y2 + 1, y);
    }
    if m < m2 {
        lemma_month_grows(y, m + 1, m2);
    } else if m2 < m {
        lemma_month_grows(y, m2 + 1, m);
    }
}

/// The date of a day is the one that has its number.
pub proof fn law_date_of_day(y: int, m: int, d: int)
    requires
        is_date(y, m, d),
    ensures
        date_of(day_number(y, m, d)) == (y, m, d),
{
    let (y2, m2, d2) = date_of(day_number(y, m, d));
    law_dates_are_unique(y, m, d, y2, m2, d2);
}

/// The date after a date.
pub open spec fn next_date(y: int, m: int, d: int) -> (int, int, int) {
    if d < month_days(y, m) {
        (y, m, d + 1)
    } else if m < 12 {
        (y, m + 1, 1)
    } else {
        (y + 1, 1, 1)
    }
}

/// Days are counted from the first of January 1970, and the day after a date is
/// one day later: the numbers are those of the calendar.
pub proof fn law_calendar_counts_days(y: int, m: int, d: int)
    requires
        is_date(y, m, d),
    ensures
        day_number(1970, 1, 1) == 0,
        ({
            let (y2, m2, d2) = next_date(y, m, d);
            is_date(y2, m2, d2) && day_number(y2, m2, d2) == day_number(y, m, d) + 1
        }),
{
    lemma_year_length(y);
    reveal_with_fuel(month_start, 2);
}

/// A year in four characters or more, its sign among them.
pub open spec fn year_text(y: int) -> Seq<char> {
    if y <= -100 {
        seq!['-'] + decimal((-y) as nat)
    } else if y < 0 {
        seq!['-'] + digits((-y) as nat, 3)
    } else if y < 1000 {
        digits(y as nat, 4)
    } else {
        decimal(y as nat)
    }
}

/// The name of a time: YYYYMMDDTHHMMSSZ.
pub open spec fn name_of(secs: int) -> Seq<char> {
    let (y, m, d) = date_of(secs / 86_400);
    let rem = secs % 86_400;
    year_text(y) + digits(m as nat, 2) + digits(d as nat, 2) + seq!['T'] + digits(
        (rem / 3600) as nat,
        2,
    ) + digits((rem % 3600 / 60) as nat, 2) + digits((rem % 60) as nat, 2) + seq!['Z']
}

/// Where the months of a year that begins in March begin, and how long the year
/// can be.
pub open spec fn march_start(k: int) -> int {
    if k == 0 {
        0
    } else if k == 1 {
        31
    } else if k == 2 {
        61
    } else if k == 3 {
        92
    } else if k == 4 {
        122
    } else if k == 5 {
        153
    } else if k == 6 {
        184
    } else if k == 7 {
        214
    } else if k == 8 {
        245
    } else if k == 9 {
        275
    } else if k == 10 {
        306
    } else if k == 11 {
        337
    } else {
        366
    }
}

/// The month, counted from March, that a day of a year from March falls in, and
/// the day of that month.
fn month_of(doy: u64) -> (r: (u64, u64))
    requires
        doy <= 365,
    ensures
        r.0 <= 11,
        march_start(r.0 as int) <= doy < march_start(r.0 + 1),
        r.1 == doy - march_start(r.0 as int) + 1,
{
    if doy < 31 {
        (0, doy + 1)
    } else if doy < 61 {
        (1, doy - 31 + 1)
    } else if doy < 92 {
        (2, doy - 61 + 1)
    } else if doy < 122 {
        (3, doy - 92 + 1)
    } else if doy < 153 {
        (4, doy - 122 + 1)
    } else if doy < 184 {
        (5, doy - 153 + 1)
    } else if doy < 214 {
        (6, doy - 184 + 1)
    } else if doy < 245 {
        (7, doy - 214 + 1)
    } else if doy < 275 {
        (8, doy - 245 + 1)
    } else if doy < 306 {
        (9, doy - 275 + 1)
    } else if doy < 337 {
        (10, doy - 306 + 1)
    } else {
        (11, doy - 337 + 1)
    }
}

/// How many days there are from the first of January 1970 to the first of March
/// of the year `400 e + 100 a + 4 b + c`.
proof fn lemma_march(e: int, a: int, b: int, c: int)
    requires
        0 <= a <= 3,
        0 <= b <= 24,
        0 <= c <= 3,
    ensures
        ({
            let y = 400 * e + 100 * a + 4 * b + c;
            &&& year_start(y) + 59 + (if is_leap(y) { 1int } else { 0 }) == 146_097 * e + 36_524 * a + 1461 * b
                + 365 * c - 719_468
            &&& year_start(y + 1) == 146_097 * e + 36_524 * a + 1461 * b + 365 * c - 719_468 + 306
            &&& c == 3 && (b < 24 || a == 3) ==> is_leap(y + 1)
        }),
{
    let y = 400 * e + 100 * a + 4 * b + c;
    lemma_quotients(e, a, b, c);
    assert(year_start(y + 1) == 365 * (y + 1 - 1970) + (y / 4 - y / 100 + y / 400) - 477);
    assert(year_start(y + 1) == year_start(y) + if is_leap(y) { 366int } else { 365 }) by {
        lemma_year_length(y);
    }
    if c == 3 {
        lemma_next_quotients(e, a, b);
    }
}

proof fn lemma_quotients(e: int, a: int, b: int, c: int)
    requires
        0 <= a <= 3,
        0 <= b <= 24,
        0 <= c <= 3,
    ensures
        ({
            let y = 400 * e + 100 * a + 4 * b + c;
            y / 4 == 100 * e + 25 * a + b && y / 100 == 4 * e + a && y / 400 == e
        }),
{
    let y = 400 * e + 100 * a + 4 * b + c;
    assert(y / 4 == 100 * e + 25 * a + b) by (nonlinear_arith)
        requires
            y == 4 * (100 * e + 25 * a + b) + c,
            0 <= c <= 3,
    ;
    assert(y / 100 == 4 * e + a) by (nonlinear_arith)
        requires
            y == 100 * (4 * e + a) + (4 * b + c),
            0 <= 4 * b + c < 100,
    ;
    assert(y / 400 == e) by (nonlinear_arith)
        requires
            y == 400 * e + (100 * a + 4 * b + c),
            0 <= 100 * a + 4 * b + c < 400,
    ;
}

/// The year after the last of four is a leap year, but at the end of a century
/// that does not end a cycle.
proof fn lemma_next_quotients(e: int, a: int, b: int)
    requires
        0 <= a <= 3,
        0 <= b <= 24,
    ensures
        b < 24 || a == 3 ==> is_leap(400 * e + 100 * a + 4 * b + 4),
{
    let z = 400 * e + 100 * a + 4 * b + 4;
    assert(z % 4 == 0) by (nonlinear_arith)
        requires
            z == 4 * (100 * e + 25 * a + b + 1),
    ;
    if b < 24 {
        assert(z % 100 == 4 * b + 4) by (nonlinear_arith)
            requires
                z == 100 * (4 * e + a) + (4 * b + 4),
                0 <= 4 * b + 4 < 100,
        ;
    } else if a == 3 {
        assert(z % 400 == 0) by (nonlinear_arith)
            requires
                z == 400 * (e + 1),
        ;
    }
}

proof fn lemma_months(y: int)
    ensures
        month_start(y, 1) == 0,
        month_start(y, 2) == 31,
        forall|k: int|
            0 <= k <= 9 ==> #[trigger] march_start(k) + 59 + (if is_leap(y) { 1int } else { 0 })
                == month_start(y, k + 3),
        forall|k: int| 0 <= k <= 9 ==> #[trigger] march_start(k) + month_days(y, k + 3) == march_start(k + 1),
        march_start(10) + 31 == march_start(11),
{
    reveal_with_fuel(month_start, 13);
}

/// The date a number of days after the first of January 1970.
fn civil(days: i64) -> (r: (i64, u64, u64))
    requires
        -0x1_0000_0000_0000 <= days <= 0x1_0000_0000_0000,
    ensures
        (r.0 as int, r.1 as int, r.2 as int) == date_of(days as int),
        r.1 <= 12,
        r.2 <= 31,
{
    // Count from a March the first that starts a cycle of 400 years, long ago.
    let far: i64 = 146_097 * 2_000_000_000;
    let z: u64 = (days + 719_468 + far) as u64;
    let era: u64 = z / 146_097;
    let doe: u64 = z % 146_097;
    let a: u64 = if doe >= 3 * 36_524 { 3 } else { doe / 36_524 };
    let r1: u64 = doe - 36_524 * a;
    let b: u64 = r1 / 1461;
    let r2: u64 = r1 % 1461;
    let c: u64 = if r2 >= 3 * 365 { 3 } else { r2 / 365 };
    let doy: u64 = r2 - 365 * c;
    let e: i64 = era as i64 - 2_000_000_000;
    let y: i64 = 400 * e + 100 * (a as i64) + 4 * (b as i64) + c as i64;
    assert(z == 146_097 * era + doe);
    assert(days == 146_097 * e + 36_524 * a + 1461 * b + 365 * c + doy - 719_468);
    let (mp, d): (u64, u64) = month_of(doy);
    proof {
        lemma_march(e as int, a as int, b as int, c as int);
        lemma_months(y as int);
        lemma_months(y + 1);
    }
    let r: (i64, u64, u64) = if mp < 10 { (y, mp + 3, d) } else { (y + 1, mp - 9, d) };
    proof {
        let (y2, m2, d2) = (r.0 as int, r.1 as int, r.2 as int);
        if mp == 11 && doy == 365 {
            assert(r2 == 1460 && c == 3);
            assert(b == 24 ==> r1 == 36_524);
            assert(b == 24 ==> a == 3);
        }
        assert(is_date(y2, m2, d2));
        assert(day_number(y2, m2, d2) == days);
        law_date_of_day(y2, m2, d2);
    }
    r
}

fn put_year(out: &mut String, y: i64)
    ensures
        final(out)@ == old(out)@ + year_text(y as int),
{
    proof {
        reveal_strlit("-");
    }
    if y < 0 {
        let m: u64 = (-(y as i128)) as u64;
        out.append("-");
        if m < 100 {
            put_digits(out, m, 3);
        } else {
            put_decimal(out, m);
        }
    } else if y < 1000 {
        put_digits(out, y as u64, 4);
    } else {
        put_decimal(out, y as u64);
    }
    assert(out@ =~= old(out)@ + year_text(y as int));
}

/// UTC name for a clip: YYYYMMDDTHHMMSSZ from a unix time in seconds.
pub fn unix_utc_name(secs: i64) -> (s: String)
    ensures
        s@ == name_of(secs as int),
{
    // Far enough back that the count is positive.
    let back: i128 = 200_000_000_000_000;
    let t: u128 = (secs as i128 + 86_400 * back) as u128;
    let days: i64 = ((t / 86_400) as i128 - back) as i64;
    let rem: u64 = (t % 86_400) as u64;
    assert(days == secs as int / 86_400);
    assert(rem == secs as int % 86_400);
    let (y, m, d): (i64, u64, u64) = civil(days);
    let mut s: String = String::new();
    proof {
        reveal_strlit("T");
        reveal_strlit("Z");
    }
    put_year(&mut s, y);
    put_digits(&mut s, m, 2);
    put_digits(&mut s, d, 2);
    s.append("T");
    put_digits(&mut s, rem / 3600, 2);
    put_digits(&mut s, rem % 3600 / 60, 2);
    put_digits(&mut s, rem % 60, 2);
    s.append("Z");
    assert(s@ =~= name_of(secs as int));
    s
}

/// `a` comes no later than `b` in the order of code points.
pub open spec fn no_later(a: Seq<char>, b: Seq<char>) -> bool
    decreases a.len(),
{
    if a.len() == 0 {
        true
    } else if b.len() == 0 {
        false
    } else if a[0] != b[0] {
        a[0] < b[0]
    } else {
        no_later(a.drop_first(), b.drop_first())
    }
}

/// A clip's name ends in ".cu8".
pub open spec fn is_clip(name: Seq<char>) -> bool {
    name.len() >= 4 && name.skip(name.len() - 4) == ".cu8"@
}

/// The order of names.
pub open spec fn name_order() -> spec_fn(Seq<char>, Seq<char>) -> bool {
    |a: Seq<char>, b: Seq<char>| no_later(a, b)
}

/// The clips among `names`.
pub open spec fn clips_in(names: Seq<Seq<char>>) -> Seq<Seq<char>>
    decreases names.len(),
{
    if names.len() == 0 {
        Seq::empty()
    } else if is_clip(names.last()) {
        clips_in(names.drop_last()).push(names.last())
    } else {
        clips_in(names.drop_last())
    }
}

/// All but the newest `keep` of the clips among `names`, oldest first.
pub open spec fn outdated(names: Seq<Seq<char>>, keep: nat) -> Seq<Seq<char>> {
    let clips = clips_in(names).sort_by(name_order());
    clips.take(if clips.len() > keep { clips.len() - keep } else { 0 })
}

/// Names as values.
pub open spec fn texts(names: Seq<String>) -> Seq<Seq<char>> {
    Seq::new(names.len(), |k: int| names[k]@)
}

proof fn lemma_order(a: Seq<char>, b: Seq<char>, c: Seq<char>)
    ensures
        no_later(a, a),
        no_later(a, b) || no_later(b, a),
        no_later(a, b) && no_later(b, a) ==> a == b,
        no_later(a, b) && no_later(b, c) ==> no_later(a, c),
    decreases a.len() + b.len() + c.len(),
{
    let (x, y, z) = (
        if a.len() > 0 { a.drop_first() } else { a },
        if b.len() > 0 { b.drop_first() } else { b },
        if c.len() > 0 { c.drop_first() } else { c },
    );
    if a.len() > 0 || b.len() > 0 || c.len() > 0 {
        lemma_order(x, y, z);
        lemma_order(y, x, z);
    }
    if a.len() == 0 && b.len() == 0 {
        assert(a =~= b);
    }
    if a.len() > 0 && b.len() > 0 && a[0] == b[0] && x == y {
        assert(a =~= seq![a[0]] + x);
        assert(b =~= seq![b[0]] + y);
    }
}

proof fn lemma_total()
    ensures
        total_ordering(name_order()),
{
    assert forall|a: Seq<char>| #[trigger] no_later(a, a) by {
        lemma_order(a, a, a);
    }
    assert forall|a: Seq<char>, b: Seq<char>| #[trigger] no_later(a, b) || #[trigger] no_later(b, a) by {
        lemma_order(a, b, a);
    }
    assert forall|a: Seq<char>, b: Seq<char>| #[trigger] no_later(a, b) && #[trigger] no_later(b, a) implies a
        == b by {
        lemma_order(a, b, a);
    }
    assert forall|a: Seq<char>, b: Seq<char>, c: Seq<char>| #[trigger]
        no_later(a, b) && #[trigger] no_later(b, c) implies no_later(a, c) by {
        lemma_order(a, b, c);
    }
}

/// Whether `a` comes no later than `b`.
fn in_order(a: &str, b: &str) -> (yes: bool)
    ensures
        yes == no_later(a@, b@),
{
    let (n, m): (usize, usize) = (a.unicode_len(), b.unicode_len());
    let mut k: usize = 0;
    assert(a@.skip(0) =~= a@ && b@.skip(0) =~= b@);
    while k < n && k < m
        invariant
            n == a@.len(),
            m == b@.len(),
            k <= n,
            k <= m,
            no_later(a@, b@) == no_later(a@.skip(k as int), b@.skip(k as int)),
        decreases n - k,
    {
        let (x, y): (char, char) = (a.get_char(k), b.get_char(k));
        assert(a@.skip(k as int)[0] == x && b@.skip(k as int)[0] == y);
        if x != y {
            return x < y;
        }
        assert(a@.skip(k as int).drop_first() =~= a@.skip(k + 1));
        assert(b@.skip(k as int).drop_first() =~= b@.skip(k + 1));
        k += 1;
    }
    k >= n
}

fn ends_as_clip(name: &str) -> (yes: bool)
    ensures
        yes == is_clip(name@),
{
    let n: usize = name.unicode_len();
    if n < 4 {
        return false;
    }
    assert(name@.subrange(n - 4, n as int) =~= name@.skip(n - 4));
    same(name.substring_char(n - 4, n), ".cu8")
}

/// The names to remove so that the newest `keep` clips stay, oldest first.
pub fn old_clips(names: &Vec<String>, keep: usize) -> (old: Vec<String>)
    ensures
        texts(old@) == outdated(texts(names@), keep as nat),
{
    let mut sorted: Vec<String> = Vec::new();
    let ghost leq = name_order();
    assert(texts(sorted@) =~= Seq::<Seq<char>>::empty());
    proof {
        lemma_total();
    }
    for i in 0..names.len()
        invariant
            leq == name_order(),
            total_ordering(leq),
            sorted_by(texts(sorted@), leq),
            texts(sorted@).to_multiset() == clips_in(texts(names@).take(i as int)).to_multiset(),
    {
        assert(texts(names@).take(i + 1).drop_last() =~= texts(names@).take(i as int));
        assert(texts(names@).take(i + 1).last() == names@[i as int]@);
        if ends_as_clip(names[i].as_str()) {
            let x: String = names[i].clone();
            let ghost before = texts(sorted@);
            let n: usize = sorted.len();
            let mut j: usize = 0;
            while j < n && in_order(sorted[j].as_str(), x.as_str())
                invariant
                    n == sorted@.len(),
                    j <= n,
                    before == texts(sorted@),
                    forall|k: int| 0 <= k < j ==> no_later(#[trigger] before[k], x@),
                decreases n - j,
            {
                assert(before[j as int] == sorted@[j as int]@);
                j += 1;
            }
            proof {
                if j < n {
                    assert(before[j as int] == sorted@[j as int]@);
                    lemma_order(before[j as int], x@, x@);
                    assert forall|k: int| j <= k < n implies no_later(x@, #[trigger] before[k]) by {
                        if k > j {
                            assert(leq(before[j as int], before[k]));
                            lemma_order(x@, before[j as int], before[k]);
                        }
                    }
                }
            }
            let ghost v = x@;
            sorted.insert(j, x);
            proof {
                assert(texts(sorted@) =~= before.insert(j as int, v));
                assert forall|a: int, b: int| 0 <= a < b < texts(sorted@).len() implies #[trigger] leq(
                    texts(sorted@)[a],
                    texts(sorted@)[b],
                ) by {
                    let ba = if a < j { a } else { a - 1 };
                    let bb = if b < j { b } else { b - 1 };
                    if a != j && b != j {
                        assert(leq(before[ba], before[bb]));
                    }
                }
                vstd::seq_lib::to_multiset_insert(before, j as int, v);
            }
        }
    }
    assert(texts(names@).take(names@.len() as int) =~= texts(names@));
    let ghost all = texts(sorted@);
    proof {
        let clips = clips_in(texts(names@));
        clips.lemma_sort_by_ensures(leq);
        vstd::seq_lib::lemma_sorted_unique(all, clips.sort_by(leq), leq);
    }
    let want: usize = if sorted.len() > keep { sorted.len() - keep } else { 0 };
    sorted.truncate(want);
    assert(texts(sorted@) =~= all.take(want as int));
    sorted
}

/// How many bytes of a block of `len` go into a clip that has `left` samples to
/// go, two bytes each, and how many it has to go then.
pub fn clip_share(left: u64, len: usize) -> (r: (usize, u64))
    ensures
        r.0 == share_of(left as int, len as int),
        r.1 == left - r.0 as int / 2,
{
    let take: usize = if 2 * (left as u128) < len as u128 {
        (2 * (left as u128)) as usize
    } else {
        len
    };
    (take, left - (take / 2) as u64)
}

/// How many bytes of a block of `len` go into a clip that has `left` samples to go.
pub open spec fn share_of(left: int, len: int) -> int {
    if 2 * left < len { 2 * left } else { len }
}

/// When clips are begun and how much of them is still to come.
pub struct Schedule {
    /// Samples that the clip being written has to go, where there is one.
    pub left: Option<u64>,
    /// When the next clip is due, milliseconds.
    pub next: u64,
}

/// A clip is to be begun at `now`.
pub open spec fn is_due(s: Schedule, now: u64) -> bool {
    s.left is None && now >= s.next
}

/// The schedule once a clip of `samples` samples was begun at `now`, or could not be.
pub open spec fn begun(s: Schedule, opened: bool, samples: u64, now: u64, every: u64) -> Schedule {
    Schedule { left: if opened { Some(samples) } else { s.left }, next: (now + every) as u64 }
}

/// The bytes of a block of `len` that go into the clip being written.
pub open spec fn share_in(s: Schedule, len: int) -> int {
    match s.left {
        Some(left) => share_of(left as int, len),
        None => 0,
    }
}

/// The schedule once a block of `len` bytes came.
pub open spec fn fed(s: Schedule, len: int) -> Schedule {
    let n = share_in(s, len);
    Schedule {
        left: match s.left {
            Some(left) => if n / 2 < left { Some((left - n / 2) as u64) } else { None },
            None => None,
        },
        next: s.next,
    }
}

impl Schedule {
    /// The first clip is due at `now`.
    pub fn new(now: u64) -> (s: Schedule)
        ensures
            s.left is None,
            s.next == now,
    {
        Schedule { left: None, next: now }
    }

    /// Whether a clip is to be begun at `now`.
    pub fn due(&self, now: u64) -> (yes: bool)
        ensures
            yes == is_due(*self, now),
            yes == (self.left is None && now >= self.next),
    {
        self.left.is_none() && now >= self.next
    }

    /// A clip of `samples` samples was begun at `now`, or could not be; the next
    /// is due `every` milliseconds later.
    pub fn begin(&mut self, opened: bool, samples: u64, now: u64, every: u64)
        requires
            now + every <= u64::MAX,
        ensures
            *final(self) == begun(*old(self), opened, samples, now, every),
            final(self).left == if opened {
                Some(samples)
            } else {
                old(self).left
            },
            final(self).next == now + every,
    {
        if opened {
            self.left = Some(samples);
        }
        self.next = now + every;
    }

    /// How many bytes of a block of `len` go into the clip being written, which
    /// ends when it has all of its samples.
    pub fn take(&mut self, len: usize) -> (n: usize)
        ensures
            *final(self) == fed(*old(self), len as int),
            n == share_in(*old(self), len as int),
            final(self).next == old(self).next,
            match old(self).left {
                Some(left) => {
                    &&& n == share_of(left as int, len as int)
                    &&& final(self).left == if n / 2 < left {
                        Some((left - n / 2) as u64)
                    } else {
                        None
                    }
                },
                None => n == 0 && final(self).left is None,
            },
    {
        match self.left {
            Some(left) => {
                let (n, to_go): (usize, u64) = clip_share(left, len);
                self.left = if to_go > 0 { Some(to_go) } else { None };
                n
            },
            None => 0,
        }
    }
}

/// The bytes that go into a clip with `left` samples to go, out of blocks of these
/// lengths.
pub open spec fn shares(left: int, lens: Seq<usize>) -> int
    decreases lens.len(),
{
    if lens.len() == 0 {
        0
    } else {
        let n = share_of(left, lens[0] as int);
        n + shares(left - n / 2, lens.drop_first())
    }
}

/// The bytes of all the blocks.
pub open spec fn bytes_in(lens: Seq<usize>) -> int
    decreases lens.len(),
{
    if lens.len() == 0 {
        0
    } else {
        lens[0] + bytes_in(lens.drop_first())
    }
}

/// A clip holds the samples asked for, from the first block on, as far as blocks
/// of whole samples come.
pub proof fn law_clip_holds_what_was_asked(left: int, lens: Seq<usize>)
    requires
        left >= 0,
        forall|k: int| 0 <= k < lens.len() ==> #[trigger] lens[k] % 2 == 0,
    ensures
        shares(left, lens) == share_of(left, bytes_in(lens)),
    decreases lens.len(),
{
    if lens.len() > 0 {
        let n = share_of(left, lens[0] as int);
        let rest = lens.drop_first();
        assert forall|k: int| 0 <= k < rest.len() implies #[trigger] rest[k] % 2 == 0 by {
            assert(rest[k] == lens[k + 1]);
        }
        law_clip_holds_what_was_asked(left - n / 2, rest);
        lemma_bytes_in(rest);
    }
}

proof fn lemma_bytes_in(lens: Seq<usize>)
    ensures
        bytes_in(lens) >= 0,
    decreases lens.len(),
{
    if lens.len() > 0 {
        lemma_bytes_in(lens.drop_first());
    }
}

/// The month, counted from March, of a day of a year from March.
spec fn march_month(doy: int) -> int {
    if doy < 31 {
        0
    } else if doy < 61 {
        1
    } else if doy < 92 {
        2
    } else if doy < 122 {
        3
    } else if doy < 153 {
        4
    } else if doy < 184 {
        5
    } else if doy < 214 {
        6
    } else if doy < 245 {
        7
    } else if doy < 275 {
        8
    } else if doy < 306 {
        9
    } else if doy < 337 {
        10
    } else {
        11
    }
}

/// Every day has a date.
pub proof fn law_every_day_has_a_date(days: int)
    ensures
        ({
            let (y, m, d) = date_of(days);
            is_date(y, m, d) && day_number(y, m, d) == days
        }),
{
    let z = days + 719_468;
    let e = z / 146_097;
    let doe = z % 146_097;
    let a = if doe >= 3 * 36_524 { 3 } else { doe / 36_524 };
    let r1 = doe - 36_524 * a;
    let b = r1 / 1461;
    let r2 = r1 % 1461;
    let c = if r2 >= 3 * 365 { 3 } else { r2 / 365 };
    let doy = r2 - 365 * c;
    let mp = march_month(doy);
    let y = 400 * e + 100 * a + 4 * b + c;
    lemma_march(e, a, b, c);
    lemma_months(y);
    lemma_months(y + 1);
    let d = doy - march_start(mp) + 1;
    assert(march_start(mp) <= doy < march_start(mp + 1));
    if mp == 11 && doy == 365 {
        assert(r2 == 1460 && c == 3);
        assert(b == 24 ==> r1 == 36_524);
        assert(b == 24 ==> a == 3);
    }
    let (y2, m2) = if mp < 10 { (y, mp + 3) } else { (y + 1, mp - 9) };
    assert(is_date(y2, m2, d));
    assert(day_number(y2, m2, d) == days);
}

/// Later days have later dates.
proof fn lemma_dates_in_order(y: int, m: int, d: int, y2: int, m2: int, d2: int)
    requires
        is_date(y, m, d),
        is_date(y2, m2, d2),
        day_number(y, m, d) < day_number(y2, m2, d2),
    ensures
        y < y2 || y == y2 && (m < m2 || m == m2 && d < d2),
{
    lemma_day_in_year(y, m, d);
    lemma_day_in_year(y2, m2, d2);
    if y2 < y {
        lemma_years_grow(y2 + 1, y);
    } else if y == y2 && m2 < m {
        lemma_month_grows(y, m2 + 1, m);
    }
}

/// `a` comes before `b`.
pub open spec fn earlier(a: Seq<char>, b: Seq<char>) -> bool {
    no_later(a, b) && a != b
}

proof fn lemma_earlier_prefix(a: Seq<char>, b: Seq<char>, c: Seq<char>, d: Seq<char>)
    requires
        a.len() == b.len(),
        earlier(a, b),
    ensures
        earlier(a + c, b + d),
    decreases a.len(),
{
    if a.len() == 0 {
        assert(a =~= b);
    } else {
        assert((a + c)[0] == a[0] && (b + d)[0] == b[0]);
        if a[0] == b[0] {
            let (x, y) = (a.drop_first(), b.drop_first());
            if x == y {
                assert(a =~= seq![a[0]] + x);
                assert(b =~= seq![b[0]] + y);
            }
            lemma_earlier_prefix(x, y, c, d);
            assert((a + c).drop_first() =~= x + c);
            assert((b + d).drop_first() =~= y + d);
        }
    }
}

proof fn lemma_same_prefix(a: Seq<char>, c: Seq<char>, d: Seq<char>)
    requires
        earlier(c, d),
    ensures
        earlier(a + c, a + d),
    decreases a.len(),
{
    if a.len() == 0 {
        assert(a + c =~= c && a + d =~= d);
    } else {
        lemma_same_prefix(a.drop_first(), c, d);
        assert((a + c)[0] == a[0] && (a + d)[0] == a[0]);
        assert((a + c).drop_first() =~= a.drop_first() + c);
        assert((a + d).drop_first() =~= a.drop_first() + d);
    }
}

/// Ten to the `w`.
spec fn pow10(w: nat) -> int
    decreases w,
{
    if w == 0 { 1 } else { 10 * pow10((w - 1) as nat) }
}

/// Numbers of the same width sort as their digits do.
proof fn lemma_digits_in_order(x: nat, y: nat, w: nat)
    requires
        x < y < pow10(w),
    ensures
        earlier(digits(x, w), digits(y, w)),
        digits(x, w).len() == w,
        digits(y, w).len() == w,
    decreases w,
{
    if w > 0 {
        let v = (w - 1) as nat;
        let (p, q) = (digits(x / 10, v), digits(y / 10, v));
        let (c, d) = (seq![digit_of(x)], seq![digit_of(y)]);
        assert(digits(x, w) =~= p + c && digits(y, w) =~= q + d);
        lemma_digits_len(x / 10, v);
        lemma_digits_len(y / 10, v);
        if x / 10 < y / 10 {
            lemma_digits_in_order(x / 10, y / 10, v);
            lemma_earlier_prefix(p, q, c, d);
        } else {
            assert(x % 10 < y % 10);
            assert(c[0] == digit_of(x) && d[0] == digit_of(y));
            assert(earlier(c, d));
            lemma_same_prefix(p, c, d);
        }
    }
}

proof fn lemma_digits_len(x: nat, w: nat)
    ensures
        digits(x, w).len() == w,
    decreases w,
{
    if w > 0 {
        lemma_digits_len(x / 10, (w - 1) as nat);
    }
}

proof fn lemma_year_digits(y: int)
    requires
        0 <= y < 10_000,
    ensures
        year_text(y) == digits(y as nat, 4),
{
    if y >= 1000 {
        reveal_with_fuel(decimal, 5);
        reveal_with_fuel(digits, 5);
        assert(decimal(y as nat) =~= digits(y as nat, 4));
    }
}

/// Two numbers and what follows them: smaller numbers first, and where they are
/// equal, what follows decides.
proof fn lemma_field(x: nat, y: nat, w: nat, c: Seq<char>, d: Seq<char>)
    requires
        x < pow10(w),
        y < pow10(w),
        x < y || x == y && earlier(c, d),
    ensures
        earlier(digits(x, w) + c, digits(y, w) + d),
{
    if x < y {
        lemma_digits_in_order(x, y, w);
        lemma_earlier_prefix(digits(x, w), digits(y, w), c, d);
    } else {
        lemma_same_prefix(digits(x, w), c, d);
    }
}

/// The time of day in a name, and the mark that ends it.
spec fn clock_text(rem: int) -> Seq<char> {
    seq!['T'] + (digits((rem / 3600) as nat, 2) + (digits((rem % 3600 / 60) as nat, 2) + (digits(
        (rem % 60) as nat,
        2,
    ) + seq!['Z'])))
}

/// The date in a name, and what follows it.
spec fn date_text(y: int, m: int, d: int, rest: Seq<char>) -> Seq<char> {
    digits(y as nat, 4) + (digits(m as nat, 2) + (digits(d as nat, 2) + rest))
}

proof fn lemma_clock_in_order(r: int, r2: int)
    requires
        0 <= r < r2 < 86_400,
    ensures
        earlier(clock_text(r), clock_text(r2)),
{
    reveal_with_fuel(pow10, 3);
    let end = seq!['Z'];
    let (h, n, s) = ((r / 3600) as nat, (r % 3600 / 60) as nat, (r % 60) as nat);
    let (h2, n2, s2) = ((r2 / 3600) as nat, (r2 % 3600 / 60) as nat, (r2 % 60) as nat);
    assert(r == 3600 * h + 60 * n + s && n < 60 && s < 60);
    assert(r2 == 3600 * h2 + 60 * n2 + s2 && n2 < 60 && s2 < 60);
    let (a, a2) = (digits(s, 2) + end, digits(s2, 2) + end);
    let (b, b2) = (digits(n, 2) + a, digits(n2, 2) + a2);
    if h == h2 {
        if n == n2 {
            lemma_field(s, s2, 2, end, end);
        }
        lemma_field(n, n2, 2, a, a2);
    }
    lemma_field(h, h2, 2, b, b2);
    lemma_same_prefix(seq!['T'], digits(h, 2) + b, digits(h2, 2) + b2);
}

proof fn lemma_date_in_order(
    y: int,
    m: int,
    d: int,
    rest: Seq<char>,
    y2: int,
    m2: int,
    d2: int,
    rest2: Seq<char>,
)
    requires
        0 <= y < 10_000,
        0 <= y2 < 10_000,
        is_date(y, m, d),
        is_date(y2, m2, d2),
        y < y2 || y == y2 && (m < m2 || m == m2 && (d < d2 || d == d2 && earlier(rest, rest2))),
    ensures
        earlier(date_text(y, m, d, rest), date_text(y2, m2, d2, rest2)),
{
    reveal_with_fuel(pow10, 5);
    let (a, a2) = (digits(d as nat, 2) + rest, digits(d2 as nat, 2) + rest2);
    let (b, b2) = (digits(m as nat, 2) + a, digits(m2 as nat, 2) + a2);
    if y == y2 {
        if m == m2 {
            lemma_field(d as nat, d2 as nat, 2, rest, rest2);
        }
        lemma_field(m as nat, m2 as nat, 2, a, a2);
    }
    lemma_field(y as nat, y2 as nat, 4, b, b2);
}

proof fn lemma_name(t: int)
    requires
        0 <= date_of(t / 86_400).0 < 10_000,
    ensures
        ({
            let (y, m, d) = date_of(t / 86_400);
            name_of(t) == date_text(y, m, d, clock_text(t % 86_400))
        }),
{
    let (y, m, d) = date_of(t / 86_400);
    lemma_year_digits(y);
    assert(name_of(t) =~= date_text(y, m, d, clock_text(t % 86_400)));
}

/// Clips sort by name as they do by time, so the last names are the newest, for
/// any two times in the years 0 to 9999.
pub proof fn law_names_sort_by_time(t: int, u: int)
    requires
        t < u,
        0 <= date_of(t / 86_400).0 < 10_000,
        0 <= date_of(u / 86_400).0 < 10_000,
    ensures
        earlier(name_of(t), name_of(u)),
{
    let (y, m, d) = date_of(t / 86_400);
    let (y2, m2, d2) = date_of(u / 86_400);
    law_every_day_has_a_date(t / 86_400);
    law_every_day_has_a_date(u / 86_400);
    let (r, r2) = (t % 86_400, u % 86_400);
    lemma_name(t);
    lemma_name(u);
    if t / 86_400 < u / 86_400 {
        lemma_dates_in_order(y, m, d, y2, m2, d2);
    } else {
        lemma_clock_in_order(r, r2);
    }
    lemma_date_in_order(y, m, d, clock_text(r), y2, m2, d2, clock_text(r2));
}

proof fn lemma_clips_counted(names: Seq<Seq<char>>, x: Seq<char>)
    ensures
        clips_in(names).to_multiset().count(x) == if is_clip(x) { names.to_multiset().count(x) } else { 0 },
    decreases names.len(),
{
    if names.len() > 0 {
        let rest = names.drop_last();
        lemma_clips_counted(rest, x);
        assert(names =~= rest.push(names.last()));
    }
}

/// The clips are the names that end in ".cu8". Those to remove and those that stay are all
/// of them, each as often as it was there; as many stay as are to be kept, or all where
/// there are fewer; and none that stays is earlier than one that goes.
pub proof fn law_newest_clips_stay(names: Seq<Seq<char>>, keep: nat, x: Seq<char>) -> (stay: Seq<Seq<char>>)
    ensures
        ({
            let old = outdated(names, keep);
            &&& old.to_multiset().count(x) + stay.to_multiset().count(x) == if x.len() >= 4 && x[x.len() - 4] == '.'
                && x[x.len() - 3] == 'c' && x[x.len() - 2] == 'u' && x[x.len() - 1] == '8' {
                names.to_multiset().count(x)
            } else {
                0
            }
            &&& stay.len() <= keep
            &&& old.len() > 0 ==> stay.len() == keep
            &&& forall|i: int, j: int|
                0 <= i < old.len() && 0 <= j < stay.len() ==> no_later(#[trigger] old[i], #[trigger] stay[j])
            &&& forall|i: int, j: int|
                0 <= i < j < old.len() ==> no_later(#[trigger] old[i], #[trigger] old[j])
        }),
{
    lemma_total();
    let leq = name_order();
    let clips = clips_in(names);
    let all = clips.sort_by(leq);
    clips.lemma_sort_by_ensures(leq);
    let n = if all.len() > keep { all.len() - keep } else { 0 };
    let old = outdated(names, keep);
    let stay = all.skip(n);
    assert(all =~= old + stay);
    vstd::seq_lib::lemma_multiset_commutative(old, stay);
    lemma_clips_counted(names, x);
    reveal_strlit(".cu8");
    if x.len() >= 4 {
        let end = x.skip(x.len() - 4);
        assert(end[0] == x[x.len() - 4] && end[1] == x[x.len() - 3] && end[2] == x[x.len() - 2] && end[3] == x[x.len()
            - 1]);
        assert(is_clip(x) <==> end =~= ".cu8"@);
    }
    assert forall|i: int, j: int| 0 <= i < old.len() && 0 <= j < stay.len() implies no_later(
        #[trigger] old[i],
        #[trigger] stay[j],
    ) by {
        assert(leq(all[i], all[n + j]));
    }
    assert forall|i: int, j: int| 0 <= i < j < old.len() implies no_later(#[trigger] old[i], #[trigger] old[j]) by {
        assert(leq(all[i], all[j]));
    }
    stay
}

/// A clip that was begun is the only one until it has all of its samples, of two bytes
/// each; the next is due when the time has come as well, and where none could be begun
/// nothing is written.
pub proof fn law_clips_follow_one_another(s: Schedule, samples: u64, now: u64, every: u64, len: int, later: u64)
    requires
        is_due(s, now),
        now + every <= u64::MAX,
        0 <= len,
        len % 2 == 0,
        samples > 0,
    ensures
        ({
            let (on, off) = (begun(s, true, samples, now, every), begun(s, false, samples, now, every));
            &&& !is_due(on, later)
            &&& is_due(off, later) <==> later - now >= every
            &&& share_in(off, len) == 0
            &&& share_in(on, len) <= len
            &&& len < 2 * samples ==> share_in(on, len) == len && !is_due(fed(on, len), later)
            &&& len >= 2 * samples ==> share_in(on, len) == 2 * samples && (is_due(fed(on, len), later) <==> later
                - now >= every)
            &&& len < 2 * samples ==> fed(on, len).left == Some((samples - len / 2) as u64)
        }),
{
}

} // verus!
