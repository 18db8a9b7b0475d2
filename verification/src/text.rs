//! Strings as sequences of characters: white space, words, decimal numbers.

use vstd::prelude::*;

verus! {

/// The characters that Unicode calls white space.
pub open spec fn is_space(c: char) -> bool {
    ||| '\u{9}' <= c <= '\u{d}'
    ||| c == ' '
    ||| c == '\u{85}'
    ||| c == '\u{a0}'
    ||| c == '\u{1680}'
    ||| '\u{2000}' <= c <= '\u{200a}'
    ||| c == '\u{2028}'
    ||| c == '\u{2029}'
    ||| c == '\u{202f}'
    ||| c == '\u{205f}'
    ||| c == '\u{3000}'
}

/// How many characters of white space `s` has from `i` on.
pub open spec fn spaces_from(s: Seq<char>, i: int) -> int
    decreases s.len() - i,
{
    if 0 <= i < s.len() && is_space(s[i]) {
        1 + spaces_from(s, i + 1)
    } else {
        0
    }
}

/// How many characters other than white space `s` has from `i` on.
pub open spec fn letters_from(s: Seq<char>, i: int) -> int
    decreases s.len() - i,
{
    if 0 <= i < s.len() && !is_space(s[i]) {
        1 + letters_from(s, i + 1)
    } else {
        0
    }
}

/// How many of the last characters of `s` are white space.
pub open spec fn spaces_at_end(s: Seq<char>) -> int
    decreases s.len(),
{
    if s.len() > 0 && is_space(s.last()) {
        1 + spaces_at_end(s.drop_last())
    } else {
        0
    }
}

/// `s` without the white space at its ends.
pub open spec fn trimmed(s: Seq<char>) -> Seq<char> {
    let rest = s.skip(spaces_from(s, 0));
    rest.take(rest.len() - spaces_at_end(rest))
}

/// The words of `s` from `i` on: what white space sets apart.
pub open spec fn words_from(s: Seq<char>, i: int) -> Seq<Seq<char>>
    decreases s.len() - i,
    when 0 <= i <= s.len()
    via words_decrease
{
    let a = i + spaces_from(s, i);
    if a >= s.len() {
        Seq::empty()
    } else {
        let b = a + letters_from(s, a);
        seq![s.subrange(a, b)] + words_from(s, b)
    }
}

#[via_fn]
proof fn words_decrease(s: Seq<char>, i: int) {
    lemma_runs(s, i);
    lemma_runs(s, i + spaces_from(s, i));
}

/// The words of `s`.
pub open spec fn words(s: Seq<char>) -> Seq<Seq<char>> {
    words_from(s, 0)
}

/// Runs of white space and of letters end where they should.
pub proof fn lemma_runs(s: Seq<char>, i: int)
    requires
        0 <= i <= s.len(),
    ensures
        0 <= spaces_from(s, i) <= s.len() - i,
        0 <= letters_from(s, i) <= s.len() - i,
        i < s.len() && is_space(s[i]) ==> spaces_from(s, i) > 0,
        i < s.len() && !is_space(s[i]) ==> letters_from(s, i) > 0,
        i + spaces_from(s, i) < s.len() ==> !is_space(s[i + spaces_from(s, i)]),
    decreases s.len() - i,
{
    if i < s.len() {
        lemma_runs(s, i + 1);
    }
}

/// Whether `c` is white space.
pub fn space(c: char) -> (yes: bool)
    ensures
        yes == is_space(c),
{
    ('\u{9}' <= c && c <= '\u{d}') || c == ' ' || c == '\u{85}' || c == '\u{a0}' || c == '\u{1680}' || (
    '\u{2000}' <= c && c <= '\u{200a}') || c == '\u{2028}' || c == '\u{2029}' || c == '\u{202f}' || c
        == '\u{205f}' || c == '\u{3000}'
}

/// `s` without the white space at its ends.
pub fn trim(s: &str) -> (t: &str)
    ensures
        t@ == trimmed(s@),
{
    let n: usize = s.unicode_len();
    let mut a: usize = 0;
    while a < n && space(s.get_char(a))
        invariant
            n == s@.len(),
            a <= n,
            spaces_from(s@, 0) == a + spaces_from(s@, a as int),
        decreases n - a,
    {
        a += 1;
    }
    let ghost rest = s@.skip(a as int);
    let mut b: usize = n;
    assert(rest.take(b - a) =~= rest);
    while b > a && space(s.get_char(b - 1))
        invariant
            n == s@.len(),
            a <= b <= n,
            rest == s@.skip(a as int),
            spaces_at_end(rest) == (n - b) + spaces_at_end(rest.take(b - a)),
        decreases b,
    {
        assert(rest.take(b - a).drop_last() =~= rest.take(b - a - 1));
        assert(rest.take(b - a).last() == s@[b - 1]);
        b -= 1;
    }
    proof {
        if b > a {
            assert(rest.take(b - a).last() == s@[b - 1]);
        }
        assert(s@.subrange(a as int, b as int) =~= rest.take(b - a));
    }
    s.substring_char(a, b)
}

/// The decimal digit of `n`.
pub open spec fn digit_of(n: nat) -> char {
    (48 + n % 10) as char
}

/// `n` in decimal.
pub open spec fn decimal(n: nat) -> Seq<char>
    decreases n,
{
    if n < 10 {
        seq![digit_of(n)]
    } else {
        decimal(n / 10).push(digit_of(n))
    }
}

fn digit(n: u64) -> (d: &'static str)
    requires
        n < 10,
    ensures
        d@ == seq![digit_of(n as nat)],
{
    proof {
        reveal_strlit("0");
        reveal_strlit("1");
        reveal_strlit("2");
        reveal_strlit("3");
        reveal_strlit("4");
        reveal_strlit("5");
        reveal_strlit("6");
        reveal_strlit("7");
        reveal_strlit("8");
        reveal_strlit("9");
    }
    let d: &'static str = if n == 0 {
        "0"
    } else if n == 1 {
        "1"
    } else if n == 2 {
        "2"
    } else if n == 3 {
        "3"
    } else if n == 4 {
        "4"
    } else if n == 5 {
        "5"
    } else if n == 6 {
        "6"
    } else if n == 7 {
        "7"
    } else if n == 8 {
        "8"
    } else {
        "9"
    };
    assert(d@ =~= seq![digit_of(n as nat)]);
    d
}

/// Append `n` in decimal to `out`.
pub fn put_decimal(out: &mut String, n: u64)
    ensures
        final(out)@ == old(out)@ + decimal(n as nat),
    decreases n,
{
    if n >= 10 {
        put_decimal(out, n / 10);
        out.append(digit(n % 10));
        assert(out@ =~= old(out)@ + decimal(n as nat));
    } else {
        out.append(digit(n));
    }
}

/// Whether two strings are equal.
pub fn same(a: &str, b: &str) -> (yes: bool)
    ensures
        yes == (a@ == b@),
{
    let n: usize = a.unicode_len();
    if n != b.unicode_len() {
        return false;
    }
    for k in 0..n
        invariant
            n == a@.len(),
            n == b@.len(),
            forall|j: int| 0 <= j < k ==> a@[j] == b@[j],
    {
        if a.get_char(k) != b.get_char(k) {
            return false;
        }
    }
    assert(a@ =~= b@);
    true
}

/// `s` up to the first `c`, or all of it.
pub open spec fn before(s: Seq<char>, c: char) -> Seq<char> {
    match s.index_of_first(c) {
        Some(k) => s.take(k),
        None => s,
    }
}

/// Where `c` first stands in `s`.
pub fn find(s: &str, c: char) -> (at: Option<usize>)
    ensures
        match at {
            Some(k) => s@.index_of_first(c) == Some(k as int) && k < s@.len(),
            None => s@.index_of_first(c) is None,
        },
{
    let n: usize = s.unicode_len();
    proof {
        s@.index_of_first_ensures(c);
    }
    for k in 0..n
        invariant
            n == s@.len(),
            forall|j: int| 0 <= j < k ==> s@[j] != c,
            match s@.index_of_first(c) {
                Some(i) => 0 <= i < s@.len() && s@[i] == c && forall|j: int| 0 <= j < i ==> s@[j] != c,
                None => !s@.contains(c),
            },
    {
        if s.get_char(k) == c {
            return Some(k);
        }
    }
    None
}

/// `s` up to the first `c`, or all of it.
pub fn cut(s: &str, c: char) -> (t: &str)
    ensures
        t@ == before(s@, c),
{
    match find(s, c) {
        Some(k) => {
            assert(s@.subrange(0, k as int) =~= s@.take(k as int));
            s.substring_char(0, k)
        },
        None => s,
    }
}

/// The word of `s` at or after `i`, and where it ends.
pub fn next_word(s: &str, i: usize) -> (w: Option<(&str, usize)>)
    requires
        i <= s@.len(),
    ensures
        match w {
            Some((w, end)) => i <= end <= s@.len() && words_from(s@, i as int) == seq![w@] + words_from(
                s@,
                end as int,
            ),
            None => words_from(s@, i as int) == Seq::<Seq<char>>::empty(),
        },
{
    let n: usize = s.unicode_len();
    let mut a: usize = i;
    while a < n && space(s.get_char(a))
        invariant
            n == s@.len(),
            i <= a <= n,
            i + spaces_from(s@, i as int) == a + spaces_from(s@, a as int),
        decreases n - a,
    {
        a += 1;
    }
    if a >= n {
        return None;
    }
    let mut b: usize = a;
    while b < n && !space(s.get_char(b))
        invariant
            n == s@.len(),
            a <= b <= n,
            a + letters_from(s@, a as int) == b + letters_from(s@, b as int),
        decreases n - b,
    {
        b += 1;
    }
    Some((s.substring_char(a, b), b))
}

/// The first line of `s`: up to a line feed, and without the carriage return
/// before it.
pub open spec fn line_of(s: Seq<char>) -> Seq<char> {
    match s.index_of_first('\n') {
        Some(k) => if k > 0 && s[k - 1] == '\r' {
            s.take(k - 1)
        } else {
            s.take(k)
        },
        None => s,
    }
}

/// The first line of `s`.
pub fn first_line(s: &str) -> (t: &str)
    ensures
        t@ == line_of(s@),
{
    match find(s, '\n') {
        Some(k) => {
            let end: usize = if k > 0 && s.get_char(k - 1) == '\r' { k - 1 } else { k };
            assert(s@.subrange(0, end as int) =~= s@.take(end as int));
            s.substring_char(0, end)
        },
        None => s,
    }
}

/// `n` tenths, with one decimal.
pub open spec fn tenths(n: int) -> Seq<char> {
    let m = if n < 0 { -n } else { n };
    (if n < 0 {
        seq!['-']
    } else {
        Seq::empty()
    }) + decimal((m / 10) as nat) + seq!['.', digit_of((m % 10) as nat)]
}

/// Append `n` tenths to `out`, with one decimal.
pub fn put_tenths(out: &mut String, n: i64)
    ensures
        final(out)@ == old(out)@ + tenths(n as int),
{
    proof {
        reveal_strlit("-");
        reveal_strlit(".");
    }
    let m: u64 = if n < 0 {
        out.append("-");
        (-(n as i128)) as u64
    } else {
        n as u64
    };
    put_decimal(out, m / 10);
    out.append(".");
    out.append(digit(m % 10));
    assert(out@ =~= old(out)@ + tenths(n as int));
}

/// The multiple of `unit` nearest to `n`, in units; of two as near, the even one.
pub open spec fn rounded(n: nat, unit: nat) -> nat {
    let (q, r) = (n / unit, n % unit);
    if 2 * r > unit || 2 * r == unit && q % 2 == 1 {
        q + 1
    } else {
        q
    }
}

/// `n` rounded to a multiple of `unit`, in units.
pub fn round(n: u64, unit: u64) -> (m: u64)
    requires
        unit > 1,
    ensures
        m == rounded(n as nat, unit as nat),
{
    let (q, r): (u64, u64) = (n / unit, n % unit);
    assert(q < u64::MAX) by (nonlinear_arith)
        requires
            q == n / unit,
            unit > 1,
            n <= u64::MAX,
    ;
    if r > unit - r || (r == unit - r && q % 2 == 1) {
        q + 1
    } else {
        q
    }
}

/// The size `n`, so many `unit`s to the tenth, with one decimal.
pub open spec fn one_decimal(n: nat, unit: nat) -> Seq<char> {
    tenths(rounded(n, unit) as int)
}

/// `n`, so many `unit`s to the tenth, with one decimal; the sign stays where
/// nothing else does.
pub open spec fn signed_decimal(n: int, unit: nat) -> Seq<char> {
    if n < 0 {
        seq!['-'] + one_decimal((-n) as nat, unit)
    } else {
        one_decimal(n as nat, unit)
    }
}

/// Append the size `n`, so many `unit`s to the tenth, to `out` with one decimal.
pub fn put_one_decimal(out: &mut String, n: u64, unit: u64)
    requires
        unit > 1,
    ensures
        final(out)@ == old(out)@ + one_decimal(n as nat, unit as nat),
{
    proof {
        reveal_strlit(".");
    }
    let m: u64 = round(n, unit);
    put_decimal(out, m / 10);
    out.append(".");
    out.append(digit(m % 10));
    assert(out@ =~= old(out)@ + one_decimal(n as nat, unit as nat));
}

/// Append `n`, so many `unit`s to the tenth, to `out` with one decimal.
pub fn put_signed_decimal(out: &mut String, n: i64, unit: u64)
    requires
        unit > 1,
    ensures
        final(out)@ == old(out)@ + signed_decimal(n as int, unit as nat),
{
    if n < 0 {
        proof {
            reveal_strlit("-");
        }
        out.append("-");
        put_one_decimal(out, (-(n as i128)) as u64, unit);
        assert(out@ =~= old(out)@ + signed_decimal(n as int, unit as nat));
    } else {
        put_one_decimal(out, n as u64, unit);
    }
}

/// `n` in decimal, with its sign.
pub open spec fn signed(n: int) -> Seq<char> {
    if n < 0 {
        seq!['-'] + decimal((-n) as nat)
    } else {
        decimal(n as nat)
    }
}

/// Append `n` in decimal to `out`, with its sign.
pub fn put_signed(out: &mut String, n: i64)
    ensures
        final(out)@ == old(out)@ + signed(n as int),
{
    if n < 0 {
        proof {
            reveal_strlit("-");
        }
        out.append("-");
        put_decimal(out, (-(n as i128)) as u64);
        assert(out@ =~= old(out)@ + signed(n as int));
    } else {
        put_decimal(out, n as u64);
    }
}

/// The last `w` decimal digits of `n`.
pub open spec fn digits(n: nat, w: nat) -> Seq<char>
    decreases w,
{
    if w == 0 {
        Seq::empty()
    } else {
        digits(n / 10, (w - 1) as nat).push(digit_of(n))
    }
}

/// Append the last `w` decimal digits of `n` to `out`.
pub fn put_digits(out: &mut String, n: u64, w: u64)
    ensures
        final(out)@ == old(out)@ + digits(n as nat, w as nat),
    decreases w,
{
    if w > 0 {
        put_digits(out, n / 10, w - 1);
        out.append(digit(n % 10));
    }
    assert(out@ =~= old(out)@ + digits(n as nat, w as nat));
}

/// The hexadecimal digit of `n`.
pub open spec fn hex_digit_of(n: nat) -> char {
    if n % 16 < 10 { (48 + n % 16) as char } else { (87 + n % 16) as char }
}

/// The last `w` hexadecimal digits of `n`.
pub open spec fn hex_digits(n: nat, w: nat) -> Seq<char>
    decreases w,
{
    if w == 0 {
        Seq::empty()
    } else {
        hex_digits(n / 16, (w - 1) as nat).push(hex_digit_of(n))
    }
}

fn hex_digit(n: u32) -> (d: &'static str)
    requires
        n < 16,
    ensures
        d@ == seq![hex_digit_of(n as nat)],
{
    proof {
        reveal_strlit("a");
        reveal_strlit("b");
        reveal_strlit("c");
        reveal_strlit("d");
        reveal_strlit("e");
        reveal_strlit("f");
    }
    let d: &'static str = if n < 10 {
        digit(n as u64)
    } else if n == 10 {
        "a"
    } else if n == 11 {
        "b"
    } else if n == 12 {
        "c"
    } else if n == 13 {
        "d"
    } else if n == 14 {
        "e"
    } else {
        "f"
    };
    assert(d@ =~= seq![hex_digit_of(n as nat)]);
    d
}

/// Append the last `w` hexadecimal digits of `n` to `out`.
pub fn put_hex(out: &mut String, n: u32, w: u64)
    ensures
        final(out)@ == old(out)@ + hex_digits(n as nat, w as nat),
    decreases w,
{
    if w > 0 {
        put_hex(out, n / 16, w - 1);
        out.append(hex_digit(n % 16));
    }
    assert(out@ =~= old(out)@ + hex_digits(n as nat, w as nat));
}

/// The number that digits spell, in base `b`.
pub open spec fn spelled(s: Seq<char>, b: int) -> int
    decreases s.len(),
{
    if s.len() == 0 {
        0
    } else {
        let c = s.last() as int;
        b * spelled(s.drop_last(), b) + if c >= 97 {
            c - 97 + 10
        } else {
            c - 48
        }
    }
}

/// A number in decimal reads as that number, has only digits, and no zero in front of
/// others.
pub proof fn law_decimal_reads_back(n: nat)
    ensures
        spelled(decimal(n), 10) == n,
        decimal(n).len() >= 1,
        forall|k: int| 0 <= k < decimal(n).len() ==> '0' <= #[trigger] decimal(n)[k] <= '9',
        decimal(n)[0] == '0' ==> n == 0,
    decreases n,
{
    if n < 10 {
        assert(decimal(n).drop_last() =~= Seq::<char>::empty());
        assert(spelled(decimal(n).drop_last(), 10) == 0);
    } else {
        law_decimal_reads_back(n / 10);
        assert(decimal(n).drop_last() =~= decimal(n / 10));
        assert(decimal(n)[0] == decimal(n / 10)[0]);
        assert forall|k: int| 0 <= k < decimal(n).len() implies '0' <= #[trigger] decimal(n)[k] <= '9' by {
            if k < decimal(n / 10).len() {
                assert(decimal(n)[k] == decimal(n / 10)[k]);
            }
        }
    }
}

/// `b` to the power of `w`.
pub open spec fn to_the(b: nat, w: nat) -> nat
    decreases w,
{
    if w == 0 {
        1
    } else {
        b * to_the(b, (w - 1) as nat)
    }
}

proof fn lemma_to_the(b: nat, w: nat)
    requires
        b > 0,
    ensures
        to_the(b, w) > 0,
    decreases w,
{
    if w > 0 {
        lemma_to_the(b, (w - 1) as nat);
        let x = to_the(b, (w - 1) as nat);
        assert(b * x > 0) by (nonlinear_arith)
            requires
                b > 0,
                x > 0,
        ;
    }
}

proof fn lemma_last_digits(n: nat, b: nat, x: nat)
    by (nonlinear_arith)
    requires
        b > 0,
        x > 0,
    ensures
        b * ((n / b) % x) + n % b == n % (b * x),
{
    let (q, r) = (n / b, n % b);
    let (s, t) = (q / x, q % x);
    assert(n == b * q + r && 0 <= r < b);
    assert(q == x * s + t && 0 <= t < x);
    assert(n == (b * x) * s + (b * t + r));
    assert(0 <= b * t + r < b * x);
    vstd::arithmetic::div_mod::lemma_fundamental_div_mod_converse(
        n as int,
        (b * x) as int,
        s as int,
        (b * t + r) as int,
    );
}

/// The last digits of a number, decimal or hexadecimal, are as many as asked for, and read
/// as its remainder.
pub proof fn law_digits_read_back(n: nat, w: nat)
    ensures
        digits(n, w).len() == w,
        spelled(digits(n, w), 10) == n % to_the(10, w),
        hex_digits(n, w).len() == w,
        spelled(hex_digits(n, w), 16) == n % to_the(16, w),
    decreases w,
{
    if w > 0 {
        law_digits_read_back(n / 10, (w - 1) as nat);
        law_digits_read_back(n / 16, (w - 1) as nat);
        assert(digits(n, w).drop_last() =~= digits(n / 10, (w - 1) as nat));
        assert(hex_digits(n, w).drop_last() =~= hex_digits(n / 16, (w - 1) as nat));
        lemma_to_the(10, (w - 1) as nat);
        lemma_to_the(16, (w - 1) as nat);
        lemma_last_digits(n, 10, to_the(10, (w - 1) as nat));
        lemma_last_digits(n, 16, to_the(16, (w - 1) as nat));
    }
}

/// Rounding goes to the nearest multiple: no more than half a unit away, and where two are
/// as near, to the even one.
pub proof fn law_rounding_is_to_the_nearest(n: nat, unit: nat)
    requires
        unit > 0,
    ensures
        ({
            let m = rounded(n, unit);
            &&& 2 * (unit * m) <= 2 * n + unit
            &&& 2 * n <= 2 * (unit * m) + unit
            &&& 2 * (unit * m) == 2 * n + unit || 2 * n == 2 * (unit * m) + unit ==> m % 2 == 0
        }),
{
    let (q, r) = (n / unit, n % unit);
    assert(n == unit * q + r && 0 <= r < unit) by (nonlinear_arith)
        requires
            unit > 0,
            q == n / unit,
            r == n % unit,
    ;
    assert(unit * (q + 1) == unit * q + unit) by (nonlinear_arith);
}

/// Tenths are written as a whole number, a point and a digit, which read as they are.
pub proof fn law_tenths_read_back(n: int)
    ensures
        ({
            let (m, s) = (if n < 0 { -n } else { n }, tenths(n));
            let whole = decimal((m / 10) as nat);
            &&& n >= 0 ==> s == whole.push('.').push(s.last())
            &&& n < 0 ==> s == seq!['-'] + whole.push('.').push(s.last())
            &&& spelled(whole.push(s.last()), 10) == m
        }),
{
    let m = if n < 0 { -n } else { n };
    let (s, whole) = (tenths(n), decimal((m / 10) as nat));
    law_decimal_reads_back((m / 10) as nat);
    assert(s.last() == digit_of((m % 10) as nat));
    assert(n >= 0 ==> s =~= whole.push('.').push(s.last()));
    assert(n < 0 ==> s =~= seq!['-'] + whole.push('.').push(s.last()));
    assert(whole.push(s.last()).drop_last() =~= whole);
}

/// `s` has `part` somewhere in it.
#[verifier::opaque]
pub open spec fn says(s: Seq<char>, part: Seq<char>) -> bool {
    exists|a: Seq<char>, b: Seq<char>| s == #[trigger] (a + part + b)
}

pub proof fn lemma_says(a: Seq<char>, part: Seq<char>, b: Seq<char>)
    ensures
        says(a + part + b, part),
        says(a + part, part),
        says(part + b, part),
        says(part, part),
{
    reveal(says);
    let none = Seq::<char>::empty();
    assert(a + part =~= a + part + none);
    assert(part + b =~= none + part + b);
    assert(part =~= none + part + none);
}

/// What follows leaves what was said.
pub proof fn lemma_says_on(s: Seq<char>, t: Seq<char>)
    ensures
        forall|part: Seq<char>| says(s, part) ==> #[trigger] says(s + t, part),
        forall|part: Seq<char>| says(t, part) ==> #[trigger] says(s + t, part),
{
    reveal(says);
    assert forall|part: Seq<char>| says(s, part) implies #[trigger] says(s + t, part) by {
        let (a, b) = choose|a: Seq<char>, b: Seq<char>| s == #[trigger] (a + part + b);
        assert(s + t =~= a + part + (b + t));
    }
    assert forall|part: Seq<char>| says(t, part) implies #[trigger] says(s + t, part) by {
        let (a, b) = choose|a: Seq<char>, b: Seq<char>| t == #[trigger] (a + part + b);
        assert(s + t =~= (s + a) + part + b);
    }
}

/// Three parts in a row are said as they stand.
pub proof fn lemma_says_run(a: Seq<char>, x: Seq<char>, y: Seq<char>, z: Seq<char>)
    ensures
        says(a + x + y + z, x + y + z),
        says(a + x + y, x + y),
{
    let none = Seq::<char>::empty();
    lemma_says(a, x + y + z, none);
    lemma_says(a, x + y, none);
    assert(a + x + y + z =~= a + (x + y + z));
    assert(a + x + y =~= a + (x + y));
}

/// Of the characters that keyboards have, only the blank and the controls from tab to
/// carriage return are white space.
pub proof fn law_visible_characters_are_not_space(c: char)
    ensures
        '!' <= c <= '~' ==> !is_space(c),
        c <= ' ' ==> (is_space(c) <==> c == ' ' || c == '\t' || c == '\n' || c == '\u{b}' || c == '\u{c}' || c
            == '\r'),
{
}

/// All of `s` is white space.
pub open spec fn is_blank(s: Seq<char>) -> bool {
    forall|k: int| 0 <= k < s.len() ==> is_space(#[trigger] s[k])
}

/// None of `s` is white space, and there is something of it.
pub open spec fn is_word(s: Seq<char>) -> bool {
    s.len() > 0 && forall|k: int| 0 <= k < s.len() ==> !is_space(#[trigger] s[k])
}

proof fn lemma_spaces(s: Seq<char>, i: int, n: int)
    requires
        0 <= i <= i + n <= s.len(),
        forall|k: int| i <= k < i + n ==> is_space(#[trigger] s[k]),
        i + n < s.len() ==> !is_space(s[i + n]),
    ensures
        spaces_from(s, i) == n,
    decreases n,
{
    if n > 0 {
        lemma_spaces(s, i + 1, n - 1);
        assert(is_space(s[i]));
    }
}

proof fn lemma_letters(s: Seq<char>, i: int, n: int)
    requires
        0 <= i <= i + n <= s.len(),
        forall|k: int| i <= k < i + n ==> !is_space(#[trigger] s[k]),
        i + n < s.len() ==> is_space(s[i + n]),
    ensures
        letters_from(s, i) == n,
    decreases n,
{
    if n > 0 {
        lemma_letters(s, i + 1, n - 1);
        assert(!is_space(s[i]));
    }
}

proof fn lemma_spaces_at_end(s: Seq<char>, n: int)
    requires
        0 <= n <= s.len(),
        forall|k: int| s.len() - n <= k < s.len() ==> is_space(#[trigger] s[k]),
        n < s.len() ==> !is_space(s[s.len() - n - 1]),
    ensures
        spaces_at_end(s) == n,
    decreases n,
{
    if n > 0 {
        let rest = s.drop_last();
        assert(is_space(s[s.len() - 1]));
        assert forall|k: int| rest.len() - (n - 1) <= k < rest.len() implies is_space(#[trigger] rest[k]) by {
            assert(rest[k] == s[k]);
        }
        lemma_spaces_at_end(rest, n - 1);
    }
}

/// White space at the ends goes, and nothing else: what begins and ends with something
/// comes back from among any white space, and what is all white space comes to nothing.
pub proof fn law_trimming_takes_the_ends(a: Seq<char>, t: Seq<char>, b: Seq<char>)
    requires
        is_blank(a),
        is_blank(b),
        t.len() > 0 ==> !is_space(t[0]) && !is_space(t.last()),
    ensures
        trimmed(a + t + b) == t,
{
    let s = a + t + b;
    if t.len() == 0 {
        assert forall|k: int| 0 <= k < s.len() implies is_space(#[trigger] s[k]) by {
            if k < a.len() {
                assert(s[k] == a[k]);
            } else {
                assert(s[k] == b[k - a.len()]);
            }
        }
        lemma_spaces(s, 0, s.len() as int);
        assert(trimmed(s) =~= t);
    } else {
        assert forall|k: int| 0 <= k < a.len() implies is_space(#[trigger] s[k]) by {
            assert(s[k] == a[k]);
        }
        assert(s[a.len() as int] == t[0]);
        lemma_spaces(s, 0, a.len() as int);
        let rest = s.skip(a.len() as int);
        assert(rest =~= t + b);
        assert forall|k: int| t.len() <= k < rest.len() implies is_space(#[trigger] rest[k]) by {
            assert(rest[k] == b[k - t.len()]);
        }
        assert(rest[rest.len() - b.len() - 1] == t.last());
        lemma_spaces_at_end(rest, b.len() as int);
        assert(trimmed(s) =~= t);
    }
}

/// Words are what white space sets apart: the first two of a line come out as they stand,
/// whatever follows.
pub proof fn law_words_are_set_apart(a: Seq<char>, v: Seq<char>, b: Seq<char>, w: Seq<char>, rest: Seq<char>)
    requires
        is_blank(a),
        is_word(v),
        is_blank(b),
        b.len() > 0,
        is_word(w),
        rest.len() > 0 ==> is_space(rest[0]),
    ensures
        words(a + v + b + w + rest).len() >= 2,
        words(a + v + b + w + rest)[0] == v,
        words(a + v + b + w + rest)[1] == w,
{
    let s = a + v + b + w + rest;
    let (i, j) = (a.len() as int, (a.len() + v.len()) as int);
    let (x, y) = (j + b.len(), j + b.len() + w.len());
    assert(forall|k: int| 0 <= k < i ==> #[trigger] s[k] == a[k]);
    assert(forall|k: int| i <= k < j ==> #[trigger] s[k] == v[k - i]);
    assert(forall|k: int| j <= k < x ==> #[trigger] s[k] == b[k - j]);
    assert(forall|k: int| x <= k < y ==> #[trigger] s[k] == w[k - x]);
    assert(y < s.len() ==> s[y] == rest[0]);
    lemma_spaces(s, 0, i);
    lemma_letters(s, i, v.len() as int);
    lemma_spaces(s, j, b.len() as int);
    lemma_letters(s, x, w.len() as int);
    assert(s.subrange(i, j) =~= v);
    assert(s.subrange(x, y) =~= w);
    assert(words_from(s, j) == seq![w] + words_from(s, y));
    assert(words(s) == seq![v] + words_from(s, j));
}

/// What stands before the first of a character is what had none of it.
pub proof fn law_cut_is_at_the_first(s: Seq<char>, c: char, rest: Seq<char>)
    requires
        !s.contains(c),
    ensures
        before(s, c) == s,
        before(s + seq![c] + rest, c) == s,
{
    s.index_of_first_ensures(c);
    let t = s + seq![c] + rest;
    t.index_of_first_ensures(c);
    assert(t[s.len() as int] == c);
    assert(t.contains(c));
    let k = t.index_of_first(c)->0;
    if k < s.len() {
        assert(s[k] == t[k]);
        assert(s.contains(c));
    }
    assert(t.take(k) =~= s);
}

/// A quantity is written to the nearest tenth: the digits before the point and the one
/// after it read as that many tenths, and a minus stands before what is below zero.
pub proof fn law_decimals_are_to_the_nearest_tenth(n: int, unit: nat)
    requires
        unit > 0,
    ensures
        ({
            let (s, size) = (signed_decimal(n, unit), if n < 0 { -n } else { n });
            let m = rounded(size as nat, unit);
            let whole = decimal(m / 10);
            &&& 2 * (unit * m) <= 2 * size + unit
            &&& 2 * size <= 2 * (unit * m) + unit
            &&& n >= 0 ==> s == whole.push('.').push(s.last())
            &&& n < 0 ==> s == seq!['-'] + whole.push('.').push(s.last())
            &&& spelled(whole.push(s.last()), 10) == m
        }),
{
    let size = (if n < 0 { -n } else { n }) as nat;
    let m = rounded(size, unit);
    law_rounding_is_to_the_nearest(size, unit);
    law_tenths_read_back(m as int);
    let (s, t) = (signed_decimal(n, unit), tenths(m as int));
    assert(t.len() > 0 && s.last() == t.last());
}

/// A number with its sign: a minus before what is below zero, and its size.
pub proof fn law_signed_reads_back(n: int)
    ensures
        n >= 0 ==> spelled(signed(n), 10) == n,
        n < 0 ==> signed(n)[0] == '-' && spelled(signed(n).drop_first(), 10) == -n,
{
    law_decimal_reads_back((if n < 0 { -n } else { n }) as nat);
    if n < 0 {
        assert(signed(n).drop_first() =~= decimal((-n) as nat));
    }
}

/// The first line ends before a line feed, or before the carriage return that stands
/// before it.
pub proof fn law_first_line_ends_at_the_feed(a: Seq<char>, rest: Seq<char>)
    requires
        !a.contains('\n'),
        a.len() > 0 ==> a.last() != '\r',
    ensures
        line_of(a) == a,
        line_of(a + seq!['\n'] + rest) == a,
        line_of(a + seq!['\r', '\n'] + rest) == a,
{
    a.index_of_first_ensures('\n');
    let (s, t) = (a + seq!['\n'] + rest, a + seq!['\r', '\n'] + rest);
    let (i, j) = (a.len() as int, (a.len() + 1) as int);
    s.index_of_first_ensures('\n');
    t.index_of_first_ensures('\n');
    let feed = seq!['\n'];
    assert(feed[0] == '\n');
    assert(s[i] == feed[0]);
    assert(s.contains('\n'));
    let end = seq!['\r', '\n'];
    assert(end[0] == '\r' && end[1] == '\n');
    assert(t[i] == end[0] && t[j] == end[1]);
    assert(t.contains('\n'));
    let (x, y) = (s.index_of_first('\n')->0, t.index_of_first('\n')->0);
    if x < i {
        assert(a[x] == s[x]);
        assert(a.contains('\n'));
    }
    if y < i {
        assert(a[y] == t[y]);
        assert(a.contains('\n'));
    }
    assert(x == i && y == j);
    if i > 0 {
        assert(s[i - 1] == a.last());
    }
    assert(s.take(i) =~= a);
    assert(t.take(i) =~= a);
}

} // verus!
