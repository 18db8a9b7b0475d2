//! Unsigned 8-bit interleaved I/Q, the output of rtl_sdr. One sample is two
//! bytes: I then Q, each centered on 127.4 (the RTL2832U's measured DC level).

use vstd::prelude::*;

verus! {

pub const SAMPLE_RATE: u64 = 2_400_000;

/// Magnitudes are 16-bit integers scaled by `MAG_SCALE` (max about 2900).
pub const MAG_SCALE: u32 = 16;

/// How far a byte lies from 127.4, in tenths.
pub open spec fn tenths(b: u8) -> int {
    10 * b - 1274
}

/// A hundred times the squared magnitude of a sample.
pub open spec fn power(i: u8, q: u8) -> int {
    tenths(i) * tenths(i) + tenths(q) * tenths(q)
}

/// `v` is the scaled magnitude of a sample: 1.6 times the root of its power,
/// rounded to the nearest integer, that is `v - 1/2 <= 1.6 r < v + 1/2`.
pub open spec fn is_magnitude(i: u8, q: u8, v: u16) -> bool {
    &&& v > 0 ==> 25 * ((2 * v - 1) * (2 * v - 1)) <= 256 * power(i, q)
    &&& 256 * power(i, q) < 25 * ((2 * v + 1) * (2 * v + 1))
}

/// The scaled magnitude of a sample.
pub open spec fn magnitude_of(i: u8, q: u8) -> u16 {
    choose|v: u16| is_magnitude(i, q, v)
}

/// There is only one.
pub proof fn lemma_magnitude_unique(i: u8, q: u8, v: u16)
    requires
        is_magnitude(i, q, v),
    ensures
        magnitude_of(i, q) == v,
{
    let w = magnitude_of(i, q);
    assert(is_magnitude(i, q, w));
    let (a, b) = if v < w { (v, w) } else { (w, v) };
    if a < b {
        assert((2 * a + 1) * (2 * a + 1) <= (2 * b - 1) * (2 * b - 1)) by (nonlinear_arith)
            requires
                0 <= a < b,
        ;
    }
}

/// The scaled magnitude is the nearest integer.
pub proof fn law_magnitude_is_nearest(i: u8, q: u8)
    ensures
        is_magnitude(i, q, magnitude_of(i, q)),
{
    assert(0 <= tenths(i) * tenths(i) <= 1276 * 1276) by (nonlinear_arith)
        requires
            -1276 <= tenths(i) <= 1276,
    ;
    assert(0 <= tenths(q) * tenths(q) <= 1276 * 1276) by (nonlinear_arith)
        requires
            -1276 <= tenths(q) <= 1276,
    ;
    let v: u16 = 4096;
    assert((2 * v + 1) * (2 * v + 1) == 8193 * 8193) by (nonlinear_arith)
        requires
            v == 4096,
    ;
    lemma_magnitude_exists(i, q, v);
}

proof fn lemma_magnitude_exists(i: u8, q: u8, v: u16)
    requires
        256 * power(i, q) < 25 * ((2 * v + 1) * (2 * v + 1)),
    ensures
        exists|w: u16| is_magnitude(i, q, w),
    decreases v,
{
    if v > 0 && 25 * ((2 * v - 1) * (2 * v - 1)) > 256 * power(i, q) {
        let u = (v - 1) as u16;
        assert(2 * u + 1 == 2 * v - 1);
        lemma_magnitude_exists(i, q, u);
    } else {
        assert(is_magnitude(i, q, v));
    }
}

/// How far a byte lies from 127.
pub open spec fn fold(b: u8) -> int {
    if b >= 127 { b - 127 } else { 127 - b }
}

/// The larger distance of a sample from its center.
pub open spec fn hi(i: int, q: int) -> int {
    if i > q { i } else { q }
}

/// The smaller distance of a sample from its center.
pub open spec fn lo(i: int, q: int) -> int {
    if i > q { q } else { i }
}

/// `15 * hi + 6 * lo`.
pub open spec fn approx(i: u8, q: u8) -> u16 {
    (15 * hi(fold(i), fold(q)) + 6 * lo(fold(i), fold(q))) as u16
}

/// The larger of `64 * h` and `57 * h + 31 * l`.
pub open spec fn segments(h: int, l: int) -> int {
    if 64 * h > 57 * h + 31 * l { 64 * h } else { 57 * h + 31 * l }
}

/// The two-segment approximation, a quarter of `segments`.
pub open spec fn approx2(i: u8, q: u8) -> u16 {
    (segments(hi(fold(i), fold(q)), lo(fold(i), fold(q))) / 4) as u16
}

/// How far a byte lies from 127.5, in quarters.
pub open spec fn quarters(b: u8) -> int {
    if 4 * b >= 510 { 4 * b - 510 } else { 510 - 4 * b }
}

/// The two-segment approximation at four times the resolution.
pub open spec fn approx3(i: u8, q: u8) -> u16 {
    (segments(hi(quarters(i), quarters(q)), lo(quarters(i), quarters(q))) / 16) as u16
}

/// `f` of each whole sample of `bytes`.
pub open spec fn each(bytes: Seq<u8>, f: spec_fn(u8, u8) -> u16) -> Seq<u16> {
    Seq::new((bytes.len() / 2) as nat, |k: int| f(bytes[2 * k], bytes[2 * k + 1]))
}

/// How far `b` lies from 127.
fn folded(b: u8) -> (d: u32)
    ensures
        d == fold(b),
        d <= 128,
{
    if b >= 127 { (b - 127) as u32 } else { (127 - b) as u32 }
}

/// The larger of the two segments.
fn larger_segment(h: u32, l: u32) -> (w: u32)
    requires
        l <= h <= 0xFFFF,
    ensures
        w == segments(h as int, l as int),
        w <= 88 * h,
{
    if 64 * h > 57 * h + 31 * l { 64 * h } else { 57 * h + 31 * l }
}

/// Magnitude without a table: `15 * hi + 6 * lo`, on the scale of the exact
/// magnitude.
pub fn magnitudes_approx(bytes: &[u8], out: &mut Vec<u16>)
    ensures
        final(out)@ == old(out)@ + each(bytes@, |i: u8, q: u8| approx(i, q)),
{
    let len: usize = bytes.len();
    let n: usize = len / 2;
    for k in 0..n
        invariant
            len == bytes@.len(),
            n == len / 2,
            out@ == old(out)@ + each(bytes@, |i: u8, q: u8| approx(i, q)).take(k as int),
    {
        let (i, q): (u32, u32) = (folded(bytes[2 * k]), folded(bytes[2 * k + 1]));
        let (h, l): (u32, u32) = if i > q { (i, q) } else { (q, i) };
        out.push((15 * h + 6 * l) as u16);
        assert(out@ =~= old(out)@ + each(bytes@, |i: u8, q: u8| approx(i, q)).take(k + 1));
    }
    assert(each(bytes@, |i: u8, q: u8| approx(i, q)).take(n as int) =~= each(
        bytes@,
        |i: u8, q: u8| approx(i, q),
    ));
}

/// Two-segment magnitude approximation: `max(64 * hi, 57 * hi + 31 * lo) / 4`
/// on the same scale. No table.
pub fn magnitudes_approx2(bytes: &[u8], out: &mut Vec<u16>)
    ensures
        final(out)@ == old(out)@ + each(bytes@, |i: u8, q: u8| approx2(i, q)),
{
    let len: usize = bytes.len();
    let n: usize = len / 2;
    for k in 0..n
        invariant
            len == bytes@.len(),
            n == len / 2,
            out@ == old(out)@ + each(bytes@, |i: u8, q: u8| approx2(i, q)).take(k as int),
    {
        let (i, q): (u32, u32) = (folded(bytes[2 * k]), folded(bytes[2 * k + 1]));
        let (h, l): (u32, u32) = if i > q { (i, q) } else { (q, i) };
        out.push((larger_segment(h, l) / 4) as u16);
        assert(out@ =~= old(out)@ + each(bytes@, |i: u8, q: u8| approx2(i, q)).take(k + 1));
    }
    assert(each(bytes@, |i: u8, q: u8| approx2(i, q)).take(n as int) =~= each(
        bytes@,
        |i: u8, q: u8| approx2(i, q),
    ));
}

/// The two-segment approximation on values carried at four times the
/// resolution, so magnitudes of one or two units keep their fractions.
pub fn magnitudes_approx3(bytes: &[u8], out: &mut Vec<u16>)
    ensures
        final(out)@ == old(out)@ + each(bytes@, |i: u8, q: u8| approx3(i, q)),
{
    let len: usize = bytes.len();
    let n: usize = len / 2;
    for k in 0..n
        invariant
            len == bytes@.len(),
            n == len / 2,
            out@ == old(out)@ + each(bytes@, |i: u8, q: u8| approx3(i, q)).take(k as int),
    {
        let (i4, q4): (u32, u32) = (4 * (bytes[2 * k] as u32), 4 * (bytes[2 * k + 1] as u32));
        let i: u32 = if i4 >= 510 { i4 - 510 } else { 510 - i4 };
        let q: u32 = if q4 >= 510 { q4 - 510 } else { 510 - q4 };
        let (h, l): (u32, u32) = if i > q { (i, q) } else { (q, i) };
        out.push((larger_segment(h, l) / 16) as u16);
        assert(out@ =~= old(out)@ + each(bytes@, |i: u8, q: u8| approx3(i, q)).take(k + 1));
    }
    assert(each(bytes@, |i: u8, q: u8| approx3(i, q)).take(n as int) =~= each(
        bytes@,
        |i: u8, q: u8| approx3(i, q),
    ));
}

/// The scaled magnitude of a sample: the nearest integer to 1.6 times the root
/// of its power, found by halving.
fn magnitude(i: u8, q: u8) -> (v: u16)
    ensures
        v == magnitude_of(i, q),
{
    let (a, b): (i32, i32) = (10 * (i as i32) - 1274, 10 * (q as i32) - 1274);
    assert(0 <= a * a <= 1276 * 1276 && 0 <= b * b <= 1276 * 1276) by (nonlinear_arith)
        requires
            -1276 <= a <= 1276,
            -1276 <= b <= 1276,
    ;
    let n: u64 = 256 * ((a * a + b * b) as u64);
    let mut low: u64 = 0;
    let mut high: u64 = 4096;
    assert(8191 * 8191 == (2 * high - 1) * (2 * high - 1)) by (nonlinear_arith)
        requires
            high == 4096,
    ;
    while high - low > 1
        invariant
            n == 256 * power(i, q),
            low < high <= 4096,
            low > 0 ==> 25 * ((2 * low - 1) * (2 * low - 1)) <= n,
            n < 25 * ((2 * high - 1) * (2 * high - 1)),
        decreases high - low,
    {
        let mid: u64 = (low + high) / 2;
        assert((2 * mid - 1) * (2 * mid - 1) <= 8191 * 8191) by (nonlinear_arith)
            requires
                0 < mid <= 4096,
        ;
        if 25 * ((2 * mid - 1) * (2 * mid - 1)) <= n {
            low = mid;
        } else {
            high = mid;
        }
    }
    let v: u16 = low as u16;
    assert(2 * high - 1 == 2 * v + 1);
    proof {
        lemma_magnitude_unique(i, q, v);
    }
    v
}

/// Magnitude for every (I, Q) byte pair, indexed by `256 * i + q`.
pub struct MagLut {
    table: Vec<u16>,
}

impl MagLut {
    /// The table holds the magnitude of every pair.
    pub closed spec fn wf(&self) -> bool {
        &&& self.table@.len() == 65536
        &&& forall|j: int|
            0 <= j < 65536 ==> #[trigger] self.table@[j] == magnitude_of(
                (j / 256) as u8,
                (j % 256) as u8,
            )
    }

    pub fn new() -> (t: MagLut)
        ensures
            t.wf(),
    {
        let mut table: Vec<u16> = Vec::with_capacity(65536);
        for j in 0..65536usize
            invariant
                table@.len() == j,
                forall|k: int|
                    0 <= k < j ==> #[trigger] table@[k] == magnitude_of((k / 256) as u8, (k % 256) as u8),
        {
            table.push(magnitude((j / 256) as u8, (j % 256) as u8));
        }
        MagLut { table }
    }

    /// Append the magnitudes of `bytes` to `out`; a byte left over is dropped.
    pub fn magnitudes(&self, bytes: &[u8], out: &mut Vec<u16>)
        requires
            self.wf(),
        ensures
            final(out)@ == old(out)@ + each(bytes@, |i: u8, q: u8| magnitude_of(i, q)),
    {
        let len: usize = bytes.len();
        let n: usize = len / 2;
        for k in 0..n
            invariant
                self.wf(),
                len == bytes@.len(),
                n == len / 2,
                out@ == old(out)@ + each(bytes@, |i: u8, q: u8| magnitude_of(i, q)).take(k as int),
        {
            let (i, q): (u8, u8) = (bytes[2 * k], bytes[2 * k + 1]);
            let j: usize = 256 * (i as usize) + q as usize;
            assert(j / 256 == i && j % 256 == q);
            out.push(self.table[j]);
            assert(out@ =~= old(out)@ + each(bytes@, |i: u8, q: u8| magnitude_of(i, q)).take(k + 1));
        }
        assert(each(bytes@, |i: u8, q: u8| magnitude_of(i, q)).take(n as int) =~= each(
            bytes@,
            |i: u8, q: u8| magnitude_of(i, q),
        ));
    }
}

impl Default for MagLut {
    fn default() -> (t: Self)
        ensures
            t.wf(),
    {
        MagLut::new()
    }
}

/// Exact magnitude, no table.
pub fn magnitudes_f32(bytes: &[u8], out: &mut Vec<u16>)
    ensures
        final(out)@ == old(out)@ + each(bytes@, |i: u8, q: u8| magnitude_of(i, q)),
{
    let len: usize = bytes.len();
    let n: usize = len / 2;
    for k in 0..n
        invariant
            len == bytes@.len(),
            n == len / 2,
            out@ == old(out)@ + each(bytes@, |i: u8, q: u8| magnitude_of(i, q)).take(k as int),
    {
        out.push(magnitude(bytes[2 * k], bytes[2 * k + 1]));
        assert(out@ =~= old(out)@ + each(bytes@, |i: u8, q: u8| magnitude_of(i, q)).take(k + 1));
    }
    assert(each(bytes@, |i: u8, q: u8| magnitude_of(i, q)).take(n as int) =~= each(
        bytes@,
        |i: u8, q: u8| magnitude_of(i, q),
    ));
}

/// `v` is 16 times the root of `n`, rounded to the nearest integer, that is
/// `v - 1/2 <= 16 r < v + 1/2`. There are no halves to round.
pub open spec fn is_scaled_root(n: int, v: u16) -> bool {
    &&& v > 0 ==> (2 * v - 1) * (2 * v - 1) <= 1024 * n
    &&& 1024 * n < (2 * v + 1) * (2 * v + 1)
}

/// 16 times the root of `n`, rounded to the nearest integer.
pub open spec fn scaled_root(n: int) -> u16 {
    choose|v: u16| is_scaled_root(n, v)
}

/// There is only one.
proof fn lemma_scaled_root_unique(n: int, v: u16)
    requires
        is_scaled_root(n, v),
    ensures
        scaled_root(n) == v,
{
    let w = scaled_root(n);
    assert(is_scaled_root(n, w));
    let (a, b) = if v < w { (v, w) } else { (w, v) };
    if a < b {
        assert((2 * a + 1) * (2 * a + 1) <= (2 * b - 1) * (2 * b - 1)) by (nonlinear_arith)
            requires
                0 <= a < b,
        ;
    }
}

/// The small table is exact: every entry is the nearest integer.
pub proof fn law_small_magnitude_is_nearest(n: int)
    requires
        0 <= n <= 32768,
    ensures
        is_scaled_root(n, scaled_root(n)),
{
    let top: u16 = 2897;
    assert((2 * top + 1) * (2 * top + 1) > 1024 * 32768) by (nonlinear_arith)
        requires
            top == 2897,
    ;
    lemma_scaled_root_below(n, top);
}

proof fn lemma_scaled_root_below(n: int, v: u16)
    requires
        0 <= n,
        1024 * n < (2 * v + 1) * (2 * v + 1),
    ensures
        exists|w: u16| #[trigger] is_scaled_root(n, w),
    decreases v,
{
    if v > 0 && (2 * v - 1) * (2 * v - 1) > 1024 * n {
        let w = (v - 1) as u16;
        assert(2 * w + 1 == 2 * v - 1);
        lemma_scaled_root_below(n, w);
    } else {
        assert(is_scaled_root(n, v));
    }
}

/// 16 times the root of `n`, by halving the range it lies in.
fn root16(n: u32) -> (v: u16)
    requires
        n <= 32768,
    ensures
        v == scaled_root(n as int),
{
    let mut low: u32 = 0;
    let mut high: u32 = 2898;
    assert((2 * high - 1) * (2 * high - 1) > 1024 * 32768) by (nonlinear_arith)
        requires
            high == 2898,
    ;
    while high - low > 1
        invariant
            n <= 32768,
            low < high <= 2898,
            low > 0 ==> (2 * low - 1) * (2 * low - 1) <= 1024 * n,
            1024 * n < (2 * high - 1) * (2 * high - 1),
        decreases high - low,
    {
        let mid: u32 = (low + high) / 2;
        assert((2 * mid - 1) * (2 * mid - 1) <= 5795 * 5795) by (nonlinear_arith)
            requires
                0 < mid <= 2898,
        ;
        if (2 * mid - 1) * (2 * mid - 1) <= 1024 * n {
            low = mid;
        } else {
            high = mid;
        }
    }
    assert(2 * high - 1 == 2 * low + 1);
    proof {
        lemma_scaled_root_unique(n as int, low as u16);
    }
    low as u16
}

/// A sample's magnitude by the small table, about a center of 127.
pub open spec fn small_of(i: u8, q: u8) -> u16 {
    scaled_root(fold(i) * fold(i) + fold(q) * fold(q))
}

/// A table over the folded pair (hi, lo) of distances from 127, hi in 0..=128,
/// indexed `hi * 129 + lo` with lo at most hi. Exact for a center of 127.
pub struct MagLutSmall {
    table: Vec<u16>,
}

impl MagLutSmall {
    /// The table holds the magnitude of every folded pair.
    pub closed spec fn wf(&self) -> bool {
        &&& self.table@.len() == 129 * 129
        &&& forall|j: int|
            0 <= j < 129 * 129 && j % 129 <= j / 129 ==> #[trigger] self.table@[j] == scaled_root(
                (j / 129) * (j / 129) + (j % 129) * (j % 129),
            )
    }

    pub fn new() -> (t: MagLutSmall)
        ensures
            t.wf(),
    {
        let mut table: Vec<u16> = Vec::with_capacity(16641);
        for j in 0..16641usize
            invariant
                table@.len() == j,
                forall|k: int|
                    0 <= k < j && k % 129 <= k / 129 ==> #[trigger] table@[k] == scaled_root(
                        (k / 129) * (k / 129) + (k % 129) * (k % 129),
                    ),
        {
            let (h, l): (u32, u32) = ((j / 129) as u32, (j % 129) as u32);
            assert(h * h <= 128 * 128 && l * l <= 128 * 128) by (nonlinear_arith)
                requires
                    h <= 128,
                    l <= 128,
            ;
            table.push(if l <= h { root16(h * h + l * l) } else { 0 });
        }
        MagLutSmall { table }
    }

    /// Append the magnitudes of `bytes` to `out`; a byte left over is dropped.
    pub fn magnitudes(&self, bytes: &[u8], out: &mut Vec<u16>)
        requires
            self.wf(),
        ensures
            final(out)@ == old(out)@ + each(bytes@, |i: u8, q: u8| small_of(i, q)),
    {
        let len: usize = bytes.len();
        let n: usize = len / 2;
        for k in 0..n
            invariant
                self.wf(),
                len == bytes@.len(),
                n == len / 2,
                out@ == old(out)@ + each(bytes@, |i: u8, q: u8| small_of(i, q)).take(k as int),
        {
            let (i, q): (u32, u32) = (folded(bytes[2 * k]), folded(bytes[2 * k + 1]));
            let (h, l): (u32, u32) = if i > q { (i, q) } else { (q, i) };
            let j: usize = (h * 129 + l) as usize;
            assert(j / 129 == h && j % 129 == l);
            out.push(self.table[j]);
            assert(out@ =~= old(out)@ + each(bytes@, |i: u8, q: u8| small_of(i, q)).take(k + 1));
        }
        assert(each(bytes@, |i: u8, q: u8| small_of(i, q)).take(n as int) =~= each(
            bytes@,
            |i: u8, q: u8| small_of(i, q),
        ));
    }
}

impl Default for MagLutSmall {
    fn default() -> (t: Self)
        ensures
            t.wf(),
    {
        MagLutSmall::new()
    }
}

/// How close `15 * hi + 6 * lo` comes to 16 times the root of `hi^2 + lo^2`:
/// its square is at most 261 and at least 220.5 times the sum of squares, where
/// 256 would be exact.
pub proof fn law_approx_is_close(h: int, l: int)
    requires
        0 <= l <= h,
    ensures
        ({
            let v = 15 * h + 6 * l;
            441 * (h * h + l * l) <= 2 * (v * v) && v * v <= 261 * (h * h + l * l)
        }),
{
    let v = 15 * h + 6 * l;
    assert(441 * (h * h + l * l) <= 2 * (v * v) && v * v <= 261 * (h * h + l * l)) by (nonlinear_arith)
        requires
            0 <= l <= h,
            v == 15 * h + 6 * l,
    {
        let d = h - l;
        assert(v == 21 * l + 15 * d);
        assert(2 * (v * v) - 441 * (h * h + l * l) == 378 * (l * d) + 9 * (d * d));
        assert(261 * (h * h + l * l) - v * v == (6 * h - 15 * l) * (6 * h - 15 * l));
    }
}

/// How close the two segments come to 64 times the root of `hi^2 + lo^2`: their
/// square is at most 4210 and at least 3872 times the sum of squares, where
/// 4096 would be exact.
pub proof fn law_segments_are_close(h: int, l: int)
    requires
        0 <= l <= h,
    ensures
        ({
            let w = segments(h, l);
            3872 * (h * h + l * l) <= w * w && w * w <= 4210 * (h * h + l * l)
        }),
{
    let w = segments(h, l);
    if 64 * h > 57 * h + 31 * l {
        assert(3872 * (h * h + l * l) <= w * w && w * w <= 4210 * (h * h + l * l)) by (nonlinear_arith)
            requires
                0 <= l <= h,
                7 * h > 31 * l,
                w == 64 * h,
        {
            assert(w * w == 4096 * (h * h));
            assert(49 * (h * h) >= 961 * (l * l));
            assert(l * l >= 0);
        }
    } else {
        assert(3872 * (h * h + l * l) <= w * w && w * w <= 4210 * (h * h + l * l)) by (nonlinear_arith)
            requires
                0 <= l <= h,
                7 * h <= 31 * l,
                w == 57 * h + 31 * l,
        {
            assert(4210 * (h * h + l * l) - w * w == (31 * h - 57 * l) * (31 * h - 57 * l));
            assert(w * w - 3872 * (h * h + l * l) == 3534 * (h * l) - 623 * (h * h) - 2911 * (l * l));
            assert((h - l) * (31 * l - 7 * h) >= 0);
        }
    }
}

/// The magnitude of a sample is 16 times its distance from (127.4, 127.4), to the nearest
/// integer: half a unit less is no more than the distance, and half a unit more is more.
/// It is the same for I and Q exchanged.
pub proof fn law_magnitude_is_the_distance(i: u8, q: u8)
    ensures
        ({
            let v = magnitude_of(i, q) as int;
            let (x, y) = (10 * i - 1274, 10 * q - 1274);
            &&& v > 0 ==> 100 * ((2 * v - 1) * (2 * v - 1)) <= 1024 * (x * x + y * y)
            &&& 1024 * (x * x + y * y) < 100 * ((2 * v + 1) * (2 * v + 1))
        }),
        magnitude_of(i, q) == magnitude_of(q, i),
{
    law_magnitude_is_nearest(i, q);
    law_magnitude_is_nearest(q, i);
    lemma_magnitude_unique(i, q, magnitude_of(q, i));
}

/// How far a byte lies from 127.
pub open spec fn off_center(b: u8) -> int {
    if b >= 127 {
        b - 127
    } else {
        127 - b
    }
}

/// The small table is 16 times the distance from (127, 127), to the nearest integer.
pub proof fn law_small_magnitude_is_the_distance(i: u8, q: u8)
    ensures
        ({
            let v = small_of(i, q) as int;
            let (x, y) = (i - 127, q - 127);
            &&& v > 0 ==> (2 * v - 1) * (2 * v - 1) <= 1024 * (x * x + y * y)
            &&& 1024 * (x * x + y * y) < (2 * v + 1) * (2 * v + 1)
        }),
{
    let (x, y) = (i - 127, q - 127);
    let (a, b) = (off_center(i), off_center(q));
    assert(a * a == x * x && b * b == y * y) by (nonlinear_arith)
        requires
            a == x || a == -x,
            b == y || b == -y,
    ;
    assert(a * a + b * b <= 32768) by (nonlinear_arith)
        requires
            0 <= a <= 128,
            0 <= b <= 128,
    ;
    assert(a * a + b * b >= 0) by (nonlinear_arith);
    law_small_magnitude_is_nearest(a * a + b * b);
}

/// The first approximation is close to 16 times the distance from (127, 127): its square
/// is between 220.5 and 261 times that of the distance, 15 times the distance along an
/// axis, and 21 times each of the two along a diagonal.
pub proof fn law_first_approximation_is_close(i: u8, q: u8)
    ensures
        ({
            let v = approx(i, q) as int;
            let (a, b) = (off_center(i), off_center(q));
            &&& 441 * (a * a + b * b) <= 2 * (v * v)
            &&& v * v <= 261 * (a * a + b * b)
            &&& b == 0 ==> v == 15 * a
            &&& a == 0 ==> v == 15 * b
            &&& a == b ==> v == 21 * a
        }),
{
    let (a, b) = (off_center(i), off_center(q));
    if a > b {
        law_approx_is_close(a, b);
    } else {
        law_approx_is_close(b, a);
    }
}

/// The second and the third approximation are close to 16 times the distance, the one from
/// (127, 127), the other from (127.5, 127.5): before the fraction is dropped, the square is
/// between 3872 and 4210 parts in 4096 of what would be exact.
pub proof fn law_other_approximations_are_close(i: u8, q: u8)
    ensures
        ({
            let (v, w) = (approx2(i, q) as int, approx3(i, q) as int);
            let (a, b) = (off_center(i), off_center(q));
            let (x, y) = (4 * i - 510, 4 * q - 510);
            &&& (4 * v) * (4 * v) <= 4210 * (a * a + b * b)
            &&& 3872 * (a * a + b * b) < (4 * v + 4) * (4 * v + 4)
            &&& (16 * w) * (16 * w) <= 4210 * (x * x + y * y)
            &&& 3872 * (x * x + y * y) < (16 * w + 16) * (16 * w + 16)
            &&& b == 0 ==> v == 16 * a
            &&& a == 0 ==> v == 16 * b
        }),
{
    let (a, b) = (off_center(i), off_center(q));
    let (h, l) = (hi(a, b), lo(a, b));
    let s = segments(h, l);
    let v = approx2(i, q) as int;
    law_segments_are_close(h, l);
    assert(0 <= s / 4 <= 0xFFFF);
    assert(v == s / 4);
    lemma_cut(s, 4, v, a * a + b * b);
    let (c, d) = (quarters(i), quarters(q));
    let (x, y) = (4 * i - 510, 4 * q - 510);
    assert(c * c == x * x && d * d == y * y) by (nonlinear_arith)
        requires
            c == x || c == -x,
            d == y || d == -y,
    ;
    let t = segments(hi(c, d), lo(c, d));
    let w = approx3(i, q) as int;
    law_segments_are_close(hi(c, d), lo(c, d));
    assert(0 <= t / 16 <= 0xFFFF);
    assert(w == t / 16);
    lemma_cut(t, 16, w, c * c + d * d);
}

proof fn lemma_cut(s: int, n: int, v: int, d: int)
    by (nonlinear_arith)
    requires
        0 < n,
        0 <= s,
        v == s / n,
        3872 * d <= s * s,
        s * s <= 4210 * d,
    ensures
        (n * v) * (n * v) <= 4210 * d,
        3872 * d < (n * v + n) * (n * v + n),
{
    assert(n * v <= s < n * v + n);
    assert(0 <= n * v);
    assert((n * v) * (n * v) <= s * s);
    assert(s * s < (n * v + n) * (n * v + n));
}

/// Samples are turned into magnitudes one by one: it does not matter where a stream of
/// whole samples is cut, and a sample is an I and the Q after it.
pub proof fn law_samples_are_converted_one_by_one(
    a: Seq<u8>,
    b: Seq<u8>,
    i: u8,
    q: u8,
    f: spec_fn(u8, u8) -> u16,
)
    requires
        a.len() % 2 == 0,
    ensures
        each(a + b, f) == each(a, f) + each(b, f),
        each(seq![i, q], f) == seq![f(i, q)],
        each(seq![i], f) == Seq::<u16>::empty(),
{
    assert(each(a + b, f) =~= each(a, f) + each(b, f));
    assert(each(seq![i, q], f) =~= seq![f(i, q)]);
    assert(each(seq![i], f) =~= Seq::<u16>::empty());
}

} // verus!
