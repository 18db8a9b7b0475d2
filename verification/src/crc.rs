//! The Mode S checksum: CRC-24 with generator 0xFFF409, most significant bit
//! first, register starting at zero.
//!
//! The checksum is linear over exclusive or, which is what makes error
//! correction possible: flipping a bit moves the residual of a frame by the
//! checksum of that bit alone, its syndrome, whatever the frame holds.

use vstd::prelude::*;

verus! {

/// The generator without its leading term.
pub const CRC24_POLY: u32 = 0xFFF409;

/// The register after one shift: multiplication by x modulo the generator.
pub open spec fn shifted(r: u32) -> u32 {
    if r & 0x80_0000u32 != 0 {
        ((r << 1u32) ^ CRC24_POLY) & 0xFF_FFFFu32
    } else {
        (r << 1u32) & 0xFF_FFFFu32
    }
}

/// The register after a byte's worth of shifts.
pub open spec fn shifted8(r: u32) -> u32 {
    shifted(shifted(shifted(shifted(shifted(shifted(shifted(shifted(r))))))))
}

/// The register `r` after taking in the byte `b`.
pub open spec fn crc_step(r: u32, b: u8) -> u32 {
    shifted8(r ^ ((b as u32) << 16u32))
}

/// The register `r` after taking in `data`.
pub open spec fn crc_from(r: u32, data: Seq<u8>) -> u32
    decreases data.len(),
{
    if data.len() == 0 {
        r
    } else {
        crc_step(crc_from(r, data.drop_last()), data.last())
    }
}

/// The checksum of `data`.
pub open spec fn crc24_of(data: Seq<u8>) -> u32 {
    crc_from(0, data)
}

proof fn lemma_shifted(a: u32, b: u32)
    by (bit_vector)
    requires
        a <= 0xFF_FFFFu32,
        b <= 0xFF_FFFFu32,
    ensures
        shifted(a) <= 0xFF_FFFFu32,
        shifted(b) <= 0xFF_FFFFu32,
        (a ^ b) <= 0xFF_FFFFu32,
        shifted(a ^ b) == shifted(a) ^ shifted(b),
{
}

proof fn lemma_shifted8(a: u32, b: u32)
    requires
        a <= 0xFF_FFFFu32,
        b <= 0xFF_FFFFu32,
    ensures
        shifted8(a) <= 0xFF_FFFFu32,
        (a ^ b) <= 0xFF_FFFFu32,
        shifted8(a ^ b) == shifted8(a) ^ shifted8(b),
{
    let a1 = shifted(a);
    let b1 = shifted(b);
    lemma_shifted(a, b);
    let a2 = shifted(a1);
    let b2 = shifted(b1);
    lemma_shifted(a1, b1);
    let a3 = shifted(a2);
    let b3 = shifted(b2);
    lemma_shifted(a2, b2);
    let a4 = shifted(a3);
    let b4 = shifted(b3);
    lemma_shifted(a3, b3);
    let a5 = shifted(a4);
    let b5 = shifted(b4);
    lemma_shifted(a4, b4);
    let a6 = shifted(a5);
    let b6 = shifted(b5);
    lemma_shifted(a5, b5);
    let a7 = shifted(a6);
    let b7 = shifted(b6);
    lemma_shifted(a6, b6);
    lemma_shifted(a7, b7);
}

/// A register below 2^16 moves up a byte without wrapping.
proof fn lemma_shifted8_low(r: u32)
    by (bit_vector)
    requires
        r <= 0xFFFFu32,
    ensures
        shifted8(r) == r << 8u32,
{
}

proof fn lemma_byte_in_register(b: u8)
    by (bit_vector)
    ensures
        ((b as u32) << 16u32) <= 0xFF_FFFFu32,
{
}

proof fn lemma_xor_bound(a: u32, b: u32)
    by (bit_vector)
    requires
        a <= 0xFF_FFFFu32,
        b <= 0xFF_FFFFu32,
    ensures
        (a ^ b) <= 0xFF_FFFFu32,
{
}

/// The register stays within 24 bits.
pub proof fn lemma_crc_bound(r: u32, data: Seq<u8>)
    requires
        r <= 0xFF_FFFF,
    ensures
        crc_from(r, data) <= 0xFF_FFFF,
    decreases data.len(),
{
    if data.len() > 0 {
        let prev = crc_from(r, data.drop_last());
        lemma_crc_bound(r, data.drop_last());
        let fed = (data.last() as u32) << 16u32;
        lemma_byte_in_register(data.last());
        lemma_xor_bound(prev, fed);
        lemma_shifted8(prev ^ fed, 0);
    }
}

/// The checksum by the byte, from the table of single-byte checksums.
proof fn lemma_table_step(r: u32, b: u8)
    requires
        r <= 0xFF_FFFF,
    ensures
        (((r >> 16u32) ^ (b as u32)) & 0xFFu32) < 256,
        (shifted8((((r >> 16u32) ^ (b as u32)) & 0xFFu32) << 16u32) ^ (r << 8u32)) & 0xFF_FFFFu32
            == crc_step(r, b),
{
    let hi = (((r >> 16u32) ^ (b as u32)) & 0xFFu32) << 16u32;
    let lo = r & 0xFFFFu32;
    assert((((r >> 16u32) ^ (b as u32)) & 0xFFu32) < 256) by (bit_vector);
    assert(hi <= 0xFF_FFFFu32 && lo <= 0xFFFFu32 && (r ^ ((b as u32) << 16u32)) == hi ^ lo)
        by (bit_vector)
        requires
            r <= 0xFF_FFFFu32,
            hi == (((r >> 16u32) ^ (b as u32)) & 0xFFu32) << 16u32,
            lo == r & 0xFFFFu32,
    ;
    lemma_shifted8(hi, lo);
    lemma_shifted8_low(lo);
    let t = shifted8(hi);
    assert((t ^ (r << 8u32)) & 0xFF_FFFFu32 == t ^ (lo << 8u32)) by (bit_vector)
        requires
            t <= 0xFF_FFFFu32,
            lo == r & 0xFFFFu32,
    ;
}

/// One shift of the checksum register.
fn shift(r: u32) -> (s: u32)
    ensures
        s == shifted(r),
{
    if r & 0x80_0000u32 != 0 {
        ((r << 1u32) ^ CRC24_POLY) & 0xFF_FFFFu32
    } else {
        (r << 1u32) & 0xFF_FFFFu32
    }
}

/// Eight shifts of the checksum register.
fn shift8(r: u32) -> (s: u32)
    ensures
        s == shifted8(r),
{
    shift(shift(shift(shift(shift(shift(shift(shift(r))))))))
}

/// The checksum of `data`, a bit at a time.
pub fn crc24(data: &[u8]) -> (crc: u32)
    ensures
        crc == crc24_of(data@),
        crc <= 0xFF_FFFF,
{
    let mut crc: u32 = 0;
    for i in 0..data.len()
        invariant
            crc == crc24_of(data@.take(i as int)),
    {
        assert(data@.take(i + 1).drop_last() =~= data@.take(i as int));
        crc = shift8(crc ^ ((data[i] as u32) << 16u32));
    }
    assert(data@.take(data@.len() as int) =~= data@);
    proof {
        lemma_crc_bound(0, data@);
    }
    crc
}

/// The checksum by the byte, from a table of the checksum of every byte.
pub struct Crc24 {
    table: Vec<u32>,
}

impl Crc24 {
    /// Every entry is the checksum of its index.
    pub closed spec fn wf(&self) -> bool {
        &&& self.table@.len() == 256
        &&& forall|b: int| 0 <= b < 256 ==> #[trigger] self.table@[b] == shifted8((b as u32) << 16u32)
    }

    pub fn new() -> (c: Crc24)
        ensures
            c.wf(),
    {
        let mut table: Vec<u32> = Vec::with_capacity(256);
        for b in 0..256u32
            invariant
                table@.len() == b,
                forall|k: int| 0 <= k < b ==> #[trigger] table@[k] == shifted8((k as u32) << 16u32),
        {
            table.push(shift8(b << 16u32));
        }
        Crc24 { table }
    }

    /// The checksum of `data`: what `crc24` computes, a byte at a time.
    pub fn of(&self, data: &[u8]) -> (crc: u32)
        requires
            self.wf(),
        ensures
            crc == crc24_of(data@),
            crc <= 0xFF_FFFF,
    {
        let mut crc: u32 = 0;
        for i in 0..data.len()
            invariant
                self.wf(),
                crc == crc24_of(data@.take(i as int)),
                crc <= 0xFF_FFFF,
        {
            assert(data@.take(i + 1).drop_last() =~= data@.take(i as int));
            let b: u8 = data[i];
            proof {
                lemma_table_step(crc, b);
                lemma_crc_bound(0, data@.take(i + 1));
            }
            let row: usize = (((crc >> 16u32) ^ (b as u32)) & 0xFFu32) as usize;
            crc = (self.table[row] ^ (crc << 8u32)) & 0xFF_FFFFu32;
        }
        assert(data@.take(data@.len() as int) =~= data@);
        crc
    }
}

/// The bytes of `a` and `b` combined by exclusive or.
pub open spec fn xored(a: Seq<u8>, b: Seq<u8>) -> Seq<u8> {
    Seq::new(a.len(), |j: int| a[j] ^ b[j])
}

/// `f` with bit `i` flipped, bit 0 being the first on the air.
pub open spec fn flipped(f: Seq<u8>, i: int) -> Seq<u8> {
    f.update(i / 8, f[i / 8] ^ (0x80u8 >> ((i % 8) as u8)))
}

/// `f` with every bit of `picks` flipped, in turn.
pub open spec fn flipped_all(f: Seq<u8>, picks: Seq<usize>) -> Seq<u8>
    decreases picks.len(),
{
    if picks.len() == 0 {
        f
    } else {
        flipped_all(flipped(f, picks[0] as int), picks.drop_first())
    }
}

/// `n` bytes of zeros but for bit `i`.
pub open spec fn one_bit(n: nat, i: int) -> Seq<u8> {
    Seq::new(n, |j: int| 0u8).update(i / 8, 0x80u8 >> ((i % 8) as u8))
}

/// How the residual of an `n` byte frame moves when bit `i` flips.
pub open spec fn syndrome(n: nat, i: int) -> u32 {
    crc24_of(one_bit(n, i))
}

/// The syndromes of `picks` combined.
pub open spec fn syndromes_xor(n: nat, picks: Seq<usize>) -> u32
    decreases picks.len(),
{
    if picks.len() == 0 {
        0
    } else {
        syndrome(n, picks[0] as int) ^ syndromes_xor(n, picks.drop_first())
    }
}

/// The last three bytes of a frame, its parity field.
pub open spec fn parity_of(f: Seq<u8>) -> u32 {
    ((f[f.len() - 3] as u32) << 16u32) | ((f[f.len() - 2] as u32) << 8u32) | (f[f.len() - 1] as u32)
}

/// The checksum of the data part combined with the parity field: zero for a
/// frame with plain parity, the aircraft address for an address-parity frame.
pub open spec fn recovered_address(f: Seq<u8>) -> u32 {
    crc24_of(f.take(f.len() - 3)) ^ parity_of(f)
}

/// How the recovered address of an `n` byte frame moves when bit `i` flips.
pub open spec fn address_syndrome(n: nat, i: int) -> u32 {
    if i < 8 * n - 24 {
        syndrome((n - 3) as nat, i)
    } else {
        1u32 << ((8 * n - 1 - i) as u32)
    }
}

proof fn lemma_step_linear(r: u32, s: u32, a: u8, b: u8)
    requires
        r <= 0xFF_FFFF,
        s <= 0xFF_FFFF,
    ensures
        crc_step(r ^ s, a ^ b) == crc_step(r, a) ^ crc_step(s, b),
{
    let x = r ^ ((a as u32) << 16u32);
    let y = s ^ ((b as u32) << 16u32);
    assert(x <= 0xFF_FFFFu32 && y <= 0xFF_FFFFu32 && (r ^ s) ^ (((a ^ b) as u32) << 16u32) == x ^ y)
        by (bit_vector)
        requires
            r <= 0xFF_FFFFu32,
            s <= 0xFF_FFFFu32,
            x == r ^ ((a as u32) << 16u32),
            y == s ^ ((b as u32) << 16u32),
    ;
    lemma_shifted8(x, y);
}

/// The checksum is linear: of two byte strings of one length combined by
/// exclusive or, it is the exclusive or of their checksums.
pub proof fn law_crc_is_linear(a: Seq<u8>, b: Seq<u8>)
    requires
        a.len() == b.len(),
    ensures
        crc24_of(xored(a, b)) == crc24_of(a) ^ crc24_of(b),
    decreases a.len(),
{
    if a.len() == 0 {
        assert(0u32 ^ 0u32 == 0u32) by (bit_vector);
    } else {
        let (pa, pb) = (a.drop_last(), b.drop_last());
        law_crc_is_linear(pa, pb);
        assert(xored(a, b).drop_last() =~= xored(pa, pb));
        lemma_crc_bound(0, pa);
        lemma_crc_bound(0, pb);
        lemma_step_linear(crc24_of(pa), crc24_of(pb), a.last(), b.last());
    }
}

proof fn lemma_xor_facts(a: u32, b: u32, c: u32)
    by (bit_vector)
    ensures
        a ^ 0u32 == a,
        0u32 ^ a == a,
        a ^ a == 0u32,
        a ^ b == b ^ a,
        (a ^ b) ^ c == a ^ (b ^ c),
        a ^ b == 0u32 <==> a == b,
{
}

/// Flipping a bit moves the residual by that bit's syndrome, whatever the
/// frame holds.
pub proof fn law_flip_moves_residual(f: Seq<u8>, i: int)
    requires
        0 <= i < 8 * f.len(),
    ensures
        crc24_of(flipped(f, i)) == crc24_of(f) ^ syndrome(f.len(), i),
{
    let e = one_bit(f.len(), i);
    assert forall|j: int| 0 <= j < f.len() implies flipped(f, i)[j] == #[trigger] (f[j] ^ e[j]) by {
        let x = f[j];
        assert(x ^ 0u8 == x) by (bit_vector);
    }
    assert(flipped(f, i) =~= xored(f, e));
    law_crc_is_linear(f, e);
}

/// Flipping several bits moves the residual by the exclusive or of their
/// syndromes.
pub proof fn law_flips_move_residual(f: Seq<u8>, picks: Seq<usize>)
    requires
        forall|k: int| 0 <= k < picks.len() ==> #[trigger] picks[k] < 8 * f.len(),
    ensures
        flipped_all(f, picks).len() == f.len(),
        crc24_of(flipped_all(f, picks)) == crc24_of(f) ^ syndromes_xor(f.len(), picks),
    decreases picks.len(),
{
    if picks.len() > 0 {
        let i = picks[0] as int;
        law_flip_moves_residual(f, i);
        assert forall|k: int| 0 <= k < picks.drop_first().len() implies #[trigger] picks.drop_first()[k]
            < 8 * f.len() by {
            assert(picks.drop_first()[k] == picks[k + 1]);
        }
        law_flips_move_residual(flipped(f, i), picks.drop_first());
        lemma_xor_facts(
            crc24_of(f),
            syndrome(f.len(), i),
            syndromes_xor(f.len(), picks.drop_first()),
        );
    } else {
        lemma_xor_facts(crc24_of(f), 0, 0);
    }
}

proof fn lemma_parity_flip(p0: u8, p1: u8, p2: u8, m: u8, k: u8)
    by (bit_vector)
    requires
        k < 8u8,
        m == 0x80u8 >> k,
    ensures
        ((((p0 ^ m) as u32) << 16u32) | ((p1 as u32) << 8u32) | (p2 as u32))
            == (((p0 as u32) << 16u32) | ((p1 as u32) << 8u32) | (p2 as u32)) ^ (1u32 << ((23 - k) as u32)),
        (((p0 as u32) << 16u32) | (((p1 ^ m) as u32) << 8u32) | (p2 as u32))
            == (((p0 as u32) << 16u32) | ((p1 as u32) << 8u32) | (p2 as u32)) ^ (1u32 << ((15 - k) as u32)),
        (((p0 as u32) << 16u32) | ((p1 as u32) << 8u32) | ((p2 ^ m) as u32))
            == (((p0 as u32) << 16u32) | ((p1 as u32) << 8u32) | (p2 as u32)) ^ (1u32 << ((7 - k) as u32)),
{
}

/// Flipping a bit moves the recovered address by that bit's address syndrome.
pub proof fn law_flip_moves_address(f: Seq<u8>, i: int)
    requires
        3 <= f.len() <= 0x1000,
        0 <= i < 8 * f.len(),
    ensures
        recovered_address(flipped(f, i)) == recovered_address(f) ^ address_syndrome(f.len(), i),
{
    let n = f.len() as int;
    let g = flipped(f, i);
    let (crc, par, syn) = (crc24_of(f.take(n - 3)), parity_of(f), address_syndrome(f.len(), i));
    lemma_xor_facts(crc, syn, par);
    lemma_xor_facts(crc, par, syn);
    lemma_xor_facts(syn, par, 0);
    if i < 8 * n - 24 {
        assert(g.take(n - 3) =~= flipped(f.take(n - 3), i));
        law_flip_moves_residual(f.take(n - 3), i);
    } else {
        assert(g.take(n - 3) =~= f.take(n - 3));
        let m = 0x80u8 >> ((i % 8) as u8);
        lemma_parity_flip(f[n - 3], f[n - 2], f[n - 1], m, (i % 8) as u8);
        let k = (i % 8) as u8;
        assert(i / 8 == n - 3 ==> 8 * n - 1 - i == 23 - k);
        assert(i / 8 == n - 2 ==> 8 * n - 1 - i == 15 - k);
        assert(i / 8 == n - 1 ==> 8 * n - 1 - i == 7 - k);
    }
}

proof fn lemma_shifted_injective(a: u32)
    by (bit_vector)
    requires
        a <= 0xFF_FFFFu32,
    ensures
        shifted(a) == 0u32 <==> a == 0u32,
        shifted(a) <= 0xFF_FFFFu32,
{
}

proof fn lemma_shifted8_zero(a: u32)
    requires
        a <= 0xFF_FFFFu32,
    ensures
        shifted8(a) == 0u32 <==> a == 0u32,
        shifted8(a) <= 0xFF_FFFFu32,
{
    lemma_shifted_injective(a);
    lemma_shifted_injective(shifted(a));
    lemma_shifted_injective(shifted(shifted(a)));
    lemma_shifted_injective(shifted(shifted(shifted(a))));
    lemma_shifted_injective(shifted(shifted(shifted(shifted(a)))));
    lemma_shifted_injective(shifted(shifted(shifted(shifted(shifted(a))))));
    lemma_shifted_injective(shifted(shifted(shifted(shifted(shifted(shifted(a)))))));
    lemma_shifted_injective(shifted(shifted(shifted(shifted(shifted(shifted(shifted(a))))))));
}

/// The register `r` after `e` shifts.
pub open spec fn walked(r: u32, e: nat) -> u32
    decreases e,
{
    if e == 0 {
        r
    } else {
        shifted(walked(r, (e - 1) as nat))
    }
}

proof fn lemma_walked_add(r: u32, a: nat, b: nat)
    ensures
        walked(r, a + b) == walked(walked(r, a), b),
    decreases b,
{
    if b > 0 {
        lemma_walked_add(r, a, (b - 1) as nat);
    }
}

proof fn lemma_walked_bound(r: u32, e: nat)
    requires
        r <= 0xFF_FFFFu32,
    ensures
        walked(r, e) <= 0xFF_FFFFu32,
    decreases e,
{
    if e > 0 {
        lemma_walked_bound(r, (e - 1) as nat);
        lemma_shifted_injective(walked(r, (e - 1) as nat));
    }
}

/// Different registers stay different.
proof fn lemma_walked_injective(a: u32, b: u32, e: nat)
    requires
        a <= 0xFF_FFFFu32,
        b <= 0xFF_FFFFu32,
        walked(a, e) == walked(b, e),
    ensures
        a == b,
    decreases e,
{
    if e > 0 {
        let (x, y) = (walked(a, (e - 1) as nat), walked(b, (e - 1) as nat));
        lemma_walked_bound(a, (e - 1) as nat);
        lemma_walked_bound(b, (e - 1) as nat);
        lemma_shifted(x, y);
        lemma_shifted_injective(x ^ y);
        assert((x ^ y == 0u32 <==> x == y) && shifted(x) ^ shifted(x) == 0u32) by (bit_vector);
        lemma_walked_injective(a, b, (e - 1) as nat);
    }
}

proof fn lemma_walked_one(e: nat)
    requires
        e <= 23,
    ensures
        walked(1, e) == 1u32 << (e as u32),
    decreases e,
{
    assert(1u32 << 0u32 == 1u32) by (bit_vector);
    if e > 0 {
        lemma_walked_one((e - 1) as nat);
        let k = (e - 1) as u32;
        assert(shifted(1u32 << k) == 1u32 << (k + 1)) by (bit_vector)
            requires
                k < 23,
        ;
    }
}

/// The register that starts at one, a byte's worth of shifts at a time.
proof fn lemma_walk_of_bytes()
    by (bit_vector)
    ensures
        shifted8(0x1u32) == 0x100u32,
        shifted8(0x100u32) == 0x10000u32,
        shifted8(0x10000u32) == 0xFFF409u32,
        shifted8(0xFFF409u32) == 0xE0D80u32,
        shifted8(0xE0D80u32) == 0xDD441u32,
        shifted8(0xDD441u32) == 0x2BFD53u32,
        shifted8(0x2BFD53u32) == 0x30ACEu32,
        shifted8(0x30ACEu32) == 0xF52612u32,
        shifted8(0xF52612u32) == 0xDC7AF7u32,
        shifted8(0xDC7AF7u32) == 0x7EDA22u32,
        shifted8(0x7EDA22u32) == 0xD8D449u32,
        shifted8(0xD8D449u32) == 0xD05C14u32,
        shifted8(0xD05C14u32) == 0x587178u32,
        shifted8(0x587178u32) == 0x726BD4u32,
{
}

/// In fourteen bytes' worth of shifts the register that starts at one does not
/// come back to a single low bit at a byte boundary.
proof fn lemma_walk_at_bytes(q: nat)
    requires
        1 <= q <= 14,
    ensures
        walked(1, 8 * q) > 128,
{
    lemma_walk_of_bytes();
    reveal_with_fuel(walked, 9);
    lemma_walked_add(1, 0, 8);
    lemma_walked_add(1, 8, 8);
    lemma_walked_add(1, 16, 8);
    lemma_walked_add(1, 24, 8);
    lemma_walked_add(1, 32, 8);
    lemma_walked_add(1, 40, 8);
    lemma_walked_add(1, 48, 8);
    lemma_walked_add(1, 56, 8);
    lemma_walked_add(1, 64, 8);
    lemma_walked_add(1, 72, 8);
    lemma_walked_add(1, 80, 8);
    lemma_walked_add(1, 88, 8);
    lemma_walked_add(1, 96, 8);
    lemma_walked_add(1, 104, 8);
}

/// Nor does it come back to one anywhere.
proof fn lemma_walk_returns_late(d: nat)
    requires
        1 <= d < 112,
    ensures
        walked(1, d) != 1,
{
    let (q, r) = (d / 8, d % 8);
    if r == 0 {
        lemma_walk_at_bytes(q);
    } else if walked(1, d) == 1 {
        let left = (8 - r) as nat;
        lemma_walked_add(1, d, left);
        lemma_walked_one(left);
        let k = left as u32;
        assert(1u32 << k <= 128u32) by (bit_vector)
            requires
                k <= 7,
        ;
        lemma_walk_at_bytes(q + 1);
    }
}

proof fn lemma_one_bit_prefix(n: nat, i: int, t: int)
    requires
        0 <= i < 8 * n,
        0 <= t <= n,
    ensures
        t <= i / 8 ==> crc_from(0, one_bit(n, i).take(t)) == 0,
        t > i / 8 ==> crc_from(0, one_bit(n, i).take(t)) == walked(
            1,
            (8 * t + 23 - i) as nat,
        ),
    decreases t,
{
    let f = one_bit(n, i);
    if t > 0 {
        lemma_one_bit_prefix(n, i, t - 1);
        assert(f.take(t).drop_last() =~= f.take(t - 1));
        let r = crc_from(0, f.take(t - 1));
        let b = f.take(t).last();
        assert(b == f[t - 1]);
        lemma_shifted8_zero(0);
        assert((0u8 as u32) << 16u32 == 0u32 && 0u32 ^ 0u32 == 0u32) by (bit_vector);
        if t - 1 < i / 8 {
        } else if t - 1 == i / 8 {
            let k = (i % 8) as u8;
            assert(0u32 ^ (((0x80u8 >> k) as u32) << 16u32) == 1u32 << ((23 - k) as u32)) by (bit_vector)
                requires
                    k < 8,
            ;
            lemma_walked_one((23 - k) as nat);
            lemma_walked_add(1, (23 - k) as nat, 8);
            reveal_with_fuel(walked, 9);
        } else {
            assert(r ^ 0u32 == r) by (bit_vector);
            lemma_walked_add(1, (8 * (t - 1) + 23 - i) as nat, 8);
            reveal_with_fuel(walked, 9);
        }
    }
}

/// The syndromes of a frame's bits all differ, and none is zero: a single
/// wrong bit can be told from its residual.
pub proof fn law_syndromes_are_distinct(n: nat, a: int, b: int)
    requires
        n <= 14,
        0 <= a < b < 8 * n,
    ensures
        syndrome(n, a) != syndrome(n, b),
        syndrome(n, a) != 0,
        syndrome(n, b) != 0,
{
    lemma_one_bit_prefix(n, a, n as int);
    lemma_one_bit_prefix(n, b, n as int);
    assert(one_bit(n, a).take(n as int) =~= one_bit(n, a));
    assert(one_bit(n, b).take(n as int) =~= one_bit(n, b));
    let (ea, eb) = ((8 * n + 23 - a) as nat, (8 * n + 23 - b) as nat);
    let d = (ea - eb) as nat;
    lemma_walked_add(1, d, eb);
    lemma_walked_bound(1, d);
    if walked(1, ea) == walked(1, eb) {
        lemma_walked_injective(walked(1, d), 1, eb);
        lemma_walk_returns_late(d);
    }
    lemma_walked_zero(ea);
    lemma_walked_zero(eb);
    if walked(1, ea) == 0 {
        lemma_walked_injective(1, 0, ea);
    }
    if walked(1, eb) == 0 {
        lemma_walked_injective(1, 0, eb);
    }
}

proof fn lemma_walked_zero(e: nat)
    ensures
        walked(0, e) == 0,
    decreases e,
{
    if e > 0 {
        lemma_walked_zero((e - 1) as nat);
        lemma_shifted_injective(0);
    }
}

/// A frame has residual zero exactly when its parity field is the checksum of
/// its data part.
pub proof fn law_zero_residual_is_plain_parity(f: Seq<u8>)
    requires
        f.len() >= 3,
    ensures
        crc24_of(f) == 0 <==> recovered_address(f) == 0,
        crc24_of(f) == 0 <==> parity_of(f) == crc24_of(f.take(f.len() - 3)),
{
    let n = f.len() as int;
    let (p0, p1, p2) = (f[n - 3], f[n - 2], f[n - 1]);
    let s = crc24_of(f.take(n - 3));
    lemma_crc_bound(0, f.take(n - 3));
    assert(f.drop_last() =~= f.take(n - 1));
    assert(f.take(n - 1).drop_last() =~= f.take(n - 2));
    assert(f.take(n - 2).drop_last() =~= f.take(n - 3));
    let r1 = crc_step(s, p0);
    let r2 = crc_step(r1, p1);
    assert(crc24_of(f.take(n - 2)) == r1);
    assert(crc24_of(f.take(n - 1)) == r2);
    assert(crc24_of(f) == crc_step(r2, p2));
    let (w0, w1, w2) = ((p0 as u32) << 16u32, (p1 as u32) << 8u32, p2 as u32);
    let par = parity_of(f);
    assert(w0 <= 0xFF_FFFFu32 && w1 <= 0xFFFFu32 && w2 <= 0xFFu32 && (s ^ w0) ^ w1 <= 0xFF_FFFFu32
        && s ^ w0 <= 0xFF_FFFFu32 && w2 << 8u32 <= 0xFFFFu32 && w1 << 8u32 == (p1 as u32) << 16u32
        && (w2 << 8u32) << 8u32 == (p2 as u32) << 16u32 && ((s ^ w0) ^ w1) ^ w2 == s ^ par
        && s ^ par <= 0xFF_FFFFu32) by (bit_vector)
        requires
            s <= 0xFF_FFFFu32,
            w0 == (p0 as u32) << 16u32,
            w1 == (p1 as u32) << 8u32,
            w2 == p2 as u32,
            par == (((p0 as u32) << 16u32) | ((p1 as u32) << 8u32) | (p2 as u32)),
    ;
    // Each later byte can join the register early, a byte lower.
    let x1 = (s ^ w0) ^ w1;
    lemma_shifted8(s ^ w0, w1);
    lemma_shifted8_low(w1);
    assert(r2 == shifted8(shifted8(x1)));
    lemma_shifted8_zero(x1);
    lemma_shifted8(shifted8(x1), w2 << 8u32);
    lemma_shifted8_low(w2 << 8u32);
    lemma_shifted8(x1, w2);
    lemma_shifted8_low(w2);
    let x2 = s ^ par;
    assert(crc24_of(f) == shifted8(shifted8(shifted8(x2))));
    lemma_shifted8_zero(x2);
    lemma_shifted8_zero(shifted8(x2));
    lemma_shifted8_zero(shifted8(shifted8(x2)));
    lemma_xor_facts(s, par, 0);
}

/// The syndrome of every bit of an `n` byte frame.
pub open spec fn syndrome_table(n: nat) -> Seq<u32> {
    Seq::new(8 * n, |i: int| syndrome(n, i))
}

/// The address syndrome of every bit of an `n` byte frame.
pub open spec fn address_syndrome_table(n: nat) -> Seq<u32> {
    Seq::new(8 * n, |i: int| address_syndrome(n, i))
}

/// The checksum of `n` bytes of zeros but for bit `i`.
fn one_bit_crc(n: usize, i: usize) -> (s: u32)
    requires
        i < 8 * n,
    ensures
        s == syndrome(n as nat, i as int),
{
    let mut f: Vec<u8> = vec![0u8; n];
    f.set(i / 8, 0x80u8 >> ((i % 8) as u8));
    assert(f@ =~= one_bit(n as nat, i as int));
    crc24(f.as_slice())
}

/// Syndrome of a single flipped bit at every index of an `nbits` frame.
pub fn syndromes(nbits: usize) -> (syn: Vec<u32>)
    requires
        nbits % 8 == 0,
    ensures
        syn@ == syndrome_table((nbits / 8) as nat),
{
    let mut syn: Vec<u32> = Vec::with_capacity(nbits);
    for i in 0..nbits
        invariant
            nbits % 8 == 0,
            syn@.len() == i,
            forall|k: int| 0 <= k < i ==> #[trigger] syn@[k] == syndrome((nbits / 8) as nat, k),
    {
        syn.push(one_bit_crc(nbits / 8, i));
    }
    assert(syn@ =~= syndrome_table((nbits / 8) as nat));
    syn
}

/// How the recovered address moves when bit `i` of an `nbits` address-parity
/// frame flips: by the checksum of that bit alone for data bits, by the bit
/// itself inside the parity.
pub fn address_syndromes(nbits: usize) -> (syn: Vec<u32>)
    requires
        nbits % 8 == 0,
        nbits >= 24,
    ensures
        syn@ == address_syndrome_table((nbits / 8) as nat),
{
    let data_bits: usize = nbits - 24;
    let mut syn: Vec<u32> = Vec::with_capacity(nbits);
    for i in 0..nbits
        invariant
            nbits % 8 == 0,
            nbits >= 24,
            data_bits == nbits - 24,
            syn@.len() == i,
            forall|k: int|
                0 <= k < i ==> #[trigger] syn@[k] == address_syndrome((nbits / 8) as nat, k),
    {
        assert(8 * (nbits / 8) == nbits);
        if i < data_bits {
            syn.push(one_bit_crc(data_bits / 8, i));
        } else {
            syn.push(1u32 << ((nbits - 1 - i) as u32));
        }
    }
    assert(syn@ =~= address_syndrome_table((nbits / 8) as nat));
    syn
}

proof fn lemma_three_bytes(x: u32, a: u32)
    by (bit_vector)
    requires
        x <= 0xFF_FFFFu32,
        a <= 0xFF_FFFFu32,
    ensures
        (x ^ a) <= 0xFF_FFFFu32,
        ((((((x ^ a) / 0x1_0000u32) as u8) as u32) << 16u32) | (((((x ^ a) / 0x100u32) as u8) as u32) << 8u32) | (((
        (x ^ a) % 0x100u32) as u8) as u32)) == x ^ a,
        x ^ (x ^ a) == a,
{
}

/// An aircraft is recovered from a frame that it sends: where the last three bytes are the
/// checksum of those before them combined with its address, that address comes back, and
/// the residual is zero for none but address zero.
pub proof fn law_address_is_recovered(data: Seq<u8>, a: u32)
    requires
        a <= 0xFF_FFFF,
    ensures
        ({
            let x = crc24_of(data) ^ a;
            let f = data + seq![(x / 0x1_0000) as u8, (x / 0x100) as u8, (x % 0x100) as u8];
            &&& recovered_address(f) == a
            &&& crc24_of(f) == 0 <==> a == 0
        }),
{
    let x = crc24_of(data) ^ a;
    let f = data + seq![(x / 0x1_0000) as u8, (x / 0x100) as u8, (x % 0x100) as u8];
    lemma_crc_bound(0, data);
    lemma_three_bytes(crc24_of(data), a);
    assert(f.take(f.len() - 3) =~= data);
    assert(parity_of(f) == x);
    law_zero_residual_is_plain_parity(f);
}

} // verus!
