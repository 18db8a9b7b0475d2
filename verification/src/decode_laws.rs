//! What decoding owes to a damaged frame: which repairs are made, which are not, and
//! which of several tries is kept.

use crate::crc::{
    address_syndrome, address_syndrome_table, crc24_of, flipped, flipped_all, law_crc_is_linear,
    law_flip_moves_address, law_flip_moves_residual, law_flips_move_residual, law_syndromes_are_distinct,
    law_zero_residual_is_plain_parity, recovered_address, syndrome, syndrome_table, syndromes_xor,
    xored,
};
use crate::demod::{
    Scan, State, Stats, Tries, address_field, admitted, after_decode, attempted, best_decode, better,
    decoded, entered, format_at, format_of, frame_len, gated_fine, is_checked, looked, noted, parity_decoded,
    phase_fine, refined, retried, tried, unhappy,
};
use crate::known::{
    confirmed_after, is_confirmed, is_near, leads_to, least_toward, lemma_least_toward, ones,
};
use crate::params::Params;
use crate::preamble::{Hit, fine_at, gate, grid_at, lemma_sum_bound, spikes, sum};
use crate::repair::{
    below, candidates, chosen, confidence_order, deep_fix, flips, is_unsure,
    law_repair_explains_residual, law_single_error_is_repaired, lemma_order_facts,
    lemma_order_is_by_confidence, lemma_search_finds, mended_by, repair_of, soft_window,
};
use crate::slicer::{frame_bytes, frame_confidence};
use vstd::prelude::*;
use vstd::set_lib::{lemma_int_range, lemma_len_subset, lemma_set_subset_finite, set_int_range};

verus! {

/// The bits that are less confident than `c`.
pub open spec fn less_sure(conf: Seq<u32>, c: u32) -> Set<int> {
    Set::new(|j: int| 0 <= j < conf.len() && conf[j] < c)
}

/// The bits that are no more confident than `c`.
pub open spec fn as_unsure(conf: Seq<u32>, c: u32) -> Set<int> {
    Set::new(|j: int| 0 <= j < conf.len() && conf[j] <= c)
}

/// How many of the least confident bits a repair of `n` bits may choose from.
pub open spec fn reach(p: Params, n: nat) -> usize {
    if n == 1 {
        p.soft1
    } else if n == 2 {
        p.soft2
    } else if n == 3 {
        p.soft3
    } else if n == 4 {
        p.soft4
    } else {
        p.soft5
    }
}

proof fn lemma_finite(conf: Seq<u32>, c: u32)
    ensures
        less_sure(conf, c).finite(),
        as_unsure(conf, c).finite(),
{
    lemma_int_range(0, conf.len() as int);
    assert(less_sure(conf, c).subset_of(set_int_range(0, conf.len() as int)));
    assert(as_unsure(conf, c).subset_of(set_int_range(0, conf.len() as int)));
    lemma_set_subset_finite(set_int_range(0, conf.len() as int), less_sure(conf, c));
    lemma_set_subset_finite(set_int_range(0, conf.len() as int), as_unsure(conf, c));
}

/// A bit stands after the less confident ones in the order, and before more than all
/// that are no more confident.
pub proof fn lemma_place(conf: Seq<u32>, k: int)
    requires
        conf.len() <= usize::MAX,
        0 <= k < conf.len(),
    ensures
        less_sure(conf, conf[confidence_order(conf)[k] as int]).len() <= k,
        k < as_unsure(conf, conf[confidence_order(conf)[k] as int]).len(),
{
    let order = confidence_order(conf);
    let c = conf[order[k] as int];
    lemma_order_facts(conf);
    lemma_finite(conf, c);
    let places = Seq::new(conf.len(), |j: int| order[j] as int);
    assert(places.no_duplicates());
    let upto = places.take(k + 1);
    let before = places.take(k);
    assert(upto.no_duplicates() && before.no_duplicates());
    upto.unique_seq_to_set();
    before.unique_seq_to_set();
    assert(upto.to_set().subset_of(as_unsure(conf, c))) by {
        assert forall|x: int| upto.to_set().contains(x) implies as_unsure(conf, c).contains(x) by {
            let j = upto.index_of(x);
            if j < k {
                lemma_order_is_by_confidence(conf, j, k);
            }
        }
    }
    lemma_len_subset(upto.to_set(), as_unsure(conf, c));
    assert(less_sure(conf, c).subset_of(before.to_set())) by {
        assert forall|x: int| less_sure(conf, c).contains(x) implies before.to_set().contains(x) by {
            assert(order.contains(x as usize));
            let j = order.index_of(x as usize);
            if j > k {
                lemma_order_is_by_confidence(conf, k, j);
            }
            assert(before[j] == x);
        }
    }
    before.lemma_cardinality_of_set();
    lemma_len_subset(less_sure(conf, c), before.to_set());
}

proof fn lemma_below_counts(conf: Seq<u32>, c: u32)
    ensures
        below(conf, c) == less_sure(conf, c).len(),
    decreases conf.len(),
{
    lemma_finite(conf, c);
    if conf.len() == 0 {
        assert(less_sure(conf, c) =~= Set::<int>::empty());
    } else {
        let rest = conf.drop_last();
        let n = conf.len() - 1;
        lemma_below_counts(rest, c);
        lemma_finite(rest, c);
        if conf.last() < c {
            assert(less_sure(conf, c) =~= less_sure(rest, c).insert(n));
        } else {
            assert(less_sure(conf, c) =~= less_sure(rest, c));
        }
    }
}

/// A frame that some flips would mend is mended: where `n` of its bits, each among the
/// least confident that a repair of `n` may choose from, explain the residual, repair
/// gives a frame with the wanted residual, at no more than `n` flips.
pub proof fn law_explained_frame_is_repaired(
    p: Params,
    f: Seq<u8>,
    conf: Seq<u32>,
    target: u32,
    picks: Seq<usize>,
)
    requires
        f.len() <= 14,
        conf.len() == 8 * f.len(),
        1 <= picks.len() <= 5,
        picks.len() <= p.max_fix,
        picks.no_duplicates(),
        forall|k: int|
            0 <= k < picks.len() ==> #[trigger] picks[k] < 8 * f.len() && as_unsure(
                conf,
                conf[picks[k] as int],
            ).len() <= reach(p, picks.len()),
        crc24_of(flipped_all(f, picks)) == target,
    ensures
        repair_of(p, f, conf, target, true) matches Some((g, n)) && crc24_of(g) == target && g.len() == f.len()
            && n <= picks.len(),
{
    reveal(repair_of);
    let r = crc24_of(f) ^ target;
    let n = picks.len();
    law_flips_move_residual(f, picks);
    law_repair_explains_residual(p, f, conf, target, true);
    lemma_cancel(crc24_of(f), syndromes_xor(f.len(), picks));
    if n == 1 {
        let i = picks[0] as int;
        assert(picks.drop_first() =~= Seq::<usize>::empty());
        reveal_with_fuel(syndromes_xor, 2);
        lemma_cancel(syndrome(f.len(), i), 0);
        let syn = syndrome_table(f.len());
        syn.index_of_first_ensures(r);
        assert(syn[i] == r);
        assert(syn.contains(r));
        let j = syn.index_of_first(r)->0;
        if j < i {
            law_syndromes_are_distinct(f.len(), j, i);
        }
        lemma_below_counts(conf, conf[i]);
        lemma_finite(conf, conf[i]);
        assert(less_sure(conf, conf[i]).subset_of(as_unsure(conf, conf[i]).remove(i)));
        lemma_len_subset(less_sure(conf, conf[i]), as_unsure(conf, conf[i]).remove(i));
        assert(as_unsure(conf, conf[i]).contains(i));
    } else {
        let order = confidence_order(conf);
        let cand = candidates(p, conf, n as int);
        lemma_order_facts(conf);
        let at = Seq::new(n, |k: int| order.index_of(picks[k]));
        assert forall|k: int| 0 <= k < n implies 0 <= #[trigger] at[k] < cand.len() && cand[at[k]] == picks[k] by {
            assert(order.contains(picks[k]));
            lemma_place(conf, at[k]);
        }
        assert(at.no_duplicates()) by {
            assert forall|x: int, y: int| 0 <= x < n && 0 <= y < n && x != y implies at[x] != at[y] by {
                assert(cand[at[x]] == picks[x] && cand[at[y]] == picks[y]);
            }
        }
        assert(chosen(cand, at) =~= picks);
        assert forall|k: int| 0 <= k < cand.len() implies #[trigger] cand[k] < 8 * f.len() by {
            assert(cand[k] == order[k]);
        }
        lemma_search_finds(f.len(), cand, r, at, 0);
        assert(deep_fix(f, conf, r, soft_window(p, n as int) as int, n) is Some);
    }
}

proof fn lemma_cancel(a: u32, b: u32)
    by (bit_vector)
    ensures
        a ^ (a ^ b) == b,
        (a ^ b) ^ a == b,
        a ^ 0u32 == a,
        a ^ a == 0u32,
        a ^ b == b ^ a,
{
}

/// A repair flips exactly the bits it reports, each once, and each among the least
/// confident: fewer than it may choose from are less confident.
pub proof fn law_repair_flips_the_least_confident(p: Params, f: Seq<u8>, conf: Seq<u32>, target: u32, deep: bool)
    requires
        f.len() <= 14,
        conf.len() == 8 * f.len(),
    ensures
        repair_of(p, f, conf, target, deep) matches Some((g, n)) ==> exists|picks: Seq<usize>|
            #![trigger flipped_all(f, picks)]
            {
                &&& picks.len() == n
                &&& picks.no_duplicates()
                &&& g == flipped_all(f, picks)
                &&& forall|k: int|
                    0 <= k < picks.len() ==> #[trigger] picks[k] < 8 * f.len() && less_sure(
                        conf,
                        conf[picks[k] as int],
                    ).len() < reach(p, picks.len())
            },
{
    law_repair_explains_residual(p, f, conf, target, deep);
    if let Some((g, n)) = repair_of(p, f, conf, target, deep) {
        let picks = choose|picks: Seq<usize>| picks.len() == n && #[trigger] mended_by(p, f, conf, g, picks);
        let order = confidence_order(conf);
        lemma_order_facts(conf);
        assert forall|k: int| 0 <= k < picks.len() implies #[trigger] picks[k] < 8 * f.len() && less_sure(
            conf,
            conf[picks[k] as int],
        ).len() < reach(p, picks.len()) by {
            let i = picks[k];
            assert(is_unsure(p, conf, n as int, i));
            if n == 1 {
                lemma_below_counts(conf, conf[i as int]);
            } else {
                let cand = candidates(p, conf, n as int);
                let j = cand.index_of(i);
                assert(order[j] == i);
                lemma_place(conf, j);
            }
        }
        assert(flipped_all(f, picks) == g);
    }
}

/// Decoding never turns down a squitter that a permitted repair explains, where the
/// address as it was sliced is within `near_bits` flips of an aircraft that is confirmed:
/// it gives a frame whose checksum comes out, at no more flips than that repair.
pub proof fn law_near_squitter_is_repaired(
    p: Params,
    known: Map<u32, u64>,
    now: u64,
    m: Seq<u16>,
    st: int,
    picks: Seq<usize>,
    a: u32,
)
    requires
        format_at(p, m, st) == 17 || format_at(p, m, st) == 18,
        1 <= picks.len() <= 5,
        picks.len() <= p.max_fix,
        picks.no_duplicates(),
        forall|k: int|
            0 <= k < picks.len() ==> #[trigger] picks[k] < 112 && as_unsure(
                frame_confidence(p, m, st, 14),
                frame_confidence(p, m, st, 14)[picks[k] as int],
            ).len() <= reach(p, picks.len()),
        crc24_of(flipped_all(frame_bytes(p, m, st, 14), picks)) == 0,
        known.contains_key(a),
        now - known[a] < 144_000_000,
        ones(a ^ address_field(frame_bytes(p, m, st, 14))) <= p.near_bits,
    ensures
        decoded(p, known, now, m, st) matches Some((g, n)) && g.len() == 14 && crc24_of(g) == 0 && n
            <= picks.len(),
{
    reveal(decoded);
    assert(is_confirmed(known, a, now));
    law_explained_frame_is_repaired(p, frame_bytes(p, m, st, 14), frame_confidence(p, m, st, 14), 0, picks);
}

/// The bits of `picks` that lie in the address field.
pub open spec fn in_address(picks: Seq<usize>) -> nat
    decreases picks.len(),
{
    if picks.len() == 0 {
        0
    } else {
        in_address(picks.drop_first()) + if 8 <= picks[0] < 32 { 1nat } else { 0nat }
    }
}

proof fn lemma_bits_of_xor(x: u32, y: u32)
    by (bit_vector)
    ensures
        (x ^ y) / 2u32 == (x / 2u32) ^ (y / 2u32),
        (x ^ y) % 2u32 <= x % 2u32 + y % 2u32,
{
}

proof fn lemma_ones_add(x: u32, y: u32)
    ensures
        ones(x ^ y) <= ones(x) + ones(y),
    decreases x + y,
{
    lemma_bits_of_xor(x, y);
    if x == 0 && y == 0 {
        lemma_cancel(0, 0);
    } else {
        lemma_ones_add(x / 2, y / 2);
        assert(x == 0 ==> ones(x) == ones(x / 2));
        assert(y == 0 ==> ones(y) == ones(y / 2));
    }
}

proof fn lemma_one_of(k: u32)
    requires
        k < 24,
    ensures
        ones(1u32 << k) == 1,
    decreases k,
{
    if k == 0 {
        assert(1u32 << 0u32 == 1u32) by (bit_vector);
        reveal_with_fuel(ones, 3);
    } else {
        lemma_one_of((k - 1) as u32);
        assert(0 < k < 24 ==> (1u32 << k) / 2 == 1u32 << ((k - 1) as u32) && (1u32 << k) % 2 == 0 && (1u32 << k)
            != 0) by (bit_vector);
    }
}

proof fn lemma_address_flip(a: u8, b: u8, c: u8, m: u8, k: u8)
    by (bit_vector)
    requires
        k < 8u8,
        m == 0x80u8 >> k,
    ensures
        ((((a ^ m) as u32) << 16u32) | ((b as u32) << 8u32) | (c as u32)) ^ (((a as u32) << 16u32) | ((b as u32)
            << 8u32) | (c as u32)) == (1u32 << ((23 - k) as u32)),
        (((a as u32) << 16u32) | (((b ^ m) as u32) << 8u32) | (c as u32)) ^ (((a as u32) << 16u32) | ((b as u32)
            << 8u32) | (c as u32)) == (1u32 << ((15 - k) as u32)),
        (((a as u32) << 16u32) | ((b as u32) << 8u32) | ((c ^ m) as u32)) ^ (((a as u32) << 16u32) | ((b as u32)
            << 8u32) | (c as u32)) == (1u32 << ((7 - k) as u32)),
{
}

proof fn lemma_chain(a: u32, b: u32, c: u32)
    by (bit_vector)
    ensures
        (a ^ b) ^ (b ^ c) == a ^ c,
        a ^ b == b ^ a,
        a ^ a == 0u32,
{
}

/// Flips in the address field move it by no more bits than there are of them; others
/// leave it alone.
proof fn lemma_address_moves(g: Seq<u8>, picks: Seq<usize>)
    requires
        g.len() == 14,
        forall|k: int| 0 <= k < picks.len() ==> #[trigger] picks[k] < 112,
    ensures
        ones(address_field(g) ^ address_field(flipped_all(g, picks))) <= in_address(picks),
    decreases picks.len(),
{
    if picks.len() == 0 {
        lemma_chain(address_field(g), 0, 0);
    } else {
        let i = picks[0] as int;
        let h = flipped(g, i);
        let rest = picks.drop_first();
        assert forall|k: int| 0 <= k < rest.len() implies #[trigger] rest[k] < 112 by {
            assert(rest[k] == picks[k + 1]);
        }
        lemma_address_moves(h, rest);
        let k = (i % 8) as u8;
        lemma_address_flip(g[1], g[2], g[3], 0x80u8 >> k, k);
        let (x, y, z) = (address_field(g), address_field(h), address_field(flipped_all(h, rest)));
        lemma_chain(y, x, 0);
        lemma_chain(x, y, z);
        lemma_ones_add(x ^ y, y ^ z);
        lemma_chain(x, x, 0);
        if 8 <= i < 32 {
            lemma_one_of((31 - i) as u32);
            assert(i / 8 == 1 ==> 31 - i == 23 - k);
            assert(i / 8 == 2 ==> 31 - i == 15 - k);
            assert(i / 8 == 3 ==> 31 - i == 7 - k);
        } else {
            assert(h[1] == g[1] && h[2] == g[2] && h[3] == g[3]);
        }
    }
}

/// A squitter of a confirmed aircraft that was received with a few wrong bits is
/// repaired, wherever they are: at most as many as `max_fix`, each among the least
/// confident that so many flips may choose from, and at most `near_bits` of them in the
/// address.
pub proof fn law_damaged_squitter_is_repaired(
    p: Params,
    known: Map<u32, u64>,
    now: u64,
    m: Seq<u16>,
    st: int,
    sent: Seq<u8>,
    wrong: Seq<usize>,
)
    requires
        format_at(p, m, st) == 17 || format_at(p, m, st) == 18,
        sent.len() == 14,
        crc24_of(sent) == 0,
        known.contains_key(address_field(sent)),
        now - known[address_field(sent)] < 144_000_000,
        1 <= wrong.len() <= 5,
        wrong.len() <= p.max_fix,
        wrong.no_duplicates(),
        forall|k: int|
            0 <= k < wrong.len() ==> #[trigger] wrong[k] < 112 && as_unsure(
                frame_confidence(p, m, st, 14),
                frame_confidence(p, m, st, 14)[wrong[k] as int],
            ).len() <= reach(p, wrong.len()),
        in_address(wrong) <= p.near_bits,
        frame_bytes(p, m, st, 14) == flipped_all(sent, wrong),
    ensures
        decoded(p, known, now, m, st) matches Some((g, n)) && g.len() == 14 && crc24_of(g) == 0 && n
            <= wrong.len(),
{
    let f = frame_bytes(p, m, st, 14);
    law_flips_move_residual(sent, wrong);
    law_flips_move_residual(f, wrong);
    lemma_cancel(0, syndromes_xor(14, wrong));
    lemma_chain(syndromes_xor(14, wrong), 0, 0);
    lemma_address_moves(sent, wrong);
    law_near_squitter_is_repaired(p, known, now, m, st, wrong, address_field(sent));
}

/// Deep repair is for aircraft near a confirmed one: where none is confirmed within
/// `near_bits` flips of the address as it was sliced, no more than one bit is flipped.
pub proof fn law_far_squitter_has_one_flip(p: Params, known: Map<u32, u64>, now: u64, m: Seq<u16>, st: int)
    requires
        format_at(p, m, st) == 17 || format_at(p, m, st) == 18,
        forall|a: u32|
            #![trigger known.contains_key(a)]
            known.contains_key(a) && now - known[a] < 144_000_000 ==> ones(
                a ^ address_field(frame_bytes(p, m, st, 14)),
            ) > p.near_bits,
    ensures
        decoded(p, known, now, m, st) matches Some((g, n)) ==> n <= 1,
{
    reveal(decoded);
    let f = frame_bytes(p, m, st, 14);
    assert(!is_near(known, address_field(f), now, p.near_bits)) by {
        if is_near(known, address_field(f), now, p.near_bits) {
            let k = choose|k: u32| #[trigger]
                is_confirmed(known, k, now) && ones(k ^ address_field(f)) <= p.near_bits;
            assert(known.contains_key(k));
        }
    }
    law_repair_explains_residual(p, f, frame_confidence(p, m, st, 14), 0, false);
}

/// A squitter with one wrong bit among the `soft1` least confident comes back as it was
/// sent, whether its aircraft was heard of or not.
pub proof fn law_single_wrong_bit_is_repaired(
    p: Params,
    known: Map<u32, u64>,
    now: u64,
    m: Seq<u16>,
    st: int,
    sent: Seq<u8>,
    i: int,
)
    requires
        format_at(p, m, st) == 17 || format_at(p, m, st) == 18,
        sent.len() == 14,
        crc24_of(sent) == 0,
        p.max_fix >= 1,
        0 <= i < 112,
        frame_bytes(p, m, st, 14) == flipped(sent, i),
        less_sure(frame_confidence(p, m, st, 14), frame_confidence(p, m, st, 14)[i]).len() < p.soft1,
    ensures
        decoded(p, known, now, m, st) == Some((sent, 1u8)),
{
    reveal(decoded);
    let conf = frame_confidence(p, m, st, 14);
    lemma_below_counts(conf, conf[i]);
    law_single_error_is_repaired(
        p,
        sent,
        i,
        conf,
        0,
        is_near(known, address_field(frame_bytes(p, m, st, 14)), now, p.near_bits),
    );
}

/// No two bits of a frame move the recovered address alike.
pub proof fn law_address_syndromes_are_distinct(n: nat, i: int, j: int)
    requires
        3 <= n <= 14,
        0 <= i < j < 8 * n,
    ensures
        address_syndrome(n, i) != address_syndrome(n, j),
{
    let zeros = Seq::new(n, |k: int| 0u8);
    let one = flipped(zeros, i);
    let two = flipped(one, j);
    law_flip_moves_address(zeros, i);
    law_flip_moves_address(one, j);
    law_flip_moves_residual(zeros, i);
    law_flip_moves_residual(one, j);
    lemma_zeros(n);
    law_zero_residual_is_plain_parity(zeros);
    law_zero_residual_is_plain_parity(two);
    law_syndromes_are_distinct(n, i, j);
    let (a, b) = (address_syndrome(n, i), address_syndrome(n, j));
    let (s, t) = (syndrome(n, i), syndrome(n, j));
    lemma_cancel(0, a);
    lemma_cancel(0, s);
    lemma_cancel(a, b);
    lemma_cancel(s, t);
    if a == b {
        lemma_chain(a, 0, 0);
        lemma_cancel(a, 0);
        assert(crc24_of(two) == 0);
        lemma_differ(s, t);
    }
}

proof fn lemma_differ(a: u32, b: u32)
    by (bit_vector)
    ensures
        a ^ b == 0u32 <==> a == b,
        0u32 ^ a == a,
{
}

proof fn lemma_zeros(n: nat)
    ensures
        crc24_of(Seq::new(n, |k: int| 0u8)) == 0,
    decreases n,
{
    let z = Seq::new(n, |k: int| 0u8);
    law_crc_is_linear(z, z);
    assert(xored(z, z) =~= z) by {
        lemma_byte(0);
    }
    lemma_cancel(crc24_of(z), 0);
}

proof fn lemma_byte(x: u8)
    by (bit_vector)
    ensures
        x ^ x == 0u8,
{
}

/// A reply whose address is in its parity is accepted as received where it names a
/// confirmed aircraft, and otherwise where one flip of a bit among the `ap_fix` least
/// confident makes it name one; it is then changed in one such bit, and names a
/// confirmed aircraft.
pub proof fn law_reply_of_a_confirmed_aircraft_is_read(
    p: Params,
    known: Map<u32, u64>,
    now: u64,
    f: Seq<u8>,
    conf: Seq<u32>,
    i: int,
)
    requires
        f.len() == 7 || f.len() == 14,
        conf.len() == 8 * f.len(),
        0 <= i < 8 * f.len(),
    ensures
        is_confirmed(known, recovered_address(f), now) ==> parity_decoded(p, known, now, f, conf) == Some(
            (f, 0u8),
        ),
        is_confirmed(known, recovered_address(flipped(f, i)), now) && less_sure(conf, conf[i]).len() < p.ap_fix
            ==> parity_decoded(p, known, now, f, conf) is Some,
        parity_decoded(p, known, now, f, conf) matches Some((g, n)) ==> {
            &&& is_confirmed(known, recovered_address(g), now)
            &&& n == 0 ==> g == f
            &&& n != 0 ==> n == 1 && exists|j: int|
                0 <= j < 8 * f.len() && g == #[trigger] flipped(f, j) && less_sure(conf, conf[j]).len() < p.ap_fix
        },
{
    let a = recovered_address(f);
    let syn = address_syndrome_table(f.len());
    lemma_least_toward(known, a, now, syn, conf, p.ap_fix);
    if let Some(k) = least_toward(known, a, now, syn, conf, p.ap_fix) {
        syn.index_of_first_ensures(k ^ a);
        let j = syn.index_of_first(k ^ a)->0;
        law_flip_moves_address(f, j);
        lemma_cancel(a, k);
        lemma_cancel(k, a);
        lemma_below_counts(conf, conf[j]);
        assert(recovered_address(flipped(f, j)) == k);
    }
    let k = recovered_address(flipped(f, i));
    if is_confirmed(known, k, now) && less_sure(conf, conf[i]).len() < p.ap_fix {
        law_flip_moves_address(f, i);
        lemma_cancel(a, syn[i]);
        assert(k ^ a == syn[i]);
        syn.index_of_first_ensures(k ^ a);
        assert(syn.contains(syn[i]));
        let j = syn.index_of_first(k ^ a)->0;
        if j < i {
            law_address_syndromes_are_distinct(f.len(), j, i);
        }
        lemma_below_counts(conf, conf[i]);
        assert(leads_to(known, a, now, syn, conf, p.ap_fix, k));
    }
}

/// Decoding goes by the format: squitters are repaired, replies go by the aircraft that
/// their parity names, an all-call reply passes where its residual is below 80, marked
/// where it is not zero, and other formats give nothing. A long format is sliced as 14
/// bytes and a short one as 7.
pub proof fn law_decoding_goes_by_format(p: Params, known: Map<u32, u64>, now: u64, m: Seq<u16>, st: int)
    ensures
        ({
            let df = format_at(p, m, st);
            let (short, long) = (frame_bytes(p, m, st, 7), frame_bytes(p, m, st, 14));
            let d = decoded(p, known, now, m, st);
            &&& df == 11 && crc24_of(short) == 0 ==> d == Some((short, 0u8))
            &&& df == 11 && 0 < crc24_of(short) < 80 ==> d == Some((short, 255u8))
            &&& df == 11 && crc24_of(short) >= 80 ==> d is None
            &&& (df == 17 || df == 18) && crc24_of(long) == 0 ==> d == Some((long, 0u8))
            &&& df == 0 || df == 4 || df == 5 ==> d == parity_decoded(
                p,
                known,
                now,
                short,
                frame_confidence(p, m, st, 7),
            )
            &&& df == 16 || df == 20 || df == 21 ==> d == parity_decoded(
                p,
                known,
                now,
                long,
                frame_confidence(p, m, st, 14),
            )
            &&& df != 0 && df != 4 && df != 5 && df != 11 && !(16 <= df <= 18) && df != 20 && df != 21 ==> d is None
        }),
{
    reveal(decoded);
    reveal(repair_of);
    lemma_cancel(0, 0);
}

/// A confirmation counts for 60 s, of 2,400,000 samples each, and no longer; and it
/// counts for its aircraft alone.
pub proof fn law_confirmation_counts_for_a_minute(known: Map<u32, u64>, a: u32, now: u64, b: u32, later: u64)
    requires
        now <= later,
    ensures
        is_confirmed(confirmed_after(known, a, now), a, later) <==> later - now < 60 * 2_400_000,
        b != a ==> (is_confirmed(confirmed_after(known, a, now), b, later) <==> known.contains_key(b) && later
            - known[b] < 60 * 2_400_000),
{
}

/// The tries so far hold what was decoded at the start they settled on, and count its
/// repairs.
spec fn is_account(t: Tries, p: Params, s: State, m: Seq<u16>, start0: int) -> bool {
    &&& t.s.known == s.known
    &&& t.s.now == s.now
    &&& t.best == decoded(p, s.known, s.now, m, t.start)
    &&& t.fixed == match t.best {
        Some((_, n)) => n as int,
        None => 255,
    }
    &&& t.done ==> t.fixed == 0
    &&& t.start == start0 || exists|k: int|
        0 <= k < p.retry_offsets@.len() && t.start == start0 + #[trigger] p.retry_offsets@[k]
    &&& t.start == start0 || t.fixed < match decoded(p, s.known, s.now, m, start0) {
        Some((_, n)) => n as int,
        None => 255,
    }
}

proof fn lemma_tried(t: Tries, p: Params, s: State, m: Seq<u16>, start0: int, k: int)
    requires
        is_account(t, p, s, m, start0),
        0 <= k < p.retry_offsets@.len(),
    ensures
        ({
            let u = tried(t, p, m, start0, p.retry_offsets@[k] as int);
            &&& is_account(u, p, s, m, start0)
            &&& u.fixed <= t.fixed
            &&& t.best is Some ==> u.best is Some
            &&& start0 + p.retry_offsets@[k] >= 0 ==> (decoded(
                p,
                s.known,
                s.now,
                m,
                start0 + p.retry_offsets@[k],
            ) matches Some((f, n)) ==> is_checked(format_of(f)) && n < 255 ==> u.fixed <= n)
        }),
{
    reveal(tried);
    reveal(after_decode);
}

proof fn lemma_retried(t: Tries, p: Params, s: State, m: Seq<u16>, start0: int, from: int, k: int)
    requires
        is_account(t, p, s, m, start0),
        0 <= from,
    ensures
        ({
            let u = retried(t, p, m, start0, from);
            &&& is_account(u, p, s, m, start0)
            &&& u.fixed <= t.fixed
            &&& t.best is Some ==> u.best is Some
            &&& from <= k < p.retry_offsets@.len() && start0 + p.retry_offsets@[k] >= 0 ==> (decoded(
                p,
                s.known,
                s.now,
                m,
                start0 + p.retry_offsets@[k],
            ) matches Some((f, n)) ==> is_checked(format_of(f)) && n < 255 ==> u.fixed <= n)
        }),
    decreases p.retry_offsets@.len() - from,
{
    if from < p.retry_offsets@.len() {
        lemma_tried(t, p, s, m, start0, from);
        lemma_retried(tried(t, p, m, start0, p.retry_offsets@[from] as int), p, s, m, start0, from + 1, k);
    }
}

/// What a candidate comes to is what was decoded at the start it settles on: that of its
/// preamble, or one of the offsets from it that takes fewer repairs.
pub proof fn law_candidate_is_what_was_decoded(s: State, p: Params, m: Seq<u16>, start0: int)
    ensures
        ({
            let t = best_decode(s, p, m, start0);
            &&& t.best == decoded(p, s.known, s.now, m, t.start)
            &&& t.start == start0 || exists|k: int|
                0 <= k < p.retry_offsets@.len() && t.start == start0 + #[trigger] p.retry_offsets@[k]
            &&& decoded(p, s.known, s.now, m, start0) matches Some((f, n)) ==> (t.best matches Some((g, j)) && j
                <= n)
            &&& decoded(p, s.known, s.now, m, start0) matches Some((f, n)) ==> (t.best matches Some((g, j)) && j
                == n ==> t.start == start0)
        }),
{
    lemma_candidate(s, p, m, start0, 0);
    reveal(best_decode);
}

proof fn lemma_candidate(s: State, p: Params, m: Seq<u16>, start0: int, k: int)
    ensures
        ({
            let t = best_decode(s, p, m, start0);
            let d = decoded(p, s.known, s.now, m, start0);
            &&& is_account(t, p, s, m, start0)
            &&& d is Some ==> t.best is Some
            &&& t.fixed <= match d {
                Some((_, n)) => n as int,
                None => 255,
            }
            &&& unhappy(after_decode(s, p, m, start0), d) && 0 <= k < p.retry_offsets@.len() && start0
                + p.retry_offsets@[k] >= 0 ==> (decoded(p, s.known, s.now, m, start0 + p.retry_offsets@[k])
                matches Some((f, n)) ==> is_checked(format_of(f)) && n < 255 ==> t.fixed <= n)
        }),
{
    reveal(best_decode);
    let d = decoded(p, s.known, s.now, m, start0);
    let s1 = after_decode(s, p, m, start0);
    assert(s1.known == s.known && s1.now == s.now) by {
        reveal(after_decode);
    }
    let t = Tries {
        s: s1,
        best: d,
        start: start0,
        fixed: match d {
            Some((_, n)) => n as int,
            None => 255,
        },
        done: false,
    };
    assert(is_account(t, p, s, m, start0));
    if unhappy(s1, d) && p.retry_offsets@.len() > 0 {
        let s2 = State {
            stats: Stats { retries: s1.stats.retries.wrapping_add(1), ..s1.stats },
            ..s1
        };
        let t2 = Tries { s: s2, ..t };
        assert(is_account(t2, p, s, m, start0));
        lemma_retried(t2, p, s, m, start0, 0, k);
    }
}

/// A checked frame that fails or needs repair at its preamble's timing, and whose address
/// as sliced there is within `near_bits` flips of a confirmed aircraft, is tried at every
/// offset: what it comes to takes no more repairs than at any of them.
pub proof fn law_best_timing_is_kept(
    s: State,
    p: Params,
    m: Seq<u16>,
    start0: int,
    a: u32,
    k: int,
    f: Seq<u8>,
    n: u8,
)
    requires
        ({
            let df = format_at(p, m, start0);
            let sliced = frame_bytes(p, m, start0, frame_len(df));
            &&& df == 11 || df == 17 || df == 18
            &&& is_confirmed(s.known, a, s.now)
            &&& ones(a ^ address_field(sliced)) <= p.near_bits
        }),
        decoded(p, s.known, s.now, m, start0) matches Some((g, j)) ==> j > 0 && is_checked(format_of(g)),
        0 <= k < p.retry_offsets@.len(),
        start0 + p.retry_offsets@[k] >= 0,
        decoded(p, s.known, s.now, m, start0 + p.retry_offsets@[k]) == Some((f, n)),
        is_checked(format_of(f)),
        n < 255,
    ensures
        best_decode(s, p, m, start0).best matches Some((g, j)) && j <= n,
{
    lemma_candidate(s, p, m, start0, k);
    reveal(after_decode);
}

/// The preamble `r` starts at `s0` or a fifth of a sample either way, two with a span of
/// two, and none of these stands out more.
pub open spec fn is_best_around(p: Params, m: Seq<u16>, s0: u64, r: Hit) -> bool {
    &&& forall|d: int|
        -2 <= d <= 2 && d != 0 && (p.phase_span >= 2 || -1 <= d <= 1) && s0 + d >= 0 ==> (#[trigger] grid_at(
            m,
            s0 + d,
            p.preamble_ratio,
        ) matches Some(x) ==> r.score() >= x.score())
    &&& r.start == s0 || exists|d: int|
        -2 <= d <= 2 && (p.phase_span >= 2 || -1 <= d <= 1) && s0 + d >= 0 && #[trigger] grid_at(
            m,
            s0 + d,
            p.preamble_ratio,
        ) == Some(r)
}

/// A preamble is taken where it stands out most, and first found among equals: no less than
/// where it was found, than at either of the next two samples that pass the tests, and than at the fifths of a
/// sample around the best of these, one either way or, with a span of two, two.
pub proof fn law_preamble_is_taken_at_its_best(p: Params, m: Seq<u16>, i: int, block_end: int, h: Hit, n: int)
    requires
        1 <= n <= 2,
    ensures
        ({
            let r = refined(p, m, i, block_end, h);
            let next = |k: int|
                if i + k < block_end && gate(m, i + k, p.precheck_ratio) {
                    fine_at(m, i + k, p.preamble_ratio, p.pulse_uniformity)
                } else {
                    None
                };
            &&& r.score() >= h.score()
            &&& r.score() == h.score() ==> r == h
            &&& next(n) matches Some(x) ==> r.score() >= x.score()
            &&& exists|s0: u64|
                #[trigger] is_best_around(p, m, s0, r) && (s0 == h.start || (next(1) matches Some(x) && x.start
                    == s0) || (next(2) matches Some(x) && x.start == s0))
        }),
{
    reveal(refined);
    let h1 = better(h, gated_fine(p, m, i + 1, block_end));
    let h2 = better(h1, gated_fine(p, m, i + 2, block_end));
    let s0 = h2.start;
    let r = refined(p, m, i, block_end, h);
    assert forall|d: int|
        -2 <= d <= 2 && d != 0 && (p.phase_span >= 2 || -1 <= d <= 1) && s0 + d >= 0 implies (#[trigger] grid_at(
        m,
        s0 + d,
        p.preamble_ratio,
    ) matches Some(x) ==> r.score() >= x.score()) by {
        assert(phase_fine(p, m, s0, d) == grid_at(m, s0 + d, p.preamble_ratio));
        assert(d == -2 || d == -1 || d == 1 || d == 2);
    }
    if r != h2 {
        let d = if phase_fine(p, m, s0, -1) == Some(r) {
            -1int
        } else if phase_fine(p, m, s0, 1) == Some(r) {
            1
        } else if phase_fine(p, m, s0, -2) == Some(r) {
            -2
        } else {
            2
        };
        assert(grid_at(m, s0 + d, p.preamble_ratio) == Some(r));
    }
    assert(is_best_around(p, m, s0, r));
}

proof fn lemma_retries_count_nothing_else(t: Tries, p: Params, m: Seq<u16>, start0: int, k: int)
    ensures
        ({
            let (a, b) = (t.s.stats, retried(t, p, m, start0, k).s.stats);
            a.decodes == b.decodes && a.crc_ok == b.crc_ok && a.frames == b.frames
        }),
    decreases p.retry_offsets@.len() - k,
{
    if 0 <= k < p.retry_offsets@.len() {
        reveal(tried);
        reveal(after_decode);
        lemma_retries_count_nothing_else(
            tried(t, p, m, start0, p.retry_offsets@[k] as int),
            p,
            m,
            start0,
            k + 1,
        );
    }
}

/// What becomes of a candidate: it counts as one decode, and as a frame where one is
/// emitted. That frame was decoded at the preamble's timing or at one of the offsets from
/// it, with the preamble's levels, starts where it was decoded, and the scan goes on where
/// it ends. Where none is emitted the scan goes on at the next sample.
pub proof fn law_candidate_is_accounted_for(s: State, p: Params, m: Seq<u16>, base: int, hit: Hit, i: int)
    ensures
        ({
            let a = attempted(s, p, m, base, hit, i);
            &&& a.s.stats.decodes == s.stats.decodes.wrapping_add(1)
            &&& a.frame is None ==> a.next == i + 1 && a.s.stats.frames == s.stats.frames
            &&& a.frame matches Some(f) ==> {
                &&& a.s.stats.frames == s.stats.frames.wrapping_add(1)
                &&& f.signal == hit.pulse
                &&& f.gap == hit.gap
                &&& exists|st: int, n: u8|
                    {
                        &&& #[trigger] decoded_as(p, s, m, base, hit, st, f.bytes, n)
                        &&& f.start == (5 * base + st) as u64
                        &&& f.fixed == n || n == 255 && f.fixed == 0
                        &&& 5 * a.next <= 5 * (st / 5) + 96 + 96 * f.bytes.len() < 5 * (a.next + 1)
                        &&& st == hit.start || exists|k: int|
                            0 <= k < p.retry_offsets@.len() && st == hit.start + #[trigger] p.retry_offsets@[k]
                    }
            }
        }),
{
    reveal(attempted);
    let s1 = State {
        stats: Stats { decodes: s.stats.decodes.wrapping_add(1), ..s.stats },
        now: (base + hit.start as int / 5) as u64,
        ..s
    };
    let t = best_decode(s1, p, m, hit.start as int);
    law_candidate_is_what_was_decoded(s1, p, m, hit.start as int);
    assert(t.s.stats.decodes == s1.stats.decodes && t.s.stats.frames == s1.stats.frames) by {
        reveal(best_decode);
        reveal(after_decode);
        let d = decoded(p, s1.known, s1.now, m, hit.start as int);
        let s2 = after_decode(s1, p, m, hit.start as int);
        let u = Tries {
            s: State { stats: Stats { retries: s2.stats.retries.wrapping_add(1), ..s2.stats }, ..s2 },
            best: d,
            start: hit.start as int,
            fixed: match d {
                Some((_, n)) => n as int,
                None => 255,
            },
            done: false,
        };
        lemma_retries_count_nothing_else(u, p, m, hit.start as int, 0);
    }
    if let Some((f, n)) = t.best {
        let a = attempted(s, p, m, base, hit, i);
        assert(decoded_as(p, s, m, base, hit, t.start, f, n));
        if let Some(g) = a.frame {
            assert(g.bytes == f);
            assert(a.next == t.start / 5 + (96 + 96 * f.len()) / 5);
            assert(g.fixed == n || n == 255 && g.fixed == 0);
            assert(decoded_as(p, s, m, base, hit, t.start, g.bytes, n));
        }
    }
}

/// Slicing at `st` gives the frame `f` with `n` repairs, at the time of the preamble `hit`.
pub open spec fn decoded_as(
    p: Params,
    s: State,
    m: Seq<u16>,
    base: int,
    hit: Hit,
    st: int,
    f: Seq<u8>,
    n: u8,
) -> bool {
    decoded(p, s.known, (base + hit.start as int / 5) as u64, m, st) == Some((f, n))
}

/// A candidate that comes to a squitter repaired for a confirmed aircraft is emitted with
/// the count of its repairs, and one repaired for an aircraft that is not is dropped.
pub proof fn law_repaired_frame_needs_a_confirmed_aircraft(
    known: Map<u32, u64>,
    f: Seq<u8>,
    fixed: u8,
    now: u64,
)
    requires
        f[0] / 8 == 11 || f[0] / 8 == 17 || f[0] / 8 == 18,
        0 < fixed < 255,
    ensures
        ({
            let a = f[1] * 0x1_0000 + f[2] * 0x100 + f[3];
            let heard = known.contains_key(a as u32) && now - known[a as u32] < 60 * 2_400_000;
            &&& heard ==> admitted(known, f, fixed, now) == Some((f, fixed))
            &&& !heard ==> admitted(known, f, fixed, now) is None
        }),
{
    lemma_format_is_high_bits(f[0]);
    lemma_field_is_three_bytes(f[1], f[2], f[3]);
}

proof fn lemma_format_is_high_bits(x: u8)
    by (bit_vector)
    ensures
        x >> 3u8 == x / 8,
{
}

proof fn lemma_field_is_three_bytes(x: u8, y: u8, z: u8)
    by (bit_vector)
    ensures
        (((x as u32) << 16u32) | ((y as u32) << 8u32) | (z as u32)) == x * 0x1_0000 + y * 0x100 + z,
{
}

/// A table of no more than 4096 aircraft forgets none; a larger one holds only those whose
/// confirmation still counts.
pub proof fn law_crowded_table_forgets_the_stale(known: Map<u32, u64>, a: u32, now: u64, k: u32)
    requires
        known.dom().finite(),
    ensures
        ({
            let t = confirmed_after(known, a, now);
            &&& t.contains_key(a) && t[a] == now
            &&& known.insert(a, now).len() <= 4096 ==> t == known.insert(a, now)
            &&& known.insert(a, now).len() > 4096 && t.contains_key(k) ==> now - t[k] < 60 * 2_400_000
            &&& t.contains_key(k) && k != a ==> known.contains_key(k) && t[k] == known[k]
        }),
{
}

/// Each sub-block of 4096 samples, the last cut short, has its own noise floor: the sum of
/// its samples and of twenty more, and how many these are.
pub proof fn law_sub_blocks_have_their_noise(c: Scan, m: Seq<u16>)
    requires
        0 <= c.i < m.len() - 291,
        m.len() <= 0x1_0000_0000,
    ensures
        ({
            let e = entered(c, m);
            let to = if c.i + 4096 < m.len() - 291 { c.i + 4096 } else { m.len() - 291 };
            &&& c.sub < 0 || c.i >= c.sub + 4096 ==> {
                &&& e.sub == c.i
                &&& e.s.block_len == to + 20 - c.i
                &&& e.s.block_sum == sum(m, c.i, to + 20)
            }
            &&& 0 <= c.sub && c.i < c.sub + 4096 ==> e == c
            &&& e.i == c.i && e.out == c.out && e.s.known == c.s.known && e.s.stats == c.s.stats
        }),
{
    let to = if c.i + 4096 < m.len() - 291 { c.i + 4096 } else { m.len() - 291 };
    lemma_sum_bound(m, c.i, to + 20);
}

/// A cancellation counts once, in the bucket of the share that it removed: below a half,
/// 0.8, 0.9, 0.95, or above.
pub proof fn law_cancellations_are_counted_by_share(t: Stats, removed: i32, k: int)
    requires
        0 <= k < 5,
    ensures
        ({
            let b = if removed < 500_000 {
                0int
            } else if removed < 800_000 {
                1
            } else if removed < 900_000 {
                2
            } else if removed < 950_000 {
                3
            } else {
                4
            };
            let u = noted(t, removed);
            &&& u.cancelled == t.cancelled.wrapping_add(1)
            &&& u.removed_hist@[b] == t.removed_hist@[b].wrapping_add(1)
            &&& k != b ==> u.removed_hist@[k] == t.removed_hist@[k]
            &&& u.frames == t.frames && u.decodes == t.decodes && u.crc_ok == t.crc_ok
        }),
{
}

/// A candidate whose address as sliced is not near a confirmed aircraft is not tried again:
/// it is what it is at the preamble's timing, and so is one that needs no repair.
pub proof fn law_only_near_candidates_are_retried(s: State, p: Params, m: Seq<u16>, start0: int)
    requires
        ({
            let df = format_at(p, m, start0);
            let sliced = frame_bytes(p, m, start0, frame_len(df));
            ||| decoded(p, s.known, s.now, m, start0) matches Some((f, n)) && n == 0
            ||| (df == 11 || df == 17 || df == 18) && forall|a: u32|
                #![trigger s.known.contains_key(a)]
                s.known.contains_key(a) && s.now - s.known[a] < 60 * 2_400_000 ==> ones(a ^ address_field(sliced))
                    > p.near_bits
        }),
    ensures
        ({
            let t = best_decode(s, p, m, start0);
            &&& t.start == start0
            &&& t.best == decoded(p, s.known, s.now, m, start0)
            &&& t.s.stats.retries == s.stats.retries
        }),
{
    reveal(best_decode);
    reveal(after_decode);
    let df = format_at(p, m, start0);
    let sliced = frame_bytes(p, m, start0, frame_len(df));
    let d = decoded(p, s.known, s.now, m, start0);
    if !(d matches Some((f, n)) && n == 0) {
        assert(!is_near(s.known, address_field(sliced), s.now, p.near_bits)) by {
            if is_near(s.known, address_field(sliced), s.now, p.near_bits) {
                let k = choose|k: u32| #[trigger]
                    is_confirmed(s.known, k, s.now) && ones(k ^ address_field(sliced)) <= p.near_bits;
                assert(s.known.contains_key(k));
            }
        }
    }
}

/// Where flips of several bits would make a reply name a confirmed aircraft, it comes to
/// name the one with the least address.
pub proof fn law_reply_goes_to_the_least_address(
    p: Params,
    known: Map<u32, u64>,
    now: u64,
    f: Seq<u8>,
    conf: Seq<u32>,
    i: int,
)
    requires
        f.len() == 7 || f.len() == 14,
        conf.len() == 8 * f.len(),
        0 <= i < 8 * f.len(),
        !is_confirmed(known, recovered_address(f), now),
        is_confirmed(known, recovered_address(flipped(f, i)), now),
        less_sure(conf, conf[i]).len() < p.ap_fix,
    ensures
        parity_decoded(p, known, now, f, conf) matches Some((g, n)) && recovered_address(g) <= recovered_address(
            flipped(f, i),
        ),
{
    let a = recovered_address(f);
    let syn = address_syndrome_table(f.len());
    let k = recovered_address(flipped(f, i));
    lemma_least_toward(known, a, now, syn, conf, p.ap_fix);
    law_flip_moves_address(f, i);
    lemma_cancel(a, syn[i]);
    assert(k ^ a == syn[i]);
    syn.index_of_first_ensures(k ^ a);
    assert(syn.contains(syn[i]));
    let j = syn.index_of_first(k ^ a)->0;
    if j < i {
        law_address_syndromes_are_distinct(f.len(), j, i);
    }
    lemma_below_counts(conf, conf[i]);
    assert(leads_to(known, a, now, syn, conf, p.ap_fix, k));
    let b = least_toward(known, a, now, syn, conf, p.ap_fix)->0;
    syn.index_of_first_ensures(b ^ a);
    let x = syn.index_of_first(b ^ a)->0;
    law_flip_moves_address(f, x);
    lemma_cancel(a, b);
    lemma_cancel(b, a);
    assert(recovered_address(flipped(f, x)) == b);
}

/// Of several repairs with as many flips the one that is made flips the least confident
/// bit: one of its bits is no more confident than any bit of any other.
pub proof fn law_least_confident_repair_is_made(
    p: Params,
    f: Seq<u8>,
    conf: Seq<u32>,
    target: u32,
    picks: Seq<usize>,
)
    requires
        f.len() <= 14,
        conf.len() == 8 * f.len(),
        2 <= picks.len() <= 5,
        picks.no_duplicates(),
        forall|k: int|
            0 <= k < picks.len() ==> #[trigger] picks[k] < 8 * f.len() && as_unsure(
                conf,
                conf[picks[k] as int],
            ).len() <= reach(p, picks.len()),
        crc24_of(flipped_all(f, picks)) == target,
        repair_of(p, f, conf, target, true) matches Some((g, n)) && n == picks.len(),
    ensures
        exists|mine: Seq<usize>|
            {
                &&& #[trigger] flipped_all(f, mine) == (repair_of(p, f, conf, target, true)->0).0
                &&& mine.len() == picks.len()
                &&& forall|k: int|
                    0 <= k < picks.len() ==> conf[mine[0] as int] <= conf[#[trigger] picks[k] as int]
            },
{
    let n = picks.len();
    let r = crc24_of(f) ^ target;
    let order = confidence_order(conf);
    let cand = candidates(p, conf, n as int);
    law_flips_move_residual(f, picks);
    lemma_cancel(crc24_of(f), syndromes_xor(f.len(), picks));
    lemma_order_facts(conf);
    let at = Seq::new(n, |k: int| order.index_of(picks[k]));
    assert forall|k: int| 0 <= k < n implies 0 <= #[trigger] at[k] < cand.len() && cand[at[k]] == picks[k] by {
        assert(order.contains(picks[k]));
        lemma_place(conf, at[k]);
    }
    assert(at.no_duplicates()) by {
        assert forall|x: int, y: int| 0 <= x < n && 0 <= y < n && x != y implies at[x] != at[y] by {
            assert(cand[at[x]] == picks[x] && cand[at[y]] == picks[y]);
        }
    }
    assert(chosen(cand, at) =~= picks);
    assert forall|k: int| 0 <= k < cand.len() implies #[trigger] cand[k] < 8 * f.len() by {
        assert(cand[k] == order[k]);
    }
    lemma_search_finds(f.len(), cand, r, at, 0);
    let mine = flips(syndrome_table(f.len()), cand, r, n, 0)->0;
    lemma_flips_len(syndrome_table(f.len()), cand, r, n, 0);
    assert(repair_of(p, f, conf, target, true) == deep_fix(f, conf, r, soft_window(p, n as int) as int, n)) by {
        reveal(repair_of);
    }
    assert(flipped_all(f, mine) == (repair_of(p, f, conf, target, true)->0).0);
    let x = choose|x: int|
        0 <= x < cand.len() && mine[0] == #[trigger] cand[x] && forall|k: int|
            0 <= k < at.len() ==> x <= #[trigger] at[k];
    assert forall|k: int| 0 <= k < n implies conf[mine[0] as int] <= conf[#[trigger] picks[k] as int] by {
        assert(cand[at[k]] == picks[k]);
        if x < at[k] {
            lemma_order_is_by_confidence(conf, x, at[k]);
        }
    }
}

proof fn lemma_flips_len(syn: Seq<u32>, cand: Seq<usize>, target: u32, depth: nat, from: int)
    ensures
        flips(syn, cand, target, depth, from) matches Some(picks) ==> picks.len() == depth,
    decreases depth, cand.len() - from,
{
    if depth > 0 && 0 <= from < cand.len() {
        lemma_flips_len(syn, cand, target ^ syn[cand[from] as int], (depth - 1) as nat, from + 1);
        lemma_flips_len(syn, cand, target, depth, from + 1);
    }
}

/// A sample counts as a hit of the pre-check where it passes the cheap gate with no more
/// spikes than are let through, and as a preamble where it passes the fine test as well;
/// where it does not, the scan goes on at the next sample and nothing is decoded.
pub proof fn law_hits_are_counted(s: State, p: Params, m: Seq<u16>, base: int, i: int, block_end: int)
    ensures
        ({
            let a = looked(s, p, m, base, i, block_end);
            let gated = gate(m, i, p.precheck_ratio) && spikes(m, i) <= p.gap_spikes;
            let fine = gated && fine_at(m, i, p.preamble_ratio, p.pulse_uniformity) is Some;
            &&& !gated ==> a.s == s
            &&& gated && !fine ==> a.s.stats == (Stats {
                precheck_hits: s.stats.precheck_hits.wrapping_add(1),
                ..s.stats
            })
            &&& !fine ==> a.frame is None && a.next == i + 1 && a.s.known == s.known
            &&& fine ==> a.s.stats.decodes == s.stats.decodes.wrapping_add(1)
            &&& a.frame is Some ==> fine && a.s.stats.frames == s.stats.frames.wrapping_add(1)
        }),
{
    reveal(looked);
    if let Some(h) = fine_at(m, i, p.preamble_ratio, p.pulse_uniformity) {
        let s2 = State {
            stats: Stats {
                precheck_hits: s.stats.precheck_hits.wrapping_add(1),
                preamble_hits: s.stats.preamble_hits.wrapping_add(1),
                ..s.stats
            },
            ..s
        };
        law_candidate_is_accounted_for(s2, p, m, base, refined(p, m, i, block_end, h), i);
    }
}

} // verus!
