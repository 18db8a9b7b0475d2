//! Soft-decision error correction: a damaged frame is repaired by flipping a
//! few of its least confident bits, and only when their syndromes explain the
//! residual exactly.

use crate::crc::{
    Crc24, crc24_of, flipped, flipped_all, law_flip_moves_residual, law_flips_move_residual,
    law_syndromes_are_distinct, syndrome, syndrome_table, syndromes_xor,
};
use crate::params::Params;
use vstd::prelude::*;
use vstd::relations::{sorted_by, total_ordering};

verus! {

broadcast use vstd::seq_lib::group_to_multiset_ensures;

/// The order of bits by confidence, equal ones by position.
pub open spec fn no_more_confident(conf: Seq<u32>) -> spec_fn(usize, usize) -> bool {
    |i: usize, j: usize| conf[i as int] < conf[j as int] || (conf[i as int] == conf[j as int] && i <= j)
}

/// The bits of a frame, least confident first.
pub open spec fn confidence_order(conf: Seq<u32>) -> Seq<usize> {
    Seq::new(conf.len(), |i: int| i as usize).sort_by(no_more_confident(conf))
}

/// How many of `conf` are below `c`.
pub open spec fn below(conf: Seq<u32>, c: u32) -> nat
    decreases conf.len(),
{
    if conf.len() == 0 {
        0
    } else {
        below(conf.drop_last(), c) + if conf.last() < c { 1nat } else { 0nat }
    }
}

/// The first `depth` positions of `cand` from `from` on, in lexicographic
/// order, whose syndromes combine to `target`; the bits at those positions.
pub open spec fn flips(syn: Seq<u32>, cand: Seq<usize>, target: u32, depth: nat, from: int) -> Option<
    Seq<usize>,
>
    decreases depth, cand.len() - from,
{
    if depth == 0 {
        if target == 0 {
            Some(Seq::<usize>::empty())
        } else {
            None
        }
    } else if from < 0 || from >= cand.len() {
        None
    } else {
        match flips(syn, cand, target ^ syn[cand[from] as int], (depth - 1) as nat, from + 1) {
            Some(rest) => Some(seq![cand[from]] + rest),
            None => flips(syn, cand, target, depth, from + 1),
        }
    }
}

proof fn lemma_total(conf: Seq<u32>)
    ensures
        total_ordering(no_more_confident(conf)),
{
}

/// Fewer candidates than bits to flip: nothing to find.
proof fn lemma_too_few(syn: Seq<u32>, cand: Seq<usize>, target: u32, depth: nat, from: int)
    requires
        0 <= from,
        depth >= 1,
        cand.len() - from < depth,
    ensures
        flips(syn, cand, target, depth, from) is None,
    decreases depth, cand.len() - from,
{
    if from < cand.len() {
        lemma_too_few(syn, cand, target ^ syn[cand[from] as int], (depth - 1) as nat, from + 1);
        lemma_too_few(syn, cand, target, depth, from + 1);
    }
}

/// The bits of a frame, least confident first; equally confident bits in the
/// order they were received.
pub fn by_confidence(conf: &Vec<u32>) -> (order: Vec<usize>)
    ensures
        order@ == confidence_order(conf@),
{
    let n: usize = conf.len();
    let mut order: Vec<usize> = Vec::with_capacity(n);
    let ghost leq = no_more_confident(conf@);
    assert(Seq::new(0, |i: int| i as usize) =~= Seq::<usize>::empty());
    for i in 0..n
        invariant
            n == conf@.len(),
            leq == no_more_confident(conf@),
            order@.len() == i,
            forall|k: int| 0 <= k < order@.len() ==> #[trigger] order@[k] < i,
            sorted_by(order@, leq),
            order@.to_multiset() == Seq::new(i as nat, |k: int| k as usize).to_multiset(),
    {
        let mut j: usize = i;
        while j > 0 && conf[order[j - 1]] > conf[i]
            invariant
                n == conf@.len(),
                i < n,
                j <= i,
                order@.len() == i,
                forall|k: int| 0 <= k < order@.len() ==> #[trigger] order@[k] < i,
                forall|k: int| j <= k < i ==> conf@[#[trigger] order@[k] as int] > conf@[i as int],
            decreases j,
        {
            j -= 1;
        }
        let ghost before = order@;
        proof {
            if j > 0 {
                assert forall|k: int| 0 <= k < j implies conf@[#[trigger] before[k] as int]
                    <= conf@[i as int] by {
                    if k < j - 1 {
                        assert(leq(before[k], before[j - 1]));
                    }
                }
            }
        }
        order.insert(j, i);
        proof {
            assert forall|x: int, y: int| 0 <= x < y < order@.len() implies #[trigger] leq(
                order@[x],
                order@[y],
            ) by {
                let bx = if x < j { x } else { x - 1 };
                let by_ = if y < j { y } else { y - 1 };
                if x != j && y != j {
                    assert(leq(before[bx], before[by_]));
                }
            }
            let seq0 = Seq::new(i as nat, |k: int| k as usize);
            assert(Seq::new((i + 1) as nat, |k: int| k as usize) =~= seq0.push(i));
            vstd::seq_lib::to_multiset_insert(before, j as int, i);
        }
    }
    proof {
        let all = Seq::new(conf@.len(), |k: int| k as usize);
        lemma_total(conf@);
        all.lemma_sort_by_ensures(leq);
        vstd::seq_lib::lemma_sorted_unique(order@, all.sort_by(leq), leq);
    }
    order
}

/// How many bits are less confident than `c`.
pub fn rank_of(conf: &Vec<u32>, c: u32) -> (n: usize)
    ensures
        n == below(conf@, c),
        n <= conf@.len(),
{
    let mut n: usize = 0;
    for i in 0..conf.len()
        invariant
            n == below(conf@.take(i as int), c),
            n <= i,
    {
        assert(conf@.take(i + 1).drop_last() =~= conf@.take(i as int));
        if conf[i] < c {
            n += 1;
        }
    }
    assert(conf@.take(conf@.len() as int) =~= conf@);
    n
}

/// Depth-first search for `depth` bits of `cand` (from index `from`) whose
/// syndromes combine to `target`; they are appended to `picked`.
pub fn find_flips(
    syn: &Vec<u32>,
    cand: &Vec<usize>,
    target: u32,
    depth: usize,
    from: usize,
    picked: &mut Vec<usize>,
) -> (found: bool)
    requires
        depth >= 1,
        from <= cand@.len(),
        forall|k: int| 0 <= k < cand@.len() ==> #[trigger] cand@[k] < syn@.len(),
    ensures
        found == flips(syn@, cand@, target, depth as nat, from as int) is Some,
        found ==> final(picked)@ == old(picked)@ + flips(
            syn@,
            cand@,
            target,
            depth as nat,
            from as int,
        )->0,
        !found ==> final(picked)@ == old(picked)@,
    decreases depth,
{
    let ghost goal = flips(syn@, cand@, target, depth as nat, from as int);
    let ghost kept = picked@;
    if depth == 1 {
        for x in from..cand.len()
            invariant
                depth == 1,
                from <= cand@.len(),
                picked@ == kept,
                kept == old(picked)@,
                goal == flips(syn@, cand@, target, depth as nat, from as int),
                goal == flips(syn@, cand@, target, 1, x as int),
                forall|k: int| 0 <= k < cand@.len() ==> #[trigger] cand@[k] < syn@.len(),
        {
            let k: usize = cand[x];
            proof {
                let s = syn@[k as int];
                assert(target ^ s == 0u32 <==> s == target) by (bit_vector);
                assert(seq![k] + Seq::<usize>::empty() =~= seq![k]);
                assert(flips(syn@, cand@, target ^ s, 0, x + 1) == if target ^ s == 0 {
                    Some(Seq::<usize>::empty())
                } else {
                    None
                });
            }
            if syn[k] == target {
                picked.push(k);
                assert(picked@ =~= kept + seq![k]);
                return true;
            }
        }
        return false;
    }
    let last: usize = if cand.len() >= depth - 1 {
        cand.len() - (depth - 1)
    } else {
        0
    };
    let mut x: usize = from;
    while x < last
        invariant
            depth >= 2,
            from <= x,
            x <= cand@.len(),
            last <= cand@.len(),
            picked@ == kept,
            kept == old(picked)@,
            goal == flips(syn@, cand@, target, depth as nat, from as int),
            goal == flips(syn@, cand@, target, depth as nat, x as int),
            forall|k: int| 0 <= k < cand@.len() ==> #[trigger] cand@[k] < syn@.len(),
        decreases last - x,
    {
        let i: usize = cand[x];
        picked.push(i);
        if find_flips(syn, cand, target ^ syn[i], depth - 1, x + 1, picked) {
            proof {
                let rest = flips(syn@, cand@, target ^ syn@[i as int], (depth - 1) as nat, x + 1)->0;
                assert(kept.push(i) + rest =~= kept + (seq![i] + rest));
            }
            return true;
        }
        let _ = picked.pop();
        assert(picked@ =~= kept);
        x += 1;
    }
    proof {
        lemma_too_few(syn@, cand@, target, depth as nat, x as int);
    }
    false
}

/// The first `depth` of the `window` least confident bits that explain the
/// residual `r` of `f`, flipped.
pub open spec fn deep_fix(f: Seq<u8>, conf: Seq<u32>, r: u32, window: int, depth: nat) -> Option<
    (Seq<u8>, u8),
> {
    let order = confidence_order(conf);
    let cand = order.take(if window < order.len() { window } else { order.len() as int });
    match flips(syndrome_table(f.len()), cand, r, depth, 0) {
        Some(picks) => Some((flipped_all(f, picks), depth as u8)),
        None => None,
    }
}

/// The bit whose syndrome is the residual `r`, flipped, if it is one of the
/// `soft1` least confident.
pub open spec fn single_fix(f: Seq<u8>, conf: Seq<u32>, r: u32, soft1: int) -> Option<(Seq<u8>, u8)> {
    match syndrome_table(f.len()).index_of_first(r) {
        Some(i) => if below(conf, conf[i]) < soft1 {
            Some((flipped(f, i), 1u8))
        } else {
            None
        },
        None => None,
    }
}

/// What error correction makes of the frame `f`: the frame and the bits
/// flipped, the fewest that explain the residual within the settings.
#[verifier::opaque]
pub open spec fn repair_of(p: Params, f: Seq<u8>, conf: Seq<u32>, target: u32, deep: bool) -> Option<
    (Seq<u8>, u8),
> {
    let r = crc24_of(f) ^ target;
    let one = single_fix(f, conf, r, p.soft1 as int);
    let two = deep_fix(f, conf, r, p.soft2 as int, 2);
    let three = deep_fix(f, conf, r, p.soft3 as int, 3);
    let four = deep_fix(f, conf, r, p.soft4 as int, 4);
    let five = deep_fix(f, conf, r, p.soft5 as int, 5);
    if r == 0 {
        Some((f, 0u8))
    } else if p.max_fix >= 1 && one is Some {
        one
    } else if deep && p.max_fix >= 2 && two is Some {
        two
    } else if deep && p.max_fix >= 3 && three is Some {
        three
    } else if deep && p.max_fix >= 4 && four is Some {
        four
    } else if deep && p.max_fix >= 5 && five is Some {
        five
    } else {
        None
    }
}

/// The index of the first syndrome equal to `r`.
pub fn first_index(syn: &Vec<u32>, r: u32) -> (i: Option<usize>)
    ensures
        match i {
            Some(k) => syn@.index_of_first(r) == Some(k as int),
            None => syn@.index_of_first(r) is None,
        },
{
    proof {
        syn@.index_of_first_ensures(r);
    }
    for k in 0..syn.len()
        invariant
            forall|j: int| 0 <= j < k ==> #[trigger] syn@[j] != r,
    {
        if syn[k] == r {
            proof {
                syn@.index_of_first_ensures(r);
                assert(syn@.contains(r));
                let f = syn@.index_of_first(r)->0;
                assert(!(f < k) && !(k < f));
            }
            return Some(k);
        }
    }
    None
}

/// `f` with bit `i` flipped.
pub fn flip(f: &mut Vec<u8>, i: usize)
    requires
        i < 8 * old(f)@.len(),
    ensures
        final(f)@ == flipped(old(f)@, i as int),
{
    let b: u8 = f[i / 8];
    f.set(i / 8, b ^ (0x80u8 >> ((i % 8) as u8)));
}

pub proof fn lemma_order_facts(conf: Seq<u32>)
    requires
        conf.len() <= usize::MAX,
    ensures
        confidence_order(conf).len() == conf.len(),
        confidence_order(conf).no_duplicates(),
        forall|k: int| 0 <= k < conf.len() ==> #[trigger] confidence_order(conf)[k] < conf.len(),
        forall|x: usize| x < conf.len() ==> #[trigger] confidence_order(conf).contains(x),
{
    let all = Seq::new(conf.len(), |i: int| i as usize);
    let order = confidence_order(conf);
    lemma_total(conf);
    all.lemma_sort_by_ensures(no_more_confident(conf));
    assert(order.to_multiset().len() == all.to_multiset().len());
    assert forall|k: int| 0 <= k < order.len() implies #[trigger] order[k] < conf.len() by {
        assert(order.contains(order[k]));
        assert(all.contains(order[k]));
    }
    assert forall|x: usize| x < conf.len() implies #[trigger] order.contains(x) by {
        assert(all[x as int] == x);
        assert(all.to_multiset().count(x) > 0);
        assert(order.to_multiset().count(x) > 0);
    }
    assert(all.no_duplicates());
    all.lemma_multiset_has_no_duplicates();
    order.lemma_multiset_has_no_duplicates_conv();
}

/// The order is by confidence.
pub proof fn lemma_order_is_by_confidence(conf: Seq<u32>, j: int, k: int)
    requires
        conf.len() <= usize::MAX,
        0 <= j < k < conf.len(),
    ensures
        conf[confidence_order(conf)[j] as int] <= conf[confidence_order(conf)[k] as int],
{
    let all = Seq::new(conf.len(), |i: int| i as usize);
    let order = confidence_order(conf);
    lemma_order_facts(conf);
    lemma_total(conf);
    all.lemma_sort_by_ensures(no_more_confident(conf));
    assert(no_more_confident(conf)(order[j], order[k]));
}

proof fn lemma_xor(a: u32, b: u32, c: u32)
    by (bit_vector)
    ensures
        a ^ b == c <==> a == b ^ c,
        a ^ b == c <==> b == c ^ a,
        a ^ (a ^ b) == b,
        a ^ b == 0u32 <==> a == b,
        0u32 ^ a == a,
{
}

/// What the search finds is `depth` different candidates whose syndromes
/// combine to the target.
proof fn lemma_flips_sound(n: nat, cand: Seq<usize>, target: u32, depth: nat, from: int)
    requires
        0 <= from,
        cand.no_duplicates(),
        forall|k: int| 0 <= k < cand.len() ==> #[trigger] cand[k] < 8 * n,
    ensures
        flips(syndrome_table(n), cand, target, depth, from) matches Some(picks) ==> {
            &&& picks.len() == depth
            &&& picks.no_duplicates()
            &&& forall|k: int|
                0 <= k < picks.len() ==> #[trigger] picks[k] < 8 * n && exists|j: int|
                    from <= j < cand.len() && cand[j] == picks[k]
            &&& syndromes_xor(n, picks) == target
        },
    decreases depth, cand.len() - from,
{
    let syn = syndrome_table(n);
    if depth > 0 && from < cand.len() {
        let i = cand[from];
        let s = syn[i as int];
        lemma_flips_sound(n, cand, target ^ s, (depth - 1) as nat, from + 1);
        lemma_flips_sound(n, cand, target, depth, from + 1);
        if let Some(rest) = flips(syn, cand, target ^ s, (depth - 1) as nat, from + 1) {
            let picks = seq![i] + rest;
            assert(picks.drop_first() =~= rest);
            lemma_xor(target, s, syndromes_xor(n, rest));
            lemma_xor(s, syndromes_xor(n, rest), target);
            assert forall|k: int| 0 <= k < picks.len() implies #[trigger] picks[k] < 8 * n && exists|j: int|
                from <= j < cand.len() && cand[j] == picks[k] by {
                if k == 0 {
                    assert(cand[from] == picks[k]);
                } else {
                    assert(picks[k] == rest[k - 1]);
                    let j = choose|j: int| from + 1 <= j < cand.len() && cand[j] == rest[k - 1];
                    assert(cand[j] == picks[k]);
                }
            }
            assert forall|k: int| 0 < k < picks.len() implies #[trigger] picks[k] != i by {
                assert(picks[k] == rest[k - 1]);
            }
            assert(picks.no_duplicates()) by {
                assert forall|x: int, y: int|
                    0 <= x < picks.len() && 0 <= y < picks.len() && x != y implies picks[x]
                    != picks[y] by {
                    if x > 0 && y > 0 {
                        assert(picks[x] == rest[x - 1] && picks[y] == rest[y - 1]);
                    }
                }
            }
        }
    }
}

/// The candidates at the positions `at`.
pub open spec fn chosen(cand: Seq<usize>, at: Seq<int>) -> Seq<usize> {
    Seq::new(at.len(), |k: int| cand[at[k]])
}

/// Positions in strictly ascending order, from `from` on.
pub open spec fn ascending(at: Seq<int>, from: int, len: int) -> bool {
    &&& forall|k: int| 0 <= k < at.len() ==> from <= #[trigger] at[k] < len
    &&& forall|j: int, k: int| 0 <= j < k < at.len() ==> at[j] < at[k]
}

/// Bits that are as confident stand in the order by confidence as they were received.
pub proof fn law_equal_bits_keep_their_order(conf: Seq<u32>, j: int, k: int)
    requires
        conf.len() <= usize::MAX,
        0 <= j < k < conf.len(),
        conf[confidence_order(conf)[j] as int] == conf[confidence_order(conf)[k] as int],
    ensures
        confidence_order(conf)[j] < confidence_order(conf)[k],
{
    let all = Seq::new(conf.len(), |i: int| i as usize);
    let order = confidence_order(conf);
    lemma_order_facts(conf);
    lemma_total(conf);
    all.lemma_sort_by_ensures(no_more_confident(conf));
    assert(no_more_confident(conf)(order[j], order[k]));
    assert(order[j] != order[k]);
}

/// If some choice of candidates explains the target, the search finds one.
proof fn lemma_flips_complete(n: nat, cand: Seq<usize>, target: u32, at: Seq<int>, from: int)
    requires
        0 <= from,
        ascending(at, from, cand.len() as int),
        forall|k: int| 0 <= k < cand.len() ==> #[trigger] cand[k] < 8 * n,
        syndromes_xor(n, chosen(cand, at)) == target,
    ensures
        flips(syndrome_table(n), cand, target, at.len(), from) is Some,
    decreases at.len(), cand.len() - from,
{
    if at.len() > 0 {
        let syn = syndrome_table(n);
        assert(from <= at[0] < cand.len());
        if at[0] == from {
            let rest = at.drop_first();
            assert(chosen(cand, at).drop_first() =~= chosen(cand, rest));
            lemma_xor(syn[cand[from] as int], syndromes_xor(n, chosen(cand, rest)), target);
            lemma_xor(target, syn[cand[from] as int], syndromes_xor(n, chosen(cand, rest)));
            assert forall|k: int| 0 <= k < rest.len() implies from + 1 <= #[trigger] rest[k]
                < cand.len() by {
                assert(rest[k] == at[k + 1]);
                assert(at[0] < at[k + 1]);
            }
            lemma_flips_complete(n, cand, target ^ syn[cand[from] as int], rest, from + 1);
        } else {
            assert forall|k: int| 0 <= k < at.len() implies from + 1 <= #[trigger] at[k] < cand.len() by {
                if k > 0 {
                    assert(at[0] < at[k]);
                }
            }
            lemma_flips_complete(n, cand, target, at, from + 1);
        }
    }
}

proof fn lemma_xor_moves(a: u32, b: u32, c: u32)
    by (bit_vector)
    ensures
        a ^ (b ^ c) == b ^ (a ^ c),
        (a ^ b) ^ a == b,
{
}

/// The syndrome of any of the picks can be taken out.
proof fn lemma_take_out(n: nat, picks: Seq<usize>, j: int)
    requires
        0 <= j < picks.len(),
    ensures
        syndromes_xor(n, picks) == syndrome(n, picks[j] as int) ^ syndromes_xor(n, picks.remove(j)),
    decreases picks.len(),
{
    if j == 0 {
        assert(picks.remove(0) =~= picks.drop_first());
    } else {
        let rest = picks.drop_first();
        lemma_take_out(n, rest, j - 1);
        assert(picks.remove(j).drop_first() =~= rest.remove(j - 1));
        lemma_xor_moves(
            syndrome(n, picks[0] as int),
            syndrome(n, picks[j] as int),
            syndromes_xor(n, rest.remove(j - 1)),
        );
    }
}

/// The first of `picks` stands in `cand` no later than any of the positions `at`.
pub open spec fn starts_no_later(picks: Seq<usize>, cand: Seq<usize>, at: Seq<int>) -> bool {
    exists|x: int|
        0 <= x < cand.len() && picks[0] == #[trigger] cand[x] && forall|k: int|
            0 <= k < at.len() ==> x <= #[trigger] at[k]
}

/// If some choice of candidates explains the target, in whatever order, the search
/// finds one that starts no later.
pub proof fn lemma_search_finds(n: nat, cand: Seq<usize>, target: u32, at: Seq<int>, from: int)
    requires
        0 <= from,
        at.no_duplicates(),
        forall|k: int| 0 <= k < at.len() ==> from <= #[trigger] at[k] < cand.len(),
        forall|k: int| 0 <= k < cand.len() ==> #[trigger] cand[k] < 8 * n,
        syndromes_xor(n, chosen(cand, at)) == target,
    ensures
        flips(syndrome_table(n), cand, target, at.len(), from) is Some,
        at.len() > 0 ==> starts_no_later(
            flips(syndrome_table(n), cand, target, at.len(), from)->0,
            cand,
            at,
        ),
    decreases at.len(), cand.len() - from,
{
    if at.len() > 0 {
        let syn = syndrome_table(n);
        assert(from <= at[0] < cand.len());
        if flips(syn, cand, target ^ syn[cand[from] as int], (at.len() - 1) as nat, from + 1) is Some {
            assert(flips(syn, cand, target, at.len(), from)->0[0] == cand[from]);
            assert(starts_no_later(flips(syn, cand, target, at.len(), from)->0, cand, at));
        }
        if at.contains(from) {
            let j = at.index_of(from);
            let rest = at.remove(j);
            let s = syn[cand[from] as int];
            lemma_take_out(n, chosen(cand, at), j);
            assert(chosen(cand, at).remove(j) =~= chosen(cand, rest));
            lemma_xor_moves(s, syndromes_xor(n, chosen(cand, rest)), 0);
            assert forall|k: int| 0 <= k < rest.len() implies from + 1 <= #[trigger] rest[k] < cand.len() by {
                let i = if k < j { k } else { k + 1 };
                assert(rest[k] == at[i]);
                assert(at[i] != at[j]);
            }
            assert(rest.no_duplicates()) by {
                assert forall|x: int, y: int| 0 <= x < rest.len() && 0 <= y < rest.len() && x != y implies rest[x]
                    != rest[y] by {
                    let (a, b) = (if x < j { x } else { x + 1 }, if y < j { y } else { y + 1 });
                    assert(rest[x] == at[a] && rest[y] == at[b]);
                }
            }
            assert(target ^ s == syndromes_xor(n, chosen(cand, rest)));
            lemma_search_finds(n, cand, target ^ s, rest, from + 1);
        } else {
            assert forall|k: int| 0 <= k < at.len() implies from + 1 <= #[trigger] at[k] < cand.len() by {
                assert(at.contains(at[k]));
            }
            lemma_search_finds(n, cand, target, at, from + 1);
        }
    }
}

/// Try `depth` flips among the `window` least confident bits.
fn try_deep(
    syn: &Vec<u32>,
    order: &Vec<usize>,
    bytes: &Vec<u8>,
    r: u32,
    window: usize,
    depth: usize,
    Ghost(conf): Ghost<Seq<u32>>,
) -> (fixed: Option<(Vec<u8>, u8)>)
    requires
        2 <= depth <= 5,
        syn@ == syndrome_table(bytes@.len()),
        bytes@.len() <= 0x1000,
        conf.len() == 8 * bytes@.len(),
        order@ == confidence_order(conf),
    ensures
        match fixed {
            Some((f, n)) => deep_fix(bytes@, conf, r, window as int, depth as nat) == Some((f@, n)),
            None => deep_fix(bytes@, conf, r, window as int, depth as nat) is None,
        },
{
    proof {
        lemma_order_facts(conf);
    }
    let w: usize = if window < order.len() {
        window
    } else {
        order.len()
    };
    let mut cand: Vec<usize> = Vec::with_capacity(w);
    for k in 0..w
        invariant
            w <= order@.len(),
            cand@ == order@.take(k as int),
    {
        cand.push(order[k]);
        assert(cand@ =~= order@.take(k + 1));
    }
    assert(cand@ == order@.take(w as int));
    let mut picked: Vec<usize> = Vec::with_capacity(depth);
    if find_flips(syn, &cand, r, depth, 0, &mut picked) {
        let mut f: Vec<u8> = bytes.clone();
        assert(f@ =~= bytes@);
        proof {
            lemma_flips_sound(bytes@.len(), cand@, r, depth as nat, 0);
            assert(picked@ =~= flips(syn@, cand@, r, depth as nat, 0)->0);
            assert(picked@.skip(0) =~= picked@);
        }
        for k in 0..picked.len()
            invariant
                f@.len() == bytes@.len(),
                forall|j: int| 0 <= j < picked@.len() ==> #[trigger] picked@[j] < 8 * bytes@.len(),
                flipped_all(f@, picked@.skip(k as int)) == flipped_all(bytes@, picked@),
        {
            assert(picked@.skip(k as int).drop_first() =~= picked@.skip(k + 1));
            flip(&mut f, picked[k]);
        }
        assert(picked@.skip(picked@.len() as int) =~= Seq::<usize>::empty());
        return Some((f, depth as u8));
    }
    None
}

/// Accept a frame whose residual is `target`, or repair up to `max_fix`
/// low-confidence bits whose syndromes explain the residual. `deep` allows
/// repairs of two or more bits; without it only a single flip is tried.
pub fn repair(
    p: &Params,
    crc: &Crc24,
    syn: &Vec<u32>,
    bytes: &Vec<u8>,
    conf: &Vec<u32>,
    target: u32,
    deep: bool,
) -> (fixed: Option<(Vec<u8>, u8)>)
    requires
        crc.wf(),
        bytes@.len() <= 0x1000,
        syn@ == syndrome_table(bytes@.len()),
        conf@.len() == 8 * bytes@.len(),
    ensures
        match fixed {
            Some((f, n)) => repair_of(*p, bytes@, conf@, target, deep) == Some((f@, n)),
            None => repair_of(*p, bytes@, conf@, target, deep) is None,
        },
{
    reveal(repair_of);
    let r: u32 = crc.of(bytes.as_slice()) ^ target;
    if r == 0 {
        let f: Vec<u8> = bytes.clone();
        assert(f@ =~= bytes@);
        return Some((f, 0));
    }
    if p.max_fix == 0 {
        return None;
    }
    // Single bit: look the residual up among the syndromes, then check that
    // the bit ranks among the `soft1` least confident. No sort.
    proof {
        syn@.index_of_first_ensures(r);
    }
    if let Some(i) = first_index(syn, r) {
        if rank_of(conf, conf[i]) < p.soft1 {
            let mut f: Vec<u8> = bytes.clone();
            assert(f@ =~= bytes@);
            flip(&mut f, i);
            return Some((f, 1));
        }
    }
    if !deep || p.max_fix < 2 {
        return None;
    }
    // Deeper repairs need the confidence order.
    let order: Vec<usize> = by_confidence(conf);
    let two = try_deep(syn, &order, bytes, r, p.soft2, 2, Ghost(conf@));
    if two.is_some() {
        return two;
    }
    if p.max_fix < 3 {
        return None;
    }
    let three = try_deep(syn, &order, bytes, r, p.soft3, 3, Ghost(conf@));
    if three.is_some() {
        return three;
    }
    if p.max_fix < 4 {
        return None;
    }
    let four = try_deep(syn, &order, bytes, r, p.soft4, 4, Ghost(conf@));
    if four.is_some() {
        return four;
    }
    if p.max_fix < 5 {
        return None;
    }
    try_deep(syn, &order, bytes, r, p.soft5, 5, Ghost(conf@))
}

/// The window searched for `depth` flips.
pub open spec fn soft_window(p: Params, depth: int) -> usize {
    if depth == 2 {
        p.soft2
    } else if depth == 3 {
        p.soft3
    } else if depth == 4 {
        p.soft4
    } else {
        p.soft5
    }
}

/// The candidates for `depth` flips: the least confident bits of a frame.
pub open spec fn candidates(p: Params, conf: Seq<u32>, depth: int) -> Seq<usize> {
    let order = confidence_order(conf);
    let w = soft_window(p, depth) as int;
    order.take(if w < order.len() { w } else { order.len() as int })
}

/// `g` is `f` with `picks` flipped, each bit once.
pub open spec fn differs_by(f: Seq<u8>, g: Seq<u8>, picks: Seq<usize>) -> bool {
    &&& picks.no_duplicates()
    &&& forall|k: int| 0 <= k < picks.len() ==> #[trigger] picks[k] < 8 * f.len()
    &&& g == flipped_all(f, picks)
}

/// The bit `i` is one that a repair of `depth` bits may flip: one of the least
/// confident.
pub open spec fn is_unsure(p: Params, conf: Seq<u32>, depth: int, i: usize) -> bool {
    if depth == 1 {
        below(conf, conf[i as int]) < p.soft1
    } else {
        candidates(p, conf, depth).contains(i)
    }
}

/// `g` is `f` with `picks` flipped, each of them a bit that may be.
pub open spec fn mended_by(p: Params, f: Seq<u8>, conf: Seq<u32>, g: Seq<u8>, picks: Seq<usize>) -> bool {
    &&& differs_by(f, g, picks)
    &&& forall|k: int| 0 <= k < picks.len() ==> is_unsure(p, conf, picks.len() as int, #[trigger] picks[k])
}

proof fn lemma_deep_fix(p: Params, f: Seq<u8>, conf: Seq<u32>, target: u32, depth: nat)
    requires
        f.len() <= 0x1000,
        conf.len() == 8 * f.len(),
        2 <= depth <= 5,
    ensures
        deep_fix(f, conf, crc24_of(f) ^ target, soft_window(p, depth as int) as int, depth) matches Some(
            (g, n),
        ) ==> {
            &&& n == depth
            &&& g.len() == f.len()
            &&& crc24_of(g) == target
            &&& exists|picks: Seq<usize>| picks.len() == depth && #[trigger] mended_by(p, f, conf, g, picks)
        },
{
    let r = crc24_of(f) ^ target;
    let cand = candidates(p, conf, depth as int);
    lemma_order_facts(conf);
    lemma_flips_sound(f.len(), cand, r, depth, 0);
    if let Some(picks) = flips(syndrome_table(f.len()), cand, r, depth, 0) {
        law_flips_move_residual(f, picks);
        lemma_xor(crc24_of(f), target, r);
        lemma_xor(crc24_of(f), r, target);
        assert forall|k: int| 0 <= k < picks.len() implies is_unsure(
            p,
            conf,
            depth as int,
            #[trigger] picks[k],
        ) by {
            let j = choose|j: int| 0 <= j < cand.len() && cand[j] == picks[k];
            assert(cand.contains(picks[k]));
        }
        let g = flipped_all(f, picks);
        assert(mended_by(p, f, conf, g, picks));
        assert(deep_fix(f, conf, r, soft_window(p, depth as int) as int, depth) == Some((g, depth as u8)));
        assert(g.len() == f.len());
        assert(crc24_of(g) == target);
    }
}

/// An accepted frame has the wanted residual, and differs from what was
/// received in exactly the number of bits it reports, all of them among the
/// least confident: at most `max_fix`, and at most one where deep repair is not
/// allowed.
pub proof fn law_repair_explains_residual(
    p: Params,
    f: Seq<u8>,
    conf: Seq<u32>,
    target: u32,
    deep: bool,
)
    requires
        f.len() <= 0x1000,
        conf.len() == 8 * f.len(),
    ensures
        repair_of(p, f, conf, target, deep) matches Some((g, n)) ==> {
            &&& g.len() == f.len()
            &&& crc24_of(g) == target
            &&& n <= p.max_fix
            &&& n <= 5
            &&& !deep ==> n <= 1
            &&& exists|picks: Seq<usize>| picks.len() == n && #[trigger] mended_by(p, f, conf, g, picks)
        },
{
    reveal(repair_of);
    let r = crc24_of(f) ^ target;
    let syn = syndrome_table(f.len());
    lemma_deep_fix(p, f, conf, target, 2);
    lemma_deep_fix(p, f, conf, target, 3);
    lemma_deep_fix(p, f, conf, target, 4);
    lemma_deep_fix(p, f, conf, target, 5);
    lemma_xor(crc24_of(f), target, r);
    lemma_xor(crc24_of(f), r, target);
    assert(mended_by(p, f, conf, f, Seq::<usize>::empty()));
    syn.index_of_first_ensures(r);
    if let Some(i) = syn.index_of_first(r) {
        let picks = seq![i as usize];
        assert(picks.drop_first() =~= Seq::<usize>::empty());
        reveal_with_fuel(flipped_all, 2);
        law_flip_moves_residual(f, i);
        if below(conf, conf[i]) < p.soft1 {
            assert(mended_by(p, f, conf, flipped(f, i), picks));
        }
    }
    if let Some((g, n)) = repair_of(p, f, conf, target, deep) {
        assert(crc24_of(g) == target);
        assert(exists|picks: Seq<usize>| picks.len() == n && #[trigger] mended_by(p, f, conf, g, picks));
    }
}

/// Repair keeps the length.
pub proof fn lemma_repair_len(p: Params, f: Seq<u8>, conf: Seq<u32>, target: u32, deep: bool)
    requires
        f.len() <= 0x1000,
        conf.len() == 8 * f.len(),
    ensures
        repair_of(p, f, conf, target, deep) matches Some((g, n)) ==> g.len() == f.len(),
{
    law_repair_explains_residual(p, f, conf, target, deep);
}

/// A frame that is turned down could not have been explained: no choice of a
/// permitted number of its least confident bits gives the wanted residual.
pub proof fn law_unrepaired_frame_has_no_explanation(
    p: Params,
    f: Seq<u8>,
    conf: Seq<u32>,
    target: u32,
    at: Seq<int>,
)
    requires
        f.len() <= 0x1000,
        conf.len() == 8 * f.len(),
        2 <= at.len() <= 5,
        at.len() <= p.max_fix,
        ascending(at, 0, candidates(p, conf, at.len() as int).len() as int),
        repair_of(p, f, conf, target, true) is None,
    ensures
        crc24_of(flipped_all(f, chosen(candidates(p, conf, at.len() as int), at))) != target,
{
    reveal(repair_of);
    let r = crc24_of(f) ^ target;
    let cand = candidates(p, conf, at.len() as int);
    let picks = chosen(cand, at);
    lemma_order_facts(conf);
    assert forall|k: int| 0 <= k < picks.len() implies #[trigger] picks[k] < 8 * f.len() by {
        assert(0 <= at[k] < cand.len());
    }
    law_flips_move_residual(f, picks);
    if crc24_of(flipped_all(f, picks)) == target {
        lemma_xor(crc24_of(f), syndromes_xor(f.len(), picks), target);
        lemma_xor(crc24_of(f), target, syndromes_xor(f.len(), picks));
        lemma_xor(target, crc24_of(f), r);
        lemma_flips_complete(f.len(), cand, r, at, 0);
    }
}

/// A frame with one wrong bit comes back as it was sent, provided the bit is
/// one of the `soft1` least confident.
pub proof fn law_single_error_is_repaired(
    p: Params,
    f: Seq<u8>,
    i: int,
    conf: Seq<u32>,
    target: u32,
    deep: bool,
)
    requires
        f.len() <= 14,
        0 <= i < 8 * f.len(),
        conf.len() == 8 * f.len(),
        crc24_of(f) == target,
        p.max_fix >= 1,
        below(conf, conf[i]) < p.soft1,
    ensures
        repair_of(p, flipped(f, i), conf, target, deep) == Some((f, 1u8)),
{
    reveal(repair_of);
    let g = flipped(f, i);
    let s = syndrome(f.len(), i);
    let syn = syndrome_table(f.len());
    law_flip_moves_residual(f, i);
    lemma_xor(crc24_of(f), s, target);
    assert((target ^ s) ^ target == s) by (bit_vector);
    if i > 0 {
        law_syndromes_are_distinct(f.len(), 0, i);
    } else {
        law_syndromes_are_distinct(f.len(), i, i + 1);
    }
    syn.index_of_first_ensures(s);
    assert(syn[i] == s);
    let k = syn.index_of_first(s)->0;
    if k < i {
        law_syndromes_are_distinct(f.len(), k, i);
    }
    let (x, m) = (f[i / 8], 0x80u8 >> ((i % 8) as u8));
    assert((x ^ m) ^ m == x) by (bit_vector);
    assert(flipped(g, i) =~= f);
}

} // verus!
