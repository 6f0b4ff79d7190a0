//! What a device is handed, and how work is cut for it.
use crate::clause_bank::feedback::{weights_of, ClassBank, ClassModel, Clause, ClauseModel};
use crate::dyadic::Dyadic;
use crate::gpu::buffers::{
    bound_rows, bounds_of, counters_of, halves, halves_of, included_words, machine_counters,
    machine_included, machine_streams, machine_weights, memory_image, packed_digits, streams_of,
};
use crate::gpu::dispatch::{blocks_from, RANK_GROUP};
use crate::gpu::plan::{padded, shard_negs, shard_order, step_negs, step_rng};
use crate::gpu::session::{is_predict_block, PredictBlock, Session, AUTO_REPLICAS};
use crate::laws::counting::lemma_flatten_step;
use crate::laws::training::lemma_other_is_other;
use crate::models::classification::data_parallel::{lemma_share_grows, share_len};
use crate::rng::rng_next;
use crate::serial::le_of;
use vstd::arithmetic::div_mod::lemma_fundamental_div_mod;
use vstd::arithmetic::power2::{lemma_pow2_adds, lemma_pow2_pos, lemma_pow2_unfold, pow2};
use vstd::prelude::*;

verus! {

proof fn lemma_flat_none<A>(s: Seq<Seq<A>>)
    ensures
        s.take(0).flatten() == Seq::<A>::empty(),
{
    assert(s.take(0).flatten() =~= Seq::empty());
}

proof fn lemma_blocks_from(n: int, size: int, from: int)
    requires
        0 <= from <= n <= usize::MAX,
        1 <= size,
    ensures
        ({
            let blocks = blocks_from(n, size, from);
            &&& blocks.map_values(
                |b: (usize, usize)| Seq::new(b.1 as nat, |i: int| b.0 + i),
            ).flatten() == Seq::new((n - from) as nat, |i: int| from + i)
            &&& forall|k: int| 0 <= k < blocks.len() ==> 1 <= (#[trigger] blocks[k]).1 <= size
            &&& forall|k: int|
                0 <= k < blocks.len() - 1 ==> (#[trigger] blocks[k]).1 == size
        }),
    decreases n - from,
{
    let spread = |b: (usize, usize)| Seq::new(b.1 as nat, |i: int| b.0 + i);
    let blocks = blocks_from(n, size, from);
    if from < n {
        let len = if n - from < size {
            n - from
        } else {
            size
        };
        lemma_blocks_from(n, size, from + len);
        let rest = blocks_from(n, size, from + len);
        let first = (from as usize, len as usize);
        assert(blocks == seq![first] + rest);
        assert(blocks.map_values(spread).drop_first() =~= rest.map_values(spread));
        assert(blocks.map_values(spread).first() == spread(first));
        assert(blocks.map_values(spread).flatten() =~= Seq::new(
            (n - from) as nat,
            |i: int| from + i,
        ));
        assert forall|k: int| 0 <= k < blocks.len() implies 1 <= (#[trigger] blocks[k]).1 <= size by {
            if k > 0 {
                assert(blocks[k] == rest[k - 1]);
            }
        }
        assert forall|k: int| 0 <= k < blocks.len() - 1 implies (#[trigger] blocks[k]).1 == size by {
            if k > 0 {
                assert(blocks[k] == rest[k - 1]);
            } else {
                assert(rest.len() > 0);
            }
        }
    } else {
        assert(blocks.map_values(spread).flatten() =~= Seq::new(0, |i: int| from + i));
    }
}

/// Cutting work into blocks leaves nothing out and does nothing twice: one after the other the
/// blocks cover the items from the first to the last. No block is empty or larger than asked for,
/// and only the last may be smaller.
pub proof fn lemma_blocks_cover(n: int, size: int)
    requires
        0 <= n <= usize::MAX,
        1 <= size,
    ensures
        ({
            let blocks = blocks_from(n, size, 0);
            &&& blocks.map_values(
                |b: (usize, usize)| Seq::new(b.1 as nat, |i: int| b.0 + i),
            ).flatten() == Seq::new(n as nat, |i: int| i)
            &&& forall|k: int| 0 <= k < blocks.len() ==> 1 <= (#[trigger] blocks[k]).1 <= size
            &&& forall|k: int|
                0 <= k < blocks.len() - 1 ==> (#[trigger] blocks[k]).1 == size
        }),
{
    lemma_blocks_from(n, size, 0);
    assert(Seq::new((n - 0) as nat, |i: int| 0 + i) =~= Seq::new(n as nat, |i: int| i));
}

proof fn lemma_counters_lie(cs: Seq<ClauseModel>, n: nat)
    requires
        n <= cs.len(),
    ensures
        counters_of(cs, n) == cs.map_values(|c: ClauseModel| c.auto.ta).take(n as int).flatten(),
    decreases n,
{
    let all = cs.map_values(|c: ClauseModel| c.auto.ta);
    if n > 0 {
        lemma_counters_lie(cs, (n - 1) as nat);
        lemma_flatten_step(all, (n - 1) as nat);
    } else {
        lemma_flat_none(all);
    }
}

/// The counters, weights and streams of a machine lie class by class, and within a class clause by
/// clause.
pub proof fn lemma_machine_lies(ms: Seq<ClassModel>, n: nat)
    requires
        n <= ms.len(),
    ensures
        machine_counters(ms, n) == ms.map_values(
            |c: ClassModel| c.clauses.map_values(|k: ClauseModel| k.auto.ta).flatten(),
        ).take(n as int).flatten(),
        machine_weights(ms, n) == ms.map_values(
            |c: ClassModel| c.clauses.map_values(|k: ClauseModel| k.weight),
        ).take(n as int).flatten(),
        machine_streams(ms, n) == ms.map_values(
            |c: ClassModel| c.clauses.map_values(|k: ClauseModel| k.rng),
        ).take(n as int).flatten(),
    decreases n,
{
    let counters = ms.map_values(
        |c: ClassModel| c.clauses.map_values(|k: ClauseModel| k.auto.ta).flatten(),
    );
    let weights = ms.map_values(|c: ClassModel| c.clauses.map_values(|k: ClauseModel| k.weight));
    let streams = ms.map_values(|c: ClassModel| c.clauses.map_values(|k: ClauseModel| k.rng));
    if n > 0 {
        lemma_machine_lies(ms, (n - 1) as nat);
        let cs = ms[n - 1].clauses;
        let own = cs.map_values(|k: ClauseModel| k.auto.ta);
        lemma_counters_lie(cs, cs.len());
        assert(own.take(cs.len() as int) =~= own);
        lemma_flatten_step(counters, (n - 1) as nat);
        lemma_flatten_step(weights, (n - 1) as nat);
        lemma_flatten_step(streams, (n - 1) as nat);
        assert(weights[n - 1] =~= weights_of(cs));
        assert(streams[n - 1] =~= streams_of(cs));
    } else {
        lemma_flat_none(counters);
        lemma_flat_none(weights);
        lemma_flat_none(streams);
    }
}

proof fn lemma_included_lie(cs: Seq<Clause>, n: nat)
    requires
        n <= cs.len(),
    ensures
        included_words(cs, n) == cs.map_values(|c: Clause| c.auto.inc@).take(n as int).flatten(),
    decreases n,
{
    let all = cs.map_values(|c: Clause| c.auto.inc@);
    if n > 0 {
        lemma_included_lie(cs, (n - 1) as nat);
        lemma_flatten_step(all, (n - 1) as nat);
    } else {
        lemma_flat_none(all);
    }
}

/// The bits of the included literals lie class by class, and within a class clause by clause.
pub proof fn lemma_machine_included_lies(bs: Seq<ClassBank>, n: nat)
    requires
        n <= bs.len(),
    ensures
        machine_included(bs, n) == bs.map_values(
            |b: ClassBank| b.clauses@.map_values(|c: Clause| c.auto.inc@).flatten(),
        ).take(n as int).flatten(),
    decreases n,
{
    let all = bs.map_values(
        |b: ClassBank| b.clauses@.map_values(|c: Clause| c.auto.inc@).flatten(),
    );
    if n > 0 {
        lemma_machine_included_lies(bs, (n - 1) as nat);
        let cs = bs[n - 1].clauses@;
        let own = cs.map_values(|c: Clause| c.auto.inc@);
        lemma_included_lie(cs, cs.len());
        assert(own.take(cs.len() as int) =~= own);
        lemma_flatten_step(all, (n - 1) as nat);
    } else {
        lemma_flat_none(all);
    }
}

/// A word of 64 bits is two of 32: the lower half comes first, and together they are the word.
pub proof fn lemma_halves_lie(s: Seq<u64>, n: nat, i: int)
    requires
        n <= s.len(),
        0 <= i < n,
    ensures
        halves_of(s, n).len() == 2 * n,
        s[i] == halves_of(s, n)[2 * i] + 0x1_0000_0000 * halves_of(s, n)[2 * i + 1],
    decreases n,
{
    lemma_halves_len(s, n);
    lemma_halves_len(s, (n - 1) as nat);
    let before = halves_of(s, (n - 1) as nat);
    if i < n - 1 {
        lemma_halves_lie(s, (n - 1) as nat, i);
        assert(halves_of(s, n)[2 * i] == before[2 * i]);
        assert(halves_of(s, n)[2 * i + 1] == before[2 * i + 1]);
    } else {
        assert(halves_of(s, n)[2 * i] == halves(s[i])[0]);
        assert(halves_of(s, n)[2 * i + 1] == halves(s[i])[1]);
    }
}

proof fn lemma_halves_len(s: Seq<u64>, n: nat)
    ensures
        halves_of(s, n).len() == 2 * n,
    decreases n,
{
    if n > 0 {
        lemma_halves_len(s, (n - 1) as nat);
    }
}

/// Numbers lie in memory one after the other, each in as many bytes, with the lowest byte first or
/// last.
pub proof fn lemma_memory_lies(vs: Seq<int>, n: nat, k: nat)
    requires
        k <= vs.len(),
    ensures
        memory_image(vs, n, k, true) == vs.map_values(|v: int| le_of(v, n)).take(
            k as int,
        ).flatten(),
        memory_image(vs, n, k, false) == vs.map_values(|v: int| le_of(v, n).reverse()).take(
            k as int,
        ).flatten(),
    decreases k,
{
    let up = vs.map_values(|v: int| le_of(v, n));
    let down = vs.map_values(|v: int| le_of(v, n).reverse());
    if k > 0 {
        lemma_memory_lies(vs, n, (k - 1) as nat);
        lemma_flatten_step(up, (k - 1) as nat);
        lemma_flatten_step(down, (k - 1) as nat);
    } else {
        lemma_flat_none(up);
        lemma_flat_none(down);
    }
}

/// The tables of bounds of the classes follow one another.
pub proof fn lemma_tables_follow(threshold: int, ws: Seq<Dyadic>, target: bool, n: nat)
    requires
        n <= ws.len(),
    ensures
        bound_rows(threshold, ws, target, n) == ws.map_values(
            |w: Dyadic| bounds_of(threshold, w, target),
        ).take(n as int).flatten(),
    decreases n,
{
    let all = ws.map_values(|w: Dyadic| bounds_of(threshold, w, target));
    if n > 0 {
        lemma_tables_follow(threshold, ws, target, (n - 1) as nat);
        lemma_flatten_step(all, (n - 1) as nat);
    } else {
        lemma_flat_none(all);
    }
}

/// Bit `i` of packed digits is digit `i`.
pub proof fn lemma_digits_are_bits(digits: Seq<u8>, n: nat, i: int)
    requires
        0 <= i < n,
    ensures
        0 <= packed_digits(digits, n) < pow2(n),
        (packed_digits(digits, n) / pow2(i as nat) as int) % 2 == if digits[i] != 0 {
            1int
        } else {
            0
        },
    decreases n,
{
    let k = (n - 1) as nat;
    let low = packed_digits(digits, k);
    lemma_packed_small(digits, n);
    lemma_packed_small(digits, k);
    let b = pow2(i as nat) as int;
    lemma_pow2_pos(i as nat);
    if i == k {
        let d = if digits[i] != 0 {
            1int
        } else {
            0
        };
        assert((low + d * b) / b == d) by (nonlinear_arith)
            requires
                0 <= low < b,
                d == 0 || d == 1,
        ;
    } else {
        lemma_digits_are_bits(digits, k, i);
        lemma_pow2_adds(i as nat, (k - i) as nat);
        lemma_pow2_unfold((k - i) as nat);
        let e = pow2((k - i - 1) as nat) as int;
        let top = pow2(k) as int;
        assert(top == b * (2 * e));
        let q = low / b;
        lemma_fundamental_div_mod(low, b);
        let r = low % b;
        assert(0 <= r < b) by (nonlinear_arith)
            requires
                r == low % b,
                b > 0,
        ;
        if digits[k as int] != 0 {
            assert((low + top) / b == q + 2 * e) by (nonlinear_arith)
                requires
                    low == b * q + r,
                    0 <= r < b,
                    top == b * (2 * e),
            ;
        }
    }
}

proof fn lemma_packed_small(digits: Seq<u8>, n: nat)
    ensures
        0 <= packed_digits(digits, n) < pow2(n),
    decreases n,
{
    if n > 0 {
        lemma_packed_small(digits, (n - 1) as nat);
        lemma_pow2_unfold(n);
    } else {
        lemma_pow2_pos(0);
    }
}

/// The class that each planned step trains against is a class, and never the sample's own.
pub proof fn lemma_planned_negatives(s: u64, n_classes: int, ys: Seq<usize>, order: Seq<usize>, k: int)
    requires
        2 <= n_classes <= usize::MAX,
        0 <= k < order.len(),
    ensures
        step_negs(s, n_classes, ys, order).len() == order.len(),
        step_negs(s, n_classes, ys, order)[k] < n_classes,
        step_negs(s, n_classes, ys, order)[k] != ys[order[k] as int],
{
    lemma_other_is_other(
        step_rng(s, n_classes, ys, order, k as nat),
        n_classes,
        ys[order[k] as int] as int,
    );
}

/// The negative classes of the shards lie in rows of equal length: row `r` begins with those of
/// shard `r`, and the rest of it is 0.
pub proof fn lemma_shards_lie_in_rows(
    seeds: Seq<u64>,
    n_classes: int,
    ys: Seq<usize>,
    order: Seq<usize>,
    n: nat,
    r: int,
    k: int,
)
    requires
        n <= seeds.len(),
        0 <= r < n,
        0 <= k < share_len(order.len() as int, seeds.len() as int),
    ensures
        ({
            let len = share_len(order.len() as int, seeds.len() as int);
            let shard = shard_order(order, seeds.len() as int, r);
            &&& shard_negs(seeds, n_classes, ys, order, n).len() == n * len
            &&& shard_negs(seeds, n_classes, ys, order, n)[r * len + k] == if k < shard.len() {
                step_negs(rng_next(seeds[r]), n_classes, ys, shard)[k]
            } else {
                0
            }
        }),
    decreases n,
{
    let len = share_len(order.len() as int, seeds.len() as int);
    lemma_rows_len(seeds, n_classes, ys, order, n);
    lemma_rows_len(seeds, n_classes, ys, order, (n - 1) as nat);
    let before = shard_negs(seeds, n_classes, ys, order, (n - 1) as nat);
    let all = shard_negs(seeds, n_classes, ys, order, n);
    if r < n - 1 {
        lemma_shards_lie_in_rows(seeds, n_classes, ys, order, (n - 1) as nat, r, k);
        assert(0 <= r * len + k < (n - 1) * len) by (nonlinear_arith)
            requires
                0 <= r < n - 1,
                0 <= k < len,
        ;
        assert(all[r * len + k] == before[r * len + k]);
    } else {
        lemma_shard_short(order, seeds.len() as int, r);
        assert(r * len == (n - 1) * len);
        assert(all[r * len + k] == padded(
            step_negs(rng_next(seeds[r]), n_classes, ys, shard_order(order, seeds.len() as int, r)),
            len,
            0,
        )[k]);
    }
}

proof fn lemma_shard_short(order: Seq<usize>, shards: int, r: int)
    requires
        shards >= 1,
        r >= 0,
    ensures
        shard_order(order, shards, r).len() <= share_len(order.len() as int, shards),
        share_len(order.len() as int, shards) >= 0,
{
    let n = order.len() as int;
    let len = share_len(n, shards);
    lemma_share_grows(n, shards, r);
    assert(len >= 0) by (nonlinear_arith)
        requires
            len == (n + shards - 1) / shards,
            n >= 0,
            shards >= 1,
    ;
    assert((r + 1) * len == r * len + len) by (nonlinear_arith);
}

proof fn lemma_rows_len(seeds: Seq<u64>, n_classes: int, ys: Seq<usize>, order: Seq<usize>, n: nat)
    requires
        n <= seeds.len(),
        seeds.len() >= 1,
    ensures
        shard_negs(seeds, n_classes, ys, order, n).len() == n * share_len(
            order.len() as int,
            seeds.len() as int,
        ),
    decreases n,
{
    let len = share_len(order.len() as int, seeds.len() as int);
    if n > 0 {
        lemma_rows_len(seeds, n_classes, ys, order, (n - 1) as nat);
        lemma_shard_short(order, seeds.len() as int, n - 1);
        assert(n * len == (n - 1) * len + len) by (nonlinear_arith);
    } else {
        assert(0 * len == 0) by (nonlinear_arith);
    }
}

/// As many replicas are trained as were asked for and as there are samples for and room: each has
/// its counters and its included literals on the device. Unless replicas are wanted there is one.
pub proof fn lemma_replicas_fill_the_room(s: &Session, n: int)
    requires
        s.counter_bytes() > 0,
        s.included_bytes() > 0,
        n >= 0,
    ensures
        ({
            let count = s.replica_count(n);
            let wanted = match s.replicas {
                Some(r) => r as int,
                None => AUTO_REPLICAS as int,
            };
            &&& count >= 1
            &&& !s.host.config.data_parallel ==> count == 1
            &&& count > 1 ==> count <= n && count <= wanted && count * s.counter_bytes() <= s.room
                && count * s.included_bytes() <= s.room
            &&& s.host.config.data_parallel ==> count + 1 > n || count + 1 > wanted || (count + 1)
                * s.counter_bytes() > s.room || (count + 1) * s.included_bytes() > s.room
        }),
{
    let a = s.counter_bytes();
    let b = s.included_bytes();
    let room = s.room as int;
    lemma_fundamental_div_mod(room, a);
    lemma_fundamental_div_mod(room, b);
    let p = room / a;
    let q = room / b;
    let count = s.replica_count(n);
    assert(0 <= room % a < a && 0 <= room % b < b) by (nonlinear_arith)
        requires
            a > 0,
            b > 0,
    ;
    assert(count <= p ==> count * a <= room) by (nonlinear_arith)
        requires
            room == a * p + room % a,
            0 <= room % a,
            a > 0,
    ;
    assert(count <= q ==> count * b <= room) by (nonlinear_arith)
        requires
            room == b * q + room % b,
            0 <= room % b,
            b > 0,
    ;
    assert(count >= p ==> (count + 1) * a > room) by (nonlinear_arith)
        requires
            room == a * p + room % a,
            room % a < a,
            a > 0,
    ;
    assert(count >= q ==> (count + 1) * b > room) by (nonlinear_arith)
        requires
            room == b * q + room % b,
            room % b < b,
            b > 0,
    ;
}

/// As many groups rank the samples of a block as hold them all: one less would not.
pub proof fn lemma_groups_hold_block(b: PredictBlock, cut: (usize, usize), n: usize)
    requires
        is_predict_block(b, cut, n),
        cut.1 >= 1,
    ensures
        b.start == cut.0,
        b.len == cut.1,
        (b.groups - 1) * RANK_GROUP < b.len <= b.groups * RANK_GROUP,
{
}

} // verus!
