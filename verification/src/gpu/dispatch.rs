//! How the steps of an epoch and the samples of a batch are cut into dispatches, and the
//! parameters of every step.
use crate::gpu::buffers::{lemma_image_len, lies_in_memory, memory_image, word_bytes, words_as_ints};
use vstd::prelude::*;

verus! {

/// The distance in bytes between the parameters of two steps.
pub const PARAM_STRIDE: usize = 256;

/// The number of steps of one submission.
pub const CHUNK: usize = 256;

/// The largest number of workgroups in one dimension of a dispatch.
pub const MAX_DISPATCH: usize = 65535;

/// The number of samples that one workgroup ranks.
pub const RANK_GROUP: usize = 128;

/// The blocks of `size` items that `n` items from `from` on are cut into, each as its start and its
/// length; the last may be shorter.
pub open spec fn blocks_from(n: int, size: int, from: int) -> Seq<(usize, usize)>
    decreases n - from,
{
    if from >= n || size <= 0 {
        seq![]
    } else {
        let len = if n - from < size {
            n - from
        } else {
            size
        };
        seq![(from as usize, len as usize)] + blocks_from(n, size, from + len)
    }
}

/// Cuts `n` items into blocks of `size`.
pub fn blocks(n: usize, size: usize) -> (r: Vec<(usize, usize)>)
    requires
        size >= 1,
    ensures
        r@ == blocks_from(n as int, size as int, 0),
{
    let mut r: Vec<(usize, usize)> = Vec::new();
    let mut from: usize = 0;
    proof {
        assert(r@ + blocks_from(n as int, size as int, 0) =~= blocks_from(n as int, size as int, 0));
    }
    while from < n
        invariant
            size >= 1,
            from <= n,
            r@ + blocks_from(n as int, size as int, from as int) == blocks_from(
                n as int,
                size as int,
                0,
            ),
        decreases n - from,
    {
        let len: usize = if n - from < size {
            n - from
        } else {
            size
        };
        let ghost before = r@;
        r.push((from, len));
        proof {
            let rest = blocks_from(n as int, size as int, from + len);
            assert(before + (seq![(from, len)] + rest) =~= r@ + rest);
        }
        from = from + len;
    }
    proof {
        assert(blocks_from(n as int, size as int, n as int) =~= seq![]);
        assert(r@ + seq![] =~= r@);
    }
    r
}

/// How many groups of `size` items `n` items need.
pub fn groups(n: usize, size: usize) -> (r: usize)
    requires
        size >= 1,
        n + size <= usize::MAX,
    ensures
        r == (n + size - 1) / (size as int),
{
    (n + (size - 1)) / size
}

/// The parameters of step `k`: the sample, the step, the label and the negative class.
pub open spec fn step_params(order: Seq<usize>, ys: Seq<usize>, negs: Seq<usize>, k: int) -> Seq<u32> {
    seq![order[k] as u32, k as u32, ys[order[k] as int] as u32, negs[k] as u32]
}

/// A slot holds the parameters of step `k` and zeros behind them.
pub open spec fn is_slot(b: Seq<u8>, params: Seq<u32>) -> bool {
    &&& b.len() == PARAM_STRIDE
    &&& lies_in_memory(b.take(16), words_as_ints(params), 4)
    &&& forall|i: int| 16 <= i < PARAM_STRIDE ==> #[trigger] b[i] == 0
}

/// Slot `k` of a buffer.
pub open spec fn slot(b: Seq<u8>, k: int) -> Seq<u8> {
    b.subrange(k * PARAM_STRIDE, (k + 1) * PARAM_STRIDE)
}

/// The bytes of four words.
proof fn lemma_four_words(b: Seq<u8>, v: Seq<int>)
    requires
        lies_in_memory(b, v, 4),
        v.len() == 4,
    ensures
        b.len() == 16,
{
    let little = choose|little: bool| b == #[trigger] memory_image(v, 4, 4, little);
    lemma_image_len(v, 4, little);
}

/// The parameters of all steps of an epoch, one slot each.
pub fn sample_params(order: &[usize], ys: &[usize], negs: &[usize]) -> (r: Vec<u8>)
    requires
        negs@.len() == order@.len(),
        forall|k: int| 0 <= k < order@.len() ==> #[trigger] order@[k] < ys@.len(),
        order@.len() * PARAM_STRIDE <= usize::MAX,
    ensures
        r@.len() == order@.len() * PARAM_STRIDE,
        forall|k: int|
            0 <= k < order@.len() ==> is_slot(#[trigger] slot(r@, k), step_params(order@, ys@, negs@, k)),
{
    let mut r: Vec<u8> = Vec::new();
    let mut k: usize = 0;
    while k < order.len()
        invariant
            negs@.len() == order@.len(),
            forall|k: int| 0 <= k < order@.len() ==> #[trigger] order@[k] < ys@.len(),
            k <= order@.len(),
            r@.len() == k * 256,
            forall|j: int|
                0 <= j < k ==> is_slot(#[trigger] slot(r@, j), step_params(order@, ys@, negs@, j)),
        decreases order@.len() - k,
    {
        let ghost before = r@;
        let sample: usize = order[k];
        let params: Vec<u32> = vec![sample as u32, k as u32, ys[sample] as u32, negs[k] as u32];
        let bytes: Vec<u8> = word_bytes(&params);
        proof {
            assert(params@ =~= step_params(order@, ys@, negs@, k as int));
            lemma_four_words(bytes@, words_as_ints(params@));
        }
        let mut i: usize = 0;
        while i < PARAM_STRIDE
            invariant
                i <= PARAM_STRIDE,
                bytes@.len() == 16,
                r@.len() == before.len() + i,
                forall|j: int| 0 <= j < before.len() ==> #[trigger] r@[j] == before[j],
                forall|j: int|
                    0 <= j < i ==> #[trigger] r@[before.len() + j] == if j < 16 {
                        bytes@[j]
                    } else {
                        0u8
                    },
            decreases PARAM_STRIDE - i,
        {
            r.push(
                if i < 16 {
                    bytes[i]
                } else {
                    0
                },
            );
            i = i + 1;
        }
        proof {
            assert forall|j: int| 0 <= j < k + 1 implies is_slot(
                #[trigger] slot(r@, j),
                step_params(order@, ys@, negs@, j),
            ) by {
                if j < k {
                    assert(slot(r@, j) =~= slot(before, j));
                } else {
                    let s = slot(r@, j);
                    assert forall|i: int| 0 <= i < 256 implies #[trigger] s[i] == if i < 16 {
                        bytes@[i]
                    } else {
                        0u8
                    } by {
                        assert(s[i] == r@[before.len() + i]);
                    }
                    assert(s.take(16) =~= bytes@);
                }
            }
        }
        k = k + 1;
    }
    r
}

/// The parameters of one block of a batch: the number of samples, and where the block starts.
pub fn infer_params(n: usize, offset: usize) -> (r: Vec<u8>)
    ensures
        lies_in_memory(r@, words_as_ints(seq![n as u32, offset as u32]), 4),
{
    let params: Vec<u32> = vec![n as u32, offset as u32];
    proof {
        assert(params@ =~= seq![n as u32, offset as u32]);
    }
    word_bytes(&params)
}

} // verus!
