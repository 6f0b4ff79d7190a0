//! The receptive fields of a convolutional machine: rectangles of an input image.
use crate::bits::{bits_of, literals_of, no_bits, pack, words_for, words_needed};
use crate::encoder::encodes;
use vstd::prelude::*;

verus! {

/// How patches lie in an input of `input_rows` rows of `input_cols` features: rectangles that
/// slide by `stride` along both axes, row by row. A sequence is an input of one row.
#[derive(Clone, Copy, Debug)]
pub struct PatchGrid {
    pub input_rows: usize,
    pub input_cols: usize,
    pub patch_rows: usize,
    pub patch_cols: usize,
    pub stride: usize,
    /// The number of patches side by side.
    pub n_patch_cols: usize,
    pub n_patches: usize,
}

/// How often a window of `k` out of `n` places can be moved by `stride`, counting the start.
pub open spec fn placements(n: int, k: int, stride: int) -> int {
    (n - k) / stride + 1
}

impl PatchGrid {
    pub open spec fn wf(&self) -> bool {
        &&& 1 <= self.patch_rows <= self.input_rows
        &&& 1 <= self.patch_cols <= self.input_cols
        &&& self.stride >= 1
        &&& self.input_rows * self.input_cols <= usize::MAX
        &&& self.n_patch_cols == placements(
            self.input_cols as int,
            self.patch_cols as int,
            self.stride as int,
        )
        &&& self.n_patches == placements(
            self.input_rows as int,
            self.patch_rows as int,
            self.stride as int,
        ) * self.n_patch_cols
    }

    /// The number of features of a patch.
    pub open spec fn size(&self) -> int {
        self.patch_rows * self.patch_cols
    }

    /// The number of features of the input.
    pub open spec fn area(&self) -> int {
        self.input_rows * self.input_cols
    }

    /// Where patch `p` starts in the flattened input.
    pub open spec fn corner(&self, p: int) -> int {
        (p / self.n_patch_cols as int) * self.stride * self.input_cols + (p
            % self.n_patch_cols as int) * self.stride
    }

    /// Where feature `i` of patch `p` lies in the flattened input.
    pub open spec fn pixel(&self, p: int, i: int) -> int {
        self.corner(p) + (i / self.patch_cols as int) * self.input_cols + i % self.patch_cols as int
    }

    /// The features of patch `p`, row by row.
    pub open spec fn patch(&self, x: Seq<u8>, p: int) -> Seq<u8> {
        Seq::new(self.size() as nat, |i: int| x[self.pixel(p, i)])
    }

    /// The literals of all patches.
    pub open spec fn patch_bits(&self, x: Seq<u8>) -> Seq<Seq<bool>> {
        Seq::new(self.n_patches as nat, |p: int| literals_of(self.patch(x, p), self.size()))
    }

    /// A patch has at least one feature and at most as many as the input.
    pub proof fn lemma_size(&self)
        requires
            self.wf(),
        ensures
            1 <= self.size() <= self.area() <= usize::MAX,
    {
        assert(1 <= self.patch_rows * self.patch_cols <= self.input_rows * self.input_cols)
            by (nonlinear_arith)
            requires
                1 <= self.patch_rows <= self.input_rows,
                1 <= self.patch_cols <= self.input_cols,
        ;
    }

    /// Every feature of every patch lies in the input.
    pub proof fn lemma_pixel(&self, p: int, i: int)
        requires
            self.wf(),
            0 <= p < self.n_patches,
            0 <= i < self.size(),
        ensures
            0 <= i / self.patch_cols as int,
            i / (self.patch_cols as int) < self.patch_rows,
            0 <= i % self.patch_cols as int,
            i % (self.patch_cols as int) < self.patch_cols,
            0 <= self.corner(p),
            0 <= self.pixel(p, i),
            self.pixel(p, i) < self.area(),
    {
        let rows = self.input_rows as int;
        let cols = self.input_cols as int;
        let h = self.patch_rows as int;
        let w = self.patch_cols as int;
        let s = self.stride as int;
        let k = (rows - h) / s;
        let m = (cols - w) / s;
        let nc = self.n_patch_cols as int;
        assert(nc == m + 1);
        assert(0 <= k && k * s <= rows - h) by (nonlinear_arith)
            requires
                k == (rows - h) / s,
                rows >= h,
                s >= 1,
        ;
        assert(0 <= m && m * s <= cols - w) by (nonlinear_arith)
            requires
                m == (cols - w) / s,
                cols >= w,
                s >= 1,
        ;
        let q = i / w;
        let r = i % w;
        assert(0 <= q < h && 0 <= r < w) by (nonlinear_arith)
            requires
                q == i / w,
                r == i % w,
                0 <= i < h * w,
                w >= 1,
        ;
        assert(q * cols >= 0) by (nonlinear_arith)
            requires
                q >= 0,
                cols >= 0,
        ;
        let pr = p / nc;
        let pc = p % nc;
        assert(0 <= pr <= k && 0 <= pc <= m) by (nonlinear_arith)
            requires
                pr == p / nc,
                pc == p % nc,
                nc == m + 1,
                m >= 0,
                0 <= p < (k + 1) * nc,
        ;
        assert(0 <= pr * s <= rows - h) by (nonlinear_arith)
            requires
                0 <= pr <= k,
                k * s <= rows - h,
                s >= 1,
        ;
        assert(0 <= pc * s <= cols - w) by (nonlinear_arith)
            requires
                0 <= pc <= m,
                m * s <= cols - w,
                s >= 1,
        ;
        let top = pr * s;
        assert(top * cols >= 0) by (nonlinear_arith)
            requires
                top >= 0,
                cols >= 0,
        ;
        assert(top * cols + q * cols + cols <= rows * cols) by (nonlinear_arith)
            requires
                top + q + 1 <= rows,
                cols >= 0,
        ;
    }

    /// Lays patches out in an input.
    pub fn new(
        input_rows: usize,
        input_cols: usize,
        patch_rows: usize,
        patch_cols: usize,
        stride: usize,
    ) -> (r: Self)
        requires
            1 <= patch_rows <= input_rows,
            1 <= patch_cols <= input_cols,
            stride >= 1,
            input_rows * input_cols <= usize::MAX,
        ensures
            r.wf(),
            r.input_rows == input_rows,
            r.input_cols == input_cols,
            r.patch_rows == patch_rows,
            r.patch_cols == patch_cols,
            r.stride == stride,
    {
        let down: usize = (input_rows - patch_rows) / stride;
        let across: usize = (input_cols - patch_cols) / stride;
        proof {
            let dn = input_rows - patch_rows;
            let ac = input_cols - patch_cols;
            assert(down <= dn) by (nonlinear_arith)
                requires
                    down == dn / (stride as int),
                    dn >= 0,
                    stride >= 1,
            ;
            assert(across <= ac) by (nonlinear_arith)
                requires
                    across == ac / (stride as int),
                    ac >= 0,
                    stride >= 1,
            ;
            assert((down + 1) * (across + 1) <= input_rows * input_cols) by (nonlinear_arith)
                requires
                    0 <= down + 1 <= input_rows,
                    0 <= across + 1 <= input_cols,
            ;
        }
        PatchGrid {
            input_rows,
            input_cols,
            patch_rows,
            patch_cols,
            stride,
            n_patch_cols: across + 1,
            n_patches: (down + 1) * (across + 1),
        }
    }

    /// Packs the literals of patch `p` of an input.
    pub fn pack_patch(&self, x: &[u8], p: usize) -> (r: Vec<u64>)
        requires
            self.wf(),
            x@.len() == self.area(),
            p < self.n_patches,
            2 * self.size() <= usize::MAX,
        ensures
            encodes(r@, self.patch(x@, p as int), self.size()),
    {
        proof {
            self.lemma_size();
            self.lemma_pixel(p as int, 0);
        }
        let size: usize = self.patch_rows * self.patch_cols;
        let corner: usize = self.find_corner(p);
        let mut flat: Vec<u8> = Vec::with_capacity(size);
        let mut i: usize = 0;
        while i < size
            invariant
                self.wf(),
                x@.len() == self.area(),
                x@.len() <= usize::MAX,
                p < self.n_patches,
                size == self.size(),
                corner == self.corner(p as int),
                i <= size,
                flat@.len() == i,
                forall|k: int| 0 <= k < i ==> #[trigger] flat@[k] == self.patch(x@, p as int)[k],
            decreases size - i,
        {
            proof {
                self.lemma_pixel(p as int, i as int);
                let q = i as int / self.patch_cols as int;
                assert(q * self.input_cols >= 0) by (nonlinear_arith)
                    requires
                        q >= 0,
                        self.input_cols >= 0,
                ;
            }
            flat.push(x[corner + (i / self.patch_cols) * self.input_cols + i % self.patch_cols]);
            i = i + 1;
        }
        let mut r: Vec<u64> = no_bits(words_for(2 * size));
        pack(&flat, size, &mut r);
        proof {
            assert(flat@ =~= self.patch(x@, p as int));
        }
        r
    }

    /// Where patch `p` starts in the flattened input.
    fn find_corner(&self, p: usize) -> (r: usize)
        requires
            self.wf(),
            p < self.n_patches,
        ensures
            r == self.corner(p as int),
    {
        proof {
            self.lemma_size();
            self.lemma_pixel(p as int, 0);
            assert(0int / self.patch_cols as int == 0 && 0int % self.patch_cols as int == 0)
                by (nonlinear_arith)
                requires
                    self.patch_cols >= 1,
            ;
            assert(0 * self.input_cols == 0) by (nonlinear_arith);
        }
        proof {
            let pr = p as int / self.n_patch_cols as int;
            let pc = p as int % self.n_patch_cols as int;
            let s = self.stride as int;
            let cols = self.input_cols as int;
            assert(self.n_patch_cols >= 1) by (nonlinear_arith)
                requires
                    self.n_patch_cols == (cols - self.patch_cols) / s + 1,
                    cols >= self.patch_cols,
                    s >= 1,
            ;
            assert(pr >= 0 && pc >= 0) by (nonlinear_arith)
                requires
                    pr == p as int / self.n_patch_cols as int,
                    pc == p as int % self.n_patch_cols as int,
                    self.n_patch_cols >= 1,
            ;
            assert(pr * s >= 0 && pc * s >= 0) by (nonlinear_arith)
                requires
                    pr >= 0,
                    pc >= 0,
                    s >= 1,
            ;
            assert(pr * s * cols >= pr * s) by (nonlinear_arith)
                requires
                    pr * s >= 0,
                    cols >= 1,
            ;
        }
        (p / self.n_patch_cols) * self.stride * self.input_cols + (p % self.n_patch_cols)
            * self.stride
    }

    /// Packs the literals of all patches of an input.
    pub fn pack_all_patches(&self, x: &[u8]) -> (r: Vec<Vec<u64>>)
        requires
            self.wf(),
            x@.len() == self.area(),
            2 * self.size() <= usize::MAX,
        ensures
            r@.len() == self.n_patches,
            forall|p: int|
                0 <= p < r@.len() ==> encodes((#[trigger] r@[p])@, self.patch(x@, p), self.size()),
            packs(r@, self.patch_bits(x@), (2 * self.size()) as nat),
    {
        let mut r: Vec<Vec<u64>> = Vec::with_capacity(self.n_patches);
        let mut p: usize = 0;
        while p < self.n_patches
            invariant
                self.wf(),
                x@.len() == self.area(),
                2 * self.size() <= usize::MAX,
                p <= self.n_patches,
                r@.len() == p,
                forall|k: int|
                    0 <= k < p ==> encodes((#[trigger] r@[k])@, self.patch(x@, k), self.size()),
            decreases self.n_patches - p,
        {
            r.push(self.pack_patch(x, p));
            p = p + 1;
        }
        proof {
            let n = (2 * self.size()) as nat;
            assert forall|k: int| 0 <= k < r@.len() implies bits_of((#[trigger] r@[k])@, n)
                == self.patch_bits(x@)[k] by {
                assert(encodes(r@[k]@, self.patch(x@, k), self.size()));
                assert(bits_of(r@[k]@, n) =~= literals_of(self.patch(x@, k), self.size()));
            }
        }
        r
    }
}

/// Packed arrays hold the literals `bits`, `n` each.
pub open spec fn packs(ws: Seq<Vec<u64>>, bits: Seq<Seq<bool>>, n: nat) -> bool {
    &&& ws.len() == bits.len()
    &&& forall|p: int|
        0 <= p < ws.len() ==> (#[trigger] ws[p])@.len() == words_needed(n as int) && bits_of(ws[p]@, n)
            == bits[p]
}

} // verus!
