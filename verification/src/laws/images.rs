//! Where the patches of an image lie.
use crate::bits::literals_of;
use crate::models::classification::patches::{placements, PatchGrid};
use vstd::arithmetic::div_mod::{
    lemma_fundamental_div_mod, lemma_fundamental_div_mod_converse,
};
use vstd::prelude::*;

verus! {

/// A window is placed as often as it fits: the last placement ends inside, one more would not.
pub proof fn lemma_placements_fit(n: int, k: int, stride: int)
    requires
        1 <= k <= n,
        stride >= 1,
    ensures
        placements(n, k, stride) >= 1,
        (placements(n, k, stride) - 1) * stride + k <= n < placements(n, k, stride) * stride + k,
{
    let q = (n - k) / stride;
    lemma_fundamental_div_mod(n - k, stride);
    assert(q >= 0 && q * stride <= n - k && n - k < (q + 1) * stride) by (nonlinear_arith)
        requires
            n - k == stride * q + (n - k) % stride,
            stride >= 1,
            n - k >= 0,
            q == (n - k) / stride,
    ;
}

/// The patch in row `down` and column `across` of the grid has its cell (`r`, `c`) at that distance
/// from its corner, and its corner at whole strides from that of the image. Its literals are those
/// of the cells, row by row.
pub proof fn lemma_patch_cells(
    grid: &PatchGrid,
    x: Seq<u8>,
    down: int,
    across: int,
    r: int,
    c: int,
)
    requires
        grid.wf(),
        0 <= down < placements(
            grid.input_rows as int,
            grid.patch_rows as int,
            grid.stride as int,
        ),
        0 <= across < grid.n_patch_cols,
        0 <= r < grid.patch_rows,
        0 <= c < grid.patch_cols,
    ensures
        ({
            let p = down * grid.n_patch_cols + across;
            let i = r * grid.patch_cols + c;
            let cell = x[(down * grid.stride + r) * grid.input_cols + across * grid.stride + c];
            &&& 0 <= p < grid.n_patches
            &&& 0 <= i < grid.patch_rows * grid.patch_cols
            &&& grid.patch(x, p).len() == grid.patch_rows * grid.patch_cols
            &&& grid.patch(x, p)[i] == cell
            &&& grid.patch_bits(x).len() == grid.n_patches
            &&& grid.patch_bits(x)[p][i] == (cell != 0)
            &&& grid.patch_bits(x)[p][grid.patch_rows * grid.patch_cols + i] == (cell == 0)
        }),
{
    let nc = grid.n_patch_cols as int;
    let pc = grid.patch_cols as int;
    let pr = grid.patch_rows as int;
    let rows = placements(grid.input_rows as int, pr, grid.stride as int);
    let p = down * nc + across;
    let i = r * pc + c;
    lemma_fundamental_div_mod_converse(p, nc, down, across);
    lemma_fundamental_div_mod_converse(i, pc, r, c);
    assert(0 <= p < rows * nc) by (nonlinear_arith)
        requires
            p == down * nc + across,
            0 <= down < rows,
            0 <= across < nc,
    ;
    assert(0 <= i < pr * pc) by (nonlinear_arith)
        requires
            i == r * pc + c,
            0 <= r < pr,
            0 <= c < pc,
    ;
    let s = grid.stride as int;
    let w = grid.input_cols as int;
    assert(grid.corner(p) == down * s * w + across * s);
    assert(grid.pixel(p, i) == down * s * w + across * s + r * w + c);
    assert((down * s + r) * w + across * s + c == down * s * w + across * s + r * w + c)
        by (nonlinear_arith);
    assert(grid.patch(x, p)[i] == x[grid.pixel(p, i)]);
    let lits = literals_of(grid.patch(x, p), grid.size());
    assert(grid.patch_bits(x)[p] == lits);
    assert(lits[i] == (grid.patch(x, p)[i] != 0));
    assert(lits[grid.size() + i] == (grid.patch(x, p)[i] == 0));
}

} // verus!
