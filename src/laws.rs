//! Laws of the backdrop scan, stated over the spec model of the kernel.

use vstd::prelude::*;
use vstd::arithmetic::div_mod::lemma_mod_decreases;
use vstd::arithmetic::div_mod::lemma_fundamental_div_mod_converse;
use vstd::arithmetic::mul::lemma_mul_inequality;
use vstd::arithmetic::mul::lemma_mul_is_distributive_add;
use vstd::seq_lib::to_multiset_contains;
use vstd::seq_lib::to_multiset_len;
use crate::kernel::area;
use crate::kernel::height;
use crate::kernel::in_block;
use crate::kernel::path_fits;
use crate::kernel::row_start;
use crate::kernel::scan_path;
use crate::kernel::scan_paths;
use crate::kernel::scanned;
use crate::kernel::sum_range;
use crate::kernel::width;
use crate::kernel::wrap_i32;
use crate::kernel::lemma_wrap_small;
use crate::wire::PathDesc;

verus! {

/// The blocks of `p` and `q` share no tile.
pub open spec fn blocks_disjoint(p: PathDesc, q: PathDesc) -> bool {
    ||| !(width(p) > 0 && height(p) > 0)
    ||| !(width(q) > 0 && height(q) > 0)
    ||| p.tiles + area(p) <= q.tiles
    ||| q.tiles + area(q) <= p.tiles
}

/// The blocks of the first `n` shapes share no tile pairwise.
pub open spec fn pairwise_disjoint(paths: Seq<PathDesc>, n: int) -> bool {
    forall|a: int, b: int|
        0 <= a < n && 0 <= b < n && a != b ==> #[trigger] blocks_disjoint(paths[a], paths[b])
}

/// Tile `i` lies in the block of one of the first `n` shapes.
pub open spec fn in_some_block(paths: Seq<PathDesc>, n: int, i: int) -> bool {
    exists|k: int| 0 <= k < n && #[trigger] in_block(paths[k], i)
}

/// Scanning keeps the number of tiles.
proof fn lemma_scan_paths_len(t: Seq<i32>, paths: Seq<PathDesc>, n: int)
    ensures
        scan_paths(t, paths, n).len() == t.len(),
    decreases n,
{
    if n > 0 {
        lemma_scan_paths_len(t, paths, n - 1);
    }
}

/// A sum over a range reads only the range.
proof fn lemma_sum_range_local(t1: Seq<i32>, t2: Seq<i32>, lo: int, hi: int)
    requires
        forall|j: int| lo <= j < hi ==> t1[j] == t2[j],
    ensures
        sum_range(t1, lo, hi) == sum_range(t2, lo, hi),
    decreases hi - lo,
{
    if hi > lo {
        lemma_sum_range_local(t1, t2, lo, hi - 1);
    }
}

/// The row of a tile of the block starts inside the block.
proof fn lemma_row_start_in_block(p: PathDesc, i: int)
    requires
        in_block(p, i),
    ensures
        p.tiles <= row_start(p, i) <= i,
{
    lemma_mod_decreases((i - p.tiles) as nat, width(p) as nat);
}

/// Rows are independent: the scanned row that holds tile `i` depends only
/// on the original deltas of that same row, so rows may be processed in any
/// order.
pub proof fn lemma_rows_independent(t1: Seq<i32>, t2: Seq<i32>, p: PathDesc, i: int)
    requires
        t1.len() == t2.len(),
        0 <= i < t1.len(),
        in_block(p, i),
        forall|j: int| row_start(p, i) <= j <= i ==> t1[j] == t2[j],
    ensures
        scan_path(t1, p)[i] == scan_path(t2, p)[i],
{
    lemma_sum_range_local(t1, t2, row_start(p, i), i + 1);
}

/// A shape with an empty block fits every grid, whatever its tile index,
/// and scanning it changes nothing.
pub proof fn lemma_empty_shape(t: Seq<i32>, p: PathDesc, n_tiles: int)
    requires
        p.x0 <= p.x1,
        p.y0 <= p.y1,
        width(p) == 0 || height(p) == 0,
    ensures
        path_fits(p, n_tiles),
        scan_path(t, p) == t,
{
    assert(area(p) == 0);
    assert(scan_path(t, p) =~= t);
}

/// With pairwise disjoint blocks, scanning the shapes in sequence gives
/// each block exactly the scan of that block over the original grid, and
/// leaves every tile outside all blocks as it was.
pub proof fn lemma_disjoint_scan(t: Seq<i32>, paths: Seq<PathDesc>, n: int, i: int)
    requires
        0 <= n <= paths.len(),
        pairwise_disjoint(paths, n),
        0 <= i < t.len(),
    ensures
        scan_paths(t, paths, n).len() == t.len(),
        forall|k: int| 0 <= k < n && #[trigger] in_block(paths[k], i)
            ==> scan_paths(t, paths, n)[i] == scan_path(t, paths[k])[i],
        !in_some_block(paths, n, i) ==> scan_paths(t, paths, n)[i] == t[i],
    decreases n,
{
    if n > 0 {
        let s = scan_paths(t, paths, n - 1);
        let p = paths[n - 1];
        lemma_disjoint_scan(t, paths, n - 1, i);
        assert(pairwise_disjoint(paths, n - 1));
        if in_block(p, i) {
            assert forall|j: int| 0 <= j < t.len() && #[trigger] in_block(p, j) implies s[j] == t[j] by {
                lemma_disjoint_scan(t, paths, n - 1, j);
                if in_some_block(paths, n - 1, j) {
                    let k = choose|k: int| 0 <= k < n - 1 && #[trigger] in_block(paths[k], j);
                    assert(blocks_disjoint(paths[k], p));
                }
            }
            lemma_scan_path_local(s, t, p, i);
            assert forall|k: int| 0 <= k < n - 1 && #[trigger] in_block(paths[k], i) implies false by {
                assert(blocks_disjoint(paths[k], p));
            }
        } else {
            if in_some_block(paths, n, i) {
                let k = choose|k: int| 0 <= k < n && #[trigger] in_block(paths[k], i);
                assert(in_some_block(paths, n - 1, i));
            }
        }
    }
}

/// The scanned value of a tile of a block reads only that block: two
/// grids that agree on the block give the same scanned value.
pub proof fn lemma_scan_path_local(t1: Seq<i32>, t2: Seq<i32>, p: PathDesc, i: int)
    requires
        t1.len() == t2.len(),
        0 <= i < t1.len(),
        in_block(p, i),
        forall|j: int| 0 <= j < t1.len() && #[trigger] in_block(p, j) ==> t1[j] == t2[j],
    ensures
        scan_path(t1, p)[i] == scan_path(t2, p)[i],
{
    lemma_row_start_in_block(p, i);
    assert forall|j: int| row_start(p, i) <= j < i + 1 implies t1[j] == t2[j] by {
        assert(in_block(p, j));
    }
    lemma_sum_range_local(t1, t2, row_start(p, i), i + 1);
}

/// Row `y` of a shape's block lies inside the block.
proof fn lemma_row_in_block(p: PathDesc, y: int, x: int)
    requires
        width(p) > 0,
        0 <= y < height(p),
        0 <= x < width(p),
    ensures
        in_block(p, p.tiles + y * width(p) + x),
        row_start(p, p.tiles + y * width(p) + x) == p.tiles + y * width(p),
{
    let w = width(p);
    lemma_mul_inequality(y + 1, height(p), w);
    lemma_mul_is_distributive_add(w, y, 1);
    assert(area(p) == height(p) * w) by (nonlinear_arith)
        requires
            area(p) == width(p) * height(p),
            w == width(p),
    ;
    lemma_fundamental_div_mod_converse(y * w + x, w, y, x);
}

/// The first column of every row keeps its original delta after the whole
/// dispatch, when blocks are pairwise disjoint.
pub proof fn lemma_first_column(t: Seq<i32>, paths: Seq<PathDesc>, n: int, k: int, y: int)
    requires
        0 <= k < n <= paths.len(),
        pairwise_disjoint(paths, n),
        width(paths[k]) > 0,
        0 <= y < height(paths[k]),
        paths[k].tiles + area(paths[k]) <= t.len(),
    ensures
        ({
            let i = paths[k].tiles + y * width(paths[k]);
            scan_paths(t, paths, n)[i] == t[i]
        }),
{
    let p = paths[k];
    let i = p.tiles + y * width(p);
    lemma_row_in_block(p, y, 0);
    lemma_disjoint_scan(t, paths, n, i);
    assert(sum_range(t, i, i) == 0);
    assert(sum_range(t, i, i + 1) == t[i]);
    lemma_wrap_small(t[i] as int);
}

/// The last column of every row holds the sum of the row's original
/// deltas, reduced to 32 bits, after the whole dispatch, when blocks are
/// pairwise disjoint.
pub proof fn lemma_last_column(t: Seq<i32>, paths: Seq<PathDesc>, n: int, k: int, y: int)
    requires
        0 <= k < n <= paths.len(),
        pairwise_disjoint(paths, n),
        width(paths[k]) > 0,
        0 <= y < height(paths[k]),
        paths[k].tiles + area(paths[k]) <= t.len(),
    ensures
        ({
            let row = paths[k].tiles + y * width(paths[k]);
            let last = row + width(paths[k]) - 1;
            scan_paths(t, paths, n)[last] == wrap_i32(sum_range(t, row, row + width(paths[k])))
        }),
{
    let p = paths[k];
    let row = p.tiles + y * width(p);
    let last = row + width(p) - 1;
    lemma_row_in_block(p, y, width(p) - 1);
    lemma_disjoint_scan(t, paths, n, last);
}

/// Scanning one shape leaves every tile of a disjoint shape's block as it
/// was.
pub proof fn lemma_disjoint_block_untouched(t: Seq<i32>, a: PathDesc, b: PathDesc, i: int)
    requires
        blocks_disjoint(a, b),
        0 <= i < t.len(),
        in_block(b, i),
    ensures
        scan_path(t, a)[i] == t[i],
{
}

/// The order in which shapes are processed does not matter: two dispatch
/// lists holding the same shapes, each with pairwise disjoint blocks, give
/// the same backdrops.
pub proof fn lemma_shape_order_irrelevant(t: Seq<i32>, ps1: Seq<PathDesc>, ps2: Seq<PathDesc>)
    requires
        ps1.to_multiset() == ps2.to_multiset(),
        pairwise_disjoint(ps1, ps1.len() as int),
        pairwise_disjoint(ps2, ps2.len() as int),
    ensures
        scan_paths(t, ps1, ps1.len() as int) == scan_paths(t, ps2, ps2.len() as int),
{
    to_multiset_len(ps1);
    to_multiset_len(ps2);
    let n = ps1.len() as int;
    let r1 = scan_paths(t, ps1, n);
    let r2 = scan_paths(t, ps2, n);
    lemma_scan_paths_len(t, ps1, n);
    lemma_scan_paths_len(t, ps2, n);
    assert forall|i: int| 0 <= i < t.len() implies r1[i] == r2[i] by {
        lemma_disjoint_scan(t, ps1, n, i);
        lemma_disjoint_scan(t, ps2, n, i);
        if in_some_block(ps1, n, i) {
            let k = choose|k: int| 0 <= k < n && #[trigger] in_block(ps1[k], i);
            to_multiset_contains(ps1, ps1[k]);
            to_multiset_contains(ps2, ps1[k]);
            assert(ps1.contains(ps1[k]));
            let k2 = choose|k2: int| 0 <= k2 < n && ps2[k2] == ps1[k];
            assert(in_block(ps2[k2], i));
        } else if in_some_block(ps2, n, i) {
            let k = choose|k: int| 0 <= k < n && #[trigger] in_block(ps2[k], i);
            to_multiset_contains(ps2, ps2[k]);
            to_multiset_contains(ps1, ps2[k]);
            assert(ps2.contains(ps2[k]));
            let k1 = choose|k1: int| 0 <= k1 < n && ps1[k1] == ps2[k];
            assert(in_block(ps1[k1], i));
        }
    }
    assert(r1 =~= r2);
}

} // verus!
