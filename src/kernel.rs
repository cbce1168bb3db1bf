//! The backdrop accumulation kernel: an inclusive left-to-right prefix sum of
//! the winding deltas along every row of every shape's tile block, restarted
//! at each row. Sums use 32-bit two's-complement wrapping addition, as the
//! compute shader's `i32` arithmetic does.

use vstd::prelude::*;
use vstd::arithmetic::div_mod::lemma_fundamental_div_mod_converse;
use vstd::arithmetic::mul::lemma_mul_inequality;
use vstd::arithmetic::mul::lemma_mul_is_distributive_add;
use crate::wire::Config;
use crate::wire::PathDesc;
use crate::wire::PATH_SIZE;
use crate::wire::paths_of;
use crate::wire::read_path;
use crate::wire::backdrops;
use crate::wire::tile_count;
use crate::wire::get_backdrop;
use crate::wire::set_backdrop;
use crate::wire::TILE_SIZE;

verus! {

/// Failures of the backdrop stage; none of them leaves any buffer changed.
#[derive(Clone, Copy, Debug, PartialEq, Eq)]
pub enum BackdropError {
    /// The number of resource slots is not the number the stage declares.
    BindingCountMismatch { expected: usize, found: usize },
    /// A slot's kind or byte size does not match the record it must hold.
    BindingLayoutMismatch { slot: usize },
    /// Shape `shape` has an inverted bounding box, is missing from the path
    /// table, or has a tile block that reaches past the end of the tile grid.
    IndexOutOfRange { shape: u32 },
}

/// Two to the 32nd.
pub open spec fn modulus() -> int {
    0x1_0000_0000
}

/// `x` reduced to a 32-bit two's-complement integer.
pub open spec fn wrap_i32(x: int) -> i32 {
    let m = x % modulus();
    (if m >= 0x8000_0000 {
        m - modulus()
    } else {
        m
    }) as i32
}

/// The integer sum of `t[lo..hi]`.
pub open spec fn sum_range(t: Seq<i32>, lo: int, hi: int) -> int
    decreases hi - lo,
{
    if hi <= lo {
        0
    } else {
        sum_range(t, lo, hi - 1) + t[hi - 1]
    }
}

/// Number of tiles in each row of the shape's block.
pub open spec fn width(p: PathDesc) -> int {
    p.x1 - p.x0
}

/// Number of rows in the shape's block.
pub open spec fn height(p: PathDesc) -> int {
    p.y1 - p.y0
}

/// Number of tiles in the shape's block.
pub open spec fn area(p: PathDesc) -> int {
    width(p) * height(p)
}

/// Whether tile index `i` belongs to the shape's block.
pub open spec fn in_block(p: PathDesc, i: int) -> bool {
    width(p) > 0 && height(p) > 0 && p.tiles <= i < p.tiles + area(p)
}

/// Index of the first tile of the row that holds tile `i` of the block.
pub open spec fn row_start(p: PathDesc, i: int) -> int {
    i - (i - p.tiles) % width(p)
}

/// The value that tile `i` of the block holds once the block is scanned:
/// the wrapped sum of the row's deltas from its first column through `i`.
pub open spec fn scanned(t: Seq<i32>, p: PathDesc, i: int) -> i32 {
    wrap_i32(sum_range(t, row_start(p, i), i + 1))
}

/// The backdrops after one shape's block is scanned; tiles outside the
/// block keep their value.
pub open spec fn scan_path(t: Seq<i32>, p: PathDesc) -> Seq<i32> {
    Seq::new(t.len(), |i: int| if in_block(p, i) { scanned(t, p, i) } else { t[i] })
}

/// The backdrops after the first `n` shapes are scanned, in order.
pub open spec fn scan_paths(t: Seq<i32>, paths: Seq<PathDesc>, n: int) -> Seq<i32>
    decreases n,
{
    if n <= 0 {
        t
    } else {
        scan_path(scan_paths(t, paths, n - 1), paths[n - 1])
    }
}

/// A shape's bounding box is ordered and its block lies inside a grid of
/// `n_tiles` tiles; an empty block addresses nothing and always fits.
pub open spec fn path_fits(p: PathDesc, n_tiles: int) -> bool {
    &&& p.x0 <= p.x1
    &&& p.y0 <= p.y1
    &&& (area(p) == 0 || p.tiles + area(p) <= n_tiles)
}

/// Shape `k` of the dispatch is present in the table and fits the grid.
pub open spec fn shape_ok(paths: Seq<PathDesc>, k: int, n_tiles: int) -> bool {
    k < paths.len() && path_fits(paths[k], n_tiles)
}

/// All of the first `n` shapes are present and fit the grid.
pub open spec fn all_fit(paths: Seq<PathDesc>, n: int, n_tiles: int) -> bool {
    forall|k: int| 0 <= k < n ==> #[trigger] shape_ok(paths, k, n_tiles)
}

/// `s` is the first of the first `n` shapes that does not fit.
pub open spec fn first_bad(paths: Seq<PathDesc>, n: int, n_tiles: int, s: int) -> bool {
    &&& 0 <= s < n
    &&& !shape_ok(paths, s, n_tiles)
    &&& all_fit(paths, s, n_tiles)
}

/// The bytes of a tile buffer outside the backdrop fields are the same in
/// `a` and `b`.
pub open spec fn same_other_bytes(a: Seq<u8>, b: Seq<u8>) -> bool {
    &&& a.len() == b.len()
    &&& forall|j: int|
        0 <= j < a.len() && !(j < TILE_SIZE * tile_count(a) && j % (TILE_SIZE as int) < 4)
            ==> #[trigger] b[j] == a[j]
}

/// Reduction is unchanged by adding multiples of two to the 32nd.
proof fn lemma_wrap_add(a: int, b: int)
    ensures
        wrap_i32(wrap_i32(a) + b) == wrap_i32(a + b),
{
    let m = modulus();
    let c = (a + b) % m;
    let e: int = if a % m >= 0x8000_0000 { 1 } else { 0 };
    assert(wrap_i32(a) == a % m - e * m);
    assert(a == (a / m) * m + a % m);
    assert(a + b == ((a + b) / m) * m + c);
    assert(wrap_i32(a) + b == ((a + b) / m - a / m - e) * m + c) by (nonlinear_arith)
        requires
            wrap_i32(a) == a % m - e * m,
            a == (a / m) * m + a % m,
            a + b == ((a + b) / m) * m + c,
    ;
    lemma_fundamental_div_mod_converse(wrap_i32(a) + b, m, (a + b) / m - a / m - e, c);
}

/// A value in range is its own reduction.
pub(crate) proof fn lemma_wrap_small(x: int)
    requires
        -0x8000_0000 <= x < 0x8000_0000,
    ensures
        wrap_i32(x) == x,
{
    if x >= 0 {
        lemma_fundamental_div_mod_converse(x, modulus(), 0, x);
    } else {
        lemma_fundamental_div_mod_converse(x, modulus(), -1, x + modulus());
    }
}

/// Wrapping addition of two `i32`s is the reduction of their sum.
proof fn lemma_wrapping_add(x: i32, y: i32)
    ensures
        x.wrapping_add(y) == wrap_i32(x + y),
{
    let s = x + y;
    if s > i32::MAX {
        lemma_fundamental_div_mod_converse(s, modulus(), 0, s);
    } else if s < i32::MIN {
        lemma_fundamental_div_mod_converse(s, modulus(), -1, s + modulus());
    } else {
        lemma_wrap_small(s);
    }
}

/// The backdrops part-way through scanning a block: the first `done` tiles
/// of the block are scanned, the rest keep their value.
spec fn scan_prefix(t: Seq<i32>, p: PathDesc, done: int) -> Seq<i32> {
    Seq::new(t.len(), |i: int| if in_block(p, i) && i < p.tiles + done { scanned(t, p, i) } else { t[i] })
}

/// Scans one shape's block of the tile grid in place.
#[verifier::rlimit(40)]
fn scan_block(tiles: &mut Vec<u8>, p: PathDesc)
    requires
        path_fits(p, tile_count(old(tiles)@)),
    ensures
        backdrops(final(tiles)@) == scan_path(backdrops(old(tiles)@), p),
        same_other_bytes(old(tiles)@, final(tiles)@),
{
    let ghost t0 = backdrops(tiles@);
    let wd: u32 = p.x1 - p.x0;
    let h: u32 = p.y1 - p.y0;
    if wd == 0 || h == 0 {
        assert(scan_path(t0, p) =~= t0);
        return;
    }
    let n_bytes = tiles.len();
    assert(area(p) > 0) by (nonlinear_arith)
        requires
            area(p) == width(p) * height(p),
            width(p) > 0,
            height(p) > 0,
    ;
    let w = wd as usize;
    let base = p.tiles as usize;
    let mut row: usize = base;
    let mut y: u32 = 0;
    proof {
        assert(scan_prefix(t0, p, 0) =~= t0);
    }
    while y < h
        invariant
            w == width(p),
            w > 0,
            h == height(p),
            base == p.tiles,
            p.tiles + area(p) <= tile_count(old(tiles)@),
            old(tiles)@.len() == n_bytes,
            y <= h,
            row == base + y * w,
            backdrops(tiles@) == scan_prefix(t0, p, y * w),
            same_other_bytes(old(tiles)@, tiles@),
            t0 == backdrops(old(tiles)@),
        decreases h - y,
    {
        proof {
            lemma_mul_inequality(y + 1, h as int, w as int);
            lemma_mul_is_distributive_add(w as int, y as int, 1);
            assert(area(p) == h * w) by (nonlinear_arith)
                requires
                    area(p) == width(p) * height(p),
                    w == width(p),
                    h == height(p),
            ;
        }
        let mut sum: i32 = 0;
        let mut x: usize = 0;
        while x < w
            invariant
                w == width(p),
                w > 0,
                h == height(p),
                base == p.tiles,
                p.tiles + area(p) <= tile_count(old(tiles)@),
            old(tiles)@.len() == n_bytes,
                y < h,
                row == base + y * w,
                row + w <= base + area(p),
                x <= w,
                backdrops(tiles@) == scan_prefix(t0, p, y * w + x),
                sum == wrap_i32(sum_range(t0, row as int, row + x)),
                same_other_bytes(old(tiles)@, tiles@),
                t0 == backdrops(old(tiles)@),
            decreases w - x,
        {
            let ix = row + x;
            let ghost before = backdrops(tiles@);
            let d = get_backdrop(tiles, ix);
            assert(d == t0[ix as int]);
            proof {
                lemma_wrapping_add(sum, d);
                lemma_wrap_add(sum_range(t0, row as int, row + x), d as int);
                lemma_fundamental_div_mod_converse(ix - p.tiles, w as int, y as int, x as int);
            }
            sum = sum.wrapping_add(d);
            set_backdrop(tiles, ix, sum);
            proof {
                assert(row_start(p, ix as int) == row);
                assert(backdrops(tiles@) =~= scan_prefix(t0, p, y * w + x + 1));
            }
            x = x + 1;
        }
        row = row + w;
        y = y + 1;
    }
    proof {
        assert(y * w == area(p)) by (nonlinear_arith)
            requires
                y == h,
                area(p) == width(p) * height(p),
                w == width(p),
                h == height(p),
        ;
        assert(scan_prefix(t0, p, y * w) =~= scan_path(t0, p));
    }
}

/// What a backdrop scan over the path table `paths` and the tile grid
/// `before` owes: success exactly when every dispatched shape fits, with the
/// backdrops scanned shape by shape and every other byte kept; otherwise the
/// first shape that does not fit, with the grid untouched.
pub open spec fn scan_outcome(
    config: Config,
    paths: Seq<u8>,
    before: Seq<u8>,
    after: Seq<u8>,
    r: Result<(), BackdropError>,
) -> bool {
    let n = config.n_draw_objects as int;
    match r {
        Ok(_) => {
            &&& all_fit(paths_of(paths), n, tile_count(before))
            &&& backdrops(after) == scan_paths(backdrops(before), paths_of(paths), n)
            &&& same_other_bytes(before, after)
        },
        Err(BackdropError::IndexOutOfRange { shape }) => {
            &&& first_bad(paths_of(paths), n, tile_count(before), shape as int)
            &&& after == before
        },
        Err(_) => false,
    }
}

/// Whether one shape fits a grid of `n_tiles` tiles.
fn check_path(p: PathDesc, n_tiles: usize) -> (r: bool)
    ensures
        r == path_fits(p, n_tiles as int),
{
    if p.x0 > p.x1 || p.y0 > p.y1 {
        return false;
    }
    let w = (p.x1 - p.x0) as u64;
    let h = (p.y1 - p.y0) as u64;
    assert(w * h <= 0xffff_ffff * 0xffff_ffff) by (nonlinear_arith)
        requires
            w <= 0xffff_ffff,
            h <= 0xffff_ffff,
    ;
    let a = w * h;
    a == 0 || p.tiles as u64 + a <= n_tiles as u64
}

/// Runs the backdrop scan over the first `config.n_draw_objects` shapes of
/// the path table `paths`, on the tile grid `tiles`, in place.
///
/// Every shape is checked before any tile is touched: if one is missing from
/// the table or its block does not fit the grid, the first such shape is
/// reported and the grid is left as it was. Otherwise each shape's block is
/// scanned in turn and only the backdrop fields of the grid change.
pub fn backdrop_main(config: &Config, paths: &Vec<u8>, tiles: &mut Vec<u8>) -> (r: Result<(), BackdropError>)
    ensures
        scan_outcome(*config, paths@, old(tiles)@, final(tiles)@, r),
{
    let ghost ps = paths_of(paths@);
    let ghost t0 = backdrops(tiles@);
    let n = config.n_draw_objects;
    let n_paths = paths.len() / PATH_SIZE;
    let n_tiles = tiles.len() / TILE_SIZE;
    let mut k: u32 = 0;
    while k < n
        invariant
            ps == paths_of(paths@),
            n_paths == ps.len(),
            n_tiles == tile_count(tiles@),
            tiles@ == old(tiles)@,
            n == config.n_draw_objects,
            k <= n,
            all_fit(ps, k as int, n_tiles as int),
        decreases n - k,
    {
        if k as usize >= n_paths {
            return Err(BackdropError::IndexOutOfRange { shape: k });
        }
        let p = read_path(paths, k as usize);
        if !check_path(p, n_tiles) {
            return Err(BackdropError::IndexOutOfRange { shape: k });
        }
        assert(shape_ok(ps, k as int, n_tiles as int));
        k = k + 1;
    }
    let mut k: u32 = 0;
    while k < n
        invariant
            ps == paths_of(paths@),
            t0 == backdrops(old(tiles)@),
            n_paths == ps.len(),
            n_tiles == tile_count(old(tiles)@),
            k <= n,
            n == config.n_draw_objects,
            all_fit(ps, n as int, n_tiles as int),
            backdrops(tiles@) == scan_paths(t0, ps, k as int),
            same_other_bytes(old(tiles)@, tiles@),
        decreases n - k,
    {
        assert(shape_ok(ps, k as int, n_tiles as int));
        let p = read_path(paths, k as usize);
        let ghost mid = tiles@;
        scan_block(tiles, p);
        k = k + 1;
    }
    Ok(())
}

} // verus!
