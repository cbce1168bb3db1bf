//! Byte layouts of the records that the backdrop stage exchanges with the
//! compute backend, all little-endian and 4-byte aligned.

use vstd::prelude::*;

verus! {

/// Size in bytes of the configuration uniform record.
pub const CONFIG_SIZE: usize = 76;

/// Offset in bytes of the draw-object count inside the configuration record.
pub const CONFIG_N_DRAW_OBJECTS_OFFSET: usize = 20;

/// Size in bytes of one path descriptor record.
pub const PATH_SIZE: usize = 32;

/// Size in bytes of one tile record.
pub const TILE_SIZE: usize = 8;

/// The unsigned integer stored little-endian in the four bytes at `off`.
pub open spec fn u32_le(b: Seq<u8>, off: int) -> int {
    b[off] + 256 * b[off + 1] + 65536 * b[off + 2] + 16777216 * b[off + 3]
}

/// Two's-complement reading of a 32-bit pattern.
pub open spec fn i32_of_bits(u: int) -> int {
    if u >= 0x8000_0000 {
        u - 0x1_0000_0000
    } else {
        u
    }
}

/// The signed integer stored little-endian in the four bytes at `off`.
pub open spec fn i32_le(b: Seq<u8>, off: int) -> i32 {
    i32_of_bits(u32_le(b, off)) as i32
}

/// Reads the unsigned 32-bit little-endian integer at `off`.
pub fn read_u32_le(b: &Vec<u8>, off: usize) -> (r: u32)
    requires
        off + 4 <= b@.len(),
    ensures
        r == u32_le(b@, off as int),
{
    let n = b.len();
    assert(off + 4 <= n);
    let b0 = b[off] as u32;
    let b1 = b[off + 1] as u32;
    let b2 = b[off + 2] as u32;
    let b3 = b[off + 3] as u32;
    b0 + 256 * b1 + 65536 * b2 + 16777216 * b3
}

/// Reads the signed 32-bit little-endian integer at `off`.
pub fn read_i32_le(b: &Vec<u8>, off: usize) -> (r: i32)
    requires
        off + 4 <= b@.len(),
    ensures
        r == i32_le(b@, off as int),
{
    let u = read_u32_le(b, off);
    if u >= 0x8000_0000 {
        (u as i64 - 0x1_0000_0000i64) as i32
    } else {
        u as i32
    }
}

/// The four little-endian bytes of a 32-bit pattern.
fn bytes_of_bits(u: u32) -> (r: (u8, u8, u8, u8))
    ensures
        r.0 + 256 * r.1 + 65536 * r.2 + 16777216 * r.3 == u,
{
    let b0 = (u % 256) as u8;
    let b1 = ((u / 256) % 256) as u8;
    let b2 = ((u / 65536) % 256) as u8;
    let b3 = (u / 16777216) as u8;
    proof {
        lemma_bytes_of_bits(u as int);
    }
    (b0, b1, b2, b3)
}

proof fn lemma_bytes_of_bits(u: int)
    requires
        0 <= u < 0x1_0000_0000,
    ensures
        u % 256 + 256 * ((u / 256) % 256) + 65536 * ((u / 65536) % 256) + 16777216 * (u / 16777216) == u,
        u / 16777216 < 256,
{
    assert(u == 256 * (u / 256) + u % 256);
    assert(u / 256 == 256 * (u / 65536) + (u / 256) % 256);
    assert(u / 65536 == 256 * (u / 16777216) + (u / 65536) % 256);
}

/// The 32-bit pattern of a signed integer.
fn bits_of_i32(v: i32) -> (u: u32)
    ensures
        i32_of_bits(u as int) == v,
{
    if v < 0 {
        (v as i64 + 0x1_0000_0000i64) as u32
    } else {
        v as u32
    }
}

/// Overwrites the four bytes at `off` with `v`, little-endian; every other
/// byte is kept.
pub fn write_i32_le(b: &mut Vec<u8>, off: usize, v: i32)
    requires
        off + 4 <= old(b)@.len(),
    ensures
        final(b)@.len() == old(b)@.len(),
        i32_le(final(b)@, off as int) == v,
        forall|j: int|
            0 <= j < old(b)@.len() && !(off <= j < off + 4) ==> #[trigger] final(b)@[j] == old(b)@[j],
{
    let n = b.len();
    assert(off + 4 <= n);
    let (b0, b1, b2, b3) = bytes_of_bits(bits_of_i32(v));
    b.set(off, b0);
    b.set(off + 1, b1);
    b.set(off + 2, b2);
    b.set(off + 3, b3);
}

/// Appends `u` as four little-endian bytes.
pub fn push_u32_le(b: &mut Vec<u8>, u: u32)
    ensures
        final(b)@.len() == old(b)@.len() + 4,
        final(b)@.subrange(0, old(b)@.len() as int) == old(b)@,
        u32_le(final(b)@, old(b)@.len() as int) == u,
{
    let (b0, b1, b2, b3) = bytes_of_bits(u);
    b.push(b0);
    b.push(b1);
    b.push(b2);
    b.push(b3);
    assert(b@.subrange(0, old(b)@.len() as int) =~= old(b)@);
}

/// The draw-object count read from the configuration record.
#[derive(Clone, Copy, Debug, PartialEq, Eq)]
pub struct Config {
    pub n_draw_objects: u32,
}

/// A shape's bounding box in tile space and the index of its first tile.
/// Its tiles are stored row-major, `x1 - x0` to a row.
#[derive(Clone, Copy, Debug, PartialEq, Eq)]
pub struct PathDesc {
    pub x0: u32,
    pub y0: u32,
    pub x1: u32,
    pub y1: u32,
    pub tiles: u32,
}

/// One tile: its winding delta (accumulated backdrop after the stage) and
/// its segment count or index, which this stage carries through untouched.
#[derive(Clone, Copy, Debug, PartialEq, Eq)]
pub struct Tile {
    pub backdrop: i32,
    pub segment_count_or_ix: u32,
}

/// The number of whole tile records in a tile buffer.
pub open spec fn tile_count(b: Seq<u8>) -> int {
    b.len() as int / TILE_SIZE as int
}

/// The backdrop field of tile `i`.
pub open spec fn backdrop_at(b: Seq<u8>, i: int) -> i32 {
    i32_le(b, TILE_SIZE * i)
}

/// The backdrop fields of all tiles in a tile buffer, in order.
pub open spec fn backdrops(b: Seq<u8>) -> Seq<i32> {
    Seq::new(tile_count(b) as nat, |i: int| backdrop_at(b, i))
}

/// The path descriptor stored as record `k` of a path table.
pub open spec fn path_at(b: Seq<u8>, k: int) -> PathDesc {
    let off = PATH_SIZE * k;
    PathDesc {
        x0: u32_le(b, off) as u32,
        y0: u32_le(b, off + 4) as u32,
        x1: u32_le(b, off + 8) as u32,
        y1: u32_le(b, off + 12) as u32,
        tiles: u32_le(b, off + 16) as u32,
    }
}

/// All path descriptors of a path table.
pub open spec fn paths_of(b: Seq<u8>) -> Seq<PathDesc> {
    Seq::new((b.len() as int / PATH_SIZE as int) as nat, |k: int| path_at(b, k))
}

/// The configuration that a configuration record holds.
pub open spec fn config_of(b: Seq<u8>) -> Config {
    Config { n_draw_objects: u32_le(b, CONFIG_N_DRAW_OBJECTS_OFFSET as int) as u32 }
}

/// Reads the backdrop of tile `i` in place.
pub fn get_backdrop(b: &Vec<u8>, i: usize) -> (r: i32)
    requires
        i < tile_count(b@),
    ensures
        r == backdrops(b@)[i as int],
{
    let n = b.len();
    assert(TILE_SIZE * i + TILE_SIZE <= n);
    read_i32_le(b, TILE_SIZE * i)
}

/// Writes the backdrop of tile `i` in place; every byte outside that field
/// is kept.
pub fn set_backdrop(b: &mut Vec<u8>, i: usize, v: i32)
    requires
        i < tile_count(old(b)@),
    ensures
        final(b)@.len() == old(b)@.len(),
        backdrops(final(b)@) == backdrops(old(b)@).update(i as int, v),
        forall|j: int|
            0 <= j < old(b)@.len() && !(TILE_SIZE * i <= j < TILE_SIZE * i + 4) ==> #[trigger] final(b)@[j] == old(b)@[j],
{
    let n = b.len();
    assert(TILE_SIZE * i + TILE_SIZE <= n);
    write_i32_le(b, TILE_SIZE * i, v);
    assert(backdrops(b@) =~= backdrops(old(b)@).update(i as int, v)) by {
        assert forall|k: int| 0 <= k < tile_count(b@) && k != i implies backdrop_at(b@, k) == backdrop_at(old(b)@, k) by {
            assert(b@[8 * k] == old(b)@[8 * k]);
            assert(b@[8 * k + 1] == old(b)@[8 * k + 1]);
            assert(b@[8 * k + 2] == old(b)@[8 * k + 2]);
            assert(b@[8 * k + 3] == old(b)@[8 * k + 3]);
        }
    }
}

/// Reads path record `k` of a path table.
pub fn read_path(b: &Vec<u8>, k: usize) -> (r: PathDesc)
    requires
        k < b@.len() as int / PATH_SIZE as int,
    ensures
        r == path_at(b@, k as int),
{
    let n = b.len();
    assert(PATH_SIZE * k + PATH_SIZE <= n);
    let off = PATH_SIZE * k;
    PathDesc {
        x0: read_u32_le(b, off),
        y0: read_u32_le(b, off + 4),
        x1: read_u32_le(b, off + 8),
        y1: read_u32_le(b, off + 12),
        tiles: read_u32_le(b, off + 16),
    }
}

/// Reads the configuration from a configuration record.
pub fn read_config(b: &Vec<u8>) -> (r: Config)
    requires
        b@.len() == CONFIG_SIZE,
    ensures
        r == config_of(b@),
{
    Config { n_draw_objects: read_u32_le(b, CONFIG_N_DRAW_OBJECTS_OFFSET) }
}

/// Tile record `i` of a tile buffer.
pub open spec fn tile_at(b: Seq<u8>, i: int) -> Tile {
    Tile {
        backdrop: backdrop_at(b, i),
        segment_count_or_ix: u32_le(b, TILE_SIZE * i + 4) as u32,
    }
}

/// All tile records of a tile buffer.
pub open spec fn tiles_of(b: Seq<u8>) -> Seq<Tile> {
    Seq::new(tile_count(b) as nat, |i: int| tile_at(b, i))
}

/// Appending bytes keeps every integer already stored.
proof fn lemma_u32_le_prefix(a: Seq<u8>, b: Seq<u8>, off: int)
    requires
        a.len() <= b.len(),
        b.subrange(0, a.len() as int) == a,
        0 <= off,
        off + 4 <= a.len(),
    ensures
        u32_le(b, off) == u32_le(a, off),
{
    assert(b[off] == b.subrange(0, a.len() as int)[off]);
    assert(b[off + 1] == b.subrange(0, a.len() as int)[off + 1]);
    assert(b[off + 2] == b.subrange(0, a.len() as int)[off + 2]);
    assert(b[off + 3] == b.subrange(0, a.len() as int)[off + 3]);
}

/// Appends `v` as four little-endian two's-complement bytes.
fn push_i32_le(b: &mut Vec<u8>, v: i32)
    ensures
        final(b)@.len() == old(b)@.len() + 4,
        final(b)@.subrange(0, old(b)@.len() as int) == old(b)@,
        i32_le(final(b)@, old(b)@.len() as int) == v,
{
    push_u32_le(b, bits_of_i32(v));
}

/// The configuration record holding `c`, every other field zero.
pub fn encode_config(c: &Config) -> (r: Vec<u8>)
    ensures
        r@.len() == CONFIG_SIZE,
        config_of(r@) == *c,
{
    let mut r: Vec<u8> = Vec::new();
    let mut i: usize = 0;
    while i < CONFIG_SIZE / 4
        invariant
            i <= CONFIG_SIZE / 4,
            r@.len() == 4 * i,
            4 * i > CONFIG_N_DRAW_OBJECTS_OFFSET ==> u32_le(r@, CONFIG_N_DRAW_OBJECTS_OFFSET as int) == c.n_draw_objects,
        decreases CONFIG_SIZE / 4 - i,
    {
        let v = if 4 * i == CONFIG_N_DRAW_OBJECTS_OFFSET {
            c.n_draw_objects
        } else {
            0
        };
        let ghost prev = r@;
        push_u32_le(&mut r, v);
        proof {
            if 4 * i > CONFIG_N_DRAW_OBJECTS_OFFSET {
                lemma_u32_le_prefix(prev, r@, CONFIG_N_DRAW_OBJECTS_OFFSET as int);
            }
        }
        i = i + 1;
    }
    r
}

/// The path table holding `ps` in order, padding zero.
pub fn encode_paths(ps: &Vec<PathDesc>) -> (r: Vec<u8>)
    requires
        ps@.len() * PATH_SIZE <= usize::MAX,
    ensures
        r@.len() == ps@.len() * PATH_SIZE,
        paths_of(r@) == ps@,
{
    let mut r: Vec<u8> = Vec::new();
    let mut k: usize = 0;
    while k < ps.len()
        invariant
            k <= ps@.len(),
            r@.len() == k * PATH_SIZE,
            forall|m: int| 0 <= m < k ==> #[trigger] path_at(r@, m) == ps@[m],
        decreases ps@.len() - k,
    {
        let p = ps[k];
        let ghost prev = r@;
        push_u32_le(&mut r, p.x0);
        push_u32_le(&mut r, p.y0);
        push_u32_le(&mut r, p.x1);
        push_u32_le(&mut r, p.y1);
        push_u32_le(&mut r, p.tiles);
        push_u32_le(&mut r, 0);
        push_u32_le(&mut r, 0);
        push_u32_le(&mut r, 0);
        proof {
            let m = k as int;
            let o = PATH_SIZE * m;
            assert(r@.subrange(0, prev.len() as int) =~= prev);
            assert forall|q: int| 0 <= q < k implies #[trigger] path_at(r@, q) == ps@[q] by {
                let oq = PATH_SIZE * q;
                assert(path_at(prev, q) == ps@[q]);
                lemma_u32_le_prefix(prev, r@, oq);
                lemma_u32_le_prefix(prev, r@, oq + 4);
                lemma_u32_le_prefix(prev, r@, oq + 8);
                lemma_u32_le_prefix(prev, r@, oq + 12);
                lemma_u32_le_prefix(prev, r@, oq + 16);
            }
            assert(u32_le(r@, o) == p.x0) by {
                lemma_u32_le_prefix(r@.subrange(0, o + 4), r@, o);
            }
            assert(u32_le(r@, o + 4) == p.y0) by {
                lemma_u32_le_prefix(r@.subrange(0, o + 8), r@, o + 4);
            }
            assert(u32_le(r@, o + 8) == p.x1) by {
                lemma_u32_le_prefix(r@.subrange(0, o + 12), r@, o + 8);
            }
            assert(u32_le(r@, o + 12) == p.y1) by {
                lemma_u32_le_prefix(r@.subrange(0, o + 16), r@, o + 12);
            }
            assert(u32_le(r@, o + 16) == p.tiles) by {
                lemma_u32_le_prefix(r@.subrange(0, o + 20), r@, o + 16);
            }
            assert(path_at(r@, m) == ps@[m]);
        }
        k = k + 1;
    }
    assert(paths_of(r@) =~= ps@);
    r
}

/// The tile grid holding `ts` in order.
pub fn encode_tiles(ts: &Vec<Tile>) -> (r: Vec<u8>)
    requires
        ts@.len() * TILE_SIZE <= usize::MAX,
    ensures
        r@.len() == ts@.len() * TILE_SIZE,
        tiles_of(r@) == ts@,
{
    let mut r: Vec<u8> = Vec::new();
    let mut k: usize = 0;
    while k < ts.len()
        invariant
            k <= ts@.len(),
            r@.len() == k * TILE_SIZE,
            forall|m: int| 0 <= m < k ==> #[trigger] tile_at(r@, m) == ts@[m],
        decreases ts@.len() - k,
    {
        let t = ts[k];
        let ghost prev = r@;
        push_i32_le(&mut r, t.backdrop);
        push_u32_le(&mut r, t.segment_count_or_ix);
        proof {
            let m = k as int;
            let o = TILE_SIZE * m;
            assert(r@.subrange(0, prev.len() as int) =~= prev);
            assert forall|q: int| 0 <= q < k implies #[trigger] tile_at(r@, q) == ts@[q] by {
                let oq = TILE_SIZE * q;
                assert(tile_at(prev, q) == ts@[q]);
                lemma_u32_le_prefix(prev, r@, oq);
                lemma_u32_le_prefix(prev, r@, oq + 4);
            }
            assert(i32_le(r@, o) == t.backdrop) by {
                lemma_u32_le_prefix(r@.subrange(0, o + 4), r@, o);
            }
            assert(tile_at(r@, m) == ts@[m]);
        }
        k = k + 1;
    }
    assert(tiles_of(r@) =~= ts@);
    r
}

/// All tile records of a tile grid, in order.
pub fn decode_tiles(b: &Vec<u8>) -> (r: Vec<Tile>)
    ensures
        r@ == tiles_of(b@),
{
    let len = b.len();
    let n = len / TILE_SIZE;
    let mut r: Vec<Tile> = Vec::new();
    let mut k: usize = 0;
    while k < n
        invariant
            n == tile_count(b@),
            len == b@.len(),
            k <= n,
            r@ == tiles_of(b@).subrange(0, k as int),
        decreases n - k,
    {
        let t = Tile {
            backdrop: get_backdrop(b, k),
            segment_count_or_ix: read_u32_le(b, TILE_SIZE * k + 4),
        };
        r.push(t);
        assert(r@ =~= tiles_of(b@).subrange(0, k + 1));
        k = k + 1;
    }
    assert(r@ =~= tiles_of(b@));
    r
}

} // verus!
