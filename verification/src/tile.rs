//! Tiles, pixel accumulation, gamma, and image assembly.
//!
//! The image is cut into fixed-size tiles; a tile is owned by one worker
//! while it renders and is handed whole to the aggregator. Assembly writes
//! each tile's pixels into the image by tile origin, so the finished image
//! is a pointwise function of the tile contents alone: tiles may arrive in
//! any order and the image is the same.

use vstd::prelude::*;
use crate::fixed::{SCALE, tdiv, min_of, max_of, tdiv128, isqrt128, lemma_mul_le};
use crate::vector::{Color3, Vector3, isqrt_of, lemma_isqrt_unique};
use crate::integrator::{BETA_CAP, color_in_range};

verus! {

pub const TILE_WIDTH: usize = 16;
pub const TILE_HEIGHT: usize = 16;

/// Flat byte index of a pixel in a `width`-wide four-channel image.
pub open spec fn index_of(i: int, j: int, width: int) -> int {
    (j * width + i) * 4
}

/// Flat byte index of a pixel in the full image.
pub fn index(i: usize, j: usize, width: usize) -> (r: usize)
    requires
        width <= 0x4000,
        i < width,
        j <= 0x4000,
    ensures
        r == index_of(i as int, j as int, width as int),
{
    proof {
        lemma_mul_le(j as int, width as int, 0x4000, 0x4000);
    }
    (j * width + i) * 4
}

/// A rectangular work unit: its origin in the image and its own pixel
/// buffer, four fixed-point channels per pixel.
pub struct Tile {
    pub x: usize,
    pub y: usize,
    pub buffer: Vec<i64>,
}

/// A tile buffer has one slot per channel of its fixed area.
pub open spec fn tile_wf(t: Tile) -> bool {
    t.buffer@.len() == 1024
}

/// The square-root gamma correction of a nonnegative fixed-point value:
/// widening by the scale before the floor root keeps the scale.
pub open spec fn gamma_of(v: int) -> int {
    isqrt_of(v * SCALE as int)
}

/// Gamma-correct one channel.
pub fn gamma(v: i64) -> (r: i64)
    requires
        0 <= v <= BETA_CAP,
    ensures
        r == gamma_of(v as int),
        0 <= r <= 0x8000000,
{
    proof {
        lemma_mul_le(v as int, SCALE as int, BETA_CAP as int, SCALE as int);
        assert(v as int * SCALE as int >= 0) by (nonlinear_arith)
            requires v >= 0,
        ;
    }
    let ru = isqrt128((v as i128 * SCALE as i128) as u128);
    proof {
        assert(ru <= 0x8000000) by (nonlinear_arith)
            requires
                ru as int * ru as int <= 0x40000000000000i128 as int,
                ru >= 0,
        ;
    }
    let r = ru as i64;
    proof {
        lemma_isqrt_unique(v as int * SCALE as int, r as int);
    }
    r
}

impl Tile {
    /// A blank tile at the given origin.
    pub fn new(x: usize, y: usize) -> (r: Tile)
        ensures
            r.x == x,
            r.y == y,
            tile_wf(r),
            forall|k: int| 0 <= k < 1024 ==> r.buffer@[k] == 0,
    {
        let mut buffer: Vec<i64> = Vec::new();
        let mut k: usize = 0;
        while k < 1024
            invariant
                buffer@.len() == k as int,
                k <= 1024,
                forall|q: int| 0 <= q < k ==> buffer@[q] == 0,
            decreases 1024 - k,
        {
            buffer.push(0);
            k += 1;
        }
        Tile { x, y, buffer }
    }

    /// Flat index of a pixel's first channel inside a tile buffer.
    pub fn index(i: usize, j: usize) -> (r: usize)
        requires
            i < TILE_WIDTH,
            j < TILE_HEIGHT,
        ensures
            r == (j * TILE_WIDTH + i) * 4,
            r + 4 <= 1024,
    {
        (j * TILE_WIDTH + i) * 4
    }

    /// Write a pixel's gamma-corrected color and an opaque alpha channel.
    pub fn set(&mut self, i: usize, j: usize, rgb: Color3)
        requires
            tile_wf(*old(self)),
            i < TILE_WIDTH,
            j < TILE_HEIGHT,
            color_in_range(rgb, BETA_CAP as int),
        ensures
            tile_wf(*final(self)),
            final(self).x == old(self).x,
            final(self).y == old(self).y,
            ({
                let base = (j * TILE_WIDTH + i) * 4;
                &&& final(self).buffer@[base as int] == gamma_of(rgb.x as int)
                &&& final(self).buffer@[base + 1] == gamma_of(rgb.y as int)
                &&& final(self).buffer@[base + 2] == gamma_of(rgb.z as int)
                &&& final(self).buffer@[base + 3] == SCALE
                &&& forall|q: int| 0 <= q < 1024 && !(base <= q < base + 4)
                    ==> final(self).buffer@[q] == #[trigger] old(self).buffer@[q]
            }),
    {
        let base = Tile::index(i, j);
        self.buffer[base] = gamma(rgb.x);
        self.buffer[base + 1] = gamma(rgb.y);
        self.buffer[base + 2] = gamma(rgb.z);
        self.buffer[base + 3] = SCALE;
    }
}

/// Add a surviving sample into the running pixel sum; an anomalous sample
/// adds nothing, and the count of survivors goes up only for a survivor.
pub fn accumulate_sample(sum: Color3, sample: Option<Color3>) -> (r: Color3)
    requires
        color_in_range(sum, 0x7fff000000000000 - BETA_CAP as int),
        match sample {
            Some(c) => color_in_range(c, BETA_CAP as int),
            None => true,
        },
    ensures
        match sample {
            Some(c) => r.x == sum.x + c.x && r.y == sum.y + c.y && r.z == sum.z + c.z,
            None => r == sum,
        },
{
    match sample {
        Some(c) => Vector3 { x: sum.x + c.x, y: sum.y + c.y, z: sum.z + c.z },
        None => sum,
    }
}

/// The per-pixel average of the accumulated sum over the sample count.
pub fn average_samples(sum: Color3, samples: usize) -> (r: Color3)
    requires
        1 <= samples,
        samples <= 0x7fffffff,
    ensures
        r.x == tdiv(sum.x as int, samples as int),
        r.y == tdiv(sum.y as int, samples as int),
        r.z == tdiv(sum.z as int, samples as int),
{
    Vector3 {
        x: tdiv128(sum.x as i128, samples as i128) as i64,
        y: tdiv128(sum.y as i128, samples as i128) as i64,
        z: tdiv128(sum.z as i128, samples as i128) as i64,
    }
}

/// Ceiling division: the number of tiles covering an extent.
pub fn div_up(a: usize, b: usize) -> (r: usize)
    requires
        1 <= b,
        a <= 0xfffffff,
    ensures
        r == div_up_of(a as int, b as int),
{
    if a % b == 0 {
        a / b
    } else {
        a / b + 1
    }
}

pub open spec fn div_up_of(a: int, b: int) -> int {
    if a % b == 0 {
        a / b
    } else {
        a / b + 1
    }
}

/// The eight-bit value written to the image for a tile channel: clamp to
/// just under one, widen by 256.
pub open spec fn quantize_of(v: int) -> int {
    256 * min_of(max_of(v, 0), 65470) / SCALE as int
}

pub fn quantize(v: i64) -> (r: u8)
    ensures
        r == quantize_of(v as int),
{
    let clamped: i64 = if v < 0 {
        0
    } else if v > 65470 {
        65470
    } else {
        v
    };
    let wide: u64 = 256 * clamped as u64;
    proof {
        vstd::arithmetic::div_mod::lemma_div_is_ordered(
            wide as int, 256int * 65470int, SCALE as int);
        assert((256int * 65470int) / SCALE as int == 255int);
        vstd::arithmetic::div_mod::lemma_div_pos_is_pos(wide as int, SCALE as int);
    }
    (wide / 65536) as u8
}

/// The tile covers the pixel `(px, py)` of a `width` by `height` image:
/// within the tile's rectangle, clipped to the image edge.
pub open spec fn tile_covers(tx: int, ty: int, px: int, py: int, width: int, height: int)
    -> bool {
    &&& tx <= px < tx + TILE_WIDTH as int
    &&& ty <= py < ty + TILE_HEIGHT as int
    &&& 0 <= px < width
    &&& 0 <= py < height
}

/// The channel value the assembled image holds where a tile covers it.
pub open spec fn tile_channel(t: Tile, px: int, py: int, k: int) -> int {
    quantize_of(t.buffer@[((py - t.y) * TILE_WIDTH as int + (px - t.x)) * 4 + k] as int)
}

/// Write one finished tile into the image, clipped at the image edges.
/// Every covered channel takes the tile's quantized value; every other
/// byte of the image is untouched.
pub fn place_tile(image: &mut Vec<u8>, tile: &Tile, width: usize, height: usize)
    requires
        tile_wf(*tile),
        1 <= width <= 0x4000,
        1 <= height <= 0x4000,
        old(image)@.len() == width * height * 4,
        tile.x < width,
        tile.y < height,
    ensures
        final(image)@.len() == old(image)@.len(),
        forall|px: int, py: int, k: int|
            0 <= px < width && 0 <= py < height && 0 <= k < 4
            ==> #[trigger] final(image)@[index_of(px, py, width as int) + k] as int
                == (if tile_covers(tile.x as int, tile.y as int, px, py,
                        width as int, height as int) {
                    tile_channel(*tile, px, py, k)
                } else {
                    old(image)@[index_of(px, py, width as int) + k] as int
                }),
{
    let w = if TILE_WIDTH < width - tile.x { TILE_WIDTH } else { width - tile.x };
    let h = if TILE_HEIGHT < height - tile.y { TILE_HEIGHT } else { height - tile.y };
    let ghost width_i = width as int;
    let mut j: usize = 0;
    while j < h
        invariant
            w <= TILE_WIDTH,
            h <= TILE_HEIGHT,
            w == min_of(TILE_WIDTH as int, width - tile.x),
            h == min_of(TILE_HEIGHT as int, height - tile.y),
            j <= h,
            tile_wf(*tile),
            1 <= width <= 0x4000,
            1 <= height <= 0x4000,
            tile.x < width,
            tile.y < height,
            tile.x + w <= width,
            tile.y + h <= height,
            image@.len() == width * height * 4,
            old(image)@.len() == width * height * 4,
            forall|px: int, py: int, k: int|
                0 <= px < width && 0 <= py < height && 0 <= k < 4
                ==> #[trigger] image@[index_of(px, py, width as int) + k] as int
                    == (if tile_covers(tile.x as int, tile.y as int, px, py,
                            width as int, height as int) && py < tile.y + j {
                        tile_channel(*tile, px, py, k)
                    } else {
                        old(image)@[index_of(px, py, width as int) + k] as int
                    }),
        decreases h - j,
    {
        let mut i: usize = 0;
        while i < w
            invariant
                w <= TILE_WIDTH,
                h <= TILE_HEIGHT,
                j < h,
                i <= w,
                tile_wf(*tile),
                1 <= width <= 0x4000,
                1 <= height <= 0x4000,
                tile.x < width,
                tile.y < height,
                tile.x + w <= width,
                tile.y + h <= height,
                image@.len() == width * height * 4,
                old(image)@.len() == width * height * 4,
                forall|px: int, py: int, k: int|
                    0 <= px < width && 0 <= py < height && 0 <= k < 4
                    ==> #[trigger] image@[index_of(px, py, width as int) + k] as int
                        == (if tile_covers(tile.x as int, tile.y as int, px, py,
                                width as int, height as int)
                            && (py < tile.y + j || (py == tile.y + j && px < tile.x + i)) {
                            tile_channel(*tile, px, py, k)
                        } else {
                            old(image)@[index_of(px, py, width as int) + k] as int
                        }),
            decreases w - i,
        {
            let base_img = index(tile.x + i, tile.y + j, width);
            let base_tile = Tile::index(i, j);
            proof {
                lemma_index_in_range(tile.x + i, tile.y + j, width as int, height as int);
            }
            let ghost pre = image@;
            let mut k: usize = 0;
            while k < 4
                invariant
                    k <= 4,
                    tile_wf(*tile),
                    i < w,
                    j < h,
                    w <= TILE_WIDTH,
                    h <= TILE_HEIGHT,
                    tile.x + w <= width,
                    tile.y + h <= height,
                    1 <= width <= 0x4000,
                    1 <= height <= 0x4000,
                    base_img == index_of(tile.x + i, tile.y + j, width as int),
                    old(image)@.len() == width * height * 4,
                    base_img + 4 <= image@.len(),
                    base_tile == ((j * TILE_WIDTH + i) * 4),
                    image@.len() == pre.len(),
                    forall|q: int| 0 <= q < image@.len() && !(base_img <= q < base_img + k)
                        ==> image@[q] == pre[q],
                    forall|q: int| 0 <= q < k
                        ==> #[trigger] image@[base_img + q]
                            == quantize_of(tile.buffer@[base_tile + q] as int),
                decreases 4 - k,
            {
                let b = quantize(tile.buffer[base_tile + k]);
                image[base_img + k] = b;
                k += 1;
            }
            proof {
                lemma_write_step(pre, image@, *tile, tile.x as int, tile.y as int,
                    i as int, j as int, width as int, height as int, old(image)@);
            }
            i += 1;
        }
        j += 1;
    }
}

/// The flat index of an in-range pixel stays inside the image.
proof fn lemma_index_in_range(px: int, py: int, width: int, height: int)
    requires
        0 <= px < width,
        0 <= py < height,
        1 <= width,
    ensures
        0 <= index_of(px, py, width) && index_of(px, py, width) + 4 <= width * height * 4,
{
    assert((py * width + px) * 4 + 4 <= width * height * 4) by (nonlinear_arith)
        requires
            0 <= px < width,
            0 <= py < height,
    ;
    assert((py * width + px) * 4 >= 0) by (nonlinear_arith)
        requires 0 <= px, 0 <= py, width >= 1,
    ;
}

/// Writing the four channels of one covered pixel advances the pointwise
/// characterization by one pixel in the row.
proof fn lemma_write_step(
    pre: Seq<u8>, post: Seq<u8>, t: Tile, tx: int, ty: int, i: int, j: int,
    width: int, height: int, orig: Seq<u8>)
    requires
        tile_wf(t),
        0 <= i < TILE_WIDTH as int,
        0 <= j < TILE_HEIGHT as int,
        0 <= tx, 0 <= ty,
        tx + i < width,
        ty + j < height,
        1 <= width <= 0x4000,
        1 <= height <= 0x4000,
        pre.len() == width * height * 4,
        post.len() == pre.len(),
        orig.len() == pre.len(),
        forall|q: int| 0 <= q < post.len()
            && !(index_of(tx + i, ty + j, width) <= q < index_of(tx + i, ty + j, width) + 4)
            ==> post[q] == pre[q],
        forall|q: int| 0 <= q < 4
            ==> #[trigger] post[index_of(tx + i, ty + j, width) + q]
                == quantize_of(t.buffer@[(j * TILE_WIDTH as int + i) * 4 + q] as int),
        t.x == tx,
        t.y == ty,
        forall|px: int, py: int, k: int|
            0 <= px < width && 0 <= py < height && 0 <= k < 4
            ==> #[trigger] pre[index_of(px, py, width) + k] as int
                == (if tile_covers(tx, ty, px, py, width, height)
                    && (py < ty + j || (py == ty + j && px < tx + i)) {
                    tile_channel(t, px, py, k)
                } else {
                    orig[index_of(px, py, width) + k] as int
                }),
    ensures
        forall|px: int, py: int, k: int|
            0 <= px < width && 0 <= py < height && 0 <= k < 4
            ==> #[trigger] post[index_of(px, py, width) + k] as int
                == (if tile_covers(tx, ty, px, py, width, height)
                    && (py < ty + j || (py == ty + j && px < tx + i + 1)) {
                    tile_channel(t, px, py, k)
                } else {
                    orig[index_of(px, py, width) + k] as int
                }),
{
    assert forall|px: int, py: int, k: int|
        0 <= px < width && 0 <= py < height && 0 <= k < 4
        implies #[trigger] post[index_of(px, py, width) + k] as int
            == (if tile_covers(tx, ty, px, py, width, height)
                && (py < ty + j || (py == ty + j && px < tx + i + 1)) {
                tile_channel(t, px, py, k)
            } else {
                orig[index_of(px, py, width) + k] as int
            }) by {
        lemma_index_in_range(px, py, width, height);
        lemma_index_in_range(tx + i, ty + j, width, height);
        if px == tx + i && py == ty + j {
            assert(index_of(px, py, width) + k
                == index_of(tx + i, ty + j, width) + k);
            assert(post[index_of(tx + i, ty + j, width) + k] as int
                == quantize_of(t.buffer@[(j * TILE_WIDTH as int + i) * 4 + k] as int));
            assert(tile_channel(t, px, py, k)
                == quantize_of(t.buffer@[(j * TILE_WIDTH as int + i) * 4 + k] as int));
        } else {
            assert(index_of(px, py, width) + k != index_of(tx + i, ty + j, width) + 0
                && index_of(px, py, width) + k != index_of(tx + i, ty + j, width) + 1
                && index_of(px, py, width) + k != index_of(tx + i, ty + j, width) + 2
                && index_of(px, py, width) + k != index_of(tx + i, ty + j, width) + 3)
                by (nonlinear_arith)
                requires
                    0 <= px < width,
                    0 <= py < height,
                    0 <= k < 4,
                    0 <= tx + i < width,
                    0 <= ty + j < height,
                    !(px == tx + i && py == ty + j),
                    index_of(px, py, width) == (py * width + px) * 4,
                    index_of(tx + i, ty + j, width) == ((ty + j) * width + (tx + i)) * 4,
            ;
            assert(post[index_of(px, py, width) + k] == pre[index_of(px, py, width) + k]);
        }
    }
}


/// Tiles on the standard grid never share a pixel: any two either agree on
/// their origin or are separated by a full tile extent on some axis.
pub open spec fn tiles_disjoint(tiles: Seq<Tile>) -> bool {
    forall|k1: int, k2: int| 0 <= k1 < tiles.len() && 0 <= k2 < tiles.len() && k1 != k2
        ==> (#[trigger] tiles[k1]).x + TILE_WIDTH as int <= (#[trigger] tiles[k2]).x
            || tiles[k2].x + TILE_WIDTH as int <= tiles[k1].x
            || tiles[k1].y + TILE_HEIGHT as int <= tiles[k2].y
            || tiles[k2].y + TILE_HEIGHT as int <= tiles[k1].y
}

/// What the assembled image holds at a channel: the covering tile's value
/// where one covers the pixel, the prior byte elsewhere. With disjoint
/// tiles the covering tile is unique, so this is a function of the tile
/// set alone — the order tiles arrive in cannot change it.
pub open spec fn assembled_channel(
    tiles: Seq<Tile>, orig: Seq<u8>, px: int, py: int, k: int, width: int, height: int) -> int {
    if exists|t: int| 0 <= t < tiles.len()
        && tile_covers((#[trigger] tiles[t]).x as int, tiles[t].y as int, px, py, width, height) {
        let t = choose|t: int| 0 <= t < tiles.len()
            && tile_covers((#[trigger] tiles[t]).x as int, tiles[t].y as int, px, py,
                width, height);
        tile_channel(tiles[t], px, py, k)
    } else {
        orig[index_of(px, py, width) + k] as int
    }
}

/// Fold the finished tiles into the image, in the order they arrived; the
/// result is characterized pointwise with no reference to that order.
pub fn assemble(image: &mut Vec<u8>, tiles: &Vec<Tile>, width: usize, height: usize)
    requires
        1 <= width <= 0x4000,
        1 <= height <= 0x4000,
        old(image)@.len() == width * height * 4,
        tiles_disjoint(tiles@),
        forall|t: int| 0 <= t < tiles@.len() ==> tile_wf(#[trigger] tiles@[t])
            && tiles@[t].x < width && tiles@[t].y < height,
    ensures
        final(image)@.len() == old(image)@.len(),
        forall|px: int, py: int, k: int|
            0 <= px < width && 0 <= py < height && 0 <= k < 4
            ==> #[trigger] final(image)@[index_of(px, py, width as int) + k] as int
                == assembled_channel(tiles@, old(image)@, px, py, k,
                    width as int, height as int),
{
    let n = tiles.len();
    let mut t: usize = 0;
    while t < n
        invariant
            n == tiles@.len(),
            t <= n,
            1 <= width <= 0x4000,
            1 <= height <= 0x4000,
            image@.len() == width * height * 4,
            old(image)@.len() == width * height * 4,
            tiles_disjoint(tiles@),
            forall|q: int| 0 <= q < tiles@.len() ==> tile_wf(#[trigger] tiles@[q])
                && tiles@[q].x < width && tiles@[q].y < height,
            forall|px: int, py: int, k: int|
                0 <= px < width && 0 <= py < height && 0 <= k < 4
                ==> #[trigger] image@[index_of(px, py, width as int) + k] as int
                    == assembled_channel(tiles@.subrange(0, t as int), old(image)@,
                        px, py, k, width as int, height as int),
        decreases n - t,
    {
        let ghost pre = image@;
        place_tile(image, &tiles[t], width, height);
        proof {
            lemma_assemble_step(tiles@, pre, image@, old(image)@, t as int,
                width as int, height as int);
        }
        t += 1;
    }
    proof {
        assert(tiles@.subrange(0, n as int) =~= tiles@);
    }
}

/// Placing one more disjoint tile extends the pointwise characterization
/// from a prefix of the tiles to the next longer prefix.
proof fn lemma_assemble_step(
    tiles: Seq<Tile>, pre: Seq<u8>, post: Seq<u8>, orig: Seq<u8>, t: int,
    width: int, height: int)
    requires
        0 <= t < tiles.len(),
        tiles_disjoint(tiles),
        1 <= width <= 0x4000,
        1 <= height <= 0x4000,
        pre.len() == width * height * 4,
        post.len() == pre.len(),
        orig.len() == pre.len(),
        forall|px: int, py: int, k: int|
            0 <= px < width && 0 <= py < height && 0 <= k < 4
            ==> #[trigger] pre[index_of(px, py, width) + k] as int
                == assembled_channel(tiles.subrange(0, t), orig, px, py, k, width, height),
        forall|px: int, py: int, k: int|
            0 <= px < width && 0 <= py < height && 0 <= k < 4
            ==> #[trigger] post[index_of(px, py, width) + k] as int
                == (if tile_covers(tiles[t].x as int, tiles[t].y as int, px, py,
                        width, height) {
                    tile_channel(tiles[t], px, py, k)
                } else {
                    pre[index_of(px, py, width) + k] as int
                }),
    ensures
        forall|px: int, py: int, k: int|
            0 <= px < width && 0 <= py < height && 0 <= k < 4
            ==> #[trigger] post[index_of(px, py, width) + k] as int
                == assembled_channel(tiles.subrange(0, t + 1), orig, px, py, k,
                    width, height),
{
    let prefix = tiles.subrange(0, t);
    let prefix1 = tiles.subrange(0, t + 1);
    assert forall|px: int, py: int, k: int|
        0 <= px < width && 0 <= py < height && 0 <= k < 4
        implies #[trigger] post[index_of(px, py, width) + k] as int
            == assembled_channel(prefix1, orig, px, py, k, width, height) by {
        lemma_index_in_range(px, py, width, height);
        if tile_covers(tiles[t].x as int, tiles[t].y as int, px, py, width, height) {
            assert(prefix1[t] == tiles[t]);
            assert(exists|q: int| 0 <= q < prefix1.len()
                && tile_covers((#[trigger] prefix1[q]).x as int, prefix1[q].y as int,
                    px, py, width, height));
            let q = choose|q: int| 0 <= q < prefix1.len()
                && tile_covers((#[trigger] prefix1[q]).x as int, prefix1[q].y as int,
                    px, py, width, height);
            assert(prefix1[q] == tiles[q]);
            if q != t {
                assert(false);
            }
        } else {
            if exists|q: int| 0 <= q < prefix1.len()
                && tile_covers((#[trigger] prefix1[q]).x as int, prefix1[q].y as int,
                    px, py, width, height) {
                let q = choose|q: int| 0 <= q < prefix1.len()
                    && tile_covers((#[trigger] prefix1[q]).x as int, prefix1[q].y as int,
                        px, py, width, height);
                assert(q != t);
                assert(prefix[q] == tiles[q]);
                assert(exists|q2: int| 0 <= q2 < prefix.len()
                    && tile_covers((#[trigger] prefix[q2]).x as int, prefix[q2].y as int,
                        px, py, width, height));
                let q2 = choose|q2: int| 0 <= q2 < prefix.len()
                    && tile_covers((#[trigger] prefix[q2]).x as int, prefix[q2].y as int,
                        px, py, width, height);
                assert(prefix[q2] == tiles[q2]);
                if q2 != q {
                    assert(false);
                }
                assert(assembled_channel(prefix1, orig, px, py, k, width, height)
                    == tile_channel(prefix1[q], px, py, k));
                assert(assembled_channel(prefix, orig, px, py, k, width, height)
                    == tile_channel(prefix[q2], px, py, k));
            } else {
                assert(!(exists|q2: int| 0 <= q2 < prefix.len()
                    && tile_covers((#[trigger] prefix[q2]).x as int, prefix[q2].y as int,
                        px, py, width, height))) by {
                    if exists|q2: int| 0 <= q2 < prefix.len()
                        && tile_covers((#[trigger] prefix[q2]).x as int, prefix[q2].y as int,
                            px, py, width, height) {
                        let q2 = choose|q2: int| 0 <= q2 < prefix.len()
                            && tile_covers((#[trigger] prefix[q2]).x as int,
                                prefix[q2].y as int, px, py, width, height);
                        assert(prefix1[q2] == prefix[q2]);
                    }
                }
            }
        }
    }
}

/// Every tile of the first sequence appears in the second.
pub open spec fn tiles_subset(t1: Seq<Tile>, t2: Seq<Tile>) -> bool {
    forall|k: int| 0 <= k < t1.len()
        ==> exists|k2: int| 0 <= k2 < t2.len() && #[trigger] t1[k] == t2[k2]
}

/// With disjoint tiles, at most one covers any pixel.
proof fn lemma_covering_unique(
    tiles: Seq<Tile>, q1: int, q2: int, px: int, py: int, width: int, height: int)
    requires
        tiles_disjoint(tiles),
        0 <= q1 < tiles.len(),
        0 <= q2 < tiles.len(),
        tile_covers(tiles[q1].x as int, tiles[q1].y as int, px, py, width, height),
        tile_covers(tiles[q2].x as int, tiles[q2].y as int, px, py, width, height),
    ensures
        q1 == q2,
{
    if q1 != q2 {
        assert(false);
    }
}

/// One pixel channel of the assembled image is the same for any two tile
/// sequences holding the same tiles.
proof fn lemma_assembled_at(
    t1: Seq<Tile>, t2: Seq<Tile>, orig: Seq<u8>, px: int, py: int, k: int,
    width: int, height: int)
    requires
        tiles_disjoint(t1),
        tiles_disjoint(t2),
        tiles_subset(t1, t2),
        tiles_subset(t2, t1),
    ensures
        assembled_channel(t1, orig, px, py, k, width, height)
            == assembled_channel(t2, orig, px, py, k, width, height),
{
    if exists|q: int| 0 <= q < t1.len()
        && tile_covers((#[trigger] t1[q]).x as int, t1[q].y as int, px, py, width, height) {
        let q = choose|q: int| 0 <= q < t1.len()
            && tile_covers((#[trigger] t1[q]).x as int, t1[q].y as int, px, py,
                width, height);
        let q2 = choose|k2: int| 0 <= k2 < t2.len() && t1[q] == t2[k2];
        assert(0 <= q2 < t2.len() && t1[q] == t2[q2]);
        assert(tile_covers(t2[q2].x as int, t2[q2].y as int, px, py, width, height));
        let q3 = choose|q3: int| 0 <= q3 < t2.len()
            && tile_covers((#[trigger] t2[q3]).x as int, t2[q3].y as int, px, py,
                width, height);
        lemma_covering_unique(t2, q2, q3, px, py, width, height);
        assert(assembled_channel(t1, orig, px, py, k, width, height)
            == tile_channel(t1[q], px, py, k));
        assert(assembled_channel(t2, orig, px, py, k, width, height)
            == tile_channel(t2[q3], px, py, k));
    } else {
        if exists|q: int| 0 <= q < t2.len()
            && tile_covers((#[trigger] t2[q]).x as int, t2[q].y as int, px, py,
                width, height) {
            let q = choose|q: int| 0 <= q < t2.len()
                && tile_covers((#[trigger] t2[q]).x as int, t2[q].y as int, px, py,
                    width, height);
            let q2 = choose|k2: int| 0 <= k2 < t1.len() && t2[q] == t1[k2];
            assert(0 <= q2 < t1.len() && t2[q] == t1[q2]);
            assert(tile_covers(t1[q2].x as int, t1[q2].y as int, px, py, width, height));
            assert(false);
        }
    }
}

/// The law of order independence: two assemblies of the same tiles, each
/// described by the pointwise characterization, are bit-identical images,
/// whatever order the tiles were folded in. The two tile sequences need
/// only contain the same tiles, each of the one's tiles being among the
/// other's.
pub proof fn lemma_assembly_order_independent(
    img1: Seq<u8>, img2: Seq<u8>, t1: Seq<Tile>, t2: Seq<Tile>, orig: Seq<u8>,
    width: int, height: int)
    requires
        1 <= width <= 0x4000,
        1 <= height <= 0x4000,
        img1.len() == width * height * 4,
        img2.len() == img1.len(),
        orig.len() == img1.len(),
        tiles_disjoint(t1),
        tiles_disjoint(t2),
        tiles_subset(t1, t2),
        tiles_subset(t2, t1),
        forall|px: int, py: int, k: int|
            0 <= px < width && 0 <= py < height && 0 <= k < 4
            ==> #[trigger] img1[index_of(px, py, width) + k] as int
                == assembled_channel(t1, orig, px, py, k, width, height),
        forall|px: int, py: int, k: int|
            0 <= px < width && 0 <= py < height && 0 <= k < 4
            ==> #[trigger] img2[index_of(px, py, width) + k] as int
                == assembled_channel(t2, orig, px, py, k, width, height),
    ensures
        forall|px: int, py: int, k: int|
            0 <= px < width && 0 <= py < height && 0 <= k < 4
            ==> #[trigger] img1[index_of(px, py, width) + k]
                == img2[index_of(px, py, width) + k],
{
    assert forall|px: int, py: int, k: int|
        0 <= px < width && 0 <= py < height && 0 <= k < 4
        implies #[trigger] img1[index_of(px, py, width) + k]
            == img2[index_of(px, py, width) + k] by {
        lemma_index_in_range(px, py, width, height);
        lemma_assembled_at(t1, t2, orig, px, py, k, width, height);
    }
}

/// The dispatcher's state: the tiles still to be handed out, and the
/// workers known to be idle.
pub struct WorkQueue {
    pub command_que: Vec<Tile>,
    pub available_workers: Vec<usize>,
}

/// What the dispatch loop does next: hand a tile to an idle worker, block
/// for a completion signal because no worker is idle, or stop because no
/// work remains.
pub enum DispatchAction {
    Send(usize, Tile),
    Wait,
    Done,
}

impl WorkQueue {
    /// An empty dispatcher with the given workers all idle.
    pub fn new(size: usize) -> (r: WorkQueue)
        ensures
            r.command_que@.len() == 0,
            r.available_workers@.len() == size,
            forall|k: int| 0 <= k < size ==> #[trigger] r.available_workers@[k] == k,
    {
        let mut available_workers: Vec<usize> = Vec::new();
        let mut id: usize = 0;
        while id < size
            invariant
                available_workers@.len() == id as int,
                id <= size,
                forall|k: int| 0 <= k < id ==> #[trigger] available_workers@[k] == k,
            decreases size - id,
        {
            available_workers.push(id);
            id += 1;
        }
        WorkQueue { command_que: Vec::new(), available_workers }
    }

    /// Queue one unit of work.
    pub fn push_que(&mut self, work: Tile)
        ensures
            final(self).command_que@ == old(self).command_que@.push(work),
            final(self).available_workers@ == old(self).available_workers@,
    {
        self.command_que.push(work);
    }

    /// Record that a worker reported itself idle.
    pub fn worker_idle(&mut self, id: usize)
        ensures
            final(self).available_workers@ == old(self).available_workers@.push(id),
            final(self).command_que@ == old(self).command_que@,
    {
        self.available_workers.push(id);
    }

    /// The dispatch decision: while tiles remain, pair the most recently
    /// idle worker with the most recently queued tile, or ask the caller
    /// to wait for a completion signal when no worker is idle.
    pub fn next_dispatch(&mut self) -> (r: DispatchAction)
        ensures
            match r {
                DispatchAction::Done => {
                    &&& old(self).command_que@.len() == 0
                    &&& *final(self) == *old(self)
                },
                DispatchAction::Wait => {
                    &&& old(self).command_que@.len() > 0
                    &&& old(self).available_workers@.len() == 0
                    &&& *final(self) == *old(self)
                },
                DispatchAction::Send(worker, tile) => {
                    &&& old(self).command_que@.len() > 0
                    &&& old(self).available_workers@.len() > 0
                    &&& worker == old(self).available_workers@.last()
                    &&& tile == old(self).command_que@.last()
                    &&& final(self).command_que@ == old(self).command_que@.drop_last()
                    &&& final(self).available_workers@
                        == old(self).available_workers@.drop_last()
                },
            },
    {
        if self.command_que.len() == 0 {
            return DispatchAction::Done;
        }
        if self.available_workers.len() == 0 {
            return DispatchAction::Wait;
        }
        let worker = self.available_workers.pop().unwrap();
        let tile = self.command_que.pop().unwrap();
        DispatchAction::Send(worker, tile)
    }
}

} // verus!
