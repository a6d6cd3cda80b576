//! The geometry of a small isometric picture of a grid: flat-shaded cubes,
//! drawn the way Minecraft maps and item icons draw blocks.
//!
//! The projection is 2:1 pixel isometric, viewed from +X, +Y, +Z: a block is
//! a hexagon `2u` pixels wide and `2u` tall, made of its top face and its +Z
//! (left) and +X (right) sides. With `u` even every corner lands on a whole
//! pixel, so each block is the same sprite stamped at an integer offset.
//! Blocks are stamped in increasing `x + y + z`, which for grid-aligned
//! cubes seen along (1, 1, 1) is back to front.
use vstd::prelude::*;
use crate::grid::BlockGrid;
use crate::order::{indexed, keys_sorted, sort_by_key, stable};

verus! {

/// Which face pixel `(x, y)` of a block's `2u` x `2u` box shows: 0 none,
/// 1 top, 2 left (+Z), 3 right (+X). Pixel centers decide: in doubled
/// coordinates a center is `(2x + 1, 2y + 1)` and the box's middle `2u`.
pub open spec fn face_at(u: int, x: int, y: int) -> u8 {
    let cx = 2 * x + 1;
    let cy = 2 * y + 1;
    let mid = 2 * u;
    let dx = if cx >= mid {
        cx - mid
    } else {
        mid - cx
    };
    let dy = if 2 * cy >= mid {
        2 * cy - mid
    } else {
        mid - 2 * cy
    };
    if !(2 * cy >= dx && 2 * cy <= 4 * mid - dx) {
        0
    } else if dx + dy <= mid {
        1
    } else if cx < mid {
        2
    } else {
        3
    }
}

/// Which face each pixel of a block's `2u` x `2u` box shows, row by row.
///
/// Relative to the box, the top face is the rhombus with corners (0, u/2),
/// (u, 0), (2u, u/2) and (u, u); the sides hang from its lower edges down to
/// the bottom corner (u, 2u).
pub fn sprite(u: i64) -> (res: Vec<u8>)
    requires
        1 <= u,
        4 * u * u <= usize::MAX,
        u <= 0x4000_0000,
    ensures
        res@.len() == 4 * u * u,
        forall|x: int, y: int|
            0 <= x < 2 * u && 0 <= y < 2 * u ==> #[trigger] res@[y * (2 * u) + x] == face_at(u as int, x, y),
{
    let side = 2 * u;
    let mut px: Vec<u8> = Vec::new();
    let mut y: i64 = 0;
    while y < side
        invariant
            side == 2 * u,
            1 <= u <= 0x4000_0000,
            0 <= y <= side,
            px@.len() == y * side,
            forall|xx: int, yy: int|
                0 <= xx < side && 0 <= yy < y ==> #[trigger] px@[yy * side + xx] == face_at(u as int, xx, yy),
        decreases side - y,
    {
        let mut x: i64 = 0;
        while x < side
            invariant
                side == 2 * u,
                1 <= u <= 0x4000_0000,
                0 <= y < side,
                0 <= x <= side,
                px@.len() == y * side + x,
                forall|xx: int, yy: int|
                    0 <= xx < side && 0 <= yy < y ==> #[trigger] px@[yy * side + xx] == face_at(
                        u as int,
                        xx,
                        yy,
                    ),
                forall|xx: int| 0 <= xx < x ==> #[trigger] px@[y * side + xx] == face_at(u as int, xx, y as int),
            decreases side - x,
        {
            let cx = 2 * x + 1;
            let cy = 2 * y + 1;
            let mid = 2 * u;
            let dx = if cx >= mid {
                cx - mid
            } else {
                mid - cx
            };
            let dy = if 2 * cy >= mid {
                2 * cy - mid
            } else {
                mid - 2 * cy
            };
            let face: u8 = if !(2 * cy >= dx && 2 * cy <= 4 * mid - dx) {
                0
            } else if dx + dy <= mid {
                1
            } else if cx < mid {
                2
            } else {
                3
            };
            let ghost before = px@;
            px.push(face);
            proof {
                assert forall|xx: int, yy: int|
                    0 <= xx < side && 0 <= yy < y implies #[trigger] px@[yy * side + xx] == face_at(
                    u as int,
                    xx,
                    yy,
                ) by {
                    assert(yy * side + xx < y * side) by (nonlinear_arith)
                        requires
                            0 <= xx < side,
                            0 <= yy < y,
                    ;
                    assert(px@[yy * side + xx] == before[yy * side + xx]);
                }
            }
            x += 1;
        }
        assert((y + 1) * side == y * side + side) by (nonlinear_arith);
        proof {
            assert forall|xx: int, yy: int|
                0 <= xx < side && 0 <= yy < y + 1 implies #[trigger] px@[yy * side + xx] == face_at(
                u as int,
                xx,
                yy,
            ) by {
                if yy == y {
                } else {
                }
            }
        }
        y += 1;
    }
    assert(y * side == 4 * u * u) by (nonlinear_arith)
        requires
            y == side,
            side == 2 * u,
    ;
    px
}

/// `v / 2` rounded toward zero, as `i64` division does.
pub open spec fn half_toward_zero(v: int) -> int {
    if v >= 0 {
        v / 2
    } else {
        -((-v) / 2)
    }
}

/// Screen position of a block's sprite center: `(x - z) u` across and
/// `(x + z) u / 2 - y u` down.
pub open spec fn projected(c: [i32; 3], u: int) -> (int, int) {
    ((c[0] - c[2]) * u, half_toward_zero((c[0] + c[2]) * u) - c[1] * u)
}

/// Where block `c`'s sprite is centered at unit `u`.
pub fn project(c: [i32; 3], u: i64) -> (res: (i64, i64))
    requires
        -0x4000_0000 <= u <= 0x4000_0000,
    ensures
        res.0 == projected(c, u as int).0,
        res.1 == projected(c, u as int).1,
{
    let x = c[0] as i64;
    let y = c[1] as i64;
    let z = c[2] as i64;
    assert(-0x1_0000_0000 <= x - z <= 0x1_0000_0000);
    assert(-0x4000_0000_0000_0000 <= (x - z) * u <= 0x4000_0000_0000_0000) by (nonlinear_arith)
        requires
            -0x1_0000_0000 <= x - z <= 0x1_0000_0000,
            -0x4000_0000 <= u <= 0x4000_0000,
    ;
    assert(-0x4000_0000_0000_0000 <= (x + z) * u <= 0x4000_0000_0000_0000) by (nonlinear_arith)
        requires
            -0x1_0000_0000 <= x + z <= 0x1_0000_0000,
            -0x4000_0000 <= u <= 0x4000_0000,
    ;
    assert(-0x2000_0000_0000_0000 <= y * u <= 0x2000_0000_0000_0000) by (nonlinear_arith)
        requires
            -0x8000_0000 <= y <= 0x8000_0000,
            -0x4000_0000 <= u <= 0x4000_0000,
    ;
    let s = (x + z) * u;
    let h = if s >= 0 {
        s / 2
    } else {
        -((-s) / 2)
    };
    ((x - z) * u, h - y * u)
}

/// The sum of a block's coordinates, shifted to be non-negative: the
/// painter's key.
pub open spec fn depth_key(c: [i32; 3]) -> u64 {
    (c[0] + c[1] + c[2] + 0x1_8000_0000) as u64
}

/// Each block with its depth key.
pub open spec fn keyed_depths(g: BlockGrid) -> Seq<(u64, usize)> {
    Seq::new(g.coords@.len(), |i: int| (depth_key(g.coords@[i]), i as usize))
}

/// Blocks in back-to-front order: by `x + y + z`, ties in the order they
/// were given.
pub fn painter_order(grid: &BlockGrid) -> (res: Vec<(u64, usize)>)
    ensures
        keys_sorted(res@),
        res@.to_multiset() == keyed_depths(*grid).to_multiset(),
        stable(res@),
{
    let n = grid.coords.len();
    let mut keyed: Vec<(u64, usize)> = Vec::new();
    let mut i: usize = 0;
    while i < n
        invariant
            n == grid.coords@.len(),
            i <= n,
            keyed@ == keyed_depths(*grid).take(i as int),
        decreases n - i,
    {
        let c = grid.coords[i];
        let key = (c[0] as i64 + c[1] as i64 + c[2] as i64 + 0x1_8000_0000) as u64;
        keyed.push((key, i));
        i += 1;
        assert(keyed@ =~= keyed_depths(*grid).take(i as int));
    }
    assert(keyed_depths(*grid).take(n as int) == keyed_depths(*grid));
    assert(indexed(keyed@));
    sort_by_key(&keyed)
}

// ── Drawing ──────────────────────────────────────────────────────────────

/// A picture: `width` x `height` RGBA pixels, row by row.
pub struct Raster {
    pub width: u32,
    pub height: u32,
    pub pixels: Vec<[u8; 4]>,
}

/// The pixel bounds of blocks `0..n`: every block's sprite spans
/// `[px - u, px + u)` across and `[py - u, py + u)` down.
pub open spec fn bounds_of(coords: Seq<[i32; 3]>, u: int, n: int) -> (int, int, int, int)
    decreases n,
{
    if n <= 0 {
        (i64::MAX as int, i64::MAX as int, i64::MIN as int, i64::MIN as int)
    } else {
        let (a, b, c, d) = bounds_of(coords, u, n - 1);
        let p = projected(coords[n - 1], u);
        (
            if p.0 - u < a { p.0 - u } else { a },
            if p.1 - u < b { p.1 - u } else { b },
            if p.0 + u > c { p.0 + u } else { c },
            if p.1 + u > d { p.1 + u } else { d },
        )
    }
}

/// The pixel bounds of the whole drawing at unit `u`.
pub fn bounds(grid: &BlockGrid, u: i64) -> (res: (i64, i64, i64, i64))
    requires
        1 <= u <= 0x4000_0000,
    ensures
        res.0 == bounds_of(grid.coords@, u as int, grid.coords@.len() as int).0,
        res.1 == bounds_of(grid.coords@, u as int, grid.coords@.len() as int).1,
        res.2 == bounds_of(grid.coords@, u as int, grid.coords@.len() as int).2,
        res.3 == bounds_of(grid.coords@, u as int, grid.coords@.len() as int).3,
{
    let mut min_x = i64::MAX;
    let mut min_y = i64::MAX;
    let mut max_x = i64::MIN;
    let mut max_y = i64::MIN;
    let mut i: usize = 0;
    while i < grid.coords.len()
        invariant
            1 <= u <= 0x4000_0000,
            i <= grid.coords@.len(),
            (min_x as int, min_y as int, max_x as int, max_y as int) == bounds_of(
                grid.coords@,
                u as int,
                i as int,
            ),
        decreases grid.coords.len() - i,
    {
        let (px, py) = project(grid.coords[i], u);
        assert(-0x4000_0000_0000_0000 <= (grid.coords@[i as int][0] - grid.coords@[i as int][2]) * u <= 0x4000_0000_0000_0000) by (nonlinear_arith)
            requires
                -0x1_0000_0000 <= grid.coords@[i as int][0] - grid.coords@[i as int][2] <= 0x1_0000_0000,
                1 <= u <= 0x4000_0000,
        ;
        assert(-0x4000_0000_0000_0000 <= (grid.coords@[i as int][0] + grid.coords@[i as int][2]) * u <= 0x4000_0000_0000_0000) by (nonlinear_arith)
            requires
                -0x1_0000_0000 <= grid.coords@[i as int][0] + grid.coords@[i as int][2] <= 0x1_0000_0000,
                1 <= u <= 0x4000_0000,
        ;
        assert(-0x2000_0000_0000_0000 <= grid.coords@[i as int][1] * u <= 0x2000_0000_0000_0000) by (nonlinear_arith)
            requires
                -0x8000_0000 <= grid.coords@[i as int][1] <= 0x8000_0000,
                1 <= u <= 0x4000_0000,
        ;
        if px - u < min_x {
            min_x = px - u;
        }
        if py - u < min_y {
            min_y = py - u;
        }
        if px + u > max_x {
            max_x = px + u;
        }
        if py + u > max_y {
            max_y = py + u;
        }
        i += 1;
    }
    (min_x, min_y, max_x, max_y)
}

/// `pix`, a `w`-wide picture, with a block's sprite at unit `u` stamped
/// with its box's corner at `(ox, oy)`: each pixel the sprite covers shows
/// that face's color; the rest is left as it was.
pub open spec fn stamped(pix: Seq<[u8; 4]>, w: int, u: int, ox: int, oy: int, faces: [[u8; 4]; 3]) -> Seq<[u8; 4]> {
    Seq::new(
        pix.len(),
        |i: int|
            {
                let sx = i % w - ox;
                let sy = i / w - oy;
                if 0 <= sx < 2 * u && 0 <= sy < 2 * u && face_at(u, sx, sy) != 0 {
                    faces[face_at(u, sx, sy) - 1]
                } else {
                    pix[i]
                }
            },
    )
}

/// Stamped so far: the sprite's pixels before `k`, row by row.
pub open spec fn stamped_upto(pix: Seq<[u8; 4]>, w: int, u: int, ox: int, oy: int, faces: [[u8; 4]; 3], k: int) -> Seq<[u8; 4]> {
    Seq::new(
        pix.len(),
        |i: int|
            {
                let sx = i % w - ox;
                let sy = i / w - oy;
                if 0 <= sx < 2 * u && 0 <= sy < 2 * u && sy * (2 * u) + sx < k && face_at(u, sx, sy)
                    != 0 {
                    faces[face_at(u, sx, sy) - 1]
                } else {
                    pix[i]
                }
            },
    )
}

fn stamp(pixels: &mut Vec<[u8; 4]>, w: u32, h: u32, sprite: &Vec<u8>, u: i64, ox: i64, oy: i64, faces: &[[u8; 4]; 3])
    requires
        1 <= w,
        old(pixels)@.len() == w * h,
        1 <= u <= 0x4000_0000,
        4 * u * u <= usize::MAX,
        sprite@.len() == 4 * u * u,
        forall|x: int, y: int|
            0 <= x < 2 * u && 0 <= y < 2 * u ==> #[trigger] sprite@[y * (2 * u) + x] == face_at(u as int, x, y),
        -0x4000_0000_0000_0000 <= ox <= 0x4000_0000_0000_0000,
        -0x4000_0000_0000_0000 <= oy <= 0x4000_0000_0000_0000,
    ensures
        final(pixels)@ == stamped(old(pixels)@, w as int, u as int, ox as int, oy as int, *faces),
{
    let ghost orig = pixels@;
    let side = 2 * u;
    assert(side * side <= 0x4000_0000_0000_0000) by (nonlinear_arith)
        requires
            side == 2 * u,
            1 <= u <= 0x4000_0000,
    ;
    let total = side * side;
    assert(total == 4 * u * u) by (nonlinear_arith)
        requires
            side == 2 * u,
            total == side * side,
    ;
    let mut k: i64 = 0;
    assert(pixels@ =~= stamped_upto(orig, w as int, u as int, ox as int, oy as int, *faces, 0)) by {
        assert forall|i: int| 0 <= i < orig.len() implies pixels@[i] == stamped_upto(
            orig,
            w as int,
            u as int,
            ox as int,
            oy as int,
            *faces,
            0,
        )[i] by {
            let sx = i % (w as int) - ox;
            let sy = i / (w as int) - oy;
            if 0 <= sx < side && 0 <= sy < side {
                assert(sy * side + sx >= 0) by (nonlinear_arith)
                    requires
                        0 <= sx,
                        0 <= sy,
                        0 <= side,
                ;
            }
        }
    }
    while k < total
        invariant
            1 <= w,
            orig.len() == w * h,
            pixels@.len() == orig.len(),
            1 <= u <= 0x4000_0000,
            side == 2 * u,
            total == side * side,
            total == 4 * u * u,
            4 * u * u <= usize::MAX,
            sprite@.len() == total,
            forall|x: int, y: int|
                0 <= x < side && 0 <= y < side ==> #[trigger] sprite@[y * side + x] == face_at(u as int, x, y),
            -0x4000_0000_0000_0000 <= ox <= 0x4000_0000_0000_0000,
            -0x4000_0000_0000_0000 <= oy <= 0x4000_0000_0000_0000,
            0 <= k <= total,
            pixels@ == stamped_upto(orig, w as int, u as int, ox as int, oy as int, *faces, k as int),
        decreases total - k,
    {
        let sx = k % side;
        let sy = k / side;
        proof {
            vstd::arithmetic::div_mod::lemma_fundamental_div_mod(k as int, side as int);
            assert(k == sy * side + sx) by (nonlinear_arith)
                requires
                    k == side * sy + sx,
            ;
            assert(0 <= sy < side) by (nonlinear_arith)
                requires
                    k == sy * side + sx,
                    0 <= sx < side,
                    0 <= k < side * side,
            ;
        }
        assert(sprite@[sy * side + sx] == face_at(u as int, sx as int, sy as int));
        let kk = k as usize;
        assert(kk as int == k as int);
        let face = sprite[kk];
        assert(face == face_at(u as int, sx as int, sy as int));
        let x = ox + sx;
        let y = oy + sy;
        let ghost before = pixels@;
        if face != 0 && x >= 0 && y >= 0 && x < w as i64 && y < h as i64 {
            assert(y * w + x < w * h) by (nonlinear_arith)
                requires
                    0 <= x < w,
                    0 <= y < h,
            ;
            let n = pixels.len();
            assert(n == w * h);
            let idx = (y as usize) * (w as usize) + (x as usize);
            pixels.set(idx, faces[(face - 1) as usize]);
            proof {
                vstd::arithmetic::div_mod::lemma_fundamental_div_mod_converse(idx as int, w as int, y as int, x as int);
                assert forall|i: int| 0 <= i < orig.len() implies pixels@[i] == stamped_upto(
                    orig,
                    w as int,
                    u as int,
                    ox as int,
                    oy as int,
                    *faces,
                    k + 1,
                )[i] by {
                    let isx = i % (w as int) - ox;
                    let isy = i / (w as int) - oy;
                    if i == idx {
                    } else {
                        if 0 <= isx < side && 0 <= isy < side && isy * side + isx == k {
                            vstd::arithmetic::div_mod::lemma_fundamental_div_mod_converse(
                                k as int,
                                side as int,
                                isy,
                                isx,
                            );
                            vstd::arithmetic::div_mod::lemma_fundamental_div_mod(i, w as int);
                            assert(i == (i / (w as int)) * (w as int) + i % (w as int)) by (nonlinear_arith)
                                requires
                                    i == (w as int) * (i / (w as int)) + i % (w as int),
                            ;
                            assert(false);
                        }
                    }
                }
            }
            assert(pixels@ =~= stamped_upto(orig, w as int, u as int, ox as int, oy as int, *faces, k + 1));
        } else {
            proof {
                assert forall|i: int| 0 <= i < orig.len() implies pixels@[i] == stamped_upto(
                    orig,
                    w as int,
                    u as int,
                    ox as int,
                    oy as int,
                    *faces,
                    k + 1,
                )[i] by {
                    let isx = i % (w as int) - ox;
                    let isy = i / (w as int) - oy;
                    if 0 <= isx < side && 0 <= isy < side && isy * side + isx == k && face_at(
                        u as int,
                        isx,
                        isy,
                    ) != 0 {
                        vstd::arithmetic::div_mod::lemma_fundamental_div_mod_converse(
                            k as int,
                            side as int,
                            isy,
                            isx,
                        );
                        vstd::arithmetic::div_mod::lemma_fundamental_div_mod(i, w as int);
                        assert(0 <= i / (w as int) < h) by (nonlinear_arith)
                            requires
                                0 <= i < w * h,
                                1 <= w,
                        ;
                        assert(false);
                    }
                }
            }
            assert(pixels@ =~= stamped_upto(orig, w as int, u as int, ox as int, oy as int, *faces, k + 1));
        }
        k += 1;
    }
    assert(pixels@ =~= stamped(orig, w as int, u as int, ox as int, oy as int, *faces)) by {
        assert forall|i: int| 0 <= i < orig.len() implies pixels@[i] == stamped(
            orig,
            w as int,
            u as int,
            ox as int,
            oy as int,
            *faces,
        )[i] by {
            let isx = i % (w as int) - ox;
            let isy = i / (w as int) - oy;
            if 0 <= isx < side && 0 <= isy < side {
                assert(isy * side + isx < total) by (nonlinear_arith)
                    requires
                        0 <= isx < side,
                        0 <= isy < side,
                        total == side * side,
                ;
            }
        }
    }
}

/// Every block's sprite lies within the bounds.
proof fn lemma_bounds_cover(coords: Seq<[i32; 3]>, u: int, n: int, i: int)
    requires
        0 <= i < n <= coords.len(),
    ensures
        bounds_of(coords, u, n).0 <= projected(coords[i], u).0 - u,
        bounds_of(coords, u, n).1 <= projected(coords[i], u).1 - u,
        bounds_of(coords, u, n).2 >= projected(coords[i], u).0 + u,
        bounds_of(coords, u, n).3 >= projected(coords[i], u).1 + u,
    decreases n,
{
    if i < n - 1 {
        lemma_bounds_cover(coords, u, n - 1, i);
    }
}

/// Where block `i`'s sprite box starts in a drawing whose bounds start at
/// `(min_x, min_y)`.
pub open spec fn sprite_origin(g: BlockGrid, u: int, min_x: int, min_y: int, i: int) -> (int, int) {
    let p = projected(g.coords@[i], u);
    (p.0 - u - min_x, p.1 - u - min_y)
}

/// The picture after stamping the blocks `order[0..n]` names, one after
/// another, onto `pix`.
pub open spec fn painted(
    pix: Seq<[u8; 4]>,
    w: int,
    u: int,
    min_x: int,
    min_y: int,
    g: BlockGrid,
    colors: Seq<[[u8; 4]; 3]>,
    order: Seq<(u64, usize)>,
    n: int,
) -> Seq<[u8; 4]>
    decreases n,
{
    if n <= 0 {
        pix
    } else {
        let i = order[n - 1].1 as int;
        let o = sprite_origin(g, u, min_x, min_y, i);
        stamped(
            painted(pix, w, u, min_x, min_y, g, colors, order, n - 1),
            w,
            u,
            o.0,
            o.1,
            colors[g.blocks@[i] as int],
        )
    }
}

/// The full drawing of a grid at unit `u`: blank, then every block's sprite
/// stamped back to front in its shaded colors (`colors`, one triple per
/// palette entry: top, left, right).
pub fn draw_sprites(grid: &BlockGrid, colors: &[[[u8; 4]; 3]], u: i64) -> (res: Raster)
    requires
        grid.wf(),
        grid.coords@.len() > 0,
        colors@.len() == grid.names@.len(),
        1 <= u <= 0x4000_0000,
        4 * u * u <= usize::MAX,
        ({
            let b = bounds_of(grid.coords@, u as int, grid.coords@.len() as int);
            &&& b.2 - b.0 <= u32::MAX
            &&& b.3 - b.1 <= u32::MAX
            &&& (b.2 - b.0) * (b.3 - b.1) <= usize::MAX / 8
        }),
    ensures
        ({
            let b = bounds_of(grid.coords@, u as int, grid.coords@.len() as int);
            &&& res.width == b.2 - b.0
            &&& res.height == b.3 - b.1
            &&& exists|o: Seq<(u64, usize)>|
                keys_sorted(o) && stable(o) && o.to_multiset() == keyed_depths(*grid).to_multiset() && res.pixels@
                    == painted(
                    Seq::new((res.width * res.height) as nat, |k: int| [0u8, 0u8, 0u8, 0u8]),
                    res.width as int,
                    u as int,
                    b.0,
                    b.1,
                    *grid,
                    colors@,
                    o,
                    o.len() as int,
                )
        }),
{
    let ghost n = grid.coords@.len() as int;
    let ghost b = bounds_of(grid.coords@, u as int, n);
    let (min_x, min_y, max_x, max_y) = bounds(grid, u);
    proof {
        lemma_bounds_cover(grid.coords@, u as int, n, 0);
    }
    let w = (max_x - min_x) as u32;
    let h = (max_y - min_y) as u32;
    let total = (w as usize) * (h as usize);
    let mut pixels: Vec<[u8; 4]> = Vec::new();
    let mut k: usize = 0;
    while k < total
        invariant
            k <= total,
            pixels@ == Seq::new(k as nat, |j: int| [0u8, 0u8, 0u8, 0u8]),
        decreases total - k,
    {
        pixels.push([0u8, 0u8, 0u8, 0u8]);
        k += 1;
        assert(pixels@ =~= Seq::new(k as nat, |j: int| [0u8, 0u8, 0u8, 0u8]));
    }
    let ghost blank = pixels@;
    let sprite_px = sprite(u);
    let order = painter_order(grid);
    proof {
        order@.to_multiset_ensures();
        keyed_depths(*grid).to_multiset_ensures();
        assert forall|q: int| 0 <= q < order@.len() implies (#[trigger] order@[q]).1 < n by {
            assert(order@.contains(order@[q]));
            assert(order@.to_multiset().count(order@[q]) > 0);
            assert(keyed_depths(*grid).contains(order@[q]));
            let k = choose|k: int| 0 <= k < keyed_depths(*grid).len() && keyed_depths(*grid)[k] == order@[q];
            assert(keyed_depths(*grid)[k].1 == k as usize);
        }
    }
    let mut j: usize = 0;
    while j < order.len()
        invariant
            grid.wf(),
            colors@.len() == grid.names@.len(),
            1 <= u <= 0x4000_0000,
            4 * u * u <= usize::MAX,
            sprite_px@.len() == 4 * u * u,
            forall|x: int, y: int|
                0 <= x < 2 * u && 0 <= y < 2 * u ==> #[trigger] sprite_px@[y * (2 * u) + x] == face_at(u as int, x, y),
            n == grid.coords@.len(),
            b == bounds_of(grid.coords@, u as int, n),
            (min_x as int, min_y as int, max_x as int, max_y as int) == b,
            w == b.2 - b.0,
            h == b.3 - b.1,
            1 <= w,
            pixels@.len() == w * h,
            forall|q: int| 0 <= q < order@.len() ==> (#[trigger] order@[q]).1 < n,
            j <= order@.len(),
            pixels@ == painted(blank, w as int, u as int, b.0, b.1, *grid, colors@, order@, j as int),
        decreases order.len() - j,
    {
        let i = order[j].1;
        let c = grid.coords[i];
        let (px, py) = project(c, u);
        proof {
            lemma_bounds_cover(grid.coords@, u as int, n, i as int);
        }
        let ox = px - u - min_x;
        let oy = py - u - min_y;
        let faces = colors[grid.blocks[i] as usize];
        stamp(&mut pixels, w, h, &sprite_px, u, ox, oy, &faces);
        j += 1;
    }
    Raster { width: w, height: h, pixels }
}

/// A channel scaled by its pixel's alpha, rounded.
pub open spec fn times_alpha(c: u8, a: u8) -> u8 {
    ((c * a + 127) / 255) as u8
}

/// A pixel with its color scaled by its alpha.
pub open spec fn premultiplied(p: [u8; 4]) -> [u8; 4] {
    [times_alpha(p[0], p[3]), times_alpha(p[1], p[3]), times_alpha(p[2], p[3]), p[3]]
}

/// A channel divided by its pixel's alpha again, rounded and capped.
pub open spec fn over_alpha(c: u8, a: u8) -> u8 {
    let v = (c * 255 + a / 2) / (a as int);
    if v > 255 {
        255
    } else {
        v as u8
    }
}

/// A pixel with its alpha divided out; fully transparent pixels stay.
pub open spec fn unpremultiplied(p: [u8; 4]) -> [u8; 4] {
    if p[3] == 0 {
        p
    } else {
        [over_alpha(p[0], p[3]), over_alpha(p[1], p[3]), over_alpha(p[2], p[3]), p[3]]
    }
}

fn times_alpha_exec(c: u8, a: u8) -> (res: u8)
    ensures
        res == times_alpha(c, a),
{
    assert(c * a + 127 <= 255 * 255 + 127) by (nonlinear_arith)
        requires
            c <= 255,
            a <= 255,
    ;
    let v = (c as u32 * a as u32 + 127) / 255;
    assert(v <= 255) by (nonlinear_arith)
        requires
            v == (c * a + 127) / 255,
            c <= 255,
            a <= 255,
    ;
    v as u8
}

fn over_alpha_exec(c: u8, a: u8) -> (res: u8)
    requires
        a > 0,
    ensures
        res == over_alpha(c, a),
{
    let v = (c as u32 * 255 + a as u32 / 2) / (a as u32);
    if v > 255 {
        255
    } else {
        v as u8
    }
}

/// Every pixel premultiplied: scaling mixes neighbors, and with straight
/// alpha a transparent black neighbor would darken every edge.
pub fn premultiply(r: Raster) -> (res: Raster)
    ensures
        res.width == r.width,
        res.height == r.height,
        res.pixels@ == r.pixels@.map_values(|p: [u8; 4]| premultiplied(p)),
{
    let Raster { width, height, pixels } = r;
    let mut out: Vec<[u8; 4]> = Vec::new();
    let mut i: usize = 0;
    while i < pixels.len()
        invariant
            i <= pixels@.len(),
            out@ == pixels@.take(i as int).map_values(|p: [u8; 4]| premultiplied(p)),
        decreases pixels.len() - i,
    {
        let p = pixels[i];
        out.push([times_alpha_exec(p[0], p[3]), times_alpha_exec(p[1], p[3]), times_alpha_exec(p[2], p[3]), p[3]]);
        i += 1;
        assert(out@ =~= pixels@.take(i as int).map_values(|p: [u8; 4]| premultiplied(p)));
    }
    assert(pixels@.take(pixels@.len() as int) =~= pixels@);
    Raster { width, height, pixels: out }
}

/// Every pixel's alpha divided out again after scaling.
pub fn unpremultiply(r: Raster) -> (res: Raster)
    ensures
        res.width == r.width,
        res.height == r.height,
        res.pixels@ == r.pixels@.map_values(|p: [u8; 4]| unpremultiplied(p)),
{
    let Raster { width, height, pixels } = r;
    let mut out: Vec<[u8; 4]> = Vec::new();
    let mut i: usize = 0;
    while i < pixels.len()
        invariant
            i <= pixels@.len(),
            out@ == pixels@.take(i as int).map_values(|p: [u8; 4]| unpremultiplied(p)),
        decreases pixels.len() - i,
    {
        let p = pixels[i];
        if p[3] == 0 {
            out.push(p);
        } else {
            out.push([over_alpha_exec(p[0], p[3]), over_alpha_exec(p[1], p[3]), over_alpha_exec(p[2], p[3]), p[3]]);
        }
        i += 1;
        assert(out@ =~= pixels@.take(i as int).map_values(|p: [u8; 4]| unpremultiplied(p)));
    }
    assert(pixels@.take(pixels@.len() as int) =~= pixels@);
    Raster { width, height, pixels: out }
}

/// An opaque pixel survives premultiplying and back unchanged.
pub proof fn lemma_opaque_round_trip(p: [u8; 4])
    requires
        p[3] == 255,
    ensures
        unpremultiplied(premultiplied(p)) == p,
{
    assert forall|c: u8| times_alpha(c, 255) == c && over_alpha(c, 255) == c by {
        assert((c * 255 + 127) / 255 == c) by (nonlinear_arith)
            requires
                c <= 255,
        ;
    }
    assert(unpremultiplied(premultiplied(p)) =~= p);
}

} // verus!
