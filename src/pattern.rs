use vstd::prelude::*;

use crate::buffer::{PixelBuffer, MAX_PIXELS};
use crate::error::ConfigurationError;

verus! {

/// Whether diagonal stripes of width `tile` paint `(x, y)` with the foreground:
/// the band `(x + y) / tile` is odd.
pub open spec fn stripe_is_foreground(tile: int, x: int, y: int) -> bool {
    (x + y) / tile % 2 == 1
}

/// Whether a checkerboard of `tile` by `tile` squares paints `(x, y)` with the
/// foreground: the square `(x / tile, y / tile)` has an odd coordinate sum.
pub open spec fn checker_is_foreground(tile: int, x: int, y: int) -> bool {
    (x / tile + y / tile) % 2 == 1
}

/// Fills the buffer with diagonal bands `tile_size` cells wide, alternating
/// `background` (even bands, from the corner) and `foreground`.
/// A zero tile size is refused and the buffer left as it was.
pub fn stripes_pattern(buf: &mut PixelBuffer, tile_size: usize, foreground: u32, background: u32) -> (res:
    Result<(), ConfigurationError>)
    requires
        old(buf).wf(),
    ensures
        res is Err <==> tile_size == 0,
        res is Err ==> res == Err::<(), _>(ConfigurationError::ZeroTileSize) && *final(buf) == *old(buf),
        final(buf).wf(),
        final(buf).spec_width() == old(buf).spec_width(),
        final(buf).spec_height() == old(buf).spec_height(),
        res is Ok ==> forall|x: int, y: int|
            0 <= x < old(buf).spec_width() && 0 <= y < old(buf).spec_height()
                ==> #[trigger] final(buf).pixel(x, y) == if stripe_is_foreground(tile_size as int, x, y) {
                foreground
            } else {
                background
            },
{
    if tile_size == 0 {
        return Err(ConfigurationError::ZeroTileSize);
    }
    let w: usize = buf.width();
    let h: usize = buf.height();
    proof {
        buf.lemma_wf();
    }
    let mut y: usize = 0;
    while y < h
        invariant
            buf.wf(),
            buf.spec_width() == w,
            buf.spec_height() == h,
            w * h <= MAX_PIXELS,
            tile_size > 0,
            y <= h,
            forall|i: int, j: int|
                0 <= i < w && 0 <= j < y ==> #[trigger] buf.pixel(i, j) == if stripe_is_foreground(
                    tile_size as int,
                    i,
                    j,
                ) {
                    foreground
                } else {
                    background
                },
        decreases h - y,
    {
        let mut x: usize = 0;
        while x < w
            invariant
                buf.wf(),
                buf.spec_width() == w,
                buf.spec_height() == h,
                w * h <= MAX_PIXELS,
                tile_size > 0,
                y < h,
                x <= w,
                forall|i: int, j: int|
                    0 <= i < w && 0 <= j < y || 0 <= i < x && j == y ==> #[trigger] buf.pixel(i, j)
                        == if stripe_is_foreground(tile_size as int, i, j) {
                        foreground
                    } else {
                        background
                    },
            decreases w - x,
        {
            proof {
                assert(w <= MAX_PIXELS && h <= MAX_PIXELS) by (nonlinear_arith)
                    requires
                        0 <= x < w,
                        0 <= y < h,
                        w * h <= MAX_PIXELS,
                ;
            }
            let c: u32 = if (x + y) / tile_size % 2 == 0 {
                background
            } else {
                foreground
            };
            buf.set(x, y, c);
            x = x + 1;
        }
        y = y + 1;
    }
    Ok(())
}

/// Fills the buffer with a checkerboard of `tile_size` by `tile_size` squares,
/// `background` on the square at the corner and `foreground` on its neighbours.
/// A zero tile size is refused and the buffer left as it was.
pub fn checker_pattern(buf: &mut PixelBuffer, tile_size: usize, foreground: u32, background: u32) -> (res:
    Result<(), ConfigurationError>)
    requires
        old(buf).wf(),
    ensures
        res is Err <==> tile_size == 0,
        res is Err ==> res == Err::<(), _>(ConfigurationError::ZeroTileSize) && *final(buf) == *old(buf),
        final(buf).wf(),
        final(buf).spec_width() == old(buf).spec_width(),
        final(buf).spec_height() == old(buf).spec_height(),
        res is Ok ==> forall|x: int, y: int|
            0 <= x < old(buf).spec_width() && 0 <= y < old(buf).spec_height()
                ==> #[trigger] final(buf).pixel(x, y) == if checker_is_foreground(tile_size as int, x, y) {
                foreground
            } else {
                background
            },
{
    if tile_size == 0 {
        return Err(ConfigurationError::ZeroTileSize);
    }
    let w: usize = buf.width();
    let h: usize = buf.height();
    proof {
        buf.lemma_wf();
    }
    let mut y: usize = 0;
    while y < h
        invariant
            buf.wf(),
            buf.spec_width() == w,
            buf.spec_height() == h,
            w * h <= MAX_PIXELS,
            tile_size > 0,
            y <= h,
            forall|i: int, j: int|
                0 <= i < w && 0 <= j < y ==> #[trigger] buf.pixel(i, j) == if checker_is_foreground(
                    tile_size as int,
                    i,
                    j,
                ) {
                    foreground
                } else {
                    background
                },
        decreases h - y,
    {
        let mut x: usize = 0;
        while x < w
            invariant
                buf.wf(),
                buf.spec_width() == w,
                buf.spec_height() == h,
                w * h <= MAX_PIXELS,
                tile_size > 0,
                y < h,
                x <= w,
                forall|i: int, j: int|
                    0 <= i < w && 0 <= j < y || 0 <= i < x && j == y ==> #[trigger] buf.pixel(i, j)
                        == if checker_is_foreground(tile_size as int, i, j) {
                        foreground
                    } else {
                        background
                    },
            decreases w - x,
        {
            proof {
                assert(w <= MAX_PIXELS && h <= MAX_PIXELS) by (nonlinear_arith)
                    requires
                        0 <= x < w,
                        0 <= y < h,
                        w * h <= MAX_PIXELS,
                ;
            }
            let c: u32 = if (x / tile_size + y / tile_size) % 2 == 0 {
                background
            } else {
                foreground
            };
            buf.set(x, y, c);
            x = x + 1;
        }
        y = y + 1;
    }
    Ok(())
}

/// Stripes use both colours once the buffer reaches the second band: the
/// corner is background, and the cell at `x + y == tile` is foreground.
pub proof fn lemma_stripes_two_colors(tile: int, w: int, h: int)
    requires
        0 < tile,
        0 < w,
        0 < h,
        tile <= (w - 1) + (h - 1),
    ensures
        !stripe_is_foreground(tile, 0, 0),
        exists|x: int, y: int|
            0 <= x < w && 0 <= y < h && #[trigger] stripe_is_foreground(tile, x, y),
{
    let x = if tile < w {
        tile
    } else {
        w - 1
    };
    let y = tile - x;
    assert(stripe_is_foreground(tile, x, y)) by {
        assert(x + y == tile);
        assert((x + y) / tile == 1) by (nonlinear_arith)
            requires
                x + y == tile,
                0 < tile,
        ;
    }
}

/// A checkerboard uses both colours once the buffer is wider or taller than a
/// tile: the corner is background, its neighbouring tile foreground.
pub proof fn lemma_checker_two_colors(tile: int, w: int, h: int)
    requires
        0 < tile,
        0 < w,
        0 < h,
        tile < w || tile < h,
    ensures
        !checker_is_foreground(tile, 0, 0),
        exists|x: int, y: int|
            0 <= x < w && 0 <= y < h && #[trigger] checker_is_foreground(tile, x, y),
{
    assert(tile / tile == 1) by (nonlinear_arith)
        requires
            0 < tile,
    ;
    if tile < w {
        assert(checker_is_foreground(tile, tile, 0));
    } else {
        assert(checker_is_foreground(tile, 0, tile));
    }
}

} // verus!
