use vstd::prelude::*;

use crate::buffer::{PixelBuffer, MAX_PIXELS};
use crate::error::ConfigurationError;

verus! {

/// Whether `(x, y)` is one of the eight images of the traced point `p` (column,
/// row) under the symmetries of an `n` by `n` square about its centre `(n/2, n/2)`.
pub open spec fn is_reflection(n: int, p: (int, int), x: int, y: int) -> bool {
    let (dx, dy) = p;
    ||| x == dx && y == dy
    ||| x == dy && y == dx
    ||| x == dx && y == n - dy
    ||| x == n - dx && y == dy
    ||| x == n - dy && y == dx
    ||| x == dy && y == n - dx
    ||| x == n - dy && y == n - dx
    ||| x == n - dx && y == n - dy
}

/// Whether `(x, y)` is an image of one of the points `pts`.
pub open spec fn covered(n: int, pts: Seq<(int, int)>, x: int, y: int) -> bool {
    exists|i: int| 0 <= i < pts.len() && #[trigger] is_reflection(n, pts[i], x, y)
}

/// The midpoint trace of the first octant from the state `(k, m)`: the traced
/// point is `(n/2 + k, n/2 + m - 1/2)`, and a point is kept when it falls inside
/// the buffer, floored to a cell. After each step `k` grows by one, and `m` drops
/// by one once `k² + (m - 1/2)² > r²`. The trace stops when `k > m - 1/2`.
pub open spec fn trace_from(n: int, r: int, k: int, m: int) -> Seq<(int, int)>
    decreases if k < m { m - k } else { 0 },
{
    if k < m {
        let here = if 2 * k < n && 2 * m - 1 < n {
            seq![(n / 2 + k, (n + 2 * m - 1) / 2)]
        } else {
            Seq::empty()
        };
        let k1 = k + 1;
        let m1 = if k1 * k1 + m * m - m >= r * r {
            m - 1
        } else {
            m
        };
        here + trace_from(n, r, k1, m1)
    } else {
        Seq::empty()
    }
}

/// The cells traced for a circle of radius `r` in an `n` by `n` buffer.
pub open spec fn ring_points(n: int, r: int) -> Seq<(int, int)> {
    trace_from(n, r, 0, r)
}

/// Whether the outlined circle of radius `r` paints `(x, y)` in an `n` by `n` buffer.
pub open spec fn on_ring(n: int, r: int, x: int, y: int) -> bool {
    covered(n, ring_points(n, r), x, y)
}

/// Paints the eight images of `(dx, dy)`.
fn plot_reflections(buf: &mut PixelBuffer, n: usize, dx: usize, dy: usize, color: u32)
    requires
        old(buf).wf(),
        old(buf).spec_width() == n,
        old(buf).spec_height() == n,
        1 <= dx < n,
        1 <= dy < n,
    ensures
        final(buf).wf(),
        final(buf).spec_width() == n,
        final(buf).spec_height() == n,
        forall|x: int, y: int|
            0 <= x < n && 0 <= y < n ==> #[trigger] final(buf).pixel(x, y) == if is_reflection(
                n as int,
                (dx as int, dy as int),
                x,
                y,
            ) {
                color
            } else {
                old(buf).pixel(x, y)
            },
{
    buf.set(dx, dy, color);
    buf.set(dy, dx, color);
    buf.set(dx, n - dy, color);
    buf.set(n - dx, dy, color);
    buf.set(n - dy, dx, color);
    buf.set(dy, n - dx, color);
    buf.set(n - dy, n - dx, color);
    buf.set(n - dx, n - dy, color);
}

/// Outlines a circle of radius `radius` centred on `(n/2, n/2)` in a square
/// buffer of side `n`: every cell becomes `background`, then the midpoint trace
/// of the first octant is painted `foreground` with its eight reflections.
/// A buffer that is not square is refused and left as it was.
pub fn hollow_circle(buf: &mut PixelBuffer, radius: usize, foreground: u32, background: u32) -> (res:
    Result<(), ConfigurationError>)
    requires
        old(buf).wf(),
    ensures
        res is Err <==> old(buf).spec_width() != old(buf).spec_height(),
        res is Err ==> res == Err::<(), _>(ConfigurationError::NotSquare) && *final(buf) == *old(buf),
        final(buf).wf(),
        final(buf).spec_width() == old(buf).spec_width(),
        final(buf).spec_height() == old(buf).spec_height(),
        res is Ok ==> forall|x: int, y: int|
            0 <= x < old(buf).spec_width() && 0 <= y < old(buf).spec_height()
                ==> #[trigger] final(buf).pixel(x, y) == if on_ring(
                old(buf).spec_width() as int,
                radius as int,
                x,
                y,
            ) {
                foreground
            } else {
                background
            },
{
    if buf.width() != buf.height() {
        return Err(ConfigurationError::NotSquare);
    }
    buf.fill_all(background);
    let n: usize = buf.width();
    let ghost nn = n as int;
    let ghost rr = radius as int;
    let mut k: usize = 0;
    let mut m: usize = radius;
    let ghost mut done: Seq<(int, int)> = Seq::empty();
    proof {
        assert(done + trace_from(nn, rr, 0, rr) =~= ring_points(nn, rr));
    }
    while k < m
        invariant
            buf.wf(),
            buf.spec_width() == n,
            buf.spec_height() == n,
            nn == n,
            rr == radius,
            m <= radius,
            k <= radius,
            done + trace_from(nn, rr, k as int, m as int) == ring_points(nn, rr),
            forall|x: int, y: int|
                0 <= x < n && 0 <= y < n ==> #[trigger] buf.pixel(x, y) == if covered(
                    nn,
                    done,
                    x,
                    y,
                ) {
                    foreground
                } else {
                    background
                },
        decreases if k < m { m - k } else { 0 },
    {
        let ghost old_done = done;
        let ghost rest = trace_from(nn, rr, k as int + 1, if (k as int + 1) * (k as int + 1) + (m
            as int) * (m as int) - m as int >= rr * rr {
            m as int - 1
        } else {
            m as int
        });
        if 2 * (k as u128) < n as u128 && 2 * (m as u128) - 1 < n as u128 {
            let dx: usize = n / 2 + k;
            let dy: usize = ((n as u128 + 2 * (m as u128) - 1) / 2) as usize;
            let ghost before = *buf;
            plot_reflections(buf, n, dx, dy, foreground);
            proof {
                done = old_done.push((dx as int, dy as int));
                assert(trace_from(nn, rr, k as int, m as int) == seq![(dx as int, dy as int)] + rest);
                assert(done + rest =~= old_done + trace_from(nn, rr, k as int, m as int));
                assert forall|x: int, y: int| 0 <= x < n && 0 <= y < n implies #[trigger] buf.pixel(
                    x,
                    y,
                ) == if covered(nn, done, x, y) {
                    foreground
                } else {
                    background
                } by {
                    if covered(nn, old_done, x, y) {
                        let i = choose|i: int| 0 <= i < old_done.len() && #[trigger] is_reflection(nn, old_done[i], x, y);
                        assert(done[i] == old_done[i]);
                    }
                    if is_reflection(nn, (dx as int, dy as int), x, y) {
                        assert(done[old_done.len() as int] == (dx as int, dy as int));
                    }
                    if covered(nn, done, x, y) {
                        let i = choose|i: int| 0 <= i < done.len() && #[trigger] is_reflection(nn, done[i], x, y);
                        if i < old_done.len() {
                            assert(done[i] == old_done[i]);
                        }
                    }
                }
            }
        } else {
            proof {
                assert(trace_from(nn, rr, k as int, m as int) =~= rest);
            }
        }
        k = k + 1;
        let kk: u128 = k as u128;
        let mm: u128 = m as u128;
        let rad: u128 = radius as u128;
        proof {
            assert(kk < 0x1_0000_0000_0000_0000 && mm < 0x1_0000_0000_0000_0000 && rad < 0x1_0000_0000_0000_0000);
            assert(kk * kk <= u128::MAX && rad * rad <= u128::MAX) by (nonlinear_arith)
                requires
                    kk < 0x1_0000_0000_0000_0000,
                    rad < 0x1_0000_0000_0000_0000,
            ;
            assert(mm * (mm - 1) <= rad * rad) by (nonlinear_arith)
                requires
                    1 <= mm <= rad,
            ;
            assert(mm * (mm - 1) == mm * mm - mm) by (nonlinear_arith);
        }
        if kk * kk >= rad * rad - mm * (mm - 1) {
            m = m - 1;
        }
        proof {
            assert(trace_from(nn, rr, k as int, m as int) == rest);
        }
    }
    Ok(())
}

/// Whether the filled circle paints `(x, y)` with the background: in doubled
/// coordinates the cell's centre `(2x + 1, 2y + 1)` lies within `2 * radius` of
/// `(2w, 2h)`.
pub open spec fn in_solid_circle(w: int, h: int, radius: int, x: int, y: int) -> bool {
    let dx = 2 * w - (2 * x + 1);
    let dy = 2 * h - (2 * y + 1);
    dx * dx + dy * dy <= (2 * radius) * (2 * radius)
}

/// Whether the cell `(x, y)` of a `w` by `h` buffer lies in the filled circle.
fn solid_inside(w: usize, h: usize, radius: usize, x: usize, y: usize) -> (r: bool)
    requires
        x < w,
        y < h,
        w * h <= MAX_PIXELS,
    ensures
        r == in_solid_circle(w as int, h as int, radius as int, x as int, y as int),
{
    proof {
        assert(w <= MAX_PIXELS && h <= MAX_PIXELS) by (nonlinear_arith)
            requires
                x < w,
                y < h,
                w * h <= MAX_PIXELS,
        ;
        assert(MAX_PIXELS < 0x4000_0000_0000_0000);
    }
    let dx: u128 = 2 * ((w - x) as u128) - 1;
    let dy: u128 = 2 * ((h - y) as u128) - 1;
    let d: u128 = 2 * (radius as u128);
    proof {
        assert(dx * dx <= 0x4000_0000_0000_0000_0000_0000_0000_0000) by (nonlinear_arith)
            requires
                dx < 0x8000_0000_0000_0000,
        ;
        assert(dy * dy <= 0x4000_0000_0000_0000_0000_0000_0000_0000) by (nonlinear_arith)
            requires
                dy < 0x8000_0000_0000_0000,
        ;
    }
    match d.checked_mul(d) {
        Some(dd) => dx * dx + dy * dy <= dd,
        None => true,
    }
}

/// Fills the buffer with a disc: the cells of `in_solid_circle` become
/// `background`, all others `foreground`.
pub fn solid_circle(buf: &mut PixelBuffer, radius: usize, foreground: u32, background: u32)
    requires
        old(buf).wf(),
    ensures
        final(buf).wf(),
        final(buf).spec_width() == old(buf).spec_width(),
        final(buf).spec_height() == old(buf).spec_height(),
        forall|x: int, y: int|
            0 <= x < old(buf).spec_width() && 0 <= y < old(buf).spec_height()
                ==> #[trigger] final(buf).pixel(x, y) == if in_solid_circle(
                old(buf).spec_width() as int,
                old(buf).spec_height() as int,
                radius as int,
                x,
                y,
            ) {
                background
            } else {
                foreground
            },
{
    let w: usize = buf.width();
    let h: usize = buf.height();
    proof {
        buf.lemma_wf();
    }
    let mut y: usize = 0;
    while y < h
        invariant
            buf.wf(),
            buf.spec_width() == w,
            buf.spec_height() == h,
            w * h <= MAX_PIXELS,
            y <= h,
            forall|i: int, j: int|
                0 <= i < w && 0 <= j < y ==> #[trigger] buf.pixel(i, j) == if in_solid_circle(
                    w as int,
                    h as int,
                    radius as int,
                    i,
                    j,
                ) {
                    background
                } else {
                    foreground
                },
        decreases h - y,
    {
        let mut x: usize = 0;
        while x < w
            invariant
                buf.wf(),
                buf.spec_width() == w,
                buf.spec_height() == h,
                w * h <= MAX_PIXELS,
                y < h,
                x <= w,
                forall|i: int, j: int|
                    0 <= i < w && 0 <= j < y || 0 <= i < x && j == y ==> #[trigger] buf.pixel(i, j)
                        == if in_solid_circle(w as int, h as int, radius as int, i, j) {
                        background
                    } else {
                        foreground
                    },
            decreases w - x,
        {
            let c: u32 = if solid_inside(w, h, radius, x, y) {
                background
            } else {
                foreground
            };
            buf.set(x, y, c);
            x = x + 1;
        }
        y = y + 1;
    }
}

/// Every traced point lies strictly inside the square, away from row and column 0.
proof fn lemma_trace_inside(n: int, r: int, k: int, m: int)
    requires
        0 <= k,
    ensures
        forall|i: int|
            0 <= i < trace_from(n, r, k, m).len() ==> {
                let p = #[trigger] trace_from(n, r, k, m)[i];
                &&& 1 <= p.0 < n
                &&& 1 <= p.1 < n
            },
    decreases if k < m { m - k } else { 0 },
{
    if k < m {
        let k1 = k + 1;
        let m1 = if k1 * k1 + m * m - m >= r * r {
            m - 1
        } else {
            m
        };
        lemma_trace_inside(n, r, k1, m1);
        let here = if 2 * k < n && 2 * m - 1 < n {
            seq![(n / 2 + k, (n + 2 * m - 1) / 2)]
        } else {
            Seq::<(int, int)>::empty()
        };
        let t = trace_from(n, r, k, m);
        assert(t == here + trace_from(n, r, k1, m1));
        assert forall|i: int| 0 <= i < t.len() implies {
            let p = #[trigger] t[i];
            &&& 1 <= p.0 < n
            &&& 1 <= p.1 < n
        } by {
            if i >= here.len() {
                assert(t[i] == trace_from(n, r, k1, m1)[i - here.len()]);
            }
        }
    }
}

/// The outlined circle is symmetric under the eight symmetries of the square
/// about its centre: a painted cell stays painted when its coordinates are
/// swapped or either one is mirrored (`x` to `n - x`). No painted cell lies in
/// row 0 or column 0, so every mirror image is a cell of the buffer.
pub proof fn lemma_ring_symmetric(n: int, r: int, x: int, y: int)
    requires
        on_ring(n, r, x, y),
    ensures
        1 <= x < n,
        1 <= y < n,
        on_ring(n, r, y, x),
        on_ring(n, r, n - x, y),
        on_ring(n, r, x, n - y),
{
    let pts = ring_points(n, r);
    let i = choose|i: int| 0 <= i < pts.len() && #[trigger] is_reflection(n, pts[i], x, y);
    lemma_trace_inside(n, r, 0, r);
    assert(is_reflection(n, pts[i], y, x));
    assert(is_reflection(n, pts[i], n - x, y));
    assert(is_reflection(n, pts[i], x, n - y));
}

/// For `0 < r < n/2` the outline is drawn: the cell straight below the centre
/// at distance `r` is painted.
pub proof fn lemma_ring_drawn(n: int, r: int)
    requires
        0 < r,
        2 * r < n,
    ensures
        on_ring(n, r, n / 2, (n + 2 * r - 1) / 2),
{
    let pts = ring_points(n, r);
    let m1 = if 1 + r * r - r >= r * r {
        r - 1
    } else {
        r
    };
    assert(pts == seq![(n / 2, (n + 2 * r - 1) / 2)] + trace_from(n, r, 1, m1));
    assert(is_reflection(n, pts[0], n / 2, (n + 2 * r - 1) / 2));
}

} // verus!
