use vstd::prelude::*;

verus! {

/// The most pixels a buffer may hold: a `Vec<u32>` never holds more than
/// `isize::MAX` bytes.
pub const MAX_PIXELS: usize = usize::MAX / 8;

/// A rectangular grid of packed 24-bit colours (`0xRRGGBB`), stored row by row.
pub struct PixelBuffer {
    width: usize,
    height: usize,
    data: Vec<u32>,
}

impl PixelBuffer {
    /// Number of columns.
    pub closed spec fn spec_width(&self) -> nat {
        self.width as nat
    }

    /// Number of rows.
    pub closed spec fn spec_height(&self) -> nat {
        self.height as nat
    }

    /// The colour at column `x`, row `y`.
    pub closed spec fn pixel(&self, x: int, y: int) -> u32 {
        self.data@[y * self.width + x]
    }

    /// One colour per cell, and no more cells than a buffer can hold.
    pub closed spec fn wf(&self) -> bool {
        &&& self.data@.len() == self.width * self.height
        &&& self.width * self.height <= MAX_PIXELS
    }

    /// The colours row by row: the cell `(x, y)` is at `y * width + x`.
    pub closed spec fn cells(&self) -> Seq<u32> {
        self.data@
    }

    /// What a well-formed buffer gives its users.
    pub proof fn lemma_wf(&self)
        requires
            self.wf(),
        ensures
            self.spec_width() * self.spec_height() <= MAX_PIXELS,
            self.cells().len() == self.spec_width() * self.spec_height(),
            forall|x: int, y: int|
                0 <= x < self.spec_width() && 0 <= y < self.spec_height() ==> {
                    &&& 0 <= #[trigger] (y * self.spec_width() + x) < self.cells().len()
                    &&& self.cells()[y * self.spec_width() + x] == self.pixel(x, y)
                },
    {
        assert forall|x: int, y: int|
            0 <= x < self.spec_width() && 0 <= y < self.spec_height() implies
                0 <= #[trigger] (y * self.spec_width() + x) < self.cells().len() by {
            lemma_cell_in_range(self.width as int, self.height as int, x, y);
        }
    }

    /// A buffer of `width` by `height` cells, each holding `color`.
    pub fn new(width: usize, height: usize, color: u32) -> (b: PixelBuffer)
        requires
            width * height <= MAX_PIXELS,
        ensures
            b.wf(),
            b.spec_width() == width,
            b.spec_height() == height,
            forall|x: int, y: int|
                0 <= x < width && 0 <= y < height ==> #[trigger] b.pixel(x, y) == color,
    {
        let n: usize = width * height;
        let mut data: Vec<u32> = Vec::new();
        while data.len() < n
            invariant
                data.len() <= n,
                forall|i: int| 0 <= i < data.len() ==> data@[i] == color,
            decreases n - data.len(),
        {
            data.push(color);
        }
        let b = PixelBuffer { width, height, data };
        proof {
            assert forall|x: int, y: int| 0 <= x < width && 0 <= y < height implies #[trigger] b.pixel(x, y) == color by {
                lemma_cell_in_range(width as int, height as int, x, y);
            }
        }
        b
    }

    /// The colours row by row.
    pub fn as_slice(&self) -> (r: &[u32])
        ensures
            r@ == self.cells(),
    {
        self.data.as_slice()
    }

    /// Number of columns.
    pub fn width(&self) -> (r: usize)
        ensures
            r == self.spec_width(),
    {
        self.width
    }

    /// Number of rows.
    pub fn height(&self) -> (r: usize)
        ensures
            r == self.spec_height(),
    {
        self.height
    }

    /// The colour at column `x`, row `y`.
    pub fn get(&self, x: usize, y: usize) -> (c: u32)
        requires
            self.wf(),
            x < self.spec_width(),
            y < self.spec_height(),
        ensures
            c == self.pixel(x as int, y as int),
    {
        proof {
            lemma_cell_in_range(self.width as int, self.height as int, x as int, y as int);
        }
        self.data[y * self.width + x]
    }

    /// Paints the cell at column `x`, row `y`; every other cell keeps its colour.
    pub fn set(&mut self, x: usize, y: usize, color: u32)
        requires
            old(self).wf(),
            x < old(self).spec_width(),
            y < old(self).spec_height(),
        ensures
            final(self).wf(),
            final(self).spec_width() == old(self).spec_width(),
            final(self).spec_height() == old(self).spec_height(),
            forall|i: int, j: int|
                0 <= i < old(self).spec_width() && 0 <= j < old(self).spec_height() ==>
                    #[trigger] final(self).pixel(i, j) == if i == x && j == y {
                        color
                    } else {
                        old(self).pixel(i, j)
                    },
    {
        proof {
            lemma_cell_in_range(self.width as int, self.height as int, x as int, y as int);
        }
        let k: usize = y * self.width + x;
        self.data.set(k, color);
        proof {
            assert forall|i: int, j: int|
                0 <= i < self.width && 0 <= j < self.height implies
                    #[trigger] self.pixel(i, j) == if i == x && j == y {
                        color
                    } else {
                        old(self).pixel(i, j)
                    } by {
                lemma_cell_in_range(self.width as int, self.height as int, i, j);
                lemma_cell_unique(self.width as int, i, j, x as int, y as int);
            }
        }
    }

    /// Paints every cell with `color`.
    pub fn fill_all(&mut self, color: u32)
        requires
            old(self).wf(),
        ensures
            final(self).wf(),
            final(self).spec_width() == old(self).spec_width(),
            final(self).spec_height() == old(self).spec_height(),
            forall|x: int, y: int|
                0 <= x < old(self).spec_width() && 0 <= y < old(self).spec_height() ==>
                    #[trigger] final(self).pixel(x, y) == color,
    {
        let n: usize = self.data.len();
        let mut i: usize = 0;
        while i < n
            invariant
                n == self.data.len(),
                self.wf(),
                self.width == old(self).width,
                self.height == old(self).height,
                i <= n,
                forall|k: int| 0 <= k < i ==> self.data@[k] == color,
            decreases n - i,
        {
            self.data.set(i, color);
            i = i + 1;
        }
        proof {
            assert forall|x: int, y: int|
                0 <= x < self.width && 0 <= y < self.height implies #[trigger] self.pixel(x, y) == color by {
                lemma_cell_in_range(self.width as int, self.height as int, x, y);
            }
        }
    }
}

/// The cell `(x, y)` of a `w` by `h` grid lies inside its row-major storage.
proof fn lemma_cell_in_range(w: int, h: int, x: int, y: int)
    requires
        0 <= x < w,
        0 <= y < h,
    ensures
        0 <= y * w + x < w * h,
{
    assert(y * w + x < w * h) by (nonlinear_arith)
        requires 0 <= x < w, 0 <= y < h;
    assert(0 <= y * w) by (nonlinear_arith)
        requires 0 <= x < w, 0 <= y;
}

/// Distinct cells of a row of width `w` have distinct positions in storage.
proof fn lemma_cell_unique(w: int, x1: int, y1: int, x2: int, y2: int)
    requires
        0 <= x1 < w,
        0 <= x2 < w,
        0 <= y1,
        0 <= y2,
    ensures
        (y1 * w + x1 == y2 * w + x2) <==> (x1 == x2 && y1 == y2),
{
    if y1 * w + x1 == y2 * w + x2 {
        if y1 < y2 {
            assert(y1 * w + w <= y2 * w) by (nonlinear_arith)
                requires y1 < y2, 0 <= w;
        } else if y2 < y1 {
            assert(y2 * w + w <= y1 * w) by (nonlinear_arith)
                requires y2 < y1, 0 <= w;
        }
    }
}

} // verus!
