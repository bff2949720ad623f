use vstd::prelude::*;

use crate::buffer::PixelBuffer;

verus! {

/// The ASCII decimal digits of `n`, most significant first, without leading zeros.
pub open spec fn decimal(n: nat) -> Seq<u8>
    decreases n,
{
    if n < 10 {
        seq![(48 + n) as u8]
    } else {
        decimal(n / 10).push((48 + n % 10) as u8)
    }
}

/// The header `"P6\n<width> <height> 255\n"`.
pub open spec fn ppm_header(width: nat, height: nat) -> Seq<u8> {
    seq![80u8, 54u8, 10u8] + decimal(width) + seq![32u8] + decimal(height) + seq![
        32u8,
        50u8,
        53u8,
        53u8,
        10u8,
    ]
}

/// The red, green and blue bytes of a packed colour; bits above the low 24 are ignored.
pub open spec fn rgb(c: u32) -> Seq<u8> {
    seq![((c >> 16u32) & 0xffu32) as u8, ((c >> 8u32) & 0xffu32) as u8, (c & 0xffu32) as u8]
}

/// Three bytes per colour, in order.
pub open spec fn pixel_bytes(cells: Seq<u32>) -> Seq<u8>
    decreases cells.len(),
{
    if cells.len() == 0 {
        Seq::empty()
    } else {
        pixel_bytes(cells.drop_last()) + rgb(cells.last())
    }
}

/// The whole file for a buffer: its header, then the colours row by row.
pub open spec fn ppm_bytes(buf: PixelBuffer) -> Seq<u8> {
    ppm_header(buf.spec_width(), buf.spec_height()) + pixel_bytes(buf.cells())
}

/// Appends the decimal digits of `n`.
fn push_decimal(out: &mut Vec<u8>, n: usize)
    ensures
        final(out)@ == old(out)@ + decimal(n as nat),
    decreases n,
{
    if n < 10 {
        out.push(48 + n as u8);
        proof {
            assert(old(out)@ + decimal(n as nat) =~= old(out)@.push((48 + n) as u8));
        }
    } else {
        push_decimal(out, n / 10);
        out.push(48 + (n % 10) as u8);
        proof {
            assert(old(out)@ + decimal(n as nat) =~= old(out)@ + decimal((n / 10) as nat) + seq![(48 + n % 10) as u8]);
        }
    }
}

/// Encodes the buffer as a binary portable pixmap: the header
/// `"P6\n<width> <height> 255\n"`, then three bytes (red, green, blue) for each
/// cell, row by row.
pub fn encode_ppm(buf: &PixelBuffer) -> (out: Vec<u8>)
    requires
        buf.wf(),
    ensures
        out@ == ppm_bytes(*buf),
{
    let mut out: Vec<u8> = Vec::new();
    out.push(80);
    out.push(54);
    out.push(10);
    push_decimal(&mut out, buf.width());
    out.push(32);
    push_decimal(&mut out, buf.height());
    out.push(32);
    out.push(50);
    out.push(53);
    out.push(53);
    out.push(10);
    let ghost header = out@;
    proof {
        assert(header =~= ppm_header(buf.spec_width(), buf.spec_height()));
    }
    let cells = buf.as_slice();
    let mut i: usize = 0;
    while i < cells.len()
        invariant
            cells@ == buf.cells(),
            i <= cells@.len(),
            out@ == header + pixel_bytes(cells@.take(i as int)),
        decreases cells.len() - i,
    {
        let c: u32 = cells[i];
        out.push(((c >> 16) & 0xff) as u8);
        out.push(((c >> 8) & 0xff) as u8);
        out.push((c & 0xff) as u8);
        proof {
            let next = cells@.take(i as int + 1);
            assert(next.drop_last() =~= cells@.take(i as int));
            assert(out@ =~= header + pixel_bytes(next));
        }
        i = i + 1;
    }
    proof {
        assert(cells@.take(i as int) =~= cells@);
    }
    out
}

/// The encoding holds three bytes per colour, and colour `i` sits at `3 * i`.
proof fn lemma_pixel_bytes_at(cells: Seq<u32>, i: int)
    requires
        0 <= i < cells.len(),
    ensures
        pixel_bytes(cells).len() == 3 * cells.len(),
        pixel_bytes(cells).subrange(3 * i, 3 * i + 3) == rgb(cells[i]),
    decreases cells.len(),
{
    lemma_pixel_bytes_len(cells.drop_last());
    if i < cells.len() - 1 {
        lemma_pixel_bytes_at(cells.drop_last(), i);
        assert(pixel_bytes(cells).subrange(3 * i, 3 * i + 3) =~= pixel_bytes(cells.drop_last()).subrange(
            3 * i,
            3 * i + 3,
        ));
    } else {
        assert(pixel_bytes(cells).subrange(3 * i, 3 * i + 3) =~= rgb(cells.last()));
    }
}

proof fn lemma_pixel_bytes_len(cells: Seq<u32>)
    ensures
        pixel_bytes(cells).len() == 3 * cells.len(),
    decreases cells.len(),
{
    if cells.len() > 0 {
        lemma_pixel_bytes_len(cells.drop_last());
    }
}

/// Reading the file back: after the header, the cell `(x, y)` is the three
/// bytes red, green, blue at offset `3 * (y * width + x)`, and nothing follows
/// the last cell.
pub proof fn lemma_encoded_cell(buf: PixelBuffer, x: int, y: int)
    requires
        buf.wf(),
        0 <= x < buf.spec_width(),
        0 <= y < buf.spec_height(),
    ensures
        ({
            let start = ppm_header(buf.spec_width(), buf.spec_height()).len() + 3 * (y
                * buf.spec_width() + x);
            &&& ppm_bytes(buf).len() == ppm_header(buf.spec_width(), buf.spec_height()).len() + 3
                * buf.spec_width() * buf.spec_height()
            &&& ppm_bytes(buf).subrange(start, start + 3) == rgb(buf.pixel(x, y))
        }),
{
    buf.lemma_wf();
    let hd = ppm_header(buf.spec_width(), buf.spec_height());
    let i = y * buf.spec_width() + x;
    lemma_pixel_bytes_at(buf.cells(), i);
    assert(ppm_bytes(buf).subrange(hd.len() + 3 * i, hd.len() + 3 * i + 3) =~= pixel_bytes(
        buf.cells(),
    ).subrange(3 * i, 3 * i + 3));
    assert(3 * buf.spec_width() * buf.spec_height() == 3 * (buf.spec_width() * buf.spec_height()))
        by (nonlinear_arith);
}

} // verus!
