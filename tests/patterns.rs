use ppm_patterns::{
    checker_pattern, encode_ppm, hollow_circle, solid_circle, stripes_pattern,
    ConfigurationError, PixelBuffer,
};

const FG: u32 = 0xFF0000;
const BG: u32 = 0x00FF00;

#[test]
fn checker_eight_by_eight_four_tiles() {
    let mut buf = PixelBuffer::new(8, 8, 0x123456);
    assert_eq!(checker_pattern(&mut buf, 4, FG, BG), Ok(()));
    for y in 0..8usize {
        for x in 0..8usize {
            let expected = if (x < 4) == (y < 4) { BG } else { FG };
            assert_eq!(buf.get(x, y), expected, "cell ({}, {})", x, y);
        }
    }
    assert_eq!(buf.get(0, 0), BG);
    assert_eq!(buf.get(4, 0), FG);
    assert_eq!(buf.get(0, 4), FG);
    assert_eq!(buf.get(7, 7), BG);
}

#[test]
fn stripes_follow_diagonal_bands() {
    let mut buf = PixelBuffer::new(7, 5, 0);
    assert_eq!(stripes_pattern(&mut buf, 3, FG, BG), Ok(()));
    for y in 0..5usize {
        for x in 0..7usize {
            let expected = if ((x + y) / 3) % 2 == 0 { BG } else { FG };
            assert_eq!(buf.get(x, y), expected);
        }
    }
    assert_eq!(buf.get(2, 0), BG);
    assert_eq!(buf.get(3, 0), FG);
    assert_eq!(buf.get(1, 2), FG);
    assert_eq!(buf.get(6, 0), BG);
}

#[test]
fn checker_recomputed_on_grid() {
    let mut buf = PixelBuffer::new(10, 6, 0);
    assert_eq!(checker_pattern(&mut buf, 3, FG, BG), Ok(()));
    let mut seen_fg = false;
    let mut seen_bg = false;
    for y in 0..6usize {
        for x in 0..10usize {
            let c = buf.get(x, y);
            let expected = if (x / 3 + y / 3) % 2 == 0 { BG } else { FG };
            assert_eq!(c, expected);
            seen_fg |= c == FG;
            seen_bg |= c == BG;
        }
    }
    assert!(seen_fg && seen_bg);
}

#[test]
fn stripes_zero_tile_size_is_refused() {
    let mut buf = PixelBuffer::new(4, 4, 7);
    assert_eq!(
        stripes_pattern(&mut buf, 0, FG, BG),
        Err(ConfigurationError::ZeroTileSize)
    );
    for y in 0..4usize {
        for x in 0..4usize {
            assert_eq!(buf.get(x, y), 7);
        }
    }
}

#[test]
fn checker_zero_tile_size_is_refused() {
    let mut buf = PixelBuffer::new(3, 2, 9);
    assert_eq!(
        checker_pattern(&mut buf, 0, FG, BG),
        Err(ConfigurationError::ZeroTileSize)
    );
    assert_eq!(buf.get(2, 1), 9);
}

#[test]
fn solid_circle_matches_doubled_distance() {
    let (w, h, r) = (9usize, 7usize, 3usize);
    let mut buf = PixelBuffer::new(w, h, 0);
    solid_circle(&mut buf, r, FG, BG);
    for y in 0..h {
        for x in 0..w {
            let dx = 2 * w as i64 - (2 * x as i64 + 1);
            let dy = 2 * h as i64 - (2 * y as i64 + 1);
            let inside = dx * dx + dy * dy <= (2 * r as i64) * (2 * r as i64);
            assert_eq!(buf.get(x, y), if inside { BG } else { FG });
        }
    }
    // dx = 1, dy = 1: 2 <= 36
    assert_eq!(buf.get(8, 6), BG);
    // dx = 17, dy = 13
    assert_eq!(buf.get(0, 0), FG);
    // dx = 5, dy = 3: 34 <= 36 on the inside; dx = 7, dy = 1: 50 > 36 outside
    assert_eq!(buf.get(6, 5), BG);
    assert_eq!(buf.get(5, 6), FG);
}

#[test]
fn solid_circle_huge_radius_is_all_background() {
    let mut buf = PixelBuffer::new(3, 3, 0);
    solid_circle(&mut buf, usize::MAX, FG, BG);
    for y in 0..3usize {
        for x in 0..3usize {
            assert_eq!(buf.get(x, y), BG);
        }
    }
}

#[test]
fn hollow_circle_non_square_is_refused() {
    let mut buf = PixelBuffer::new(4, 3, 5);
    assert_eq!(
        hollow_circle(&mut buf, 1, FG, BG),
        Err(ConfigurationError::NotSquare)
    );
    for y in 0..3usize {
        for x in 0..4usize {
            assert_eq!(buf.get(x, y), 5);
        }
    }
}

/// The midpoint trace in floating point, as the pattern is defined, for comparison.
fn float_ring(n: usize, radius: usize) -> Vec<bool> {
    let mut on = vec![false; n * n];
    let (w, r) = (n as f32, radius as f32);
    let c = w / 2.0;
    let mut x = 0.0f32;
    let mut y = r - 0.5;
    while x <= y {
        let px = c + x;
        let py = c + y;
        if px >= 0.0 && px < w && py >= 0.0 && py < w {
            let dx = px as usize;
            let dy = py as usize;
            for (row, col) in [
                (dy, dx),
                (dx, dy),
                (n - dy, dx),
                (dy, n - dx),
                (dx, n - dy),
                (n - dx, dy),
                (n - dx, n - dy),
                (n - dy, n - dx),
            ] {
                on[row * n + col] = true;
            }
        }
        x += 1.0;
        if x * x + y * y > r * r {
            y -= 1.0;
        }
    }
    on
}

#[test]
fn hollow_circle_matches_float_trace_and_is_symmetric() {
    for &(n, r) in &[(16usize, 5usize), (17, 6), (32, 10), (9, 4), (256, 85)] {
        let mut buf = PixelBuffer::new(n, n, 0xABCDEF);
        assert_eq!(hollow_circle(&mut buf, r, FG, BG), Ok(()));
        let expected = float_ring(n, r);
        let mut painted = 0;
        for y in 0..n {
            for x in 0..n {
                let c = buf.get(x, y);
                assert_eq!(c, if expected[y * n + x] { FG } else { BG }, "n={} r={} ({}, {})", n, r, x, y);
                if c == FG {
                    painted += 1;
                    assert!(x >= 1 && y >= 1);
                    assert_eq!(buf.get(y, x), FG);
                    assert_eq!(buf.get(n - x, y), FG);
                    assert_eq!(buf.get(x, n - y), FG);
                }
            }
        }
        assert!(painted > 0);
        assert_eq!(buf.get(n / 2, (n + 2 * r - 1) / 2), FG);
    }
}

#[test]
fn hollow_circle_small_ring() {
    let mut buf = PixelBuffer::new(8, 8, 0);
    assert_eq!(hollow_circle(&mut buf, 2, 1, 0), Ok(()));
    // k = 0, m = 2: point (4, 5); k = 1: 1 + 2 >= 4 fails, point (5, 5); then k = 2 stops.
    let mut expected = vec![0u32; 64];
    for (x, y) in [(4, 5), (5, 4), (4, 3), (3, 4)] {
        expected[y * 8 + x] = 1;
    }
    for (x, y) in [(5, 5), (3, 5), (5, 3), (3, 3)] {
        expected[y * 8 + x] = 1;
    }
    for y in 0..8usize {
        for x in 0..8usize {
            assert_eq!(buf.get(x, y), expected[y * 8 + x], "({}, {})", x, y);
        }
    }
}

#[test]
fn hollow_circle_zero_radius_is_background() {
    let mut buf = PixelBuffer::new(5, 5, 3);
    assert_eq!(hollow_circle(&mut buf, 0, FG, BG), Ok(()));
    for y in 0..5usize {
        for x in 0..5usize {
            assert_eq!(buf.get(x, y), BG);
        }
    }
}

#[test]
fn encode_two_by_two_solid_color() {
    let buf = PixelBuffer::new(2, 2, 0x123456);
    let mut expected = b"P6\n2 2 255\n".to_vec();
    for _ in 0..4 {
        expected.extend_from_slice(&[0x12, 0x34, 0x56]);
    }
    assert_eq!(encode_ppm(&buf), expected);
}

#[test]
fn encode_row_major_and_masks_high_bits() {
    let mut buf = PixelBuffer::new(3, 1, 0);
    buf.set(0, 0, 0xFF0A0B0C);
    buf.set(1, 0, 0x000000FF);
    buf.set(2, 0, 0x00FF0000);
    let mut expected = b"P6\n3 1 255\n".to_vec();
    expected.extend_from_slice(&[0x0A, 0x0B, 0x0C, 0, 0, 0xFF, 0xFF, 0, 0]);
    assert_eq!(encode_ppm(&buf), expected);
}

#[test]
fn encode_multi_digit_dimensions() {
    let mut buf = PixelBuffer::new(120, 10, 0x010203);
    buf.set(119, 9, 0x0A0B0C);
    buf.set(0, 1, 0x040506);
    let out = encode_ppm(&buf);
    let header = b"P6\n120 10 255\n";
    assert_eq!(&out[..header.len()], &header[..]);
    assert_eq!(out.len(), header.len() + 3 * 1200);
    assert_eq!(&out[header.len()..header.len() + 3], &[1, 2, 3]);
    let at = header.len() + 3 * 120;
    assert_eq!(&out[at..at + 3], &[4, 5, 6]);
    assert_eq!(&out[out.len() - 3..], &[0x0A, 0x0B, 0x0C]);
}

#[test]
fn encode_empty_buffer_is_header_only() {
    let buf = PixelBuffer::new(0, 0, 0);
    assert_eq!(encode_ppm(&buf), b"P6\n0 0 255\n".to_vec());
}

#[test]
fn buffer_fill_and_set() {
    let mut buf = PixelBuffer::new(3, 2, 1);
    assert_eq!((buf.width(), buf.height()), (3, 2));
    buf.set(2, 1, 8);
    assert_eq!(buf.get(2, 1), 8);
    assert_eq!(buf.get(1, 1), 1);
    assert_eq!(buf.as_slice(), &[1, 1, 1, 1, 1, 8]);
    buf.fill_all(4);
    assert_eq!(buf.as_slice(), &[4; 6]);
}
