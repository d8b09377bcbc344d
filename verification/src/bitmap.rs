use vstd::prelude::*;

verus! {

const BMP_HEADER_SIZE: usize = 54;
const BMP_PIXEL_OFFSET: usize = 54;
const BMP_BITS_PER_PIXEL: usize = 32;

/// The four bytes of v, least significant first.
pub open spec fn u32_le(v: u32) -> Seq<u8> {
    seq![
        (v & 0xFF) as u8,
        ((v >> 8) & 0xFF) as u8,
        ((v >> 16) & 0xFF) as u8,
        ((v >> 24) & 0xFF) as u8,
    ]
}

/// The two bytes of v, least significant first.
pub open spec fn u16_le(v: u16) -> Seq<u8> {
    seq![(v & 0xFF) as u8, ((v >> 8) & 0xFF) as u8]
}

/// The 54 header bytes of an image of the given size: the 14-byte file
/// header followed by the 40-byte device-independent-bitmap header, all
/// multi-byte fields little-endian.
pub open spec fn header_bytes(w: int, h: int) -> Seq<u8> {
    seq![0x42u8, 0x4Du8] + u32_le((54 + w * h * 4) as u32) + u32_le(0) + u32_le(54) + u32_le(40)
        + u32_le(w as u32) + u32_le(h as u32) + u16_le(1) + u16_le(32) + u32_le(0)
        + u32_le((w * h * 4) as u32) + u32_le(2835) + u32_le(2835) + u32_le(0) + u32_le(0)
}

/// The four bytes of one pixel: blue, green, red, then the top byte of the
/// packed value as alpha.
pub open spec fn pixel_bytes(p: u32) -> Seq<u8> {
    seq![
        (p & 0xFF) as u8,
        ((p >> 8) & 0xFF) as u8,
        ((p >> 16) & 0xFF) as u8,
        ((p >> 24) & 0xFF) as u8,
    ]
}

/// The bytes of `count` consecutive pixels of `buf` starting at `start`.
pub open spec fn pixels_bytes(buf: Seq<u32>, start: int, count: int) -> Seq<u8>
    decreases count,
{
    if count <= 0 {
        Seq::empty()
    } else {
        pixel_bytes(buf[start]) + pixels_bytes(buf, start + 1, count - 1)
    }
}

/// The bytes of the first `k` written rows of the pixel section. Rows are
/// written bottom to top: the row stored first comes out last.
pub open spec fn rows_bytes(buf: Seq<u32>, w: int, h: int, k: int) -> Seq<u8>
    decreases k,
{
    if k <= 0 {
        Seq::empty()
    } else {
        rows_bytes(buf, w, h, k - 1) + pixels_bytes(buf, (h - k) * w, w)
    }
}

/// The whole file: header, then all h rows of pixels.
pub open spec fn bmp_file_bytes(buf: Seq<u32>, w: int, h: int) -> Seq<u8> {
    header_bytes(w, h) + rows_bytes(buf, w, h, h)
}

proof fn lemma_pixels_snoc(buf: Seq<u32>, start: int, n: int)
    requires
        n >= 0,
    ensures
        pixels_bytes(buf, start, n + 1) =~= pixels_bytes(buf, start, n) + pixel_bytes(
            buf[start + n],
        ),
    decreases n,
{
    assert(pixels_bytes(buf, start, n + 1) == pixel_bytes(buf[start]) + pixels_bytes(
        buf,
        start + 1,
        n,
    ));
    if n == 0 {
        assert(pixels_bytes(buf, start + 1, 0) =~= Seq::<u8>::empty());
        assert(pixels_bytes(buf, start, 0) =~= Seq::<u8>::empty());
        assert(pixels_bytes(buf, start, n + 1) =~= pixels_bytes(buf, start, n) + pixel_bytes(
            buf[start + n],
        ));
    } else {
        lemma_pixels_snoc(buf, start + 1, n - 1);
        assert(pixels_bytes(buf, start, n) == pixel_bytes(buf[start]) + pixels_bytes(
            buf,
            start + 1,
            n - 1,
        ));
        assert(pixels_bytes(buf, start, n + 1) =~= pixels_bytes(buf, start, n) + pixel_bytes(
            buf[start + n],
        ));
    }
}

proof fn lemma_pixels_len(buf: Seq<u32>, start: int, n: int)
    requires
        n >= 0,
    ensures
        pixels_bytes(buf, start, n).len() == 4 * n,
    decreases n,
{
    if n > 0 {
        lemma_pixels_len(buf, start + 1, n - 1);
    }
}

proof fn lemma_rows_len(buf: Seq<u32>, w: int, h: int, k: int)
    requires
        k >= 0,
        w >= 0,
    ensures
        rows_bytes(buf, w, h, k).len() == k * (4 * w),
    decreases k,
{
    if k > 0 {
        lemma_rows_len(buf, w, h, k - 1);
        lemma_pixels_len(buf, (h - k) * w, w);
        assert(rows_bytes(buf, w, h, k) == rows_bytes(buf, w, h, k - 1) + pixels_bytes(
            buf,
            (h - k) * w,
            w,
        ));
        assert(rows_bytes(buf, w, h, k).len() == (k - 1) * (4 * w) + 4 * w);
        assert((k - 1) * (4 * w) + 4 * w == k * (4 * w)) by (nonlinear_arith);
    } else {
        assert(rows_bytes(buf, w, h, k).len() == 0);
        assert(k * (4 * w) == 0) by (nonlinear_arith)
            requires
                k == 0,
        ;
    }
}

/// Appends the four little-endian bytes of v.
fn push_u32_le(out: &mut Vec<u8>, v: u32)
    ensures
        final(out)@ =~= old(out)@ + u32_le(v),
{
    out.push((v & 0xFF) as u8);
    out.push(((v >> 8) & 0xFF) as u8);
    out.push(((v >> 16) & 0xFF) as u8);
    out.push(((v >> 24) & 0xFF) as u8);
}

/// Appends the two little-endian bytes of v.
fn push_u16_le(out: &mut Vec<u8>, v: u16)
    ensures
        final(out)@ =~= old(out)@ + u16_le(v),
{
    out.push((v & 0xFF) as u8);
    out.push(((v >> 8) & 0xFF) as u8);
}

/// The 54-byte header for an image of the given size.
pub fn bmp_header(img_width: usize, img_height: usize) -> (r: Vec<u8>)
    requires
        img_width * img_height * 4 + 54 <= u32::MAX,
    ensures
        r@ == header_bytes(img_width as int, img_height as int),
        r@.len() == 54,
{
    proof {
        assert(img_width * img_height >= 0) by (nonlinear_arith);
    }
    let total_in_usize: usize = img_width * img_height * 4 + BMP_HEADER_SIZE;
    let total_file_size: u32 = total_in_usize as u32;
    let pixel_data_size: u32 = total_file_size - 54;
    let mut out: Vec<u8> = Vec::new();
    out.push(0x42);
    out.push(0x4D);
    push_u32_le(&mut out, total_file_size);
    push_u32_le(&mut out, 0);
    push_u32_le(&mut out, BMP_PIXEL_OFFSET as u32);
    push_u32_le(&mut out, 40);
    push_u32_le(&mut out, img_width as u32);
    push_u32_le(&mut out, img_height as u32);
    push_u16_le(&mut out, 1);
    push_u16_le(&mut out, 32);
    push_u32_le(&mut out, 0);
    push_u32_le(&mut out, pixel_data_size);
    push_u32_le(&mut out, 2835);
    push_u32_le(&mut out, 2835);
    push_u32_le(&mut out, 0);
    push_u32_le(&mut out, 0);
    proof {
        assert(out@ =~= header_bytes(img_width as int, img_height as int));
    }
    out
}

/// The pixel section: rows written bottom to top, each pixel as blue, green,
/// red, alpha, each row padded with zeros to a multiple of four bytes (the
/// padding is always empty at 32 bits per pixel, but is still computed).
pub fn bmp_pixel_data(pixel_buffer: &Vec<u32>, img_width: usize, img_height: usize) -> (r: Vec<u8>)
    requires
        1 <= img_width,
        1 <= img_height,
        pixel_buffer@.len() == img_width * img_height,
        img_width * img_height * 4 <= usize::MAX,
    ensures
        r@ == rows_bytes(pixel_buffer@, img_width as int, img_height as int, img_height as int),
        r@.len() == img_width * img_height * 4,
{
    let w = img_width;
    let h = img_height;
    proof {
        assert((4 * w) % 4 == 0 && w * h * 4 >= 4 * w) by (nonlinear_arith)
            requires
                1 <= h,
                0 <= w,
        ;
    }
    let row_size = (BMP_BITS_PER_PIXEL / 8) * w;
    let padding_size = (4 - (row_size % 4)) % 4;
    let mut out: Vec<u8> = Vec::new();
    let mut y: usize = 0;
    while y < h
        invariant
            y <= h,
            pixel_buffer@.len() == w * h,
            w * h * 4 <= usize::MAX,
            padding_size == 0,
            out@ == rows_bytes(pixel_buffer@, w as int, h as int, y as int),
            out@.len() == y * (4 * w),
        decreases h - y,
    {
        proof {
            assert((h - 1 - y) * w + w <= w * h && (h - 1 - y) * w >= 0) by (nonlinear_arith)
                requires
                    y < h,
                    0 <= w,
            ;
            lemma_rows_len(pixel_buffer@, w as int, h as int, y as int);
            assert(y * (4 * w) + 4 * w <= w * h * 4) by (nonlinear_arith)
                requires
                    y < h,
                    0 <= w,
            ;
        }
        let row_start = (h - 1 - y) * w;
        let mut x: usize = 0;
        while x < w
            invariant
                x <= w,
                y < h,
                pixel_buffer@.len() == w * h,
                w * h * 4 <= usize::MAX,
                row_start == (h - 1 - y) * w,
                row_start + w <= w * h,
                out@ =~= rows_bytes(pixel_buffer@, w as int, h as int, y as int) + pixels_bytes(
                    pixel_buffer@,
                    row_start as int,
                    x as int,
                ),
            decreases w - x,
        {
            let pixel = pixel_buffer[row_start + x];
            let blue = (pixel & 0xFF) as u8;
            let green = ((pixel >> 8) & 0xFF) as u8;
            let red = ((pixel >> 16) & 0xFF) as u8;
            let alpha = ((pixel >> 24) & 0xFF) as u8;
            out.push(blue);
            out.push(green);
            out.push(red);
            out.push(alpha);
            proof {
                lemma_pixels_snoc(pixel_buffer@, row_start as int, x as int);
            }
            x = x + 1;
        }
        let ghost out_before = out@;
        let mut p: usize = 0;
        while p < padding_size
            invariant
                padding_size == 0,
                out@ == out_before,
            decreases padding_size - p,
        {
            out.push(0);
            p = p + 1;
        }
        proof {
            assert(rows_bytes(pixel_buffer@, w as int, h as int, y as int + 1) == rows_bytes(
                pixel_buffer@,
                w as int,
                h as int,
                y as int,
            ) + pixels_bytes(pixel_buffer@, (h - (y + 1)) * w, w as int));
            assert(row_start as int == (h - (y + 1)) * w);
            assert(out@ =~= rows_bytes(pixel_buffer@, w as int, h as int, y as int + 1));
            lemma_rows_len(pixel_buffer@, w as int, h as int, y as int + 1);
        }
        y = y + 1;
    }
    proof {
        lemma_rows_len(pixel_buffer@, w as int, h as int, h as int);
        assert(h * (4 * w) == w * h * 4) by (nonlinear_arith);
    }
    out
}

/// A complete bitmap file for the given pixels: header, then pixel rows.
pub fn bmp_file(pixel_buffer: &Vec<u32>, img_width: usize, img_height: usize) -> (r: Vec<u8>)
    requires
        1 <= img_width,
        1 <= img_height,
        pixel_buffer@.len() == img_width * img_height,
        img_width * img_height * 4 + 54 <= u32::MAX,
    ensures
        r@ == bmp_file_bytes(pixel_buffer@, img_width as int, img_height as int),
        r@.len() == 54 + img_width * img_height * 4,
{
    let mut out = bmp_header(img_width, img_height);
    let mut data = bmp_pixel_data(pixel_buffer, img_width, img_height);
    out.append(&mut data);
    proof {
        assert(out@ =~= bmp_file_bytes(
            pixel_buffer@,
            img_width as int,
            img_height as int,
        ));
    }
    out
}

} // verus!
