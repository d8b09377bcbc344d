use rasterbuf::bitmap::bmp_file;
use rasterbuf::color::Color;
use rasterbuf::framebuffer::FrameBuffer;

fn le32(bytes: &[u8]) -> u32 {
    bytes[0] as u32 | (bytes[1] as u32) << 8 | (bytes[2] as u32) << 16 | (bytes[3] as u32) << 24
}

fn le16(bytes: &[u8]) -> u16 {
    bytes[0] as u16 | (bytes[1] as u16) << 8
}

#[test]
fn two_by_two_header() {
    let fb = FrameBuffer::new(2, 2);
    let bytes = fb.to_bmp_bytes();
    assert_eq!(bytes.len(), 54 + 16);
    assert_eq!(&bytes[0..2], b"BM");
    assert_eq!(le32(&bytes[2..6]), 70);
    assert_eq!(le32(&bytes[6..10]), 0);
    assert_eq!(le32(&bytes[10..14]), 54);
    assert_eq!(le32(&bytes[14..18]), 40);
    assert_eq!(le32(&bytes[18..22]), 2);
    assert_eq!(le32(&bytes[22..26]), 2);
    assert_eq!(le16(&bytes[26..28]), 1);
    assert_eq!(le16(&bytes[28..30]), 32);
    assert_eq!(le32(&bytes[30..34]), 0);
    assert_eq!(le32(&bytes[34..38]), 16);
    assert_eq!(le32(&bytes[38..42]), 2835);
    assert_eq!(le32(&bytes[42..46]), 2835);
    assert_eq!(le32(&bytes[46..50]), 0);
    assert_eq!(le32(&bytes[50..54]), 0);
}

#[test]
fn pixel_bytes_are_bgra_with_packed_alpha() {
    let mut fb = FrameBuffer::new(1, 1);
    fb.set_bg_color(Color::new(0x11, 0x22, 0x33));
    fb.clear();
    let bytes = fb.to_bmp_bytes();
    // Blue, green, red, then the top byte of the packed value, which a
    // 24-bit color leaves at zero.
    assert_eq!(&bytes[54..58], &[0x33, 0x22, 0x11, 0x00]);
}

#[test]
fn rows_are_written_bottom_to_top() {
    // Logical point (0, H-1) goes through the vertical flip into storage
    // row 0, and the encoder writes storage row 0 last: its bytes sit at
    // the end of the pixel section, after the storage rows above it.
    let w = 2usize;
    let h = 2usize;
    let mut fb = FrameBuffer::new(w, h);
    fb.set_draw_color(Color::new(255, 0, 0));
    fb.draw_point(0, h - 1);
    let bytes = fb.to_bmp_bytes();
    let last_row = 54 + (h - 1) * w * 4;
    assert_eq!(&bytes[last_row..last_row + 4], &[0, 0, 255, 0]);
    // Every other pixel is still white.
    assert_eq!(&bytes[54..58], &[255, 255, 255, 0]);
    assert_eq!(&bytes[58..62], &[255, 255, 255, 0]);
    assert_eq!(&bytes[last_row + 4..last_row + 8], &[255, 255, 255, 0]);
}

#[test]
fn bmp_file_matches_buffer_order() {
    // Raw packed pixels: storage row 1 is written first, row 0 last.
    let buffer = vec![0x000001u32, 0x000002, 0x000003, 0x000004];
    let bytes = bmp_file(&buffer, 2, 2);
    assert_eq!(bytes.len(), 70);
    assert_eq!(bytes[54], 3);
    assert_eq!(bytes[58], 4);
    assert_eq!(bytes[62], 1);
    assert_eq!(bytes[66], 2);
}
