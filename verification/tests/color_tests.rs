use rasterbuf::color::Color;

#[test]
fn new_sets_channels() {
    let c = Color::new(12, 34, 56);
    assert_eq!(c.red, 12);
    assert_eq!(c.green, 34);
    assert_eq!(c.blue, 56);
}

#[test]
fn from_hex_extracts_channels() {
    let c = Color::from_hex(0x123456);
    assert_eq!(c.red, 0x12);
    assert_eq!(c.green, 0x34);
    assert_eq!(c.blue, 0x56);
}

#[test]
fn from_hex_ignores_high_byte() {
    let c = Color::from_hex(0xFF123456);
    assert_eq!(c, Color::new(0x12, 0x34, 0x56));
}

#[test]
fn to_hex_packs_channels() {
    assert_eq!(Color::new(0x12, 0x34, 0x56).to_hex(), 0x123456);
    assert_eq!(Color::new(255, 255, 255).to_hex(), 0xFFFFFF);
    assert_eq!(Color::new(0, 0, 0).to_hex(), 0);
}

#[test]
fn hex_round_trip() {
    let c = Color::new(9, 200, 137);
    assert_eq!(Color::from_hex(c.to_hex()), c);
    assert_eq!(Color::from_hex(0xABCDEF).to_hex(), 0xABCDEF);
}

#[test]
fn add_saturates() {
    let r = Color::new(250, 0, 0).add(&Color::new(10, 0, 0));
    assert_eq!(r, Color::new(255, 0, 0));
}

#[test]
fn add_without_overflow_is_plain_sum() {
    let r = Color::new(10, 20, 30).add(&Color::new(1, 2, 3));
    assert_eq!(r, Color::new(11, 22, 33));
}

#[test]
fn add_saturates_every_channel() {
    let r = Color::new(200, 200, 200).add(&Color::new(100, 55, 56));
    assert_eq!(r, Color::new(255, 255, 255));
}
