use vstd::prelude::*;

verus! {

/// An RGB color with one 8-bit channel per component.
#[derive(Debug, Clone, Copy, PartialEq, Eq, Structural)]
pub struct Color {
    pub red: u8,
    pub green: u8,
    pub blue: u8,
}

impl Color {
    /// The packed 0xRRGGBB value of this color.
    pub open spec fn spec_hex(self) -> int {
        self.red * 0x10000 + self.green * 0x100 + self.blue
    }

    pub fn new(red: u8, green: u8, blue: u8) -> (r: Self)
        ensures
            r.red == red,
            r.green == green,
            r.blue == blue,
    {
        Self { red, green, blue }
    }

    /// Extracts the three channels of a packed 0xRRGGBB value; bits above
    /// the low 24 are ignored.
    pub fn from_hex(hex: u32) -> (r: Self)
        ensures
            r.red == (hex / 0x10000) % 0x100,
            r.green == (hex / 0x100) % 0x100,
            r.blue == hex % 0x100,
            hex < 0x1000000 ==> r.spec_hex() == hex,
    {
        let red = ((hex >> 16) & 0xFF) as u8;
        let green = ((hex >> 8) & 0xFF) as u8;
        let blue = (hex & 0xFF) as u8;
        proof {
            assert((hex >> 16) & 0xFF == (hex / 0x10000) % 0x100
                && (hex >> 16) & 0xFF < 0x100) by (bit_vector);
            assert((hex >> 8) & 0xFF == (hex / 0x100) % 0x100
                && (hex >> 8) & 0xFF < 0x100) by (bit_vector);
            assert(hex & 0xFF == hex % 0x100 && hex & 0xFF < 0x100) by (bit_vector);
            assert(hex < 0x1000000 ==> ((hex / 0x10000) % 0x100) * 0x10000
                + ((hex / 0x100) % 0x100) * 0x100 + hex % 0x100 == hex) by (bit_vector);
        }
        Self { red, green, blue }
    }

    /// Packs the three channels into a single 0xRRGGBB value.
    pub fn to_hex(&self) -> (r: u32)
        ensures
            r == self.spec_hex(),
            r < 0x1000000,
    {
        let red32 = self.red as u32;
        let green32 = self.green as u32;
        let blue32 = self.blue as u32;
        let r = (red32 << 16) | (green32 << 8) | blue32;
        proof {
            assert(red32 < 0x100 && green32 < 0x100 && blue32 < 0x100 ==>
                ((red32 << 16) | (green32 << 8) | blue32)
                    == red32 * 0x10000 + green32 * 0x100 + blue32
                && ((red32 << 16) | (green32 << 8) | blue32) < 0x1000000) by (bit_vector);
        }
        r
    }

    /// Adds two colors channel by channel, saturating each channel at 255.
    pub fn add(&self, other: &Color) -> (r: Self)
        ensures
            r.red == if self.red + other.red <= 255 { self.red + other.red } else { 255int },
            r.green == if self.green + other.green <= 255 { self.green + other.green } else { 255int },
            r.blue == if self.blue + other.blue <= 255 { self.blue + other.blue } else { 255int },
    {
        Self {
            red: self.red.saturating_add(other.red),
            green: self.green.saturating_add(other.green),
            blue: self.blue.saturating_add(other.blue),
        }
    }
}

} // verus!
