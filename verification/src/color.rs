use vstd::prelude::*;

verus! {

/// An RGBA colour with 8 bits per channel.
#[derive(Debug, Clone, Copy, PartialEq, Eq, Structural)]
pub struct Color {
    pub r: u8,
    pub g: u8,
    pub b: u8,
    pub a: u8,
}

impl Color {
    /// The colour that a 24-bit `0xRRGGBB` value and an opacity denote.
    pub open spec fn spec_from_hex(hex: u32, opacity: u8) -> Color {
        Color {
            r: ((hex as int / 0x1_0000) % 0x100) as u8,
            g: ((hex as int / 0x100) % 0x100) as u8,
            b: (hex as int % 0x100) as u8,
            a: opacity,
        }
    }

    /// The four bytes of this colour in buffer order: red, green, blue, alpha.
    pub open spec fn bytes(self) -> Seq<u8> {
        seq![self.r, self.g, self.b, self.a]
    }

    /// Fully transparent black, the colour of an empty cell.
    pub open spec fn transparent() -> Color {
        Color { r: 0, g: 0, b: 0, a: 0 }
    }

    /// Splits `hex` into its red, green and blue bytes (bits above the low 24
    /// are ignored) and attaches `opacity` as the alpha channel.
    pub fn from_hex(hex: u32, opacity: u8) -> (c: Color)
        ensures
            c == Self::spec_from_hex(hex, opacity),
    {
        let r: u32 = (hex >> 16) & 0xff;
        let g: u32 = (hex >> 8) & 0xff;
        let b: u32 = hex & 0xff;
        assert(r == (hex / 0x1_0000) % 0x100 && g == (hex / 0x100) % 0x100 && b == hex % 0x100)
            by (bit_vector)
            requires
                r == (hex >> 16) & 0xff,
                g == (hex >> 8) & 0xff,
                b == hex & 0xff,
        ;
        Color { r: r as u8, g: g as u8, b: b as u8, a: opacity }
    }

    /// Appends the four channel bytes of this colour to `pixels`.
    pub fn append(&self, pixels: &mut Vec<u8>)
        ensures
            final(pixels)@ == old(pixels)@ + self.bytes(),
    {
        pixels.push(self.r);
        pixels.push(self.g);
        pixels.push(self.b);
        pixels.push(self.a);
        assert(pixels@ =~= old(pixels)@ + self.bytes());
    }
}

} // verus!
