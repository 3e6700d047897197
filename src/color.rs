use vstd::prelude::*;

verus! {

/// A display color, one byte per channel.
#[derive(Clone, Copy, Debug, PartialEq, Eq, Structural)]
pub struct Color {
    pub r: u8,
    pub g: u8,
    pub b: u8,
    pub a: u8,
}

/// The mean of two channel values, rounded down.
pub open spec fn mean_channel(a: u8, b: u8) -> u8 {
    ((a + b) / 2) as u8
}

/// `v` as a share of `max`, on the scale 0 to 255; zero when `max` is zero.
pub open spec fn share_of(v: int, max: int) -> int {
    if max == 0 {
        0
    } else {
        v * 255 / max
    }
}

/// `a - b`, or zero when `b` is larger.
pub open spec fn sub_or_zero(a: int, b: int) -> int {
    if a >= b {
        a - b
    } else {
        0
    }
}

impl Color {
    pub open spec fn average_spec(self, o: Color) -> Color {
        Color {
            r: mean_channel(self.r, o.r),
            g: mean_channel(self.g, o.g),
            b: mean_channel(self.b, o.b),
            a: mean_channel(self.a, o.a),
        }
    }

    /// The color of a freshly seeded particle, drawn from one random roll: a
    /// luminance between 26 and 230, with green and blue slightly darker.
    pub open spec fn seeded_spec(roll: u32) -> Color {
        let l: int = 26 + roll % 205;
        Color {
            r: l as u8,
            g: sub_or_zero(l, ((roll / 256) % 52) as int) as u8,
            b: sub_or_zero(l, ((roll / 65536) % 26) as int) as u8,
            a: 255,
        }
    }

    /// The display color of a particle from its pressure and attraction
    /// magnitudes, each measured against the largest in the population.
    pub open spec fn diagnostic_spec(p: int, p_max: int, a: int, a_max: int) -> Color {
        let red = share_of(p, p_max);
        let green = share_of(a, a_max);
        let blue = red * green / 255 + 26;
        Color {
            r: red as u8,
            g: green as u8,
            b: (if blue > 255 { 255 } else { blue }) as u8,
            a: 255,
        }
    }

    /// The display color of a particle: its diagnostic color, made more
    /// transparent the more neighbors it has against the most crowded
    /// particle (opacity falls from 255 to 128).
    pub open spec fn display_spec(
        p: int,
        p_max: int,
        a: int,
        a_max: int,
        c: int,
        c_max: int,
    ) -> Color {
        let d = Color::diagnostic_spec(p, p_max, a, a_max);
        Color { r: d.r, g: d.g, b: d.b, a: (255 - share_of(c, c_max) / 2) as u8 }
    }

    /// The channel-wise mean of two colors.
    pub fn average(&self, other: &Color) -> (r: Color)
        ensures
            r == self.average_spec(*other),
    {
        Color {
            r: ((self.r as u16 + other.r as u16) / 2) as u8,
            g: ((self.g as u16 + other.g as u16) / 2) as u8,
            b: ((self.b as u16 + other.b as u16) / 2) as u8,
            a: ((self.a as u16 + other.a as u16) / 2) as u8,
        }
    }

    pub fn seeded(roll: u32) -> (r: Color)
        ensures
            r == Color::seeded_spec(roll),
    {
        let l: u32 = 26 + roll % 205;
        let dg: u32 = (roll / 256) % 52;
        let db: u32 = (roll / 65536) % 26;
        let g: u32 = if l >= dg { l - dg } else { 0 };
        let b: u32 = if l >= db { l - db } else { 0 };
        Color { r: l as u8, g: g as u8, b: b as u8, a: 255 }
    }

    fn share(v: u64, max: u64) -> (r: u64)
        requires
            v <= max,
            max <= 0x1_0000_0000_0000,
        ensures
            r == share_of(v as int, max as int),
            r <= 255,
    {
        if max == 0 {
            0
        } else {
            proof {
                assert(v * 255 <= max * 255) by (nonlinear_arith)
                    requires
                        v <= max,
                ;
                vstd::arithmetic::div_mod::lemma_div_is_ordered((v * 255) as int, (max * 255) as int, max as int);
                vstd::arithmetic::div_mod::lemma_div_by_multiple(255, max as int);
                assert(max * 255 == 255 * max) by (nonlinear_arith);
            }
            v * 255 / max
        }
    }

    pub fn diagnostic(p: u64, p_max: u64, a: u64, a_max: u64) -> (r: Color)
        requires
            p <= p_max <= 0x1_0000_0000_0000,
            a <= a_max <= 0x1_0000_0000_0000,
        ensures
            r == Color::diagnostic_spec(p as int, p_max as int, a as int, a_max as int),
    {
        let red = Color::share(p, p_max);
        let green = Color::share(a, a_max);
        proof {
            assert(red * green <= 255 * 255) by (nonlinear_arith)
                requires
                    red <= 255,
                    green <= 255,
            ;
        }
        let blue = red * green / 255 + 26;
        Color { r: red as u8, g: green as u8, b: if blue > 255 { 255 } else { blue as u8 }, a: 255 }
    }

    pub fn display(p: u64, p_max: u64, a: u64, a_max: u64, c: u64, c_max: u64) -> (r: Color)
        requires
            p <= p_max <= 0x1_0000_0000_0000,
            a <= a_max <= 0x1_0000_0000_0000,
            c <= c_max <= 0x1_0000_0000_0000,
        ensures
            r == Color::display_spec(
                p as int,
                p_max as int,
                a as int,
                a_max as int,
                c as int,
                c_max as int,
            ),
    {
        let d = Color::diagnostic(p, p_max, a, a_max);
        let crowd = Color::share(c, c_max);
        Color { r: d.r, g: d.g, b: d.b, a: (255 - crowd / 2) as u8 }
    }
}

} // verus!
