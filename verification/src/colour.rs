//! RGB colours: decoded from comma-separated decimal triplets or hex pairs,
//! written back as `r,g,b`.

use crate::error::Error;
use crate::numstr::{dec_str, digit_val, is_digit, u8_text, uint_shape, uint_val};
use crate::strutil::{split_char, split_on, trim_char, trim_matches, trim_start_spec, views};
use vstd::prelude::*;

verus! {

/// One RGB colour with 8-bit channels.
#[derive(Clone, Copy, Debug, PartialEq, Eq, Structural)]
pub struct Colour {
    pub red: u8,
    pub green: u8,
    pub blue: u8,
}

/// The channel value a colour token yields: its numeric value when it is an
/// unsigned numeral in range, and zero otherwise.
pub open spec fn channel_val(s: Seq<char>) -> u8 {
    if uint_shape(s) && uint_val(s) <= 255 {
        uint_val(s) as u8
    } else {
        0
    }
}

/// The serialized form of a colour: `r,g,b` in decimal.
pub open spec fn colour_text(c: Colour) -> Seq<char> {
    dec_str(c.red as nat) + ","@ + dec_str(c.green as nat) + ","@ + dec_str(c.blue as nat)
}

/// Is `c` a hexadecimal digit, either case?
pub open spec fn is_hex(c: char) -> bool {
    is_digit(c) || (97 <= c as u32 <= 102) || (65 <= c as u32 <= 70)
}

/// The value of the hexadecimal digit `c`, either case.
pub open spec fn hex_val(c: char) -> nat {
    if is_digit(c) {
        digit_val(c)
    } else if 97 <= c as u32 {
        (c as u32 - 87) as nat
    } else {
        (c as u32 - 55) as nat
    }
}

impl Colour {
    /// Decodes `r,g,b`, ignoring surrounding commas: exactly three tokens
    /// are accepted, and a token that is not a numeral in range counts as
    /// zero.
    pub fn from(string: &str) -> (r: Result<Colour, Error>)
        ensures
            ({
                let ps = split_on(trim_char(string@, ','), ',');
                if ps.len() == 3 {
                    r == Ok::<Colour, Error>(
                        Colour {
                            red: channel_val(ps[0]),
                            green: channel_val(ps[1]),
                            blue: channel_val(ps[2]),
                        },
                    )
                } else {
                    r == Err::<Colour, Error>(Error::Colour)
                }
            }),
    {
        let trimmed = trim_matches(string, ',');
        let values = split_char(trimmed.as_str(), ',');
        if values.len() != 3 {
            return Err(Error::Colour);
        }
        proof {
            assert(views(values@)[0] == split_on(trim_char(string@, ','), ',')[0]);
            assert(views(values@)[1] == split_on(trim_char(string@, ','), ',')[1]);
            assert(views(values@)[2] == split_on(trim_char(string@, ','), ',')[2]);
        }
        let red = match crate::numstr::parse_u8(values[0].as_str()) {
            Some(v) => v,
            None => 0,
        };
        let green = match crate::numstr::parse_u8(values[1].as_str()) {
            Some(v) => v,
            None => 0,
        };
        let blue = match crate::numstr::parse_u8(values[2].as_str()) {
            Some(v) => v,
            None => 0,
        };
        Ok(Colour { red, green, blue })
    }

    /// Decodes `#rrggbb` (leading `#`s optional, digits in either case).
    /// The first six hexadecimal digits decide the channels.
    pub fn from_hex(hex: &str) -> (r: Result<Colour, Error>)
        requires
            trim_start_spec(hex@, '#').len() >= 6,
            forall|i: int| 0 <= i < 6 ==> is_hex(#[trigger] trim_start_spec(hex@, '#')[i]),
        ensures
            ({
                let h = trim_start_spec(hex@, '#');
                r == Ok::<Colour, Error>(
                    Colour {
                        red: (hex_val(h[0]) * 16 + hex_val(h[1])) as u8,
                        green: (hex_val(h[2]) * 16 + hex_val(h[3])) as u8,
                        blue: (hex_val(h[4]) * 16 + hex_val(h[5])) as u8,
                    },
                )
            }),
    {
        let n = hex.unicode_len();
        let mut lo: usize = 0;
        proof {
            assert(hex@.skip(0) =~= hex@);
        }
        while lo < n && hex.get_char(lo) == '#'
            invariant
                hex@.len() == n,
                lo <= n,
                trim_start_spec(hex@, '#') == trim_start_spec(hex@.skip(lo as int), '#'),
            decreases n - lo,
        {
            proof {
                assert(hex@.skip(lo as int).skip(1) =~= hex@.skip(lo as int + 1));
            }
            lo = lo + 1;
        }
        let ghost h = trim_start_spec(hex@, '#');
        proof {
            if lo == n {
                assert(hex@.skip(n as int).len() == 0);
            }
            assert(h == hex@.skip(lo as int));
            assert(h.len() == n - lo);
            assert(hex@[lo as int] == h[0]);
            assert(hex@[lo as int + 1] == h[1]);
            assert(hex@[lo as int + 2] == h[2]);
            assert(hex@[lo as int + 3] == h[3]);
            assert(hex@[lo as int + 4] == h[4]);
            assert(hex@[lo as int + 5] == h[5]);
        }
        let d0 = hex_digit(hex.get_char(lo));
        let d1 = hex_digit(hex.get_char(lo + 1));
        let d2 = hex_digit(hex.get_char(lo + 2));
        let d3 = hex_digit(hex.get_char(lo + 3));
        let d4 = hex_digit(hex.get_char(lo + 4));
        let d5 = hex_digit(hex.get_char(lo + 5));
        Ok(
            Colour {
                red: (d0 * 16 + d1) as u8,
                green: (d2 * 16 + d3) as u8,
                blue: (d4 * 16 + d5) as u8,
            },
        )
    }

    /// Writes the colour as `r,g,b` in decimal.
    pub fn to_string(&self) -> (r: String)
        ensures
            r@ == colour_text(*self),
    {
        let mut out = u8_text(self.red);
        out.append(",");
        out.append(u8_text(self.green).as_str());
        out.append(",");
        out.append(u8_text(self.blue).as_str());
        proof {
            assert(out@ =~= colour_text(*self));
        }
        out
    }
}

/// The value of one hexadecimal digit character.
fn hex_digit(c: char) -> (v: u32)
    requires
        is_hex(c),
    ensures
        v == hex_val(c),
        v < 16,
{
    let cv = c as u32;
    if 48 <= cv && cv <= 57 {
        cv - 48
    } else if 97 <= cv {
        cv - 87
    } else {
        cv - 55
    }
}

} // verus!
