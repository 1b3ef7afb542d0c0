//! Grid positions: an `x,y` pair of 8-bit coordinates.

use crate::error::Error;
use crate::numstr::{dec_str, u8_text, uint_shape, uint_val};
use crate::strutil::{split_char, split_on, views};
use vstd::prelude::*;

verus! {

/// A position on the 16x16 grid (larger values survive decoding; the format
/// does not police the range).
#[derive(Clone, Copy, Debug, PartialEq, Eq, Structural)]
pub struct Position {
    pub x: u8,
    pub y: u8,
}

/// The serialized form of a position: `x,y` in decimal.
pub open spec fn position_text(p: Position) -> Seq<char> {
    dec_str(p.x as nat) + ","@ + dec_str(p.y as nat)
}

/// Does this token parse as an 8-bit coordinate?
pub open spec fn coord_ok(s: Seq<char>) -> bool {
    uint_shape(s) && uint_val(s) <= 255
}

/// Does `s` decode as a position: at least two comma-separated tokens,
/// the first two being 8-bit numerals?
pub open spec fn pos_ok(s: Seq<char>) -> bool {
    let ps = split_on(s, ',');
    ps.len() >= 2 && coord_ok(ps[0]) && coord_ok(ps[1])
}

/// The position a well-shaped token pair decodes to.
pub open spec fn pos_of(s: Seq<char>) -> Position {
    let ps = split_on(s, ',');
    Position { x: uint_val(ps[0]) as u8, y: uint_val(ps[1]) as u8 }
}

impl Position {
    /// Decodes `x,y`; tokens after the second are ignored.  A comma must be
    /// present.
    pub fn from_str(s: &str) -> (r: Result<Position, Error>)
        requires
            split_on(s@, ',').len() >= 2,
        ensures
            ({
                let ps = split_on(s@, ',');
                if coord_ok(ps[0]) && coord_ok(ps[1]) {
                    r == Ok::<Position, Error>(
                        Position {
                            x: uint_val(ps[0]) as u8,
                            y: uint_val(ps[1]) as u8,
                        },
                    )
                } else {
                    r == Err::<Position, Error>(Error::Position)
                }
            }),
    {
        let parts = split_char(s, ',');
        proof {
            assert(views(parts@)[0] == split_on(s@, ',')[0]);
            assert(views(parts@)[1] == split_on(s@, ',')[1]);
        }
        let x = crate::numstr::parse_u8(parts[0].as_str());
        let y = crate::numstr::parse_u8(parts[1].as_str());
        if let (Some(x), Some(y)) = (x, y) {
            Ok(Position { x, y })
        } else {
            Err(Error::Position)
        }
    }

    /// Writes the position as `x,y`.
    pub fn to_string(&self) -> (r: String)
        ensures
            r@ == position_text(*self),
    {
        let mut out = u8_text(self.x);
        out.append(",");
        out.append(u8_text(self.y).as_str());
        proof {
            assert(out@ =~= position_text(*self));
        }
        out
    }
}

} // verus!
