//! A parser, serializer and editing toolkit for the Bitsy game-data text
//! format: documents are split into blank-line-delimited segments, each
//! segment is decoded into an entity (room, tile, sprite, item, dialogue,
//! ending, palette, variable), and the resulting document can be serialized
//! back, merged with another document, or have duplicate tiles folded away.

pub mod colour;
pub mod copy;
pub mod dedupe;
pub mod dialogue;
pub mod ending;
pub mod frames;
pub mod game;
pub mod error;
pub mod exit;
pub mod ids;
pub mod image;
pub mod instance;
pub mod item;
pub mod merge;
pub mod numstr;
pub mod palette;
pub mod position;
pub mod room;
pub mod segments;
pub mod sprite;
pub mod strutil;
pub mod text;
pub mod tile;
pub mod variable;

pub use colour::Colour;
pub use dialogue::Dialogue;
pub use ending::Ending;
pub use frames::AnimationFrames;
pub use game::{Game, InvalidRoomFormat, RoomFormat, RoomType, Version, VersionError};
pub use error::{Error, NotFound};
pub use exit::{Exit, Transition};
pub use ids::{is_id_available, new_unique_id, try_id};
pub use image::Image;
pub use instance::{ExitInstance, Instance};
pub use item::Item;
pub use palette::Palette;
pub use position::Position;
pub use room::Room;
pub use segments::{parse_segment, segments_from_str, Segment, Segments};
pub use sprite::Sprite;
pub use text::{Font, TextDirection};
pub use tile::Tile;
pub use variable::Variable;

use vstd::prelude::*;

verus! {

/// The base-36 numeral of `x`, lowercase: how identifiers are written.
pub fn to_base36(x: u32) -> (r: String)
    ensures
        r@ == crate::numstr::b36_str(x as nat),
{
    crate::numstr::base36_text(x as u64)
}

/// `\nLABEL value` when a value is present, and nothing otherwise: the
/// shape of every optional tagged line.
pub open spec fn opt_line(label: Seq<char>, item: Option<Seq<char>>) -> Seq<char> {
    match item {
        Some(v) => "\n"@ + label + " "@ + v,
        None => Seq::<char>::empty(),
    }
}

/// Writes `\n<label> <item>` when `item` is present, and nothing otherwise.
pub fn optional_data_line(label: &str, item: Option<String>) -> (r: String)
    ensures
        r@ == opt_line(label@, match item {
            Some(v) => Some(v@),
            None => None,
        }),
{
    match item {
        Some(v) => {
            let mut out = String::from_str("\n");
            out.append(label);
            out.append(" ");
            out.append(v.as_str());
            proof {
                assert(out@ =~= "\n"@ + label@ + " "@ + v@);
            }
            out
        },
        None => {
            let out = String::new();
            proof {
                assert(out@ =~= Seq::<char>::empty());
            }
            out
        },
    }
}

} // verus!
