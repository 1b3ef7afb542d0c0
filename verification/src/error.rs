//! Error values: the fatal "nothing to parse" conditions and the non-fatal
//! diagnostics that parsing collects alongside a document.

use vstd::prelude::*;

verus! {

/// What a whole-document operation failed to find.
#[derive(Clone, Copy, Debug, PartialEq, Eq, Structural)]
pub enum NotFound {
    Anything,
    Avatar,
    Room,
    Sprite,
    Tile,
}

impl NotFound {
    /// A short description of the missing thing.
    pub fn as_str(&self) -> (r: &'static str)
        ensures
            r@ == match *self {
                NotFound::Anything => "file is empty"@,
                NotFound::Avatar => "avatar not found"@,
                NotFound::Room => "room not found"@,
                NotFound::Sprite => "sprite not found"@,
                NotFound::Tile => "tile not found"@,
            },
    {
        match self {
            NotFound::Anything => "file is empty",
            NotFound::Avatar => "avatar not found",
            NotFound::Room => "room not found",
            NotFound::Sprite => "sprite not found",
            NotFound::Tile => "tile not found",
        }
    }
}

/// A non-fatal diagnostic: the kind of entity or value whose segment could
/// not be decoded.
#[derive(Clone, Copy, Debug, PartialEq, Eq, Structural)]
pub enum Error {
    Colour,
    Dialogue,
    Ending,
    Exit,
    Font,
    Game { missing: NotFound },
    Image,
    Item,
    Palette,
    Position,
    Room,
    Sprite,
    Text,
    Tile,
    Transition,
    Variable,
    Version,
}

impl Error {
    /// A short description of the diagnostic.
    pub fn as_str(&self) -> (r: &'static str)
        ensures
            r@ == match *self {
                Error::Colour => "color error"@,
                Error::Dialogue => "dialog error"@,
                Error::Ending => "ending error"@,
                Error::Exit => "exit error"@,
                Error::Font => "font error"@,
                Error::Game { missing: NotFound::Anything } => "file is empty"@,
                Error::Game { missing: NotFound::Avatar } => "avatar not found"@,
                Error::Game { missing: NotFound::Room } => "room not found"@,
                Error::Game { missing: NotFound::Sprite } => "sprite not found"@,
                Error::Game { missing: NotFound::Tile } => "tile not found"@,
                Error::Image => "image error"@,
                Error::Item => "item error"@,
                Error::Palette => "palette error"@,
                Error::Position => "position error"@,
                Error::Room => "room error"@,
                Error::Sprite => "sprite error"@,
                Error::Text => "text error"@,
                Error::Tile => "tile error"@,
                Error::Transition => "transition error"@,
                Error::Variable => "variable error"@,
                Error::Version => "version error"@,
            },
    {
        match self {
            Error::Colour => "color error",
            Error::Dialogue => "dialog error",
            Error::Ending => "ending error",
            Error::Exit => "exit error",
            Error::Font => "font error",
            Error::Game { missing } => missing.as_str(),
            Error::Image => "image error",
            Error::Item => "item error",
            Error::Palette => "palette error",
            Error::Position => "position error",
            Error::Room => "room error",
            Error::Sprite => "sprite error",
            Error::Text => "text error",
            Error::Tile => "tile error",
            Error::Transition => "transition error",
            Error::Variable => "variable error",
            Error::Version => "version error",
        }
    }
}

} // verus!
