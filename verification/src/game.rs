//! The document aggregate: the whole game with its entity collections,
//! plus the document-level header values (version, room storage format,
//! room category, font, text direction).

use crate::dialogue::{dialogue_text, Dialogue};
use crate::ending::{ending_text, Ending};
use crate::error::{Error, NotFound};
use crate::ids::{alloc_id, is_id_available, new_unique_id, try_id};
use crate::item::{item_text, Item};
use crate::numstr::{dec_str, uint_shape, uint_val};
use crate::palette::{palette_text, Palette};
use crate::room::{room_text, Room};
use crate::segments::{Segment, Segments};
use crate::sprite::{sprite_text, Sprite};
use crate::strutil::{is_blank, replace_spec, split_on, views};
use crate::text::{Font, TextDirection};
use crate::tile::{tiles_alike, Tile};
use crate::variable::{variable_text, Variable};
use vstd::prelude::*;

verus! {

/// How room tile grids are written: one character per tile, or
/// comma-separated identifiers.
#[derive(Debug, Eq, PartialEq, Copy, Clone, Structural)]
pub enum RoomFormat {
    Contiguous,
    CommaSeparated,
}

/// The rejection a malformed room-format marker yields.
#[derive(Debug, Copy, Clone, PartialEq, Eq, Structural)]
pub struct InvalidRoomFormat;

impl RoomFormat {
    /// Decodes a `! ROOM_FORMAT` payload: `0` or `1`.
    pub fn from(s: &str) -> (r: Result<RoomFormat, InvalidRoomFormat>)
        ensures
            r == (if s@ == "0"@ {
                Ok::<RoomFormat, InvalidRoomFormat>(RoomFormat::Contiguous)
            } else if s@ == "1"@ {
                Ok::<RoomFormat, InvalidRoomFormat>(RoomFormat::CommaSeparated)
            } else {
                Err::<RoomFormat, InvalidRoomFormat>(InvalidRoomFormat)
            }),
    {
        if crate::strutil::str_eq(s, "0") {
            Ok(RoomFormat::Contiguous)
        } else if crate::strutil::str_eq(s, "1") {
            Ok(RoomFormat::CommaSeparated)
        } else {
            Err(InvalidRoomFormat)
        }
    }

    /// Writes the payload back: `0` or `1`.
    pub fn to_string(&self) -> (r: String)
        ensures
            r@ == (match *self {
                RoomFormat::Contiguous => "0"@,
                RoomFormat::CommaSeparated => "1"@,
            }),
    {
        match self {
            RoomFormat::Contiguous => String::from_str("0"),
            RoomFormat::CommaSeparated => String::from_str("1"),
        }
    }
}

/// Whether rooms were written with the old `SET` tag or the current
/// `ROOM` tag.
#[derive(Debug, Eq, PartialEq, Copy, Clone, Structural)]
pub enum RoomType {
    Room,
    LegacySet,
}

impl Default for RoomType {
    fn default() -> (r: Self)
        ensures
            r == RoomType::Room,
    {
        RoomType::Room
    }
}

impl RoomType {
    /// The tag this room category writes.
    pub fn to_string(&self) -> (r: String)
        ensures
            r@ == (match *self {
                RoomType::Room => "ROOM"@,
                RoomType::LegacySet => "SET"@,
            }),
    {
        match self {
            RoomType::LegacySet => String::from_str("SET"),
            RoomType::Room => String::from_str("ROOM"),
        }
    }
}

/// A `major.minor` format version.
#[derive(Debug, Eq, PartialEq, Copy, Clone, Structural)]
pub struct Version {
    pub major: u8,
    pub minor: u8,
}

/// Why a version marker failed to decode.
#[derive(Debug, Copy, Clone, PartialEq, Eq, Structural)]
pub enum VersionError {
    MissingParts,
    ExtraneousParts,
    MalformedInteger,
}

impl VersionError {
    /// A short description of the failure.
    pub fn as_str(&self) -> (r: &'static str)
        ensures
            r@ == (match *self {
                VersionError::MissingParts => "Not enough parts supplied for version"@,
                VersionError::ExtraneousParts => "Too many parts supplied for version"@,
                VersionError::MalformedInteger => "Version did not contain valid integers"@,
            }),
    {
        match self {
            VersionError::MissingParts => "Not enough parts supplied for version",
            VersionError::ExtraneousParts => "Too many parts supplied for version",
            VersionError::MalformedInteger => "Version did not contain valid integers",
        }
    }
}

/// A whole game document.
#[derive(Clone, Debug, PartialEq)]
pub struct Game {
    pub name: String,
    pub version: Option<Version>,
    pub room_format: Option<RoomFormat>,
    pub room_type: RoomType,
    pub font: Font,
    pub custom_font: Option<String>,
    pub text_direction: TextDirection,
    pub palettes: Vec<Palette>,
    pub rooms: Vec<Room>,
    pub tiles: Vec<Tile>,
    pub sprites: Vec<Sprite>,
    pub items: Vec<Item>,
    pub dialogues: Vec<Dialogue>,
    pub endings: Vec<Ending>,
    pub variables: Vec<Variable>,
    pub font_data: Option<String>,
    pub warnings: Vec<Error>,
}

/// The index of the first identifier equal to `id`, or -1 when there is
/// none.
pub open spec fn idx_of(ids: Seq<Seq<char>>, id: Seq<char>) -> int
    decreases ids.len(),
{
    if ids.len() == 0 {
        -1
    } else if ids[0] == id {
        0
    } else {
        let rest = idx_of(ids.skip(1), id);
        if rest < 0 {
            -1
        } else {
            rest + 1
        }
    }
}

/// The identifiers of a palette list.
pub open spec fn palette_idv(ps: Seq<Palette>) -> Seq<Seq<char>> {
    ps.map_values(|p: Palette| p.id@)
}

/// The identifiers of a room list.
pub open spec fn room_idv(ps: Seq<Room>) -> Seq<Seq<char>> {
    ps.map_values(|p: Room| p.id@)
}

/// The identifiers of a tile list.
pub open spec fn tile_idv(ps: Seq<Tile>) -> Seq<Seq<char>> {
    ps.map_values(|p: Tile| p.id@)
}

/// The identifiers of a sprite list.
pub open spec fn sprite_idv(ps: Seq<Sprite>) -> Seq<Seq<char>> {
    ps.map_values(|p: Sprite| p.id@)
}

/// The identifiers of an item list.
pub open spec fn item_idv(ps: Seq<Item>) -> Seq<Seq<char>> {
    ps.map_values(|p: Item| p.id@)
}

/// The identifiers of a dialogue list.
pub open spec fn dialogue_idv(ps: Seq<Dialogue>) -> Seq<Seq<char>> {
    ps.map_values(|p: Dialogue| p.id@)
}

/// The identifiers of an ending list.
pub open spec fn ending_idv(ps: Seq<Ending>) -> Seq<Seq<char>> {
    ps.map_values(|p: Ending| p.id@)
}

/// The identifiers of a variable list.
pub open spec fn variable_idv(ps: Seq<Variable>) -> Seq<Seq<char>> {
    ps.map_values(|p: Variable| p.id@)
}

/// `idx_of` lands on a match, and -1 means no identifier matches.
pub proof fn lemma_idx_of(ids: Seq<Seq<char>>, id: Seq<char>)
    ensures
        idx_of(ids, id) == -1 ==> !ids.contains(id),
        idx_of(ids, id) >= 0 ==> 0 <= idx_of(ids, id) < ids.len() && ids[idx_of(ids, id)] == id
            && (forall|j: int| 0 <= j < idx_of(ids, id) ==> ids[j] != id),
    decreases ids.len(),
{
    if ids.len() > 0 {
        lemma_idx_of(ids.skip(1), id);
        if ids[0] != id {
            let rest = idx_of(ids.skip(1), id);
            if rest == -1 {
                if ids.contains(id) {
                    let j = choose|j: int| 0 <= j < ids.len() && ids[j] == id;
                    assert(ids.skip(1)[j - 1] == id);
                    assert(ids.skip(1).contains(id));
                }
            } else {
                assert(ids[rest + 1] == ids.skip(1)[rest]);
                assert forall|j: int| 0 <= j < rest + 1 implies ids[j] != id by {
                    if j > 0 {
                        assert(ids.skip(1)[j - 1] != id);
                        assert(ids[j] == ids.skip(1)[j - 1]);
                    }
                }
            }
        }
    }
}

/// Finds the first entry with the given identifier in a list of
/// identifiers, as the getters do.
fn find_idx(ids: &Vec<String>, id: &str) -> (r: Option<usize>)
    ensures
        idx_of(views(ids@), id@) == -1 ==> r is None,
        idx_of(views(ids@), id@) >= 0 ==> r == Some(idx_of(views(ids@), id@) as usize),
        r matches Some(j) ==> 0 <= j < ids@.len() && views(ids@)[j as int] == id@ && (forall|
            q: int,
        |
            0 <= q < j ==> views(ids@)[q] != id@),
{
    let n = ids.len();
    let ghost idv = views(ids@);
    let mut i: usize = 0;
    proof {
        lemma_idx_of(idv, id@);
    }
    while i < n
        invariant
            idv == views(ids@),
            n == idv.len(),
            i <= n,
            forall|j: int| 0 <= j < i ==> idv[j] != id@,
            idx_of(idv, id@) == -1 ==> !idv.contains(id@),
            idx_of(idv, id@) >= 0 ==> 0 <= idx_of(idv, id@) < idv.len() && idv[idx_of(idv, id@)]
                == id@ && (forall|j: int| 0 <= j < idx_of(idv, id@) ==> idv[j] != id@),
        decreases n - i,
    {
        if crate::strutil::str_eq(ids[i].as_str(), id) {
            proof {
                assert(idv[i as int] == id@);
                assert(idv.contains(id@));
                if idx_of(idv, id@) >= 0 {
                    if idx_of(idv, id@) < i {
                        assert(idv[idx_of(idv, id@)] != id@);
                    }
                    if idx_of(idv, id@) > i {
                        assert(idv[i as int] != id@);
                    }
                }
                assert(idx_of(idv, id@) == i);
            }
            return Some(i);
        }
        i = i + 1;
    }
    proof {
        if idv.contains(id@) {
            let j = choose|j: int| 0 <= j < idv.len() && idv[j] == id@;
        }
        if idx_of(idv, id@) >= 0 {
            assert(idv[idx_of(idv, id@)] == id@);
            assert(idv.contains(id@));
        }
    }
    None
}

impl Game {
    /// Looks up a sprite by identifier; the earliest entry wins.
    pub fn get_sprite(&self, id: &str) -> (r: Option<&Sprite>)
        ensures
            idx_of(sprite_idv(self.sprites@), id@) == -1 ==> r is None,
            idx_of(sprite_idv(self.sprites@), id@) >= 0 ==> (r matches Some(s) && *s
                == self.sprites@[idx_of(sprite_idv(self.sprites@), id@)]),
    {
        let ids = self.sprite_ids();
        proof {
            lemma_idx_of(sprite_idv(self.sprites@), id@);
        }
        match find_idx(&ids, id) {
            Some(i) => Some(&self.sprites[i]),
            None => None,
        }
    }

    /// Looks up a tile by identifier.
    pub fn get_tile(&self, id: &str) -> (r: Option<&Tile>)
        ensures
            idx_of(tile_idv(self.tiles@), id@) == -1 ==> r is None,
            idx_of(tile_idv(self.tiles@), id@) >= 0 ==> (r matches Some(s) && *s
                == self.tiles@[idx_of(tile_idv(self.tiles@), id@)]),
    {
        let ids = self.tile_ids();
        proof {
            lemma_idx_of(tile_idv(self.tiles@), id@);
        }
        match find_idx(&ids, id) {
            Some(i) => Some(&self.tiles[i]),
            None => None,
        }
    }

    /// Looks up an item by identifier.
    pub fn get_item(&self, id: &str) -> (r: Option<&Item>)
        ensures
            idx_of(item_idv(self.items@), id@) == -1 ==> r is None,
            idx_of(item_idv(self.items@), id@) >= 0 ==> (r matches Some(s) && *s
                == self.items@[idx_of(item_idv(self.items@), id@)]),
    {
        let ids = self.item_ids();
        proof {
            lemma_idx_of(item_idv(self.items@), id@);
        }
        match find_idx(&ids, id) {
            Some(i) => Some(&self.items[i]),
            None => None,
        }
    }

    /// Looks up a room by identifier.
    pub fn get_room(&self, id: &str) -> (r: Option<&Room>)
        ensures
            idx_of(room_idv(self.rooms@), id@) == -1 ==> r is None,
            idx_of(room_idv(self.rooms@), id@) >= 0 ==> (r matches Some(s) && *s
                == self.rooms@[idx_of(room_idv(self.rooms@), id@)]),
    {
        let ids = self.room_ids();
        proof {
            lemma_idx_of(room_idv(self.rooms@), id@);
        }
        match find_idx(&ids, id) {
            Some(i) => Some(&self.rooms[i]),
            None => None,
        }
    }

    /// Looks up a palette by identifier.
    pub fn get_palette(&self, id: &str) -> (r: Option<&Palette>)
        ensures
            idx_of(palette_idv(self.palettes@), id@) == -1 ==> r is None,
            idx_of(palette_idv(self.palettes@), id@) >= 0 ==> (r matches Some(s) && *s
                == self.palettes@[idx_of(palette_idv(self.palettes@), id@)]),
    {
        let ids = self.palette_ids();
        proof {
            lemma_idx_of(palette_idv(self.palettes@), id@);
        }
        match find_idx(&ids, id) {
            Some(i) => Some(&self.palettes[i]),
            None => None,
        }
    }

    /// The player avatar: the sprite with identifier `A`.
    pub fn get_avatar(&self) -> (r: Option<&Sprite>)
        ensures
            idx_of(sprite_idv(self.sprites@), "A"@) == -1 ==> r is None,
            idx_of(sprite_idv(self.sprites@), "A"@) >= 0 ==> (r matches Some(s) && *s
                == self.sprites@[idx_of(sprite_idv(self.sprites@), "A"@)]),
    {
        self.get_sprite("A")
    }

    /// The palette identifiers, in order.
    pub fn palette_ids(&self) -> (r: Vec<String>)
        ensures
            views(r@) == palette_idv(self.palettes@),
    {
        let n = self.palettes.len();
        let mut out: Vec<String> = Vec::new();
        let mut i: usize = 0;
        while i < n
            invariant
                n == self.palettes@.len(),
                i <= n,
                out@.len() == i,
                forall|j: int| 0 <= j < i ==> out@[j]@ == self.palettes@[j].id@,
            decreases n - i,
        {
            out.push(self.palettes[i].id.clone());
            i = i + 1;
        }
        proof {
            assert(views(out@) =~= palette_idv(self.palettes@));
        }
        out
    }

    /// The tile identifiers, in order.
    pub fn tile_ids(&self) -> (r: Vec<String>)
        ensures
            views(r@) == tile_idv(self.tiles@),
    {
        let n = self.tiles.len();
        let mut out: Vec<String> = Vec::new();
        let mut i: usize = 0;
        while i < n
            invariant
                n == self.tiles@.len(),
                i <= n,
                out@.len() == i,
                forall|j: int| 0 <= j < i ==> out@[j]@ == self.tiles@[j].id@,
            decreases n - i,
        {
            out.push(self.tiles[i].id.clone());
            i = i + 1;
        }
        proof {
            assert(views(out@) =~= tile_idv(self.tiles@));
        }
        out
    }

    /// The sprite identifiers, in order.
    pub fn sprite_ids(&self) -> (r: Vec<String>)
        ensures
            views(r@) == sprite_idv(self.sprites@),
    {
        let n = self.sprites.len();
        let mut out: Vec<String> = Vec::new();
        let mut i: usize = 0;
        while i < n
            invariant
                n == self.sprites@.len(),
                i <= n,
                out@.len() == i,
                forall|j: int| 0 <= j < i ==> out@[j]@ == self.sprites@[j].id@,
            decreases n - i,
        {
            out.push(self.sprites[i].id.clone());
            i = i + 1;
        }
        proof {
            assert(views(out@) =~= sprite_idv(self.sprites@));
        }
        out
    }

    /// The room identifiers, in order.
    pub fn room_ids(&self) -> (r: Vec<String>)
        ensures
            views(r@) == room_idv(self.rooms@),
    {
        let n = self.rooms.len();
        let mut out: Vec<String> = Vec::new();
        let mut i: usize = 0;
        while i < n
            invariant
                n == self.rooms@.len(),
                i <= n,
                out@.len() == i,
                forall|j: int| 0 <= j < i ==> out@[j]@ == self.rooms@[j].id@,
            decreases n - i,
        {
            out.push(self.rooms[i].id.clone());
            i = i + 1;
        }
        proof {
            assert(views(out@) =~= room_idv(self.rooms@));
        }
        out
    }

    /// The item identifiers, in order.
    pub fn item_ids(&self) -> (r: Vec<String>)
        ensures
            views(r@) == item_idv(self.items@),
    {
        let n = self.items.len();
        let mut out: Vec<String> = Vec::new();
        let mut i: usize = 0;
        while i < n
            invariant
                n == self.items@.len(),
                i <= n,
                out@.len() == i,
                forall|j: int| 0 <= j < i ==> out@[j]@ == self.items@[j].id@,
            decreases n - i,
        {
            out.push(self.items[i].id.clone());
            i = i + 1;
        }
        proof {
            assert(views(out@) =~= item_idv(self.items@));
        }
        out
    }

    /// The dialogue identifiers, in order.
    pub fn dialogue_ids(&self) -> (r: Vec<String>)
        ensures
            views(r@) == dialogue_idv(self.dialogues@),
    {
        let n = self.dialogues.len();
        let mut out: Vec<String> = Vec::new();
        let mut i: usize = 0;
        while i < n
            invariant
                n == self.dialogues@.len(),
                i <= n,
                out@.len() == i,
                forall|j: int| 0 <= j < i ==> out@[j]@ == self.dialogues@[j].id@,
            decreases n - i,
        {
            out.push(self.dialogues[i].id.clone());
            i = i + 1;
        }
        proof {
            assert(views(out@) =~= dialogue_idv(self.dialogues@));
        }
        out
    }

    /// The ending identifiers, in order.
    pub fn ending_ids(&self) -> (r: Vec<String>)
        ensures
            views(r@) == ending_idv(self.endings@),
    {
        let n = self.endings.len();
        let mut out: Vec<String> = Vec::new();
        let mut i: usize = 0;
        while i < n
            invariant
                n == self.endings@.len(),
                i <= n,
                out@.len() == i,
                forall|j: int| 0 <= j < i ==> out@[j]@ == self.endings@[j].id@,
            decreases n - i,
        {
            out.push(self.endings[i].id.clone());
            i = i + 1;
        }
        proof {
            assert(views(out@) =~= ending_idv(self.endings@));
        }
        out
    }

    /// The variable identifiers, in order.
    pub fn variable_ids(&self) -> (r: Vec<String>)
        ensures
            views(r@) == variable_idv(self.variables@),
    {
        let n = self.variables.len();
        let mut out: Vec<String> = Vec::new();
        let mut i: usize = 0;
        while i < n
            invariant
                n == self.variables@.len(),
                i <= n,
                out@.len() == i,
                forall|j: int| 0 <= j < i ==> out@[j]@ == self.variables@[j].id@,
            decreases n - i,
        {
            out.push(self.variables[i].id.clone());
            i = i + 1;
        }
        proof {
            assert(views(out@) =~= variable_idv(self.variables@));
        }
        out
    }

    /// The first free palette identifier.
    pub fn new_palette_id(&self) -> (r: String)
        ensures
            r@ == alloc_id(palette_idv(self.palettes@)),
            !palette_idv(self.palettes@).contains(r@),
    {
        let ids = self.palette_ids();
        new_unique_id(ids.as_slice())
    }

    /// The first free tile identifier; `0` is reserved for the implicit
    /// background tile and never handed out.
    pub fn new_tile_id(&self) -> (r: String)
        ensures
            r@ == alloc_id(tile_idv(self.tiles@).push("0"@)),
            !tile_idv(self.tiles@).contains(r@),
            r@ != "0"@,
    {
        let mut ids = self.tile_ids();
        ids.push(String::from_str("0"));
        let r = new_unique_id(ids.as_slice());
        proof {
            assert(views(ids@) =~= tile_idv(self.tiles@).push("0"@));
            assert(views(ids@)[views(ids@).len() - 1] == "0"@);
            assert(views(ids@).contains("0"@));
            if tile_idv(self.tiles@).contains(r@) {
                let j = choose|j: int|
                    0 <= j < tile_idv(self.tiles@).len() && tile_idv(self.tiles@)[j] == r@;
                assert(views(ids@)[j] == r@);
                assert(views(ids@).contains(r@));
            }
        }
        r
    }

    /// The first free sprite identifier.
    pub fn new_sprite_id(&self) -> (r: String)
        ensures
            r@ == alloc_id(sprite_idv(self.sprites@)),
            !sprite_idv(self.sprites@).contains(r@),
    {
        let ids = self.sprite_ids();
        new_unique_id(ids.as_slice())
    }

    /// The first free room identifier.
    pub fn new_room_id(&self) -> (r: String)
        ensures
            r@ == alloc_id(room_idv(self.rooms@)),
            !room_idv(self.rooms@).contains(r@),
    {
        let ids = self.room_ids();
        new_unique_id(ids.as_slice())
    }

    /// The first free item identifier.
    pub fn new_item_id(&self) -> (r: String)
        ensures
            r@ == alloc_id(item_idv(self.items@)),
            !item_idv(self.items@).contains(r@),
    {
        let ids = self.item_ids();
        new_unique_id(ids.as_slice())
    }

    /// The first free dialogue identifier.
    pub fn new_dialogue_id(&self) -> (r: String)
        ensures
            r@ == alloc_id(dialogue_idv(self.dialogues@)),
            !dialogue_idv(self.dialogues@).contains(r@),
    {
        let ids = self.dialogue_ids();
        new_unique_id(ids.as_slice())
    }

    /// The first free ending identifier.
    pub fn new_ending_id(&self) -> (r: String)
        ensures
            r@ == alloc_id(ending_idv(self.endings@)),
            !ending_idv(self.endings@).contains(r@),
    {
        let ids = self.ending_ids();
        new_unique_id(ids.as_slice())
    }

    /// The first free variable identifier.
    pub fn new_variable_id(&self) -> (r: String)
        ensures
            r@ == alloc_id(variable_idv(self.variables@)),
            !variable_idv(self.variables@).contains(r@),
    {
        let ids = self.variable_ids();
        new_unique_id(ids.as_slice())
    }

    /// The identifier of the earliest tile structurally equal to
    /// `matching_tile`.
    pub fn get_tile_id(&self, matching_tile: &Tile) -> (r: Option<String>)
        ensures
            match r {
                Some(id) => exists|k: int|
                    0 <= k < self.tiles@.len() && tiles_alike(
                        #[trigger] self.tiles@[k],
                        *matching_tile,
                    ) && id@ == self.tiles@[k].id@ && (forall|q: int|
                        0 <= q < k ==> !tiles_alike(#[trigger] self.tiles@[q], *matching_tile)),
                None => forall|k: int|
                    0 <= k < self.tiles@.len() ==> !tiles_alike(
                        #[trigger] self.tiles@[k],
                        *matching_tile,
                    ),
            },
    {
        let n = self.tiles.len();
        let mut i: usize = 0;
        while i < n
            invariant
                n == self.tiles@.len(),
                i <= n,
                forall|k: int|
                    0 <= k < i ==> !tiles_alike(#[trigger] self.tiles@[k], *matching_tile),
            decreases n - i,
        {
            if self.tiles[i] == *matching_tile {
                return Some(self.tiles[i].id.clone());
            }
            i = i + 1;
        }
        None
    }

    /// The earliest tile whose animation equals `animation`, pixel for
    /// pixel.
    pub fn find_tile_with_animation(&self, animation: &Vec<crate::image::Image>) -> (r: Option<
        &Tile,
    >)
        ensures
            match r {
                Some(t) => exists|k: int|
                    0 <= k < self.tiles@.len() && *t == self.tiles@[k]
                        && (#[trigger] self.tiles@[k]).animation_frames@.map_values(
                        |im: crate::image::Image| im.pixels@,
                    ) == animation@.map_values(|im: crate::image::Image| im.pixels@) && (forall|
                        q: int,
                    |
                        0 <= q < k ==> (#[trigger] self.tiles@[q]).animation_frames@.map_values(
                            |im: crate::image::Image| im.pixels@,
                        ) != animation@.map_values(|im: crate::image::Image| im.pixels@)),
                None => forall|k: int|
                    0 <= k < self.tiles@.len() ==> (#[trigger] self.tiles@[k]).animation_frames@
                        .map_values(|im: crate::image::Image| im.pixels@) != animation@.map_values(
                        |im: crate::image::Image| im.pixels@,
                    ),
            },
    {
        let n = self.tiles.len();
        let mut i: usize = 0;
        while i < n
            invariant
                n == self.tiles@.len(),
                i <= n,
                forall|k: int|
                    0 <= k < i ==> (#[trigger] self.tiles@[k]).animation_frames@.map_values(
                        |im: crate::image::Image| im.pixels@,
                    ) != animation@.map_values(|im: crate::image::Image| im.pixels@),
            decreases n - i,
    {
            if frames_equal(&self.tiles[i].animation_frames, animation) {
                return Some(&self.tiles[i]);
            }
            i = i + 1;
        }
        None
    }
}

/// Do two documents agree on everything outside the entity collections?
pub open spec fn same_header(a: Game, b: Game) -> bool {
    &&& a.name == b.name
    &&& a.version == b.version
    &&& a.room_format == b.room_format
    &&& a.room_type == b.room_type
    &&& a.font == b.font
    &&& a.custom_font == b.custom_font
    &&& a.text_direction == b.text_direction
    &&& a.font_data == b.font_data
    &&& a.warnings == b.warnings
}

/// Everything a fresh document holds besides its title: defaults and
/// empty collections.
pub open spec fn default_rest(g: Game) -> bool {
    &&& g.version is None
    &&& g.room_format is None
    &&& g.room_type == RoomType::Room
    &&& g.font == Font::AsciiSmall
    &&& g.custom_font is None
    &&& g.text_direction == TextDirection::LeftToRight
    &&& g.palettes@.len() == 0
    &&& g.rooms@.len() == 0
    &&& g.tiles@.len() == 0
    &&& g.sprites@.len() == 0
    &&& g.items@.len() == 0
    &&& g.dialogues@.len() == 0
    &&& g.endings@.len() == 0
    &&& g.variables@.len() == 0
    &&& g.font_data is None
    &&& g.warnings@.len() == 0
}

/// A completely fresh document.
pub open spec fn empty_doc(g: Game) -> bool {
    g.name@.len() == 0 && default_rest(g)
}

/// The effect of folding one decoded segment into a document, as
/// `push_segment` states it.
pub open spec fn pushed(g0: Game, sg: Segment, g1: Game) -> bool {
    &&& g1.name == (match sg {
        Segment::Name(n) => n,
        _ => g0.name,
    })
    &&& g1.version == (match sg {
        Segment::Version(v) => Some(v),
        _ => g0.version,
    })
    &&& g1.room_format == (match sg {
        Segment::RoomFormat(f) => Some(f),
        _ => g0.room_format,
    })
    &&& g1.font == (match sg {
        Segment::Font(f, _) => f,
        _ => g0.font,
    })
    &&& g1.custom_font == (match sg {
        Segment::Font(_, Some(d)) => Some(d),
        _ => g0.custom_font,
    })
    &&& g1.text_direction == (match sg {
        Segment::TextDirection(t) => t,
        _ => g0.text_direction,
    })
    &&& g1.room_type == (match sg {
        Segment::Room(_, RoomType::LegacySet) => RoomType::LegacySet,
        _ => g0.room_type,
    })
    &&& g1.palettes@ == (match sg {
        Segment::Palette(p) => g0.palettes@.push(p),
        _ => g0.palettes@,
    })
    &&& g1.rooms@ == (match sg {
        Segment::Room(room, _) => g0.rooms@.push(room),
        _ => g0.rooms@,
    })
    &&& g1.tiles@ == (match sg {
        Segment::Tile(t) => g0.tiles@.push(t),
        _ => g0.tiles@,
    })
    &&& g1.sprites@ == (match sg {
        Segment::Sprite(t) => g0.sprites@.push(t),
        _ => g0.sprites@,
    })
    &&& g1.items@ == (match sg {
        Segment::Item(t) => g0.items@.push(t),
        _ => g0.items@,
    })
    &&& g1.dialogues@ == (match sg {
        Segment::Dialogue(t) => g0.dialogues@.push(t),
        _ => g0.dialogues@,
    })
    &&& g1.endings@ == (match sg {
        Segment::Ending(t) => g0.endings@.push(t),
        _ => g0.endings@,
    })
    &&& g1.variables@ == (match sg {
        Segment::Variable(t) => g0.variables@.push(t),
        _ => g0.variables@,
    })
    &&& g1.font_data == (match sg {
        Segment::FontData(d) => Some(d),
        _ => g0.font_data,
    })
    &&& g1.warnings@ == (match sg {
        Segment::Warning(e) => g0.warnings@.push(e),
        _ => g0.warnings@,
    })
}

/// One tokenizer step: a recognised segment decodes and folds in, an
/// unrecognised one changes nothing.
pub open spec fn seg_step(g0: Game, seg: Seq<char>, g1: Game) -> bool {
    if crate::segments::seg_recognised(seg) {
        exists|sg: Segment| #[trigger] crate::segments::segment_parsed(sg, seg) && pushed(g0, sg, g1)
    } else {
        g1 == g0
    }
}

/// `g` results from folding every segment of `segs` onto `g0`, one step
/// at a time.
pub open spec fn folds_over(g0: Game, segs: Seq<Seq<char>>, g: Game) -> bool
    decreases segs.len(),
{
    if segs.len() == 0 {
        g == g0
    } else {
        exists|gm: Game|
            #![trigger seg_step(g0, segs[0], gm)]
            seg_step(g0, segs[0], gm) && folds_over(gm, segs.skip(1), g)
    }
}

/// A fold extends across one more step at its end.
pub proof fn lemma_folds_over_push(g0: Game, segs: Seq<Seq<char>>, g: Game, seg: Seq<char>, g2: Game)
    requires
        folds_over(g0, segs, g),
        seg_step(g, seg, g2),
    ensures
        folds_over(g0, segs.push(seg), g2),
    decreases segs.len(),
{
    if segs.len() == 0 {
        assert(g == g0);
        assert(segs.push(seg)[0] == seg);
        assert(segs.push(seg).skip(1) =~= Seq::<Seq<char>>::empty());
        assert(folds_over(g2, segs.push(seg).skip(1), g2));
        assert(seg_step(g0, segs.push(seg)[0], g2));
    } else {
        let gm = choose|gm: Game|
            #![trigger seg_step(g0, segs[0], gm)]
            seg_step(g0, segs[0], gm) && folds_over(gm, segs.skip(1), g);
        lemma_folds_over_push(gm, segs.skip(1), g, seg, g2);
        assert(segs.push(seg)[0] == segs[0]);
        assert(segs.push(seg).skip(1) =~= segs.skip(1).push(seg));
        assert(seg_step(g0, segs.push(seg)[0], gm) && folds_over(gm, segs.push(seg).skip(1), g2));
    }
}

/// A fold extends across a run of unrecognised segments, which change
/// nothing.
pub proof fn lemma_folds_over_run(g0: Game, segs: Seq<Seq<char>>, g: Game, tail: Seq<Seq<char>>)
    requires
        folds_over(g0, segs, g),
        forall|k: int| 0 <= k < tail.len() ==> !crate::segments::seg_recognised(#[trigger] tail[k]),
    ensures
        folds_over(g0, segs + tail, g),
    decreases tail.len(),
{
    if tail.len() == 0 {
        assert(segs + tail =~= segs);
    } else {
        assert(seg_step(g, tail[0], g));
        lemma_folds_over_push(g0, segs, g, tail[0], g);
        assert(!crate::segments::seg_recognised(tail[0]));
        assert(forall|k: int|
            0 <= k < tail.skip(1).len() ==> !crate::segments::seg_recognised(
                #[trigger] tail.skip(1)[k],
            )) by {
            assert forall|k: int|
                0 <= k < tail.skip(1).len() implies !crate::segments::seg_recognised(
                tail.skip(1)[k],
            ) by {
                assert(tail.skip(1)[k] == tail[k + 1]);
            }
        }
        lemma_folds_over_run(g0, segs.push(tail[0]), g, tail.skip(1));
        assert(segs.push(tail[0]) + tail.skip(1) =~= segs + tail);
    }
}

/// The segments a raw document text tokenizes into: newlines normalized
/// and leading blank lines stripped first.
pub open spec fn doc_segments(s: Seq<char>) -> Seq<Seq<char>> {
    crate::segments::segments_spec(
        crate::strutil::trim_start_spec(replace_spec(s, "\r\n"@, "\n"@), '\n'),
    )
}

/// Where the entity segments start: after the title, when the first
/// segment is one.
pub open spec fn title_start(segs: Seq<Seq<char>>) -> int {
    if segs.len() > 0 && crate::segments::is_title(segs[0]) {
        1
    } else {
        0
    }
}

/// The document after the title step: a fresh document carrying the
/// first segment as its title when that segment is one.
pub open spec fn titled_doc(segs: Seq<Seq<char>>, g: Game) -> bool {
    if segs.len() > 0 && crate::segments::is_title(segs[0]) {
        g.name@ == segs[0] && default_rest(g)
    } else {
        empty_doc(g)
    }
}

/// `g` is a decoding of the raw text: the title step, then every segment
/// folded in order.
pub open spec fn parses_to(s: Seq<char>, g: Game) -> bool {
    let segs = doc_segments(s);
    exists|g1: Game|
        #[trigger] titled_doc(segs, g1) && folds_over(
            g1,
            segs.subrange(title_start(segs), segs.len() as int),
            g,
        )
}

/// The closing avatar check: a document without an avatar sprite gains
/// one missing-avatar diagnostic, anything else is left alone.
pub open spec fn avatar_checked(g2: Game, g: Game) -> bool {
    if sprite_idv(g2.sprites@).contains("A"@) {
        g == g2
    } else {
        &&& g.warnings@ == g2.warnings@.push(Error::Game { missing: NotFound::Avatar })
        &&& g.name == g2.name
        &&& g.version == g2.version
        &&& g.room_format == g2.room_format
        &&& g.room_type == g2.room_type
        &&& g.font == g2.font
        &&& g.custom_font == g2.custom_font
        &&& g.text_direction == g2.text_direction
        &&& g.palettes == g2.palettes
        &&& g.rooms == g2.rooms
        &&& g.tiles == g2.tiles
        &&& g.sprites == g2.sprites
        &&& g.items == g2.items
        &&& g.dialogues == g2.dialogues
        &&& g.endings == g2.endings
        &&& g.variables == g2.variables
        &&& g.font_data == g2.font_data
    }
}

/// Folding a decoded segment keeps a document serializable: decoded
/// animations have at least one frame, and a custom font always arrives
/// with its payload.
pub proof fn lemma_push_serializable(g0: Game, sg: Segment, g1: Game, seg: Seq<char>)
    requires
        serializable(g0),
        crate::segments::segment_parsed(sg, seg),
        pushed(g0, sg, g1),
    ensures
        serializable(g1),
{
    match sg {
        Segment::Tile(t) => {
            // the decoded tile carries at least the first frame
            let d = crate::image::img_dim(crate::strutil::lines_spec(seg)[1]);
            let init = crate::tile::TileShape {
                name: None,
                wall: None,
                colour: None,
                frames: seq![
                    crate::image::grid_pixels(crate::strutil::lines_spec(seg), 1, d),
                ],
            };
            crate::tile::lemma_tile_tail_frames(crate::strutil::lines_spec(seg), 1 + d, init);
            assert(t.animation_frames@.len() >= 1) by {
                let m = t.animation_frames@.map_values(
                    |im: crate::image::Image| im.pixels@,
                );
                assert(m.len() == t.animation_frames@.len());
            }
            assert forall|k: int| 0 <= k < g1.tiles@.len() implies (
            #[trigger] g1.tiles@[k]).animation_frames@.len() >= 1 by {
                if k < g0.tiles@.len() {
                    assert(g1.tiles@[k] == g0.tiles@[k]);
                } else {
                    assert(g1.tiles@[k] == t);
                }
            }
        },
        Segment::Item(t) => {
            let d = crate::image::img_dim(crate::strutil::lines_spec(seg)[1]);
            let init = crate::item::ItemShape {
                name: None,
                dialogue: None,
                colour: None,
                frames: seq![
                    crate::image::grid_pixels(crate::strutil::lines_spec(seg), 1, d),
                ],
            };
            crate::item::lemma_item_tail_frames(crate::strutil::lines_spec(seg), 1 + d, init);
            assert(t.animation_frames@.len() >= 1) by {
                let m = t.animation_frames@.map_values(
                    |im: crate::image::Image| im.pixels@,
                );
                assert(m.len() == t.animation_frames@.len());
            }
            assert forall|k: int| 0 <= k < g1.items@.len() implies (
            #[trigger] g1.items@[k]).animation_frames@.len() >= 1 by {
                if k < g0.items@.len() {
                    assert(g1.items@[k] == g0.items@[k]);
                } else {
                    assert(g1.items@[k] == t);
                }
            }
        },
        Segment::Sprite(t) => {
            let ls = crate::strutil::lines_spec(seg);
            match crate::sprite::sprite_tags(
                ls,
                ls.len(),
                crate::sprite::SpriteShape {
                    name: None,
                    dialogue: None,
                    room: None,
                    pos: None,
                    colour: None,
                    items: Seq::<Seq<char>>::empty(),
                },
            ) {
                Ok(sj) => {
                    crate::frames::lemma_frames_pixels_len(ls.subrange(1, sj.1 as int), 0);
                },
                Err(_) => {},
            }
            assert(t.animation_frames@.len() >= 1) by {
                let m = t.animation_frames@.map_values(
                    |im: crate::image::Image| im.pixels@,
                );
                assert(m.len() == t.animation_frames@.len());
            }
            assert forall|k: int| 0 <= k < g1.sprites@.len() implies (
            #[trigger] g1.sprites@[k]).animation_frames@.len() >= 1 by {
                if k < g0.sprites@.len() {
                    assert(g1.sprites@[k] == g0.sprites@[k]);
                } else {
                    assert(g1.sprites@[k] == t);
                }
            }
        },
        Segment::Font(f, data) => {
            if f == Font::Custom {
                assert(data is Some);
            }
        },
        _ => {},
    }
}

impl Game {
    /// Adds a palette under a collision-free identifier and returns it.
    pub fn add_palette(&mut self, palette: Palette) -> (r: String)
        ensures
            r@ == (if !palette_idv(old(self).palettes@).contains(palette.id@) {
                palette.id@
            } else {
                alloc_id(palette_idv(old(self).palettes@))
            }),
            !palette_idv(old(self).palettes@).contains(r@),
            final(self).palettes@.len() == old(self).palettes@.len() + 1,
            forall|j: int|
                0 <= j < old(self).palettes@.len() ==> final(self).palettes@[j] == old(
                    self,
                ).palettes@[j],
            ({
                let last = final(self).palettes@.last();
                last.id@ == r@ && last.name == palette.name && last.colours@ == palette.colours@
            }),
            final(self).rooms == old(self).rooms,
            final(self).tiles == old(self).tiles,
            final(self).sprites == old(self).sprites,
            final(self).items == old(self).items,
            final(self).dialogues == old(self).dialogues,
            final(self).endings == old(self).endings,
            final(self).variables == old(self).variables,
            same_header(*final(self), *old(self)),
    {
        let ids = self.palette_ids();
        let new_id = try_id(ids.as_slice(), palette.id.as_str());
        let mut palette = palette;
        palette.id = new_id.clone();
        self.palettes.push(palette);
        new_id
    }

    /// Adds a tile under a collision-free identifier, never the reserved
    /// `0`, and returns it.
    pub fn add_tile(&mut self, tile: Tile) -> (r: String)
        ensures
            r@ == (if tile.id@ != "0"@ && !tile_idv(old(self).tiles@).contains(tile.id@) {
                tile.id@
            } else {
                alloc_id(tile_idv(old(self).tiles@).push("0"@))
            }),
            r@ == tile.id@ ==> tile.id@ != "0"@ && !tile_idv(old(self).tiles@).contains(tile.id@),
            r@ != "0"@,
            !tile_idv(old(self).tiles@).contains(r@),
            final(self).tiles@.len() == old(self).tiles@.len() + 1,
            forall|j: int|
                0 <= j < old(self).tiles@.len() ==> final(self).tiles@[j] == old(self).tiles@[j],
            ({
                let last = final(self).tiles@.last();
                last.id@ == r@ && last.name == tile.name && last.wall == tile.wall
                    && last.colour_id == tile.colour_id && last.animation_frames@
                    == tile.animation_frames@
            }),
            final(self).rooms == old(self).rooms,
            final(self).palettes == old(self).palettes,
            final(self).sprites == old(self).sprites,
            final(self).items == old(self).items,
            final(self).dialogues == old(self).dialogues,
            final(self).endings == old(self).endings,
            final(self).variables == old(self).variables,
            same_header(*final(self), *old(self)),
    {
        proof {
            reveal_strlit("0");
        }
        let ids = self.tile_ids();
        let mut tile = tile;
        if crate::strutil::str_eq(tile.id.as_str(), "0") || !is_id_available(
            ids.as_slice(),
            tile.id.as_str(),
        ) {
            let new_id = self.new_tile_id();
            tile.id = new_id;
        }
        let id = tile.id.clone();
        self.tiles.push(tile);
        id
    }

    /// Adds a sprite under a collision-free identifier and returns it.
    pub fn add_sprite(&mut self, sprite: Sprite) -> (r: String)
        ensures
            r@ == (if !sprite_idv(old(self).sprites@).contains(sprite.id@) {
                sprite.id@
            } else {
                alloc_id(sprite_idv(old(self).sprites@))
            }),
            !sprite_idv(old(self).sprites@).contains(r@),
            final(self).sprites@.len() == old(self).sprites@.len() + 1,
            forall|j: int|
                0 <= j < old(self).sprites@.len() ==> final(self).sprites@[j] == old(
                    self,
                ).sprites@[j],
            ({
                let last = final(self).sprites@.last();
                last.id@ == r@ && last.name == sprite.name && last.animation_frames@
                    == sprite.animation_frames@ && last.dialogue_id == sprite.dialogue_id
                    && last.room_id == sprite.room_id && last.position == sprite.position
                    && last.colour_id == sprite.colour_id && last.items@ == sprite.items@
            }),
            final(self).rooms == old(self).rooms,
            final(self).palettes == old(self).palettes,
            final(self).tiles == old(self).tiles,
            final(self).items == old(self).items,
            final(self).dialogues == old(self).dialogues,
            final(self).endings == old(self).endings,
            final(self).variables == old(self).variables,
            same_header(*final(self), *old(self)),
    {
        let ids = self.sprite_ids();
        let new_id = try_id(ids.as_slice(), sprite.id.as_str());
        let mut sprite = sprite;
        sprite.id = new_id.clone();
        self.sprites.push(sprite);
        new_id
    }

    /// Adds an item under a collision-free identifier and returns it.
    pub fn add_item(&mut self, item: Item) -> (r: String)
        ensures
            r@ == (if !item_idv(old(self).items@).contains(item.id@) {
                item.id@
            } else {
                alloc_id(item_idv(old(self).items@))
            }),
            !item_idv(old(self).items@).contains(r@),
            final(self).items@.len() == old(self).items@.len() + 1,
            forall|j: int|
                0 <= j < old(self).items@.len() ==> final(self).items@[j] == old(self).items@[j],
            ({
                let last = final(self).items@.last();
                last.id@ == r@ && last.name == item.name && last.animation_frames@
                    == item.animation_frames@ && last.dialogue_id == item.dialogue_id
                    && last.colour_id == item.colour_id
            }),
            final(self).rooms == old(self).rooms,
            final(self).palettes == old(self).palettes,
            final(self).tiles == old(self).tiles,
            final(self).sprites == old(self).sprites,
            final(self).dialogues == old(self).dialogues,
            final(self).endings == old(self).endings,
            final(self).variables == old(self).variables,
            same_header(*final(self), *old(self)),
    {
        let ids = self.item_ids();
        let new_id = try_id(ids.as_slice(), item.id.as_str());
        let mut item = item;
        item.id = new_id.clone();
        self.items.push(item);
        new_id
    }

    /// Adds a dialogue under a collision-free identifier and returns it.
    pub fn add_dialogue(&mut self, dialogue: Dialogue) -> (r: String)
        ensures
            r@ == (if !dialogue_idv(old(self).dialogues@).contains(dialogue.id@) {
                dialogue.id@
            } else {
                alloc_id(dialogue_idv(old(self).dialogues@))
            }),
            !dialogue_idv(old(self).dialogues@).contains(r@),
            final(self).dialogues@.len() == old(self).dialogues@.len() + 1,
            forall|j: int|
                0 <= j < old(self).dialogues@.len() ==> final(self).dialogues@[j] == old(
                    self,
                ).dialogues@[j],
            ({
                let last = final(self).dialogues@.last();
                last.id@ == r@ && last.contents == dialogue.contents && last.name == dialogue.name
            }),
            final(self).rooms == old(self).rooms,
            final(self).palettes == old(self).palettes,
            final(self).tiles == old(self).tiles,
            final(self).sprites == old(self).sprites,
            final(self).items == old(self).items,
            final(self).endings == old(self).endings,
            final(self).variables == old(self).variables,
            same_header(*final(self), *old(self)),
    {
        let ids = self.dialogue_ids();
        let new_id = try_id(ids.as_slice(), dialogue.id.as_str());
        let mut dialogue = dialogue;
        dialogue.id = new_id.clone();
        self.dialogues.push(dialogue);
        new_id
    }

    /// Adds an ending under a collision-free identifier and returns it.
    pub fn add_ending(&mut self, ending: Ending) -> (r: String)
        ensures
            r@ == (if !ending_idv(old(self).endings@).contains(ending.id@) {
                ending.id@
            } else {
                alloc_id(ending_idv(old(self).endings@))
            }),
            !ending_idv(old(self).endings@).contains(r@),
            final(self).endings@.len() == old(self).endings@.len() + 1,
            forall|j: int|
                0 <= j < old(self).endings@.len() ==> final(self).endings@[j] == old(
                    self,
                ).endings@[j],
            ({
                let last = final(self).endings@.last();
                last.id@ == r@ && last.dialogue == ending.dialogue
            }),
            final(self).rooms == old(self).rooms,
            final(self).palettes == old(self).palettes,
            final(self).tiles == old(self).tiles,
            final(self).sprites == old(self).sprites,
            final(self).items == old(self).items,
            final(self).dialogues == old(self).dialogues,
            final(self).variables == old(self).variables,
            same_header(*final(self), *old(self)),
    {
        let ids = self.ending_ids();
        let new_id = try_id(ids.as_slice(), ending.id.as_str());
        let mut ending = ending;
        ending.id = new_id.clone();
        self.endings.push(ending);
        new_id
    }

    /// Adds a room under a collision-free identifier and returns it; the
    /// room's own references are left for the caller to keep valid.
    pub fn add_room(&mut self, room: Room) -> (r: String)
        ensures
            r@ == (if !room_idv(old(self).rooms@).contains(room.id@) {
                room.id@
            } else {
                alloc_id(room_idv(old(self).rooms@))
            }),
            !room_idv(old(self).rooms@).contains(r@),
            final(self).rooms@.len() == old(self).rooms@.len() + 1,
            forall|j: int|
                0 <= j < old(self).rooms@.len() ==> final(self).rooms@[j] == old(self).rooms@[j],
            ({
                let last = final(self).rooms@.last();
                last.id@ == r@ && last.palette_id == room.palette_id && last.name == room.name
                    && last.tiles@ == room.tiles@ && last.items@ == room.items@ && last.exits@
                    == room.exits@ && last.endings@ == room.endings@ && last.walls == room.walls
            }),
            final(self).palettes == old(self).palettes,
            final(self).tiles == old(self).tiles,
            final(self).sprites == old(self).sprites,
            final(self).items == old(self).items,
            final(self).dialogues == old(self).dialogues,
            final(self).endings == old(self).endings,
            final(self).variables == old(self).variables,
            same_header(*final(self), *old(self)),
    {
        let ids = self.room_ids();
        let new_id = try_id(ids.as_slice(), room.id.as_str());
        let mut room = room;
        room.id = new_id.clone();
        self.rooms.push(room);
        new_id
    }

    /// Adds a variable when its identifier is still free and returns the
    /// identifier the allocator would settle on; a variable whose
    /// identifier is taken is left out rather than renamed.
    pub fn add_variable(&mut self, variable: Variable) -> (r: String)
        ensures
            r@ == (if !variable_idv(old(self).variables@).contains(variable.id@) {
                variable.id@
            } else {
                alloc_id(variable_idv(old(self).variables@))
            }),
            !variable_idv(old(self).variables@).contains(variable.id@) ==> final(self).variables@
                == old(self).variables@.push(variable),
            variable_idv(old(self).variables@).contains(variable.id@) ==> final(self).variables
                == old(self).variables,
            final(self).palettes == old(self).palettes,
            final(self).rooms == old(self).rooms,
            final(self).tiles == old(self).tiles,
            final(self).sprites == old(self).sprites,
            final(self).items == old(self).items,
            final(self).dialogues == old(self).dialogues,
            final(self).endings == old(self).endings,
            same_header(*final(self), *old(self)),
    {
        let ids = self.variable_ids();
        let new_id = try_id(ids.as_slice(), variable.id.as_str());
        if is_id_available(ids.as_slice(), variable.id.as_str()) {
            self.variables.push(variable);
        }
        new_id
    }

    /// Folds one decoded segment into the document.
    pub fn push_segment(&mut self, segment: Segment)
        ensures
            final(self).name == (match segment {
                Segment::Name(n) => n,
                _ => old(self).name,
            }),
            final(self).version == (match segment {
                Segment::Version(v) => Some(v),
                _ => old(self).version,
            }),
            final(self).room_format == (match segment {
                Segment::RoomFormat(f) => Some(f),
                _ => old(self).room_format,
            }),
            final(self).font == (match segment {
                Segment::Font(f, _) => f,
                _ => old(self).font,
            }),
            final(self).custom_font == (match segment {
                Segment::Font(_, Some(d)) => Some(d),
                _ => old(self).custom_font,
            }),
            final(self).text_direction == (match segment {
                Segment::TextDirection(t) => t,
                _ => old(self).text_direction,
            }),
            final(self).room_type == (match segment {
                Segment::Room(_, RoomType::LegacySet) => RoomType::LegacySet,
                _ => old(self).room_type,
            }),
            final(self).palettes@ == (match segment {
                Segment::Palette(p) => old(self).palettes@.push(p),
                _ => old(self).palettes@,
            }),
            final(self).rooms@ == (match segment {
                Segment::Room(room, _) => old(self).rooms@.push(room),
                _ => old(self).rooms@,
            }),
            final(self).tiles@ == (match segment {
                Segment::Tile(t) => old(self).tiles@.push(t),
                _ => old(self).tiles@,
            }),
            final(self).sprites@ == (match segment {
                Segment::Sprite(t) => old(self).sprites@.push(t),
                _ => old(self).sprites@,
            }),
            final(self).items@ == (match segment {
                Segment::Item(t) => old(self).items@.push(t),
                _ => old(self).items@,
            }),
            final(self).dialogues@ == (match segment {
                Segment::Dialogue(t) => old(self).dialogues@.push(t),
                _ => old(self).dialogues@,
            }),
            final(self).endings@ == (match segment {
                Segment::Ending(t) => old(self).endings@.push(t),
                _ => old(self).endings@,
            }),
            final(self).variables@ == (match segment {
                Segment::Variable(t) => old(self).variables@.push(t),
                _ => old(self).variables@,
            }),
            final(self).font_data == (match segment {
                Segment::FontData(d) => Some(d),
                _ => old(self).font_data,
            }),
            final(self).warnings@ == (match segment {
                Segment::Warning(e) => old(self).warnings@.push(e),
                _ => old(self).warnings@,
            }),
    {
        match segment {
            Segment::Name(name) => {
                self.name = name;
            },
            Segment::Version(version) => {
                self.version = Some(version);
            },
            Segment::RoomFormat(room_format) => {
                self.room_format = Some(room_format);
            },
            Segment::Font(font, data) => {
                self.font = font;
                if let Some(data) = data {
                    self.custom_font = Some(data);
                }
            },
            Segment::TextDirection(text_direction) => {
                self.text_direction = text_direction;
            },
            Segment::Palette(palette) => {
                self.palettes.push(palette);
            },
            Segment::Room(room, room_type) => {
                if let RoomType::LegacySet = room_type {
                    self.room_type = RoomType::LegacySet;
                }
                self.rooms.push(room);
            },
            Segment::Tile(tile) => {
                self.tiles.push(tile);
            },
            Segment::Sprite(sprite) => {
                self.sprites.push(sprite);
            },
            Segment::Item(item) => {
                self.items.push(item);
            },
            Segment::Dialogue(dialogue) => {
                self.dialogues.push(dialogue);
            },
            Segment::Ending(ending) => {
                self.endings.push(ending);
            },
            Segment::Variable(variable) => {
                self.variables.push(variable);
            },
            Segment::FontData(data) => {
                self.font_data = Some(data);
            },
            Segment::Warning(error) => {
                self.warnings.push(error);
            },
        }
    }

    /// An empty document with every default.
    pub fn empty() -> (r: Game)
        ensures
            empty_doc(r),
    {
        Game {
            name: String::new(),
            version: None,
            room_format: None,
            room_type: RoomType::Room,
            font: Font::AsciiSmall,
            custom_font: None,
            text_direction: TextDirection::LeftToRight,
            palettes: Vec::new(),
            rooms: Vec::new(),
            tiles: Vec::new(),
            sprites: Vec::new(),
            items: Vec::new(),
            dialogues: Vec::new(),
            endings: Vec::new(),
            variables: Vec::new(),
            font_data: None,
            warnings: Vec::new(),
        }
    }

    /// Decodes a whole document.  Only blank input is fatal; everything
    /// else yields the fold of the tokenized segments — the title first,
    /// then each recognised segment's decoding — plus one diagnostic when
    /// no avatar sprite is present.  The result is always serializable.
    #[verifier::rlimit(100)]
    #[verifier::spinoff_prover]
    pub fn from(string: &str) -> (r: Result<Game, NotFound>)
        ensures
            r is Err <==> is_blank(string@),
            r matches Err(e) ==> e == NotFound::Anything,
            r matches Ok(g) ==> serializable(g) && exists|g2: Game|
                #[trigger] parses_to(string@, g2) && avatar_checked(g2, g),
            r matches Ok(g) ==> (sprite_idv(g.sprites@).contains("A"@) || (g.warnings@.len() > 0
                && g.warnings@.last() == (Error::Game { missing: NotFound::Avatar }))),
    {
        if crate::strutil::all_whitespace(string) {
            return Err(NotFound::Anything);
        }
        let mut game = Game::empty();
        let mut segments = Segments::new(string);
        let ghost segsv = doc_segments(string@);
        proof {
            assert(views(segments.parts@) == segsv);
            crate::segments::lemma_segments_nonempty(
                crate::strutil::trim_start_spec(replace_spec(string@, "\r\n"@, "\n"@), '\n'),
            );
        }
        loop
            invariant_except_break
                views(segments.parts@) == segsv,
                segsv == doc_segments(string@),
                segsv.len() >= 1,
                segments.cursor <= segments.parts@.len(),
                serializable(game),
                !segments.emitted_name ==> segments.cursor == 0 && empty_doc(game),
                segments.emitted_name ==> (title_start(segsv) <= segments.cursor && exists|
                    g1: Game,
                |
                    #[trigger] titled_doc(segsv, g1) && folds_over(
                        g1,
                        segsv.subrange(title_start(segsv), segments.cursor as int),
                        game,
                    )),
            ensures
                serializable(game),
                parses_to(string@, game),
            decreases segments.parts@.len() - segments.cursor,
        {
            let ghost pre = game;
            let ghost cur0 = segments.cursor as int;
            let ghost emitted0 = segments.emitted_name;
            let next = segments.next();
            match next {
                Some(segment) => {
                    let ghost sgg = segment;
                    proof {
                        if sgg is Name {
                            // the title step: the front segment becomes the name
                            assert(!emitted0 && cur0 == 0);
                            assert(views(segments.parts@)[0] == segsv[0]);
                            assert(crate::segments::is_title(segsv[0]));
                            assert(title_start(segsv) == 1);
                        }
                    }
                    game.push_segment(segment);
                    proof {
                        if sgg is Name {
                            assert(titled_doc(segsv, game));
                            assert(segsv.subrange(1, 1) =~= Seq::<Seq<char>>::empty());
                            assert(folds_over(game, segsv.subrange(1, 1), game));
                        } else {
                            let ts = title_start(segsv);
                            let cnow = segments.cursor as int;
                            let here = cnow - 1;
                            assert(views(segments.parts@)[here] == segsv[here]);
                            assert(crate::segments::seg_recognised(segsv[here]));
                            assert(crate::segments::segment_parsed(sgg, segsv[here]));
                            assert(pushed(pre, sgg, game));
                            assert forall|k: int|
                                cur0 <= k < here implies !crate::segments::seg_recognised(
                                #[trigger] segsv[k],
                            ) by {
                                assert(!crate::segments::seg_recognised(
                                    segments.parts@[k]@,
                                ));
                                assert(views(segments.parts@)[k] == segsv[k]);
                            }
                            let ghost skipped = segsv.subrange(cur0, here);
                            assert(forall|k: int|
                                0 <= k < skipped.len() ==> !crate::segments::seg_recognised(
                                    #[trigger] skipped[k],
                                )) by {
                                assert forall|k: int|
                                    0 <= k < skipped.len()
                                        implies !crate::segments::seg_recognised(skipped[k]) by {
                                    assert(skipped[k] == segsv[cur0 + k]);
                                }
                            }
                            if !emitted0 {
                                // the front segment was no title, so the
                                // fold starts at the very beginning
                                assert(cur0 == 0 && empty_doc(pre));
                                assert(views(segments.parts@)[0] == segsv[0]);
                                assert(!crate::segments::is_title(segsv[0]));
                                assert(title_start(segsv) == 0);
                                assert(titled_doc(segsv, pre));
                                assert(segsv.subrange(0, 0) =~= Seq::<Seq<char>>::empty());
                                assert(folds_over(pre, segsv.subrange(0, 0), pre));
                                lemma_folds_over_run(pre, segsv.subrange(0, 0), pre, skipped);
                                assert(segsv.subrange(0, 0) + skipped =~= segsv.subrange(
                                    0,
                                    here,
                                ));
                                assert(seg_step(pre, segsv[here], game));
                                lemma_folds_over_push(
                                    pre,
                                    segsv.subrange(0, here),
                                    pre,
                                    segsv[here],
                                    game,
                                );
                                assert(segsv.subrange(0, here).push(segsv[here]) =~= segsv
                                    .subrange(0, cnow));
                            } else {
                                let g1 = choose|g1: Game|
                                    #[trigger] titled_doc(segsv, g1) && folds_over(
                                        g1,
                                        segsv.subrange(ts, cur0),
                                        pre,
                                    );
                                lemma_folds_over_run(g1, segsv.subrange(ts, cur0), pre, skipped);
                                assert(segsv.subrange(ts, cur0) + skipped =~= segsv.subrange(
                                    ts,
                                    here,
                                ));
                                assert(seg_step(pre, segsv[here], game));
                                lemma_folds_over_push(
                                    g1,
                                    segsv.subrange(ts, here),
                                    pre,
                                    segsv[here],
                                    game,
                                );
                                assert(segsv.subrange(ts, here).push(segsv[here]) =~= segsv
                                    .subrange(ts, cnow));
                            }
                            lemma_push_serializable(pre, sgg, game, segsv[here]);
                        }
                    }
                },
                None => {
                    proof {
                        let cend = segments.cursor as int;
                        assert(cend == segsv.len());
                        assert forall|k: int|
                            cur0 <= k < cend implies !crate::segments::seg_recognised(
                            #[trigger] segsv[k],
                        ) by {
                            assert(!crate::segments::seg_recognised(segments.parts@[k]@));
                            assert(views(segments.parts@)[k] == segsv[k]);
                        }
                        let ghost skipped = segsv.subrange(cur0, cend);
                        assert(forall|k: int|
                            0 <= k < skipped.len() ==> !crate::segments::seg_recognised(
                                #[trigger] skipped[k],
                            )) by {
                            assert forall|k: int|
                                0 <= k < skipped.len()
                                    implies !crate::segments::seg_recognised(skipped[k]) by {
                                assert(skipped[k] == segsv[cur0 + k]);
                            }
                        }
                        if !emitted0 {
                            assert(cur0 == 0 && empty_doc(pre));
                            assert(views(segments.parts@)[0] == segsv[0]);
                            assert(cur0 == segsv.len() || !crate::segments::is_title(segsv[0]));
                            assert(title_start(segsv) == 0);
                            assert(titled_doc(segsv, pre));
                            assert(segsv.subrange(0, 0) =~= Seq::<Seq<char>>::empty());
                            assert(folds_over(pre, segsv.subrange(0, 0), pre));
                            lemma_folds_over_run(pre, segsv.subrange(0, 0), pre, skipped);
                            assert(segsv.subrange(0, 0) + skipped =~= segsv.subrange(0, cend));
                        } else {
                            let ts = title_start(segsv);
                            let g1 = choose|g1: Game|
                                #[trigger] titled_doc(segsv, g1) && folds_over(
                                    g1,
                                    segsv.subrange(ts, cur0),
                                    pre,
                                );
                            lemma_folds_over_run(g1, segsv.subrange(ts, cur0), pre, skipped);
                            assert(segsv.subrange(ts, cur0) + skipped =~= segsv.subrange(
                                ts,
                                cend,
                            ));
                        }
                        assert(segsv == doc_segments(string@));
                        assert(parses_to(string@, game));
                    }
                    break;
                },
            }
        }
        proof {
            reveal_strlit("A");
        }
        let ghost g2 = game;
        let ids = game.sprite_ids();
        if !is_id_available(ids.as_slice(), "A") {
            // an avatar is present
            proof {
                assert(avatar_checked(g2, game));
            }
            let r = Ok(game);
            return r;
        }
        game.warnings.push(Error::Game { missing: NotFound::Avatar });
        proof {
            assert(avatar_checked(g2, game));
        }
        Ok(game)
    }

    /// The declared format version, or `1.0` for the oldest documents.
    pub fn version(&self) -> (r: Version)
        ensures
            r == (match self.version {
                Some(v) => v,
                None => Version { major: 1, minor: 0 },
            }),
    {
        match &self.version {
            Some(v) => Version { major: v.major, minor: v.minor },
            None => Version { major: 1, minor: 0 },
        }
    }

    /// The declared room storage format, or the legacy contiguous one.
    pub fn room_format(&self) -> (r: RoomFormat)
        ensures
            r == (match self.room_format {
                Some(f) => f,
                None => RoomFormat::Contiguous,
            }),
    {
        match &self.room_format {
            Some(f) => *f,
            None => RoomFormat::Contiguous,
        }
    }
}

/// The version marker line, when a version is declared.
pub open spec fn version_line(g: Game) -> Seq<char> {
    match g.version {
        Some(v) => "\n\n# BITSY VERSION "@ + dec_str(v.major as nat) + "."@ + dec_str(
            v.minor as nat,
        ),
        None => Seq::<char>::empty(),
    }
}

/// The room-format marker line, when a format is declared.
pub open spec fn room_format_line(g: Game) -> Seq<char> {
    match g.room_format {
        Some(RoomFormat::Contiguous) => "\n\n! ROOM_FORMAT "@ + "0"@,
        Some(RoomFormat::CommaSeparated) => "\n\n! ROOM_FORMAT "@ + "1"@,
        None => Seq::<char>::empty(),
    }
}

/// The font marker line; the default font writes nothing, a custom font
/// writes its payload.
pub open spec fn font_line(g: Game) -> Seq<char> {
    match g.font {
        Font::AsciiSmall => Seq::<char>::empty(),
        Font::Custom => "\n\nDEFAULT_FONT "@ + (match g.custom_font {
            Some(d) => d@,
            None => Seq::<char>::empty(),
        }),
        Font::UnicodeEuropeanSmall => "\n\nDEFAULT_FONT "@ + "unicode_european_small"@,
        Font::UnicodeEuropeanLarge => "\n\nDEFAULT_FONT "@ + "unicode_european_large"@,
        Font::UnicodeAsian => "\n\nDEFAULT_FONT "@ + "unicode_asian"@,
        Font::Arabic => "\n\nDEFAULT_FONT "@ + "arabic"@,
    }
}

/// The text-direction marker line, written only for right-to-left text.
pub open spec fn text_direction_line(g: Game) -> Seq<char> {
    match g.text_direction {
        TextDirection::RightToLeft => "\n\nTEXT_DIRECTION RTL"@,
        TextDirection::LeftToRight => Seq::<char>::empty(),
    }
}

/// A dialogue's segment text as the document writes it: the explicit
/// empty quote block is folded back away.
pub open spec fn dialogue_doc_text(d: Dialogue) -> Seq<char> {
    replace_spec(dialogue_text(d), "\"\"\"\n\"\"\""@, Seq::<char>::empty())
}

/// Every entity segment of the document, in serialization order.
pub open spec fn game_segment_texts(g: Game) -> Seq<Seq<char>> {
    g.palettes@.map_values(|p: Palette| palette_text(p)) + g.rooms@.map_values(
        |r: Room| room_text(r, game_fmt(g), g.room_type),
    ) + g.tiles@.map_values(|t: Tile| crate::tile::tile_text(t)) + g.sprites@.map_values(
        |s: Sprite| sprite_text(s),
    ) + g.items@.map_values(|it: Item| item_text(it)) + g.dialogues@.map_values(
        |d: Dialogue| dialogue_doc_text(d),
    ) + g.endings@.map_values(|e: Ending| ending_text(e)) + g.variables@.map_values(
        |v: Variable| variable_text(v),
    ) + (match g.font_data {
        Some(d) => seq![d@],
        None => Seq::<Seq<char>>::empty(),
    })
}

/// The room format serialization uses: the declared one, or contiguous.
pub open spec fn game_fmt(g: Game) -> RoomFormat {
    match g.room_format {
        Some(f) => f,
        None => RoomFormat::Contiguous,
    }
}

/// The whole document's text.
pub open spec fn game_text(g: Game) -> Seq<char> {
    g.name@ + version_line(g) + room_format_line(g) + font_line(g) + text_direction_line(g)
        + "\n\n"@ + crate::strutil::join_with(game_segment_texts(g), "\n\n"@) + "\n\n"@
}

/// Can the document be written out without panicking: a custom font has
/// its payload, and every animation has at least one frame.
pub open spec fn serializable(g: Game) -> bool {
    &&& (g.font == Font::Custom ==> g.custom_font is Some)
    &&& (forall|k: int|
        0 <= k < g.tiles@.len() ==> (#[trigger] g.tiles@[k]).animation_frames@.len() >= 1)
    &&& (forall|k: int|
        0 <= k < g.sprites@.len() ==> (#[trigger] g.sprites@[k]).animation_frames@.len() >= 1)
    &&& (forall|k: int|
        0 <= k < g.items@.len() ==> (#[trigger] g.items@[k]).animation_frames@.len() >= 1)
}

impl Game {
    /// Writes the whole document back out, entities in their canonical
    /// order, each segment separated by a blank line.
    #[verifier::rlimit(100)]
    #[verifier::spinoff_prover]
    pub fn to_string(&self) -> (r: String)
        requires
            serializable(*self),
        ensures
            r@ == game_text(*self),
    {
        let mut segs: Vec<String> = palette_segments(&self.palettes);
        let mut rooms_part = room_segments(&self.rooms, self.room_format(), self.room_type);
        let mut tiles_part = tile_segments(&self.tiles);
        let mut sprites_part = sprite_segments(&self.sprites);
        let mut items_part = item_segments(&self.items);
        let mut dialogues_part = dialogue_segments(&self.dialogues);
        let mut endings_part = ending_segments(&self.endings);
        let mut variables_part = variable_segments(&self.variables);
        segs.append(&mut rooms_part);
        segs.append(&mut tiles_part);
        segs.append(&mut sprites_part);
        segs.append(&mut items_part);
        segs.append(&mut dialogues_part);
        segs.append(&mut endings_part);
        segs.append(&mut variables_part);
        match &self.font_data {
            Some(d) => {
                segs.push(d.clone());
            },
            None => {},
        }
        proof {
            assert(views(segs@) =~= game_segment_texts(*self));
        }
        let mut out = self.name.clone();
        match &self.version {
            Some(v) => {
                out.append("\n\n# BITSY VERSION ");
                out.append(crate::numstr::u8_text(v.major).as_str());
                out.append(".");
                out.append(crate::numstr::u8_text(v.minor).as_str());
            },
            None => {},
        }
        match &self.room_format {
            Some(RoomFormat::Contiguous) => {
                out.append("\n\n! ROOM_FORMAT ");
                out.append("0");
            },
            Some(RoomFormat::CommaSeparated) => {
                out.append("\n\n! ROOM_FORMAT ");
                out.append("1");
            },
            None => {},
        }
        match &self.font {
            Font::AsciiSmall => {},
            Font::Custom => {
                out.append("\n\nDEFAULT_FONT ");
                match &self.custom_font {
                    Some(d) => out.append(d.as_str()),
                    None => {},
                }
            },
            Font::UnicodeEuropeanSmall => {
                out.append("\n\nDEFAULT_FONT ");
                out.append("unicode_european_small");
            },
            Font::UnicodeEuropeanLarge => {
                out.append("\n\nDEFAULT_FONT ");
                out.append("unicode_european_large");
            },
            Font::UnicodeAsian => {
                out.append("\n\nDEFAULT_FONT ");
                out.append("unicode_asian");
            },
            Font::Arabic => {
                out.append("\n\nDEFAULT_FONT ");
                out.append("arabic");
            },
        }
        match &self.text_direction {
            TextDirection::RightToLeft => {
                out.append("\n\nTEXT_DIRECTION RTL");
            },
            TextDirection::LeftToRight => {},
        }
        out.append("\n\n");
        out.append(crate::strutil::join(&segs, "\n\n").as_str());
        out.append("\n\n");
        proof {
            assert(out@ =~= game_text(*self));
        }
        out
    }
}

/// The palette segments, in order.
fn palette_segments(ps: &Vec<Palette>) -> (r: Vec<String>)
    ensures
        views(r@) == ps@.map_values(|p: Palette| palette_text(p)),
{
    let n = ps.len();
    let mut out: Vec<String> = Vec::new();
    let mut i: usize = 0;
    while i < n
        invariant
            n == ps@.len(),
            i <= n,
            out@.len() == i,
            forall|j: int| 0 <= j < i ==> out@[j]@ == palette_text(ps@[j]),
        decreases n - i,
    {
        out.push(ps[i].to_string());
        i = i + 1;
    }
    proof {
        assert(views(out@) =~= ps@.map_values(|p: Palette| palette_text(p)));
    }
    out
}

/// The room segments, in order.
fn room_segments(ps: &Vec<Room>, fmt: RoomFormat, typ: RoomType) -> (r: Vec<String>)
    ensures
        views(r@) == ps@.map_values(|p: Room| room_text(p, fmt, typ)),
{
    let n = ps.len();
    let mut out: Vec<String> = Vec::new();
    let mut i: usize = 0;
    while i < n
        invariant
            n == ps@.len(),
            i <= n,
            out@.len() == i,
            forall|j: int| 0 <= j < i ==> out@[j]@ == room_text(ps@[j], fmt, typ),
        decreases n - i,
    {
        out.push(ps[i].to_string(fmt, typ));
        i = i + 1;
    }
    proof {
        assert(views(out@) =~= ps@.map_values(|p: Room| room_text(p, fmt, typ)));
    }
    out
}

/// The tile segments, in order.
fn tile_segments(ps: &Vec<Tile>) -> (r: Vec<String>)
    requires
        forall|k: int| 0 <= k < ps@.len() ==> (#[trigger] ps@[k]).animation_frames@.len() >= 1,
    ensures
        views(r@) == ps@.map_values(|p: Tile| crate::tile::tile_text(p)),
{
    let n = ps.len();
    let mut out: Vec<String> = Vec::new();
    let mut i: usize = 0;
    while i < n
        invariant
            n == ps@.len(),
            i <= n,
            out@.len() == i,
            forall|k: int| 0 <= k < n ==> (#[trigger] ps@[k]).animation_frames@.len() >= 1,
            forall|j: int| 0 <= j < i ==> out@[j]@ == crate::tile::tile_text(ps@[j]),
        decreases n - i,
    {
        out.push(ps[i].to_string());
        i = i + 1;
    }
    proof {
        assert(views(out@) =~= ps@.map_values(|p: Tile| crate::tile::tile_text(p)));
    }
    out
}

/// The sprite segments, in order.
fn sprite_segments(ps: &Vec<Sprite>) -> (r: Vec<String>)
    requires
        forall|k: int| 0 <= k < ps@.len() ==> (#[trigger] ps@[k]).animation_frames@.len() >= 1,
    ensures
        views(r@) == ps@.map_values(|p: Sprite| sprite_text(p)),
{
    let n = ps.len();
    let mut out: Vec<String> = Vec::new();
    let mut i: usize = 0;
    while i < n
        invariant
            n == ps@.len(),
            i <= n,
            out@.len() == i,
            forall|k: int| 0 <= k < n ==> (#[trigger] ps@[k]).animation_frames@.len() >= 1,
            forall|j: int| 0 <= j < i ==> out@[j]@ == sprite_text(ps@[j]),
        decreases n - i,
    {
        out.push(ps[i].to_string());
        i = i + 1;
    }
    proof {
        assert(views(out@) =~= ps@.map_values(|p: Sprite| sprite_text(p)));
    }
    out
}

/// The item segments, in order.
fn item_segments(ps: &Vec<Item>) -> (r: Vec<String>)
    requires
        forall|k: int| 0 <= k < ps@.len() ==> (#[trigger] ps@[k]).animation_frames@.len() >= 1,
    ensures
        views(r@) == ps@.map_values(|p: Item| item_text(p)),
{
    let n = ps.len();
    let mut out: Vec<String> = Vec::new();
    let mut i: usize = 0;
    while i < n
        invariant
            n == ps@.len(),
            i <= n,
            out@.len() == i,
            forall|k: int| 0 <= k < n ==> (#[trigger] ps@[k]).animation_frames@.len() >= 1,
            forall|j: int| 0 <= j < i ==> out@[j]@ == item_text(ps@[j]),
        decreases n - i,
    {
        out.push(ps[i].to_string());
        i = i + 1;
    }
    proof {
        assert(views(out@) =~= ps@.map_values(|p: Item| item_text(p)));
    }
    out
}

/// The dialogue segments, in order, empty quote blocks folded away.
fn dialogue_segments(ps: &Vec<Dialogue>) -> (r: Vec<String>)
    ensures
        views(r@) == ps@.map_values(|p: Dialogue| dialogue_doc_text(p)),
{
    let n = ps.len();
    let mut out: Vec<String> = Vec::new();
    let mut i: usize = 0;
    while i < n
        invariant
            n == ps@.len(),
            i <= n,
            out@.len() == i,
            forall|j: int| 0 <= j < i ==> out@[j]@ == dialogue_doc_text(ps@[j]),
        decreases n - i,
    {
        proof {
            reveal_strlit("\"\"\"\n\"\"\"");
            reveal_strlit("");
            assert(""@ =~= Seq::<char>::empty());
        }
        let raw = ps[i].to_string();
        let folded = crate::strutil::replace_all(raw.as_str(), "\"\"\"\n\"\"\"", "");
        out.push(folded);
        i = i + 1;
    }
    proof {
        assert(views(out@) =~= ps@.map_values(|p: Dialogue| dialogue_doc_text(p)));
    }
    out
}

/// The ending segments, in order.
fn ending_segments(ps: &Vec<Ending>) -> (r: Vec<String>)
    ensures
        views(r@) == ps@.map_values(|p: Ending| ending_text(p)),
{
    let n = ps.len();
    let mut out: Vec<String> = Vec::new();
    let mut i: usize = 0;
    while i < n
        invariant
            n == ps@.len(),
            i <= n,
            out@.len() == i,
            forall|j: int| 0 <= j < i ==> out@[j]@ == ending_text(ps@[j]),
        decreases n - i,
    {
        out.push(ps[i].to_string());
        i = i + 1;
    }
    proof {
        assert(views(out@) =~= ps@.map_values(|p: Ending| ending_text(p)));
    }
    out
}

/// The variable segments, in order.
fn variable_segments(ps: &Vec<Variable>) -> (r: Vec<String>)
    ensures
        views(r@) == ps@.map_values(|p: Variable| variable_text(p)),
{
    let n = ps.len();
    let mut out: Vec<String> = Vec::new();
    let mut i: usize = 0;
    while i < n
        invariant
            n == ps@.len(),
            i <= n,
            out@.len() == i,
            forall|j: int| 0 <= j < i ==> out@[j]@ == variable_text(ps@[j]),
        decreases n - i,
    {
        out.push(ps[i].to_string());
        i = i + 1;
    }
    proof {
        assert(views(out@) =~= ps@.map_values(|p: Variable| variable_text(p)));
    }
    out
}

/// Lexicographic order on character sequences, as identifiers sort.
pub open spec fn lex_lt(a: Seq<char>, b: Seq<char>) -> bool
    decreases a.len(),
{
    if b.len() == 0 {
        false
    } else if a.len() == 0 {
        true
    } else if (a[0] as u32) < (b[0] as u32) {
        true
    } else if a[0] == b[0] {
        lex_lt(a.skip(1), b.skip(1))
    } else {
        false
    }
}

/// The order is total: two sequences compare one way or are equal.
pub proof fn lemma_lex_total(a: Seq<char>, b: Seq<char>)
    ensures
        lex_lt(a, b) || lex_lt(b, a) || a == b,
    decreases a.len(),
{
    if a.len() == 0 || b.len() == 0 {
        if a.len() == 0 && b.len() == 0 {
            assert(a =~= b);
        }
    } else if a[0] == b[0] {
        lemma_lex_total(a.skip(1), b.skip(1));
        if a.skip(1) == b.skip(1) {
            assert(a.skip(1).len() == a.len() - 1);
            assert(b.skip(1).len() == b.len() - 1);
            assert(a.len() == b.len());
            assert forall|i: int| 0 <= i < a.len() implies a[i] == b[i] by {
                if i >= 1 {
                    assert(a.skip(1)[i - 1] == b.skip(1)[i - 1]);
                }
            }
            assert(a =~= b);
        }
    } else {
        if (a[0] as u32) == (b[0] as u32) {
            assert((a[0] as u32) as char == a[0] && (b[0] as u32) as char == b[0]) by {
                vstd::utf8::char_u32_cast(a[0], a[0] as u32);
                vstd::utf8::char_u32_cast(b[0], b[0] as u32);
            }
        }
    }
}

/// The order is strict: nothing compares below itself.
pub proof fn lemma_lex_ne(a: Seq<char>, b: Seq<char>)
    requires
        lex_lt(a, b),
    ensures
        a != b,
    decreases a.len(),
{
    if a.len() > 0 && b.len() > 0 && a[0] == b[0] {
        lemma_lex_ne(a.skip(1), b.skip(1));
        if a == b {
            assert(a.skip(1) =~= b.skip(1));
        }
    }
}

/// The order chains: below and at-most compose to below.
pub proof fn lemma_lex_trans(a: Seq<char>, b: Seq<char>, c: Seq<char>)
    requires
        lex_lt(a, b),
        lex_lt(b, c) || b == c,
    ensures
        lex_lt(a, c),
    decreases a.len() + b.len() + c.len(),
{
    if b == c {
    } else {
        if b.len() == 0 {
        } else if a.len() == 0 {
        } else {
            if a[0] == b[0] && b[0] == c[0] {
                lemma_lex_trans(a.skip(1), b.skip(1), c.skip(1));
            }
        }
    }
}

/// Decides `lex_lt` on strings.
fn lex_less(a: &str, b: &str) -> (r: bool)
    ensures
        r == lex_lt(a@, b@),
{
    let an = a.unicode_len();
    let bn = b.unicode_len();
    let mut i: usize = 0;
    proof {
        assert(a@.skip(0) =~= a@);
        assert(b@.skip(0) =~= b@);
    }
    loop
        invariant
            a@.len() == an,
            b@.len() == bn,
            i <= an,
            i <= bn,
            lex_lt(a@, b@) == lex_lt(a@.skip(i as int), b@.skip(i as int)),
        decreases an - i,
    {
        let ghost ar = a@.skip(i as int);
        let ghost br = b@.skip(i as int);
        if i >= bn {
            proof {
                assert(br.len() == 0);
            }
            return false;
        }
        if i >= an {
            proof {
                assert(ar.len() == 0 && br.len() > 0);
            }
            return true;
        }
        let ca = a.get_char(i);
        let cb = b.get_char(i);
        proof {
            assert(ar[0] == a@[i as int] && br[0] == b@[i as int]);
            assert(ar.skip(1) =~= a@.skip(i as int + 1));
            assert(br.skip(1) =~= b@.skip(i as int + 1));
        }
        if (ca as u32) < (cb as u32) {
            return true;
        }
        if ca != cb {
            return false;
        }
        i = i + 1;
    }
}

impl Game {
    /// The distinct tiles a room's grid uses, by ascending identifier,
    /// the implicit background `0` left out; grid identifiers without a
    /// matching tile contribute nothing, and an unknown room yields
    /// nothing.  Each entry is the earliest tile with its identifier, the
    /// identifiers rise strictly, and every usable grid identifier is
    /// represented.
    #[verifier::rlimit(100)]
    #[verifier::spinoff_prover]
    pub fn get_room_tiles(&self, room_id: &str) -> (r: Vec<&Tile>)
        ensures
            idx_of(room_idv(self.rooms@), room_id@) == -1 ==> r@.len() == 0,
            idx_of(room_idv(self.rooms@), room_id@) >= 0 ==> ({
                let room = self.rooms@[idx_of(room_idv(self.rooms@), room_id@)];
                (forall|k: int|
                    0 <= k < r@.len() ==> idx_of(tile_idv(self.tiles@), (#[trigger] r@[k]).id@)
                        >= 0 && *r@[k] == self.tiles@[idx_of(tile_idv(self.tiles@), r@[k].id@)]
                        && views(room.tiles@).contains(r@[k].id@) && r@[k].id@ != "0"@)
                    && (forall|gi: int|
                    0 <= gi < room.tiles@.len() ==> (((#[trigger] room.tiles@[gi])@ != "0"@
                        && idx_of(tile_idv(self.tiles@), room.tiles@[gi]@) >= 0) ==> (exists|
                        k: int,
                    |
                        0 <= k < r@.len() && (#[trigger] r@[k]).id@ == room.tiles@[gi]@)))
            }),
            forall|k: int, l: int| 0 <= k < l < r@.len() ==> lex_lt(r@[k].id@, r@[l].id@),
            forall|k: int, l: int| 0 <= k < l < r@.len() ==> r@[k].id@ != r@[l].id@,
    {
        proof {
            reveal_strlit("0");
            lemma_idx_of(room_idv(self.rooms@), room_id@);
        }
        let ids = self.room_ids();
        let ridx = match find_idx(&ids, room_id) {
            Some(i) => i,
            None => {
                let out: Vec<&Tile> = Vec::new();
                return out;
            },
        };
        let room = &self.rooms[ridx];
        let mut working = crate::copy::copy_strings(&room.tiles);
        let ghost gridv = views(room.tiles@);
        proof {
            assert forall|w: int| 0 <= w < working@.len() implies gridv.contains(
                #[trigger] working@[w]@,
            ) by {
                assert(views(working@)[w] == gridv[w]);
            }
            assert forall|x: Seq<char>| gridv.contains(x) implies views(working@).contains(
                x,
            ) by {
                let gi = choose|gi: int| 0 <= gi < gridv.len() && gridv[gi] == x;
                assert(views(working@)[gi] == x);
            }
        }
        let mut sorted: Vec<String> = Vec::new();
        while working.len() > 0
            invariant
                gridv == views(self.rooms@[ridx as int].tiles@),
                forall|w: int| 0 <= w < working@.len() ==> gridv.contains(#[trigger] working@[w]@),
                forall|k: int| 0 <= k < sorted@.len() ==> gridv.contains(#[trigger] sorted@[k]@),
                forall|k: int, l: int|
                    0 <= k < l < sorted@.len() ==> lex_lt(sorted@[k]@, sorted@[l]@),
                forall|k: int, w: int|
                    0 <= k < sorted@.len() && 0 <= w < working@.len() ==> (lex_lt(
                        sorted@[k]@,
                        working@[w]@,
                    ) || sorted@[k]@ == working@[w]@),
                forall|x: Seq<char>|
                    gridv.contains(x) ==> views(sorted@).contains(x) || views(
                        working@,
                    ).contains(x),
            decreases working@.len(),
        {
            // find the least remaining identifier
            let wn = working.len();
            let mut best: usize = 0;
            let mut w: usize = 1;
            while w < wn
                invariant
                    wn == working@.len(),
                    wn > 0,
                    1 <= w <= wn,
                    best < wn,
                    forall|q: int|
                        0 <= q < w ==> (lex_lt(working@[best as int]@, #[trigger] working@[q]@)
                            || working@[best as int]@ == working@[q]@),
                decreases wn - w,
            {
                let ghost ob = best as int;
                proof {
                    lemma_lex_total(working@[w as int]@, working@[best as int]@);
                }
                if lex_less(working[w].as_str(), working[best].as_str()) {
                    best = w;
                    proof {
                        assert forall|q: int| 0 <= q < w + 1 implies (lex_lt(
                            working@[best as int]@,
                            #[trigger] working@[q]@,
                        ) || working@[best as int]@ == working@[q]@) by {
                            if q < w {
                                lemma_lex_trans(
                                    working@[w as int]@,
                                    working@[ob]@,
                                    working@[q]@,
                                );
                            }
                        }
                    }
                } else {
                    proof {
                        lemma_lex_total(working@[best as int]@, working@[w as int]@);
                    }
                }
                w = w + 1;
            }
            let ghost wpre = views(working@);
            let ghost spre = views(sorted@);
            let ghost bestg = best as int;
            let m = working.remove(best);
            proof {
                assert forall|x: Seq<char>| wpre.contains(x) implies views(
                    working@,
                ).contains(x) || x == m@ by {
                    let q = choose|q: int| 0 <= q < wpre.len() && wpre[q] == x;
                    if q != bestg {
                        if q < bestg {
                            assert(working@[q]@ == wpre[q]);
                            assert(views(working@)[q] == x);
                        } else {
                            assert(working@[q - 1]@ == wpre[q]);
                            assert(views(working@)[q - 1] == x);
                        }
                    }
                }
            }
            let keep = if sorted.len() > 0 {
                !crate::strutil::str_eq(sorted[sorted.len() - 1].as_str(), m.as_str())
            } else {
                true
            };
            if keep {
                proof {
                    let sn = sorted@.len();
                    if sn > 0 {
                        lemma_lex_total(sorted@[sn - 1]@, m@);
                        assert forall|k: int| 0 <= k < sn implies lex_lt(sorted@[k]@, m@) by {
                            if k < sn - 1 {
                                lemma_lex_trans(sorted@[k]@, sorted@[sn - 1]@, m@);
                            }
                        }
                    }
                }
                sorted.push(m);
                proof {
                    assert(views(sorted@) =~= spre.push(wpre[bestg]));
                    assert forall|x: Seq<char>| gridv.contains(x) implies views(
                        sorted@,
                    ).contains(x) || views(working@).contains(x) by {
                        if spre.contains(x) {
                            let q = choose|q: int| 0 <= q < spre.len() && spre[q] == x;
                            assert(views(sorted@)[q] == x);
                        } else if wpre.contains(x) {
                            if x == wpre[bestg] {
                                assert(views(sorted@)[spre.len() as int] == x);
                            }
                        }
                    }
                }
            } else {
                proof {
                    // the dropped identifier already heads the sorted list
                    assert(views(sorted@)[spre.len() - 1] == m@);
                    assert forall|x: Seq<char>| gridv.contains(x) implies views(
                        sorted@,
                    ).contains(x) || views(working@).contains(x) by {
                        if !spre.contains(x) && wpre.contains(x) && x == m@ {
                            assert(views(sorted@)[spre.len() - 1] == x);
                        }
                    }
                }
            }
        }
        proof {
            assert forall|x: Seq<char>| gridv.contains(x) implies views(sorted@).contains(
                x,
            ) by {
                if views(working@).contains(x) {
                    let q = choose|q: int| 0 <= q < working@.len() && views(working@)[q] == x;
                }
            }
        }
        // collect the matching tiles, leaving the reserved `0` out
        let mut out: Vec<&Tile> = Vec::new();
        let sn = sorted.len();
        let mut k: usize = 0;
        while k < sn
            invariant
                sn == sorted@.len(),
                k <= sn,
                gridv == views(self.rooms@[ridx as int].tiles@),
                forall|q: int| 0 <= q < sn ==> gridv.contains(#[trigger] sorted@[q]@),
                forall|q: int, l: int|
                    0 <= q < l < sn ==> lex_lt(sorted@[q]@, sorted@[l]@),
                forall|q: int|
                    0 <= q < out@.len() ==> idx_of(tile_idv(self.tiles@), (#[trigger] out@[q]).id@)
                        >= 0 && *out@[q] == self.tiles@[idx_of(
                        tile_idv(self.tiles@),
                        out@[q].id@,
                    )] && gridv.contains(out@[q].id@) && out@[q].id@ != "0"@,
                forall|q: int, l: int| 0 <= q < l < out@.len() ==> lex_lt(out@[q].id@, out@[l].id@),
                forall|q: int|
                    0 <= q < out@.len() ==> exists|s: int|
                        0 <= s < k && sorted@[s]@ == (#[trigger] out@[q]).id@,
                forall|q: int|
                    0 <= q < k ==> ((#[trigger] sorted@[q])@ == "0"@ || idx_of(
                        tile_idv(self.tiles@),
                        sorted@[q]@,
                    ) == -1 || (exists|p: int|
                        0 <= p < out@.len() && (#[trigger] out@[p]).id@ == sorted@[q]@)),
            decreases sn - k,
        {
            let id = &sorted[k];
            let ghost outpre0 = out@;
            if !crate::strutil::str_eq(id.as_str(), "0") {
                proof {
                    lemma_idx_of(tile_idv(self.tiles@), sorted@[k as int]@);
                }
                let tids = self.tile_ids();
                proof {
                    assert(views(tids@) == tile_idv(self.tiles@));
                }
                match find_idx(&tids, id.as_str()) {
                    Some(j) => {
                        let ghost outpre = out@;
                        proof {
                            assert(id@ == sorted@[k as int]@);
                            let tidv = tile_idv(self.tiles@);
                            assert(tidv[j as int] == id@);
                            let ix = idx_of(tidv, id@);
                            if ix < j {
                                assert(tidv[ix] == id@);
                                assert(tidv[ix] != id@);
                            }
                            if ix > j {
                                assert(tidv[j as int] != id@);
                            }
                            assert(j as int == ix);
                        }
                        out.push(&self.tiles[j]);
                        proof {
                            assert(j as int == idx_of(
                                tile_idv(self.tiles@),
                                sorted@[k as int]@,
                            ));
                            assert(tile_idv(self.tiles@)[j as int] == sorted@[k as int]@);
                            assert(tile_idv(self.tiles@)[j as int] == self.tiles@[j as int].id@);
                            assert(*out@[out@.len() - 1] == self.tiles@[j as int]);
                            assert(out@[out@.len() - 1].id@ == sorted@[k as int]@);
                            assert forall|q: int, l: int|
                                0 <= q < l < out@.len() implies lex_lt(
                                out@[q].id@,
                                out@[l].id@,
                            ) by {
                                if l == out@.len() - 1 {
                                    // the new identifier is the largest so far
                                    let ex = choose|s: int|
                                        0 <= s < k && sorted@[s]@ == outpre[q].id@;
                                    assert(lex_lt(sorted@[ex]@, sorted@[k as int]@));
                                }
                            }
                            assert forall|q: int| 0 <= q < k + 1 implies ((
                            #[trigger] sorted@[q])@ == "0"@ || idx_of(
                                tile_idv(self.tiles@),
                                sorted@[q]@,
                            ) == -1 || (exists|p: int|
                                0 <= p < out@.len() && (#[trigger] out@[p]).id@
                                    == sorted@[q]@)) by {
                                if q == k {
                                    assert(out@[out@.len() - 1].id@ == sorted@[q]@);
                                } else {
                                    if sorted@[q]@ != "0"@ && idx_of(
                                        tile_idv(self.tiles@),
                                        sorted@[q]@,
                                    ) >= 0 {
                                        let p = choose|p: int|
                                            0 <= p < outpre.len() && (#[trigger] outpre[p]).id@
                                                == sorted@[q]@;
                                        assert(out@[p].id@ == sorted@[q]@);
                                    }
                                }
                            }
                        }
                    },
                    None => {},
                }
            }
            k = k + 1;
        }
        proof {
            assert forall|q: int, l: int| 0 <= q < l < out@.len() implies out@[q].id@
                != out@[l].id@ by {
                lemma_lex_ne(out@[q].id@, out@[l].id@);
            }
            // every usable grid identifier made it into the result
            let room = self.rooms@[idx_of(room_idv(self.rooms@), room_id@)];
            assert forall|gi: int| 0 <= gi < room.tiles@.len() implies (((
            #[trigger] room.tiles@[gi])@ != "0"@ && idx_of(
                tile_idv(self.tiles@),
                room.tiles@[gi]@,
            ) >= 0) ==> (exists|k2: int|
                0 <= k2 < out@.len() && (#[trigger] out@[k2]).id@ == room.tiles@[gi]@)) by {
                let x = room.tiles@[gi]@;
                if x != "0"@ && idx_of(tile_idv(self.tiles@), x) >= 0 {
                    assert(gridv[gi] == x);
                    assert(gridv.contains(x));
                    let s = choose|s: int| 0 <= s < sorted@.len() && views(sorted@)[s] == x;
                    assert(sorted@[s]@ == x);
                    let p = choose|p: int|
                        0 <= p < out@.len() && (#[trigger] out@[p]).id@ == sorted@[s]@;
                    assert(out@[p].id@ == x);
                }
            }
        }
        out
    }
}

/// Do two animations agree pixel for pixel?
fn frames_equal(a: &Vec<crate::image::Image>, b: &Vec<crate::image::Image>) -> (r: bool)
    ensures
        r == (a@.map_values(|im: crate::image::Image| im.pixels@) == b@.map_values(
            |im: crate::image::Image| im.pixels@,
        )),
{
    let n = a.len();
    if n != b.len() {
        proof {
            assert(a@.map_values(|im: crate::image::Image| im.pixels@).len() == a@.len());
            assert(b@.map_values(|im: crate::image::Image| im.pixels@).len() == b@.len());
        }
        return false;
    }
    let mut i: usize = 0;
    while i < n
        invariant
            n == a@.len(),
            n == b@.len(),
            i <= n,
            forall|j: int| 0 <= j < i ==> a@[j].pixels@ == b@[j].pixels@,
        decreases n - i,
    {
        if !(a[i] == b[i]) {
            proof {
                let ma = a@.map_values(|im: crate::image::Image| im.pixels@);
                let mb = b@.map_values(|im: crate::image::Image| im.pixels@);
                if ma == mb {
                    assert(ma[i as int] == mb[i as int]);
                }
            }
            return false;
        }
        i = i + 1;
    }
    proof {
        assert(a@.map_values(|im: crate::image::Image| im.pixels@) =~= b@.map_values(
            |im: crate::image::Image| im.pixels@,
        ));
    }
    true
}

impl Version {
    /// Decodes `major.minor`, both 8-bit decimal numerals.
    pub fn new(s: &str) -> (r: Result<Version, VersionError>)
        ensures
            ({
                let ps = split_on(s@, '.');
                if ps.len() < 2 {
                    r == Err::<Version, VersionError>(VersionError::MissingParts)
                } else if ps.len() > 2 {
                    r == Err::<Version, VersionError>(VersionError::ExtraneousParts)
                } else if uint_shape(ps[0]) && uint_val(ps[0]) <= 255 && uint_shape(ps[1])
                    && uint_val(ps[1]) <= 255 {
                    r == Ok::<Version, VersionError>(
                        Version { major: uint_val(ps[0]) as u8, minor: uint_val(ps[1]) as u8 },
                    )
                } else {
                    r == Err::<Version, VersionError>(VersionError::MalformedInteger)
                }
            }),
    {
        let parts = crate::strutil::split_char(s, '.');
        if parts.len() < 2 {
            return Err(VersionError::MissingParts);
        }
        if parts.len() > 2 {
            return Err(VersionError::ExtraneousParts);
        }
        proof {
            assert(views(parts@)[0] == split_on(s@, '.')[0]);
            assert(views(parts@)[1] == split_on(s@, '.')[1]);
        }
        let major = crate::numstr::parse_u8(parts[0].as_str());
        let minor = crate::numstr::parse_u8(parts[1].as_str());
        if let (Some(major), Some(minor)) = (major, minor) {
            Ok(Version { major, minor })
        } else {
            Err(VersionError::MalformedInteger)
        }
    }
}

} // verus!
