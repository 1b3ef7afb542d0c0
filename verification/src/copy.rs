//! Deep copies of the entity types with their contents pinned down, for
//! the merge and dedupe engines to duplicate entities across documents.

use crate::colour::Colour;
use crate::dialogue::Dialogue;
use crate::ending::Ending;
use crate::image::Image;
use crate::item::Item;
use crate::palette::Palette;
use crate::sprite::Sprite;
use crate::strutil::views;
use crate::tile::Tile;
use crate::variable::Variable;
use vstd::prelude::*;

verus! {

/// A copy of an optional string, view for view.
pub fn copy_opt_string(s: &Option<String>) -> (r: Option<String>)
    ensures
        match s {
            Some(v) => r matches Some(w) && w@ == v@,
            None => r is None,
        },
{
    match s {
        Some(v) => Some(v.clone()),
        None => None,
    }
}

/// A copy of a string list, views for views.
pub fn copy_strings(s: &Vec<String>) -> (r: Vec<String>)
    ensures
        views(r@) == views(s@),
{
    let n = s.len();
    let mut out: Vec<String> = Vec::new();
    let mut i: usize = 0;
    while i < n
        invariant
            n == s@.len(),
            i <= n,
            out@.len() == i,
            forall|j: int| 0 <= j < i ==> out@[j]@ == s@[j]@,
        decreases n - i,
    {
        out.push(s[i].clone());
        i = i + 1;
    }
    proof {
        assert(views(out@) =~= views(s@));
    }
    out
}

/// A copy of an image, pixel for pixel.
pub fn copy_image(im: &Image) -> (r: Image)
    ensures
        r.pixels@ == im.pixels@,
{
    let n = im.pixels.len();
    let mut pixels: Vec<u8> = Vec::new();
    let mut i: usize = 0;
    while i < n
        invariant
            n == im.pixels@.len(),
            i <= n,
            pixels@.len() == i,
            forall|j: int| 0 <= j < i ==> pixels@[j] == im.pixels@[j],
        decreases n - i,
    {
        pixels.push(im.pixels[i]);
        i = i + 1;
    }
    proof {
        assert(pixels@ =~= im.pixels@);
    }
    Image { pixels }
}

/// A copy of an animation, frame for frame.
pub fn copy_frames(fs: &Vec<Image>) -> (r: Vec<Image>)
    ensures
        r@.map_values(|im: Image| im.pixels@) == fs@.map_values(|im: Image| im.pixels@),
        r@.len() == fs@.len(),
{
    let n = fs.len();
    let mut out: Vec<Image> = Vec::new();
    let mut i: usize = 0;
    while i < n
        invariant
            n == fs@.len(),
            i <= n,
            out@.len() == i,
            forall|j: int| 0 <= j < i ==> (#[trigger] out@[j]).pixels@ == fs@[j].pixels@,
        decreases n - i,
    {
        out.push(copy_image(&fs[i]));
        i = i + 1;
    }
    proof {
        assert(out@.map_values(|im: Image| im.pixels@) =~= fs@.map_values(
            |im: Image| im.pixels@,
        ));
    }
    out
}

/// Do two optional strings agree, view for view?
pub open spec fn opt_str_like(a: Option<String>, b: Option<String>) -> bool {
    match a {
        Some(v) => b matches Some(w) && v@ == w@,
        None => b is None,
    }
}

/// A copy of a tile, the identifier replaced.
pub fn copy_tile_with_id(t: &Tile, id: String) -> (r: Tile)
    ensures
        r.id == id,
        opt_str_like(r.name, t.name),
        r.wall == t.wall,
        r.colour_id == t.colour_id,
        r.animation_frames@.map_values(|im: Image| im.pixels@) == t.animation_frames@.map_values(
            |im: Image| im.pixels@,
        ),
        r.animation_frames@.len() == t.animation_frames@.len(),
        crate::tile::tiles_alike(r, *t),
{
    Tile {
        id,
        name: copy_opt_string(&t.name),
        wall: t.wall,
        animation_frames: copy_frames(&t.animation_frames),
        colour_id: t.colour_id,
    }
}

/// A copy of a palette, the identifier replaced.
pub fn copy_palette_with_id(p: &Palette, id: String) -> (r: Palette)
    ensures
        r.id == id,
        opt_str_like(r.name, p.name),
        r.colours@ == p.colours@,
{
    let n = p.colours.len();
    let mut colours: Vec<Colour> = Vec::new();
    let mut i: usize = 0;
    while i < n
        invariant
            n == p.colours@.len(),
            i <= n,
            colours@.len() == i,
            forall|j: int| 0 <= j < i ==> colours@[j] == p.colours@[j],
        decreases n - i,
    {
        colours.push(p.colours[i]);
        i = i + 1;
    }
    proof {
        assert(colours@ =~= p.colours@);
    }
    Palette { id, name: copy_opt_string(&p.name), colours }
}

/// A copy of a dialogue, identifier and contents replaced.
pub fn copy_dialogue_with(d: &Dialogue, id: String, contents: String) -> (r: Dialogue)
    ensures
        r.id == id,
        r.contents == contents,
        opt_str_like(r.name, d.name),
{
    Dialogue { id, contents, name: copy_opt_string(&d.name) }
}

/// A copy of an ending, the identifier replaced.
pub fn copy_ending_with_id(e: &Ending, id: String) -> (r: Ending)
    ensures
        r.id == id,
        r.dialogue@ == e.dialogue@,
{
    Ending { id, dialogue: e.dialogue.clone() }
}

/// A copy of a variable.
pub fn copy_variable(v: &Variable) -> (r: Variable)
    ensures
        r.id@ == v.id@,
        r.initial_value@ == v.initial_value@,
{
    Variable { id: v.id.clone(), initial_value: v.initial_value.clone() }
}

/// A copy of an item, identifier and dialogue reference replaced.
pub fn copy_item_with(t: &Item, id: String, dialogue_id: Option<String>) -> (r: Item)
    ensures
        r.id == id,
        r.dialogue_id == dialogue_id,
        opt_str_like(r.name, t.name),
        r.colour_id == t.colour_id,
        r.animation_frames@.map_values(|im: Image| im.pixels@) == t.animation_frames@.map_values(
            |im: Image| im.pixels@,
        ),
        r.animation_frames@.len() == t.animation_frames@.len(),
{
    Item {
        id,
        animation_frames: copy_frames(&t.animation_frames),
        name: copy_opt_string(&t.name),
        dialogue_id,
        colour_id: t.colour_id,
    }
}

/// A copy of a sprite, identifier, dialogue and room references replaced.
pub fn copy_sprite_with(
    t: &Sprite,
    id: String,
    dialogue_id: Option<String>,
    room_id: Option<String>,
) -> (r: Sprite)
    ensures
        r.id == id,
        r.dialogue_id == dialogue_id,
        r.room_id == room_id,
        opt_str_like(r.name, t.name),
        r.position == t.position,
        r.colour_id == t.colour_id,
        views(r.items@) == views(t.items@),
        r.animation_frames@.map_values(|im: Image| im.pixels@) == t.animation_frames@.map_values(
            |im: Image| im.pixels@,
        ),
        r.animation_frames@.len() == t.animation_frames@.len(),
{
    Sprite {
        id,
        name: copy_opt_string(&t.name),
        animation_frames: copy_frames(&t.animation_frames),
        dialogue_id,
        room_id,
        position: t.position,
        colour_id: t.colour_id,
        items: copy_strings(&t.items),
    }
}

} // verus!
