//! The merge engine: unions a source document's entities into a target,
//! renaming identifiers that would collide and rewriting every
//! cross-reference through per-kind remap tables, in dependency order.

use crate::copy::{
    copy_dialogue_with, copy_ending_with_id, copy_item_with, copy_opt_string,
    copy_palette_with_id, copy_sprite_with, copy_tile_with_id, copy_variable,
};
use crate::game::{
    dialogue_idv, ending_idv, item_idv, palette_idv, room_idv, sprite_idv, tile_idv,
    variable_idv, Game,
};
use crate::ids::{alloc_id, is_id_available, lemma_b36_lowercase, try_id};
use crate::instance::{ExitInstance, Instance};
use crate::exit::Exit;
use crate::dialogue::Dialogue;
use crate::ending::Ending;
use crate::item::Item;
use crate::palette::Palette;
use crate::room::Room;
use crate::sprite::Sprite;
use crate::strutil::{replace_spec, str_eq, views};
use vstd::prelude::*;

verus! {

/// Are the identifiers pairwise distinct?
pub open spec fn distinct_ids(ids: Seq<Seq<char>>) -> bool {
    forall|i: int, j: int| 0 <= i < j < ids.len() ==> ids[i] != ids[j]
}

/// How many identifiers equal `id`.
pub open spec fn count_id(ids: Seq<Seq<char>>, id: Seq<char>) -> nat
    decreases ids.len(),
{
    if ids.len() == 0 {
        0
    } else {
        (if ids[0] == id {
            1nat
        } else {
            0nat
        }) + count_id(ids.skip(1), id)
    }
}

/// Appending a fresh identifier keeps a list pairwise distinct.
pub proof fn lemma_distinct_push(ids: Seq<Seq<char>>, x: Seq<char>)
    requires
        distinct_ids(ids),
        !ids.contains(x),
    ensures
        distinct_ids(ids.push(x)),
{
    assert forall|i: int, j: int| 0 <= i < j < ids.push(x).len() implies ids.push(x)[i]
        != ids.push(x)[j] by {
        if j == ids.len() {
            if ids.push(x)[i] == x {
                assert(ids[i] == x);
                assert(ids.contains(x));
            }
        }
    }
}

/// A fresh identifier list stays clear of `y` when `x` differs from it.
pub proof fn lemma_absent_push(ids: Seq<Seq<char>>, x: Seq<char>, y: Seq<char>)
    requires
        !ids.contains(y),
        x != y,
    ensures
        !ids.push(x).contains(y),
{
    if ids.push(x).contains(y) {
        let j = choose|j: int| 0 <= j < ids.push(x).len() && ids.push(x)[j] == y;
        if j < ids.len() {
            assert(ids[j] == y);
        }
    }
}

/// Appending changes a count by one exactly for the matching identifier.
pub proof fn lemma_count_push(ids: Seq<Seq<char>>, x: Seq<char>, id: Seq<char>)
    ensures
        count_id(ids.push(x), id) == count_id(ids, id) + (if x == id {
            1nat
        } else {
            0nat
        }),
    decreases ids.len(),
{
    if ids.len() == 0 {
        assert(ids.push(x).skip(1) =~= Seq::<Seq<char>>::empty());
        assert(ids.push(x)[0] == x);
        assert(count_id(ids, id) == 0);
        assert(count_id(ids.push(x).skip(1), id) == 0);
    } else {
        assert(ids.push(x).skip(1) =~= ids.skip(1).push(x));
        lemma_count_push(ids.skip(1), x, id);
    }
}

/// The allocator never writes the avatar's identifier: its numerals are
/// digits and lowercase letters.
pub proof fn lemma_alloc_not_avatar(ids: Seq<Seq<char>>)
    ensures
        alloc_id(ids) != "A"@,
{
    reveal_strlit("A");
    let k = crate::ids::alloc_index(ids);
    lemma_b36_lowercase(k);
    crate::ids::lemma_b36_len(k);
    if alloc_id(ids) == "A"@ {
        assert(crate::numstr::b36_str(k)[0] == 'A');
        assert('A' as u32 == 65);
    }
}

/// The first remap entry for `id`, when one exists.
pub open spec fn remap_of(m: Seq<(Seq<char>, Seq<char>)>, id: Seq<char>) -> Option<Seq<char>>
    decreases m.len(),
{
    if m.len() == 0 {
        None
    } else if m[0].0 == id {
        Some(m[0].1)
    } else {
        remap_of(m.skip(1), id)
    }
}

/// The identifier a reference lands on after remapping: its entry's
/// replacement, or itself when nothing renamed it.
pub open spec fn resolve(m: Seq<(Seq<char>, Seq<char>)>, id: Seq<char>) -> Seq<char> {
    match remap_of(m, id) {
        Some(v) => v,
        None => id,
    }
}

/// A longer list still holds everything a prefix of it held.
pub proof fn lemma_contains_grows(a: Seq<Seq<char>>, b: Seq<Seq<char>>, x: Seq<char>)
    requires
        a.len() <= b.len(),
        forall|j: int| 0 <= j < a.len() ==> b[j] == a[j],
        a.contains(x),
    ensures
        b.contains(x),
{
    let j = choose|j: int| 0 <= j < a.len() && a[j] == x;
    assert(b[j] == x);
}

/// Appending an entry only decides lookups the table left open.
pub proof fn lemma_remap_push(m: Seq<(Seq<char>, Seq<char>)>, e: (Seq<char>, Seq<char>), x: Seq<char>)
    ensures
        remap_of(m.push(e), x) == (match remap_of(m, x) {
            Some(v) => Some(v),
            None => (if e.0 == x {
                Some(e.1)
            } else {
                None
            }),
        }),
    decreases m.len(),
{
    if m.len() == 0 {
        assert(m.push(e)[0] == e);
        assert(m.push(e).skip(1) =~= Seq::<(Seq<char>, Seq<char>)>::empty());
        assert(remap_of(m, x) == None::<Seq<char>>);
        if e.0 == x {
            assert(remap_of(m.push(e), x) == Some(e.1));
        } else {
            assert(remap_of(m.push(e).skip(1), x) == None::<Seq<char>>);
            assert(remap_of(m.push(e), x) == None::<Seq<char>>);
        }
    } else {
        assert(m.push(e)[0] == m[0]);
        assert(m.push(e).skip(1) =~= m.skip(1).push(e));
        lemma_remap_push(m.skip(1), e, x);
        if m[0].0 == x {
            assert(remap_of(m.push(e), x) == Some(m[0].1));
            assert(remap_of(m, x) == Some(m[0].1));
        } else {
            assert(remap_of(m.push(e), x) == remap_of(m.skip(1).push(e), x));
            assert(remap_of(m, x) == remap_of(m.skip(1), x));
        }
    }
}

/// A successful lookup yields some entry's replacement.
pub proof fn lemma_remap_entry(m: Seq<(Seq<char>, Seq<char>)>, x: Seq<char>)
    ensures
        match remap_of(m, x) {
            Some(v) => exists|e: int| 0 <= e < m.len() && (#[trigger] m[e]).1 == v,
            None => true,
        },
    decreases m.len(),
{
    if m.len() > 0 {
        if m[0].0 == x {
            assert(m[0].1 == remap_of(m, x)->Some_0);
        } else {
            lemma_remap_entry(m.skip(1), x);
            match remap_of(m.skip(1), x) {
                Some(v) => {
                    let e = choose|e: int| 0 <= e < m.skip(1).len() && m.skip(1)[e].1 == v;
                    assert(m[e + 1].1 == v);
                },
                None => {},
            }
        }
    }
}

/// A table holding an entry for `x` answers the lookup.
pub proof fn lemma_remap_hit(m: Seq<(Seq<char>, Seq<char>)>, x: Seq<char>, j: int)
    requires
        0 <= j < m.len(),
        m[j].0 == x,
    ensures
        remap_of(m, x) is Some,
    decreases m.len(),
{
    if m.len() > 0 && m[0].0 != x {
        assert(m.skip(1)[j - 1] == m[j]);
        lemma_remap_hit(m.skip(1), x, j - 1);
    }
}

/// The views of a remap table.
pub open spec fn remap_view(m: Seq<(String, String)>) -> Seq<(Seq<char>, Seq<char>)> {
    m.map_values(|p: (String, String)| (p.0@, p.1@))
}

/// Looks an identifier up in a remap table; the earliest entry wins.
pub fn remap_lookup(m: &Vec<(String, String)>, id: &str) -> (r: Option<String>)
    ensures
        match remap_of(remap_view(m@), id@) {
            Some(v) => r matches Some(w) && w@ == v,
            None => r is None,
        },
{
    let n = m.len();
    let ghost mv = remap_view(m@);
    let mut i: usize = 0;
    proof {
        assert(mv.skip(0) =~= mv);
    }
    while i < n
        invariant
            mv == remap_view(m@),
            n == mv.len(),
            i <= n,
            remap_of(mv, id@) == remap_of(mv.skip(i as int), id@),
        decreases n - i,
    {
        proof {
            assert(mv.skip(i as int)[0] == mv[i as int]);
            assert(mv.skip(i as int).skip(1) =~= mv.skip(i as int + 1));
        }
        if str_eq(m[i].0.as_str(), id) {
            return Some(m[i].1.clone());
        }
        i = i + 1;
    }
    proof {
        assert(mv.skip(n as int).len() == 0);
    }
    None
}

/// The identifier a reference maps to: the remapped one, or itself.
fn remap_or_same(m: &Vec<(String, String)>, id: &String) -> (r: String)
    ensures
        r@ == (match remap_of(remap_view(m@), id@) {
            Some(v) => v,
            None => id@,
        }),
{
    match remap_lookup(m, id.as_str()) {
        Some(v) => v,
        None => id.clone(),
    }
}

/// An optional reference remapped the same way.
fn remap_opt(m: &Vec<(String, String)>, id: &Option<String>) -> (r: Option<String>)
    ensures
        match id {
            Some(v) => r matches Some(w) && w@ == (match remap_of(remap_view(m@), v@) {
                Some(x) => x,
                None => v@,
            }),
            None => r is None,
        },
{
    match id {
        Some(v) => Some(remap_or_same(m, v)),
        None => None,
    }
}

/// Every reference one room holds lands in the document's collections;
/// a grid square may also use the implicit background `0`.
pub open spec fn room_refs_ok(r: Room, g: Game) -> bool {
    &&& (match r.palette_id {
        Some(p) => palette_idv(g.palettes@).contains(p@),
        None => true,
    })
    &&& (forall|gi: int|
        0 <= gi < r.tiles@.len() ==> ((#[trigger] r.tiles@[gi])@ == "0"@ || tile_idv(
            g.tiles@,
        ).contains(r.tiles@[gi]@)))
    &&& (forall|k: int|
        0 <= k < r.items@.len() ==> item_idv(g.items@).contains((#[trigger] r.items@[k]).id@))
    &&& (forall|k: int|
        0 <= k < r.exits@.len() ==> room_idv(g.rooms@).contains(
            (#[trigger] r.exits@[k]).exit.room_id@,
        ) && (match r.exits@[k].dialogue_id {
            Some(d) => dialogue_idv(g.dialogues@).contains(d@),
            None => true,
        }))
    &&& (forall|k: int|
        0 <= k < r.endings@.len() ==> ending_idv(g.endings@).contains(
            (#[trigger] r.endings@[k]).id@,
        ))
}

/// Every cross-reference the document holds resolves: items to dialogues,
/// sprites to rooms and dialogues, and each room's palette, grid,
/// placements and exits to their collections.
pub open spec fn refs_ok(g: Game) -> bool {
    &&& (forall|j: int|
        0 <= j < g.items@.len() ==> (match (#[trigger] g.items@[j]).dialogue_id {
            Some(d) => dialogue_idv(g.dialogues@).contains(d@),
            None => true,
        }))
    &&& (forall|j: int|
        0 <= j < g.sprites@.len() ==> (match (#[trigger] g.sprites@[j]).dialogue_id {
            Some(d) => dialogue_idv(g.dialogues@).contains(d@),
            None => true,
        }))
    &&& (forall|j: int|
        0 <= j < g.sprites@.len() ==> (match (#[trigger] g.sprites@[j]).room_id {
            Some(r) => room_idv(g.rooms@).contains(r@),
            None => true,
        }))
    &&& (forall|j: int| 0 <= j < g.rooms@.len() ==> room_refs_ok(#[trigger] g.rooms@[j], g))
}

/// The textual pattern a dialogue body uses to name an item.
pub open spec fn item_pat(x: Seq<char>) -> Seq<char> {
    "item \""@ + x + "\""@
}

/// A dialogue body after the item renames of the remap table are applied
/// in order; entries that rename nothing change nothing.
pub open spec fn rewrite_items_spec(
    c: Seq<char>,
    m: Seq<(Seq<char>, Seq<char>)>,
    k: int,
) -> Seq<char>
    decreases m.len() - k,
{
    if k >= m.len() {
        c
    } else {
        let c2 = if m[k].0 == m[k].1 {
            c
        } else {
            replace_spec(c, item_pat(m[k].0), item_pat(m[k].1))
        };
        rewrite_items_spec(c2, m, k + 1)
    }
}

/// The per-kind remap tables one merge builds, as the merged document's
/// contract exposes them.
pub struct MergeMaps {
    pub pal: Seq<(Seq<char>, Seq<char>)>,
    pub tile: Seq<(Seq<char>, Seq<char>)>,
    pub item: Seq<(Seq<char>, Seq<char>)>,
    pub dlg: Seq<(Seq<char>, Seq<char>)>,
    pub end: Seq<(Seq<char>, Seq<char>)>,
    pub room: Seq<(Seq<char>, Seq<char>)>,
}

/// An appended palette carries its source's name and colours.
pub open spec fn palette_carried(a: Palette, s: Palette) -> bool {
    crate::copy::opt_str_like(a.name, s.name) && a.colours@ == s.colours@
}

/// An appended ending carries its source's text.
pub open spec fn ending_carried(a: Ending, s: Ending) -> bool {
    a.dialogue@ == s.dialogue@
}

/// An appended dialogue carries its source's name, its body rewritten to
/// the precomputed item identifiers.
pub open spec fn dialogue_carried(
    a: Dialogue,
    s: Dialogue,
    item_map: Seq<(Seq<char>, Seq<char>)>,
) -> bool {
    crate::copy::opt_str_like(a.name, s.name) && a.contents@ == rewrite_items_spec(
        s.contents@,
        item_map,
        0,
    )
}

/// An appended item carries its source's fields under its precomputed
/// identifier, the dialogue reference resolved.
pub open spec fn item_carried(
    a: Item,
    s: Item,
    new_id: Seq<char>,
    dlg_map: Seq<(Seq<char>, Seq<char>)>,
) -> bool {
    &&& a.id@ == new_id
    &&& crate::copy::opt_str_like(a.name, s.name)
    &&& a.colour_id == s.colour_id
    &&& a.animation_frames@.map_values(|im: crate::image::Image| im.pixels@)
        == s.animation_frames@.map_values(|im: crate::image::Image| im.pixels@)
    &&& (match s.dialogue_id {
        Some(d) => (a.dialogue_id matches Some(w) && w@ == resolve(dlg_map, d@)),
        None => a.dialogue_id is None,
    })
}

/// An appended sprite carries its source's fields under an ordinary
/// identifier, the dialogue and room references resolved.
pub open spec fn sprite_carried(
    a: Sprite,
    s: Sprite,
    dlg_map: Seq<(Seq<char>, Seq<char>)>,
    room_map: Seq<(Seq<char>, Seq<char>)>,
) -> bool {
    &&& a.id@ != "A"@
    &&& crate::copy::opt_str_like(a.name, s.name)
    &&& a.position == s.position
    &&& a.colour_id == s.colour_id
    &&& views(a.items@) == views(s.items@)
    &&& a.animation_frames@.map_values(|im: crate::image::Image| im.pixels@)
        == s.animation_frames@.map_values(|im: crate::image::Image| im.pixels@)
    &&& (match s.dialogue_id {
        Some(d) => (a.dialogue_id matches Some(w) && w@ == resolve(dlg_map, d@)),
        None => a.dialogue_id is None,
    })
    &&& (match s.room_id {
        Some(d) => (a.room_id matches Some(w) && w@ == resolve(room_map, d@)),
        None => a.room_id is None,
    })
}

/// What one merge does, over its remap tables: every collection grows by
/// the source's entities, each appended entity carries its source's
/// content with references resolved, and every source identifier resolves
/// into the merged collection.
pub open spec fn merge_relates(t0: Game, src: Game, fin: Game, maps: MergeMaps) -> bool {
    &&& fin.palettes@.len() == t0.palettes@.len() + src.palettes@.len()
    &&& fin.tiles@.len() == t0.tiles@.len() + src.tiles@.len()
    &&& fin.items@.len() == t0.items@.len() + src.items@.len()
    &&& fin.dialogues@.len() == t0.dialogues@.len() + src.dialogues@.len()
    &&& fin.endings@.len() == t0.endings@.len() + src.endings@.len()
    &&& fin.rooms@.len() == t0.rooms@.len() + src.rooms@.len()
    &&& fin.sprites@.len() == t0.sprites@.len() + src.sprites@.len()
    &&& (forall|j: int|
        0 <= j < src.palettes@.len() ==> palette_carried(
            #[trigger] fin.palettes@[t0.palettes@.len() + j],
            src.palettes@[j],
        ))
    &&& (forall|j: int|
        0 <= j < src.tiles@.len() ==> crate::tile::tiles_alike(
            #[trigger] fin.tiles@[t0.tiles@.len() + j],
            src.tiles@[j],
        ))
    &&& (forall|j: int|
        0 <= j < src.dialogues@.len() ==> dialogue_carried(
            #[trigger] fin.dialogues@[t0.dialogues@.len() + j],
            src.dialogues@[j],
            maps.item,
        ))
    &&& (forall|j: int|
        0 <= j < src.endings@.len() ==> ending_carried(
            #[trigger] fin.endings@[t0.endings@.len() + j],
            src.endings@[j],
        ))
    &&& (forall|j: int|
        0 <= j < src.items@.len() ==> item_carried(
            #[trigger] fin.items@[t0.items@.len() + j],
            src.items@[j],
            maps.item[j].1,
            maps.dlg,
        ))
    &&& (forall|j: int|
        0 <= j < src.rooms@.len() ==> room_rewritten(
            #[trigger] fin.rooms@[t0.rooms@.len() + j],
            src.rooms@[j],
            maps.pal,
            maps.tile,
            maps.item,
            maps.dlg,
            maps.end,
            maps.room,
        ) && fin.rooms@[t0.rooms@.len() + j].id@ == maps.room[j].1)
    &&& (forall|j: int|
        0 <= j < src.sprites@.len() ==> sprite_carried(
            #[trigger] fin.sprites@[t0.sprites@.len() + j],
            src.sprites@[j],
            maps.dlg,
            maps.room,
        ))
    &&& maps.item.len() == src.items@.len()
    &&& (forall|j: int|
        0 <= j < src.items@.len() ==> (#[trigger] maps.item[j]).0 == src.items@[j].id@)
    &&& maps.room.len() == src.rooms@.len()
    &&& (forall|j: int|
        0 <= j < src.rooms@.len() ==> (#[trigger] maps.room[j]).0 == src.rooms@[j].id@)
    &&& (forall|j: int|
        0 <= j < src.palettes@.len() ==> palette_idv(fin.palettes@).contains(
            resolve(maps.pal, (#[trigger] src.palettes@[j]).id@),
        ))
    &&& (forall|j: int|
        0 <= j < src.tiles@.len() ==> tile_idv(fin.tiles@).contains(
            resolve(maps.tile, (#[trigger] src.tiles@[j]).id@),
        ))
    &&& (forall|j: int|
        0 <= j < src.items@.len() ==> item_idv(fin.items@).contains(
            resolve(maps.item, (#[trigger] src.items@[j]).id@),
        ))
    &&& (forall|j: int|
        0 <= j < src.dialogues@.len() ==> dialogue_idv(fin.dialogues@).contains(
            resolve(maps.dlg, (#[trigger] src.dialogues@[j]).id@),
        ))
    &&& (forall|j: int|
        0 <= j < src.endings@.len() ==> ending_idv(fin.endings@).contains(
            resolve(maps.end, (#[trigger] src.endings@[j]).id@),
        ))
    &&& (forall|j: int|
        0 <= j < src.rooms@.len() ==> room_idv(fin.rooms@).contains(
            resolve(maps.room, (#[trigger] src.rooms@[j]).id@),
        ))
}

/// A merged document relates to its target and source through some set of
/// remap tables.
pub open spec fn merged_doc(t0: Game, src: Game, fin: Game) -> bool {
    exists|maps: MergeMaps| #[trigger] merge_relates(t0, src, fin, maps)
}

impl Game {
    /// Unions `other`'s entities into this document, renaming colliding
    /// identifiers and rewriting every cross-reference, in the order the
    /// reference chains require: palettes and tiles, variables, dialogues
    /// (with item references rewritten to precomputed item identifiers),
    /// endings, items, rooms (against an evolving room-identifier set),
    /// and sprites last, a second avatar becoming an ordinary sprite.
    pub fn merge(&mut self, other: &Game)
        ensures
            distinct_ids(palette_idv(old(self).palettes@)) ==> distinct_ids(
                palette_idv(final(self).palettes@),
            ),
            distinct_ids(tile_idv(old(self).tiles@)) ==> distinct_ids(
                tile_idv(final(self).tiles@),
            ),
            !tile_idv(old(self).tiles@).contains("0"@) ==> !tile_idv(
                final(self).tiles@,
            ).contains("0"@),
            distinct_ids(sprite_idv(old(self).sprites@)) ==> distinct_ids(
                sprite_idv(final(self).sprites@),
            ),
            distinct_ids(item_idv(old(self).items@)) ==> distinct_ids(
                item_idv(final(self).items@),
            ),
            distinct_ids(dialogue_idv(old(self).dialogues@)) ==> distinct_ids(
                dialogue_idv(final(self).dialogues@),
            ),
            distinct_ids(ending_idv(old(self).endings@)) ==> distinct_ids(
                ending_idv(final(self).endings@),
            ),
            distinct_ids(room_idv(old(self).rooms@)) ==> distinct_ids(
                room_idv(final(self).rooms@),
            ),
            distinct_ids(variable_idv(old(self).variables@)) ==> distinct_ids(
                variable_idv(final(self).variables@),
            ),
            count_id(sprite_idv(final(self).sprites@), "A"@) == count_id(
                sprite_idv(old(self).sprites@),
                "A"@,
            ),
            forall|j: int|
                0 <= j < old(self).sprites@.len() ==> final(self).sprites@[j] == old(
                    self,
                ).sprites@[j],
            forall|j: int|
                0 <= j < old(self).tiles@.len() ==> final(self).tiles@[j] == old(self).tiles@[j],
            forall|j: int|
                0 <= j < old(self).rooms@.len() ==> final(self).rooms@[j] == old(self).rooms@[j],
            (refs_ok(*old(self)) && refs_ok(*other)) ==> refs_ok(*final(self)),
            merged_doc(*old(self), *other, *final(self)),
            crate::game::same_header(*final(self), *old(self)),
    {
        let ghost t0 = *self;
        let pal_map = self.merge_palettes(other);
        let ghost tp = *self;
        let tile_map = self.merge_tiles(other);
        let ghost tt = *self;
        self.merge_variables(other);
        let item_map = self.precompute_item_ids(other);
        let dlg_map = self.merge_dialogues(other, &item_map);
        let ghost td = *self;
        let end_map = self.merge_endings(other);
        let ghost te = *self;
        self.insert_items(other, &item_map, &dlg_map);
        let ghost ti = *self;
        let room_map = self.precompute_room_ids(other);
        self.insert_rooms(other, &pal_map, &tile_map, &item_map, &dlg_map, &end_map, &room_map);
        let ghost t7 = *self;
        self.merge_sprites(other, &dlg_map, &room_map);
        proof {
            let maps = MergeMaps {
                pal: remap_view(pal_map@),
                tile: remap_view(tile_map@),
                item: remap_view(item_map@),
                dlg: remap_view(dlg_map@),
                end: remap_view(end_map@),
                room: remap_view(room_map@),
            };
            assert(merge_relates(t0, *other, *self, maps)) by {
                assert(self.palettes@ == tp.palettes@);
                assert forall|j: int| 0 <= j < other.palettes@.len() implies palette_carried(
                    #[trigger] self.palettes@[t0.palettes@.len() + j],
                    other.palettes@[j],
                ) by {
                    assert(palette_carried(
                        tp.palettes@[t0.palettes@.len() + j],
                        other.palettes@[j],
                    ));
                }
                assert forall|j: int|
                    0 <= j < other.palettes@.len() implies palette_idv(
                    self.palettes@,
                ).contains(resolve(maps.pal, (#[trigger] other.palettes@[j]).id@)) by {
                    assert(palette_idv(tp.palettes@).contains(
                        resolve(maps.pal, other.palettes@[j].id@),
                    ));
                }
                assert(self.tiles@ == tt.tiles@);
                assert forall|j: int|
                    0 <= j < other.tiles@.len() implies crate::tile::tiles_alike(
                    #[trigger] self.tiles@[t0.tiles@.len() + j],
                    other.tiles@[j],
                ) by {
                    assert(crate::tile::tiles_alike(
                        tt.tiles@[t0.tiles@.len() + j],
                        other.tiles@[j],
                    ));
                }
                assert forall|j: int| 0 <= j < other.tiles@.len() implies tile_idv(
                    self.tiles@,
                ).contains(resolve(maps.tile, (#[trigger] other.tiles@[j]).id@)) by {
                    assert(tile_idv(tt.tiles@).contains(
                        resolve(maps.tile, other.tiles@[j].id@),
                    ));
                }
                assert(self.dialogues@ == td.dialogues@);
                assert forall|j: int|
                    0 <= j < other.dialogues@.len() implies dialogue_carried(
                    #[trigger] self.dialogues@[t0.dialogues@.len() + j],
                    other.dialogues@[j],
                    maps.item,
                ) by {
                    assert(dialogue_carried(
                        td.dialogues@[t0.dialogues@.len() + j],
                        other.dialogues@[j],
                        maps.item,
                    ));
                }
                assert forall|j: int|
                    0 <= j < other.dialogues@.len() implies dialogue_idv(
                    self.dialogues@,
                ).contains(resolve(maps.dlg, (#[trigger] other.dialogues@[j]).id@)) by {
                    assert(dialogue_idv(td.dialogues@).contains(
                        resolve(maps.dlg, other.dialogues@[j].id@),
                    ));
                }
                assert(self.endings@ == te.endings@);
                assert forall|j: int| 0 <= j < other.endings@.len() implies ending_carried(
                    #[trigger] self.endings@[t0.endings@.len() + j],
                    other.endings@[j],
                ) by {
                    assert(ending_carried(
                        te.endings@[t0.endings@.len() + j],
                        other.endings@[j],
                    ));
                }
                assert forall|j: int| 0 <= j < other.endings@.len() implies ending_idv(
                    self.endings@,
                ).contains(resolve(maps.end, (#[trigger] other.endings@[j]).id@)) by {
                    assert(ending_idv(te.endings@).contains(
                        resolve(maps.end, other.endings@[j].id@),
                    ));
                }
                assert(self.items@ == ti.items@);
                assert forall|j: int| 0 <= j < other.items@.len() implies item_carried(
                    #[trigger] self.items@[t0.items@.len() + j],
                    other.items@[j],
                    maps.item[j].1,
                    maps.dlg,
                ) by {
                    assert(item_carried(
                        ti.items@[t0.items@.len() + j],
                        other.items@[j],
                        maps.item[j].1,
                        maps.dlg,
                    ));
                }
                assert forall|j: int| 0 <= j < other.items@.len() implies item_idv(
                    self.items@,
                ).contains(resolve(maps.item, (#[trigger] other.items@[j]).id@)) by {
                    assert(item_idv(ti.items@).contains(
                        resolve(maps.item, other.items@[j].id@),
                    ));
                }
                assert(self.rooms@ == t7.rooms@);
                assert forall|j: int| 0 <= j < other.rooms@.len() implies (room_rewritten(
                    #[trigger] self.rooms@[t0.rooms@.len() + j],
                    other.rooms@[j],
                    maps.pal,
                    maps.tile,
                    maps.item,
                    maps.dlg,
                    maps.end,
                    maps.room,
                ) && self.rooms@[t0.rooms@.len() + j].id@ == maps.room[j].1) by {
                    assert(room_rewritten(
                        t7.rooms@[t0.rooms@.len() + j],
                        other.rooms@[j],
                        maps.pal,
                        maps.tile,
                        maps.item,
                        maps.dlg,
                        maps.end,
                        maps.room,
                    ));
                    assert(t7.rooms@[t0.rooms@.len() + j].id@ == maps.room[j].1);
                }
                assert forall|j: int| 0 <= j < other.rooms@.len() implies room_idv(
                    self.rooms@,
                ).contains(resolve(maps.room, (#[trigger] other.rooms@[j]).id@)) by {
                    assert(room_idv(t7.rooms@).contains(
                        resolve(maps.room, other.rooms@[j].id@),
                    ));
                }
            }
            assert(merged_doc(t0, *other, *self));
            if refs_ok(t0) && refs_ok(*other) {
                let palv = remap_view(pal_map@);
                let tilev = remap_view(tile_map@);
                let itemv = remap_view(item_map@);
                let dlgv = remap_view(dlg_map@);
                let endv = remap_view(end_map@);
                let roomv = remap_view(room_map@);
                let fd = dialogue_idv(self.dialogues@);
                let fr = room_idv(self.rooms@);
                let ft = tile_idv(self.tiles@);
                let fp = palette_idv(self.palettes@);
                let fi = item_idv(self.items@);
                let fe = ending_idv(self.endings@);
                // items point at dialogues
                assert forall|j: int| 0 <= j < self.items@.len() implies (
                match (#[trigger] self.items@[j]).dialogue_id {
                    Some(d) => fd.contains(d@),
                    None => true,
                }) by {
                    if j < t0.items@.len() {
                        assert(self.items@[j] == t0.items@[j]);
                        match t0.items@[j].dialogue_id {
                            Some(d) => {
                                assert(dialogue_idv(t0.dialogues@).contains(d@));
                            },
                            None => {},
                        }
                    } else {
                        let q = j - t0.items@.len();
                        assert(item_carried(
                            self.items@[t0.items@.len() + q],
                            other.items@[q],
                            remap_view(item_map@)[q].1,
                            dlgv,
                        ));
                        match other.items@[q].dialogue_id {
                            Some(d) => {
                                assert(dialogue_idv(other.dialogues@).contains(d@));
                                let k = choose|k: int|
                                    0 <= k < dialogue_idv(other.dialogues@).len()
                                        && dialogue_idv(other.dialogues@)[k] == d@;
                                assert(other.dialogues@[k].id@ == d@);
                                assert(fd.contains(resolve(dlgv, other.dialogues@[k].id@)));
                            },
                            None => {},
                        }
                    }
                }
                // sprites point at dialogues and rooms
                assert forall|j: int| 0 <= j < self.sprites@.len() implies (
                match (#[trigger] self.sprites@[j]).dialogue_id {
                    Some(d) => fd.contains(d@),
                    None => true,
                }) by {
                    if j < t0.sprites@.len() {
                        assert(self.sprites@[j] == t0.sprites@[j]);
                        match t0.sprites@[j].dialogue_id {
                            Some(d) => {
                                assert(dialogue_idv(t0.dialogues@).contains(d@));
                            },
                            None => {},
                        }
                    } else {
                        let q = j - t0.sprites@.len();
                        assert(sprite_carried(
                            self.sprites@[t0.sprites@.len() + q],
                            other.sprites@[q],
                            dlgv,
                            roomv,
                        ));
                        match other.sprites@[q].dialogue_id {
                            Some(d) => {
                                assert(dialogue_idv(other.dialogues@).contains(d@));
                                let k = choose|k: int|
                                    0 <= k < dialogue_idv(other.dialogues@).len()
                                        && dialogue_idv(other.dialogues@)[k] == d@;
                                assert(other.dialogues@[k].id@ == d@);
                                assert(fd.contains(resolve(dlgv, other.dialogues@[k].id@)));
                            },
                            None => {},
                        }
                    }
                }
                assert forall|j: int| 0 <= j < self.sprites@.len() implies (
                match (#[trigger] self.sprites@[j]).room_id {
                    Some(d) => fr.contains(d@),
                    None => true,
                }) by {
                    if j < t0.sprites@.len() {
                        assert(self.sprites@[j] == t0.sprites@[j]);
                        match t0.sprites@[j].room_id {
                            Some(d) => {
                                assert(room_idv(t0.rooms@).contains(d@));
                            },
                            None => {},
                        }
                    } else {
                        let q = j - t0.sprites@.len();
                        assert(sprite_carried(
                            self.sprites@[t0.sprites@.len() + q],
                            other.sprites@[q],
                            dlgv,
                            roomv,
                        ));
                        match other.sprites@[q].room_id {
                            Some(d) => {
                                assert(room_idv(other.rooms@).contains(d@));
                                let k = choose|k: int|
                                    0 <= k < room_idv(other.rooms@).len() && room_idv(
                                        other.rooms@,
                                    )[k] == d@;
                                assert(other.rooms@[k].id@ == d@);
                                assert(fr.contains(resolve(roomv, other.rooms@[k].id@)));
                            },
                            None => {},
                        }
                    }
                }
                // each room's own references
                assert forall|j: int| 0 <= j < self.rooms@.len() implies room_refs_ok(
                    #[trigger] self.rooms@[j],
                    *self,
                ) by {
                    if j < t0.rooms@.len() {
                        assert(self.rooms@[j] == t0.rooms@[j]);
                        let r = t0.rooms@[j];
                        assert(room_refs_ok(r, t0));
                        match r.palette_id {
                            Some(p) => {
                                assert(palette_idv(t0.palettes@).contains(p@));
                            },
                            None => {},
                        }
                        assert forall|gi: int| 0 <= gi < r.tiles@.len() implies ((
                        #[trigger] r.tiles@[gi])@ == "0"@ || ft.contains(r.tiles@[gi]@)) by {
                            if r.tiles@[gi]@ != "0"@ {
                                assert(tile_idv(t0.tiles@).contains(r.tiles@[gi]@));
                            }
                        }
                        assert forall|k: int| 0 <= k < r.items@.len() implies fi.contains(
                            (#[trigger] r.items@[k]).id@,
                        ) by {
                            assert(item_idv(t0.items@).contains(r.items@[k].id@));
                        }
                        assert forall|k: int| 0 <= k < r.exits@.len() implies (fr.contains(
                            (#[trigger] r.exits@[k]).exit.room_id@,
                        ) && (match r.exits@[k].dialogue_id {
                            Some(d) => fd.contains(d@),
                            None => true,
                        })) by {
                            assert(room_idv(t0.rooms@).contains(r.exits@[k].exit.room_id@));
                            match r.exits@[k].dialogue_id {
                                Some(d) => {
                                    assert(dialogue_idv(t0.dialogues@).contains(d@));
                                },
                                None => {},
                            }
                        }
                        assert forall|k: int| 0 <= k < r.endings@.len() implies fe.contains(
                            (#[trigger] r.endings@[k]).id@,
                        ) by {
                            assert(ending_idv(t0.endings@).contains(r.endings@[k].id@));
                        }
                    } else {
                        let q = j - t0.rooms@.len();
                        let r = self.rooms@[j];
                        let s = other.rooms@[q];
                        assert(self.rooms@ == t7.rooms@);
                        assert(room_rewritten(
                            t7.rooms@[t0.rooms@.len() + q],
                            other.rooms@[q],
                            palv,
                            tilev,
                            itemv,
                            dlgv,
                            endv,
                            roomv,
                        ));
                        assert(room_rewritten(r, s, palv, tilev, itemv, dlgv, endv, roomv));
                        assert(room_refs_ok(s, *other));
                        match s.palette_id {
                            Some(p) => {
                                assert(palette_idv(other.palettes@).contains(p@));
                                let k = choose|k: int|
                                    0 <= k < palette_idv(other.palettes@).len() && palette_idv(
                                        other.palettes@,
                                    )[k] == p@;
                                assert(other.palettes@[k].id@ == p@);
                                assert(fp.contains(resolve(palv, other.palettes@[k].id@)));
                            },
                            None => {},
                        }
                        assert forall|gi: int| 0 <= gi < r.tiles@.len() implies ((
                        #[trigger] r.tiles@[gi])@ == "0"@ || ft.contains(r.tiles@[gi]@)) by {
                            assert(r.tiles@[gi]@ == resolve(tilev, s.tiles@[gi]@));
                            let x = s.tiles@[gi]@;
                            if x == "0"@ {
                                match remap_of(tilev, x) {
                                    Some(v) => {
                                        lemma_remap_entry(tilev, x);
                                        let e = choose|e: int|
                                            0 <= e < tilev.len() && (#[trigger] tilev[e]).1 == v;
                                        assert(ft.contains(tilev[e].1));
                                    },
                                    None => {},
                                }
                            } else {
                                assert(tile_idv(other.tiles@).contains(x));
                                let k = choose|k: int|
                                    0 <= k < tile_idv(other.tiles@).len() && tile_idv(
                                        other.tiles@,
                                    )[k] == x;
                                assert(other.tiles@[k].id@ == x);
                                assert(ft.contains(resolve(tilev, other.tiles@[k].id@)));
                            }
                        }
                        assert forall|k: int| 0 <= k < r.items@.len() implies fi.contains(
                            (#[trigger] r.items@[k]).id@,
                        ) by {
                            assert(r.items@[k].id@ == resolve(itemv, s.items@[k].id@));
                            assert(item_idv(other.items@).contains(s.items@[k].id@));
                            let x = s.items@[k].id@;
                            let kk = choose|kk: int|
                                0 <= kk < item_idv(other.items@).len() && item_idv(
                                    other.items@,
                                )[kk] == x;
                            assert(other.items@[kk].id@ == x);
                            assert(fi.contains(resolve(itemv, other.items@[kk].id@)));
                        }
                        assert forall|k: int| 0 <= k < r.exits@.len() implies (fr.contains(
                            (#[trigger] r.exits@[k]).exit.room_id@,
                        ) && (match r.exits@[k].dialogue_id {
                            Some(d) => fd.contains(d@),
                            None => true,
                        })) by {
                            let x = s.exits@[k].exit.room_id@;
                            assert(r.exits@[k].exit.room_id@ == resolve(roomv, x));
                            assert(room_idv(other.rooms@).contains(x));
                            let kk = choose|kk: int|
                                0 <= kk < room_idv(other.rooms@).len() && room_idv(
                                    other.rooms@,
                                )[kk] == x;
                            assert(other.rooms@[kk].id@ == x);
                            assert(fr.contains(resolve(roomv, other.rooms@[kk].id@)));
                            match s.exits@[k].dialogue_id {
                                Some(d) => {
                                    assert(dialogue_idv(other.dialogues@).contains(d@));
                                    let kd = choose|kd: int|
                                        0 <= kd < dialogue_idv(other.dialogues@).len()
                                            && dialogue_idv(other.dialogues@)[kd] == d@;
                                    assert(other.dialogues@[kd].id@ == d@);
                                    assert(fd.contains(resolve(dlgv, other.dialogues@[kd].id@)));
                                },
                                None => {},
                            }
                        }
                        assert forall|k: int| 0 <= k < r.endings@.len() implies fe.contains(
                            (#[trigger] r.endings@[k]).id@,
                        ) by {
                            let x = s.endings@[k].id@;
                            assert(r.endings@[k].id@ == resolve(endv, x));
                            assert(ending_idv(other.endings@).contains(x));
                            let kk = choose|kk: int|
                                0 <= kk < ending_idv(other.endings@).len() && ending_idv(
                                    other.endings@,
                                )[kk] == x;
                            assert(other.endings@[kk].id@ == x);
                            assert(fe.contains(resolve(endv, other.endings@[kk].id@)));
                        }
                    }
                }
            }
        }
    }

    /// Merge step: palettes, recording each rename.
    #[verifier::rlimit(100)]
    #[verifier::spinoff_prover]
    fn merge_palettes(&mut self, other: &Game) -> (m: Vec<(String, String)>)
        ensures
            distinct_ids(palette_idv(old(self).palettes@)) ==> distinct_ids(
                palette_idv(final(self).palettes@),
            ),
            final(self).palettes@.len() == old(self).palettes@.len() + other.palettes@.len(),
            forall|j: int|
                0 <= j < old(self).palettes@.len() ==> final(self).palettes@[j] == old(
                    self,
                ).palettes@[j],
            forall|j: int|
                0 <= j < other.palettes@.len() ==> palette_carried(
                    #[trigger] final(self).palettes@[old(self).palettes@.len() + j],
                    other.palettes@[j],
                ),
            forall|j: int|
                0 <= j < other.palettes@.len() ==> palette_idv(final(self).palettes@).contains(
                    resolve(remap_view(m@), (#[trigger] other.palettes@[j]).id@),
                ),
            forall|x: Seq<char>|
                palette_idv(old(self).palettes@).contains(x) ==> palette_idv(
                    final(self).palettes@,
                ).contains(x),
            final(self).tiles == old(self).tiles,
            final(self).sprites == old(self).sprites,
            final(self).items == old(self).items,
            final(self).dialogues == old(self).dialogues,
            final(self).endings == old(self).endings,
            final(self).rooms == old(self).rooms,
            final(self).variables == old(self).variables,
            crate::game::same_header(*final(self), *old(self)),
    {
        let mut pal_map: Vec<(String, String)> = Vec::new();
        let np = other.palettes.len();
        let mut i: usize = 0;
        while i < np
            invariant
                np == other.palettes@.len(),
                i <= np,
                distinct_ids(palette_idv(old(self).palettes@)) ==> distinct_ids(
                    palette_idv(self.palettes@),
                ),
                self.palettes@.len() == old(self).palettes@.len() + i,
                forall|j: int|
                    0 <= j < old(self).palettes@.len() ==> self.palettes@[j] == old(
                        self,
                    ).palettes@[j],
                forall|j: int|
                    0 <= j < i ==> palette_carried(
                        #[trigger] self.palettes@[old(self).palettes@.len() + j],
                        other.palettes@[j],
                    ),
                forall|e: int|
                    0 <= e < pal_map@.len() ==> palette_idv(self.palettes@).contains(
                        (#[trigger] remap_view(pal_map@)[e]).1,
                    ),
                forall|j: int|
                    0 <= j < i ==> palette_idv(self.palettes@).contains(
                        resolve(remap_view(pal_map@), (#[trigger] other.palettes@[j]).id@),
                    ),
                forall|x: Seq<char>|
                    palette_idv(old(self).palettes@).contains(x) ==> palette_idv(self.palettes@).contains(x),
                self.tiles == old(self).tiles,
                self.sprites == old(self).sprites,
                self.items == old(self).items,
                self.dialogues == old(self).dialogues,
                self.endings == old(self).endings,
                self.rooms == old(self).rooms,
                self.variables == old(self).variables,
                crate::game::same_header(*self, *old(self)),
            decreases np - i,
        {
            let ghost pre = palette_idv(self.palettes@);
            let ghost before = self.palettes@;
            let src = &other.palettes[i];
            let old_id = src.id.clone();
            let p = copy_palette_with_id(src, src.id.clone());
            let nid = self.add_palette(p);
            proof {
                assert(palette_idv(self.palettes@) =~= pre.push(nid@));
                if distinct_ids(palette_idv(old(self).palettes@)) {
                    lemma_distinct_push(pre, nid@);
                }
                assert(palette_carried(self.palettes@.last(), other.palettes@[i as int]));
                assert forall|j: int|
                    0 <= j < i + 1 implies palette_carried(
                    #[trigger] self.palettes@[old(self).palettes@.len() + j],
                    other.palettes@[j],
                ) by {
                    if j < i {
                        assert(self.palettes@[old(self).palettes@.len() + j] == before[old(
                            self,
                        ).palettes@.len() + j]);
                    }
                }
            }
            let ghost oldv = old_id@;
            let ghost nidv = nid@;
            let ghost mpre = remap_view(pal_map@);
            proof {
                assert(palette_idv(self.palettes@)[pre.len() as int] == nidv);
                assert(palette_idv(self.palettes@).contains(nidv));
                assert forall|x: Seq<char>| pre.contains(x) implies palette_idv(
                    self.palettes@,
                ).contains(x) by {
                    lemma_contains_grows(pre, palette_idv(self.palettes@), x);
                }
            }
            let renamed = !str_eq(nid.as_str(), old_id.as_str());
            let prior = remap_lookup(&pal_map, old_id.as_str());
            if renamed {
                match prior {
                    Some(_) => {},
                    None => {
                        pal_map.push((old_id, nid));
                        proof {
                            assert(remap_view(pal_map@) =~= mpre.push((oldv, nidv)));
                        }
                    },
                }
            }
            proof {
                let mnow = remap_view(pal_map@);
                let ids = palette_idv(self.palettes@);
                assert forall|j: int| 0 <= j < i + 1 implies ids.contains(
                    resolve(mnow, (#[trigger] other.palettes@[j]).id@),
                ) by {
                    let x = other.palettes@[j].id@;
                    if mnow != mpre {
                        lemma_remap_push(mpre, mnow.last(), x);
                    }
                    if j < i {
                        match remap_of(mpre, x) {
                            Some(v) => {
                                assert(resolve(mpre, x) == v);
                                assert(pre.contains(v));
                                lemma_contains_grows(pre, ids, v);
                            },
                            None => {
                                if mnow != mpre && mnow.last().0 == x {
                                    assert(resolve(mnow, x) == mnow.last().1);
                                } else {
                                    assert(resolve(mnow, x) == x);
                                    assert(pre.contains(x));
                                    lemma_contains_grows(pre, ids, x);
                                }
                            },
                        }
                    } else {
                        // the entity just carried across
                        assert(x == src.id@);
                        match remap_of(mpre, x) {
                            Some(v) => {
                                assert(resolve(mnow, x) == v);
                                lemma_remap_entry(mpre, x);
                                let e = choose|e: int|
                                    0 <= e < mpre.len() && (#[trigger] mpre[e]).1 == v;
                                assert(pre.contains(mpre[e].1));
                                lemma_contains_grows(pre, ids, v);
                            },
                            None => {
                                if renamed {
                                    assert(mnow != mpre && mnow.last() == (oldv, nidv));
                                    assert(resolve(mnow, x) == nidv);
                                } else {
                                    assert(nidv == x);
                                    assert(resolve(mnow, x) == x);
                                }
                            },
                        }
                    }
                }
                assert forall|e2: int| 0 <= e2 < mnow.len() implies ids.contains(
                    (#[trigger] mnow[e2]).1,
                ) by {
                    if e2 < mpre.len() {
                        assert(mnow[e2] == mpre[e2]);
                        assert(pre.contains(mpre[e2].1));
                        lemma_contains_grows(pre, ids, mpre[e2].1);
                    } else {
                        assert(mnow[e2].1 == nidv);
                    }
                }
            }
            i = i + 1;
        }
        pal_map
    }

    /// Merge step: tiles, the reserved background identifier kept clear.
    /// Every source tile's identifier resolves through the returned table
    /// to a tile of the merged document, and nothing the target held is
    /// lost.
    #[verifier::rlimit(100)]
    #[verifier::spinoff_prover]
    fn merge_tiles(&mut self, other: &Game) -> (m: Vec<(String, String)>)
        ensures
            distinct_ids(tile_idv(old(self).tiles@)) ==> distinct_ids(
                tile_idv(final(self).tiles@),
            ),
            !tile_idv(old(self).tiles@).contains("0"@) ==> !tile_idv(
                final(self).tiles@,
            ).contains("0"@),
            forall|j: int|
                0 <= j < old(self).tiles@.len() ==> final(self).tiles@[j] == old(self).tiles@[j],
            final(self).tiles@.len() == old(self).tiles@.len() + other.tiles@.len(),
            forall|j: int|
                0 <= j < other.tiles@.len() ==> crate::tile::tiles_alike(
                    #[trigger] final(self).tiles@[old(self).tiles@.len() + j],
                    other.tiles@[j],
                ),
            forall|j: int|
                0 <= j < other.tiles@.len() ==> tile_idv(final(self).tiles@).contains(
                    resolve(remap_view(m@), (#[trigger] other.tiles@[j]).id@),
                ),
            forall|e: int|
                0 <= e < m@.len() ==> tile_idv(final(self).tiles@).contains(
                    (#[trigger] remap_view(m@)[e]).1,
                ),
            forall|x: Seq<char>|
                tile_idv(old(self).tiles@).contains(x) ==> tile_idv(final(self).tiles@).contains(
                    x,
                ),
            final(self).palettes == old(self).palettes,
            final(self).sprites == old(self).sprites,
            final(self).items == old(self).items,
            final(self).dialogues == old(self).dialogues,
            final(self).endings == old(self).endings,
            final(self).rooms == old(self).rooms,
            final(self).variables == old(self).variables,
            crate::game::same_header(*final(self), *old(self)),
    {
        proof {
            reveal_strlit("0");
        }
        let mut tile_map: Vec<(String, String)> = Vec::new();
        let nt = other.tiles.len();
        let mut i: usize = 0;
        while i < nt
            invariant
                nt == other.tiles@.len(),
                i <= nt,
                distinct_ids(tile_idv(old(self).tiles@)) ==> distinct_ids(tile_idv(self.tiles@)),
                !tile_idv(old(self).tiles@).contains("0"@) ==> !tile_idv(self.tiles@).contains(
                    "0"@,
                ),
                self.tiles@.len() == old(self).tiles@.len() + i,
                forall|j: int|
                    0 <= j < old(self).tiles@.len() ==> self.tiles@[j] == old(self).tiles@[j],
                forall|j: int|
                    0 <= j < i ==> crate::tile::tiles_alike(
                        #[trigger] self.tiles@[old(self).tiles@.len() + j],
                        other.tiles@[j],
                    ),
                forall|e: int|
                    0 <= e < tile_map@.len() ==> tile_idv(self.tiles@).contains(
                        (#[trigger] remap_view(tile_map@)[e]).1,
                    ),
                forall|j: int|
                    0 <= j < i ==> tile_idv(self.tiles@).contains(
                        resolve(remap_view(tile_map@), (#[trigger] other.tiles@[j]).id@),
                    ),
                forall|x: Seq<char>|
                    tile_idv(old(self).tiles@).contains(x) ==> tile_idv(self.tiles@).contains(x),
                self.palettes == old(self).palettes,
                self.sprites == old(self).sprites,
                self.items == old(self).items,
                self.dialogues == old(self).dialogues,
                self.endings == old(self).endings,
                self.rooms == old(self).rooms,
                self.variables == old(self).variables,
                crate::game::same_header(*self, *old(self)),
            decreases nt - i,
        {
            let ghost pre = tile_idv(self.tiles@);
            let ghost before = self.tiles@;
            let ghost mpre = remap_view(tile_map@);
            let src = &other.tiles[i];
            let (old_id, nid) = self.merge_one_tile(src);
            let ghost oldv = old_id@;
            let ghost nidv = nid@;
            proof {
                assert(crate::tile::tiles_alike(
                    self.tiles@.last(),
                    other.tiles@[i as int],
                ));
                assert forall|j: int|
                    0 <= j < i + 1 implies crate::tile::tiles_alike(
                    #[trigger] self.tiles@[old(self).tiles@.len() + j],
                    other.tiles@[j],
                ) by {
                    if j < i {
                        assert(self.tiles@[old(self).tiles@.len() + j] == before[old(
                            self,
                        ).tiles@.len() + j]);
                    }
                }
                assert(tile_idv(self.tiles@) =~= pre.push(nidv));
                assert(tile_idv(self.tiles@)[pre.len() as int] == nidv);
                assert(tile_idv(self.tiles@).contains(nidv));
                assert forall|x: Seq<char>| pre.contains(x) implies tile_idv(
                    self.tiles@,
                ).contains(x) by {
                    lemma_contains_grows(pre, tile_idv(self.tiles@), x);
                }
            }
            let renamed = !str_eq(nid.as_str(), old_id.as_str());
            let prior = remap_lookup(&tile_map, old_id.as_str());
            if renamed {
                match prior {
                    Some(_) => {},
                    None => {
                        tile_map.push((old_id, nid));
                        proof {
                            assert(remap_view(tile_map@) =~= mpre.push((oldv, nidv)));
                        }
                    },
                }
            }
            proof {
                let mnow = remap_view(tile_map@);
                let ids = tile_idv(self.tiles@);
                if mnow != mpre {
                    let e = mnow.last();
                    assert(mnow =~= mpre.push(e));
                    assert forall|x: Seq<char>| true implies resolve(mnow, x) == (
                    match remap_of(mpre, x) {
                        Some(v) => v,
                        None => (if e.0 == x {
                            e.1
                        } else {
                            x
                        }),
                    }) by {
                        lemma_remap_push(mpre, e, x);
                    }
                }
                assert forall|j: int| 0 <= j < i + 1 implies ids.contains(
                    resolve(mnow, (#[trigger] other.tiles@[j]).id@),
                ) by {
                    let x = other.tiles@[j].id@;
                    if mnow != mpre {
                        lemma_remap_push(mpre, mnow.last(), x);
                    }
                    if j < i {
                        match remap_of(mpre, x) {
                            Some(v) => {
                                assert(resolve(mpre, x) == v);
                                assert(pre.contains(v));
                                lemma_contains_grows(pre, ids, v);
                            },
                            None => {
                                if mnow != mpre && mnow.last().0 == x {
                                    assert(resolve(mnow, x) == mnow.last().1);
                                } else {
                                    assert(resolve(mnow, x) == x);
                                    assert(pre.contains(x));
                                    lemma_contains_grows(pre, ids, x);
                                }
                            },
                        }
                    } else {
                        // the tile just carried across
                        assert(x == src.id@);
                        match remap_of(mpre, x) {
                            Some(v) => {
                                assert(resolve(mnow, x) == v);
                                lemma_remap_entry(mpre, x);
                                let e = choose|e: int|
                                    0 <= e < mpre.len() && (#[trigger] mpre[e]).1 == v;
                                assert(pre.contains(mpre[e].1));
                                lemma_contains_grows(pre, ids, v);
                            },
                            None => {
                                if renamed {
                                    assert(mnow != mpre && mnow.last() == (oldv, nidv));
                                    assert(resolve(mnow, x) == nidv);
                                } else {
                                    assert(nidv == x);
                                    assert(resolve(mnow, x) == x);
                                }
                            },
                        }
                    }
                }
                assert forall|e2: int| 0 <= e2 < mnow.len() implies ids.contains(
                    (#[trigger] mnow[e2]).1,
                ) by {
                    if e2 < mpre.len() {
                        assert(mnow[e2] == mpre[e2]);
                        assert(pre.contains(mpre[e2].1));
                        lemma_contains_grows(pre, ids, mpre[e2].1);
                    } else {
                        assert(mnow[e2].1 == nidv);
                    }
                }
            }
            i = i + 1;
        }
        tile_map
    }

    /// Carries one tile across, returning its old and new identifiers.
    fn merge_one_tile(&mut self, src: &crate::tile::Tile) -> (r: (String, String))
        ensures
            r.0@ == src.id@,
            final(self).tiles@.last().id@ == r.1@,
            crate::tile::tiles_alike(final(self).tiles@.last(), *src),
            distinct_ids(tile_idv(old(self).tiles@)) ==> distinct_ids(tile_idv(final(self).tiles@)),
            !tile_idv(old(self).tiles@).contains("0"@) ==> !tile_idv(
                final(self).tiles@,
            ).contains("0"@),
            final(self).tiles@.len() == old(self).tiles@.len() + 1,
            forall|j: int|
                0 <= j < old(self).tiles@.len() ==> final(self).tiles@[j] == old(self).tiles@[j],
            final(self).palettes == old(self).palettes,
            final(self).sprites == old(self).sprites,
            final(self).items == old(self).items,
            final(self).dialogues == old(self).dialogues,
            final(self).endings == old(self).endings,
            final(self).rooms == old(self).rooms,
            final(self).variables == old(self).variables,
            crate::game::same_header(*final(self), *old(self)),
    {
        proof {
            reveal_strlit("0");
        }
        let ghost pre = tile_idv(self.tiles@);
        let old_id = src.id.clone();
        let t = copy_tile_with_id(src, src.id.clone());
        let nid = self.add_tile(t);
        proof {
            assert(tile_idv(self.tiles@) =~= pre.push(nid@));
            if distinct_ids(tile_idv(old(self).tiles@)) {
                lemma_distinct_push(pre, nid@);
            }
            if !tile_idv(old(self).tiles@).contains("0"@) {
                lemma_absent_push(pre, nid@, "0"@);
            }
        }
        (old_id, nid)
    }

    /// Merge step: variables, inserted only when the identifier is new.
    fn merge_variables(&mut self, other: &Game)
        ensures
            distinct_ids(variable_idv(old(self).variables@)) ==> distinct_ids(
                variable_idv(final(self).variables@),
            ),
            final(self).palettes == old(self).palettes,
            final(self).sprites == old(self).sprites,
            final(self).items == old(self).items,
            final(self).dialogues == old(self).dialogues,
            final(self).endings == old(self).endings,
            final(self).rooms == old(self).rooms,
            final(self).tiles == old(self).tiles,
            crate::game::same_header(*final(self), *old(self)),
    {
        let nv = other.variables.len();
        let mut i: usize = 0;
        while i < nv
            invariant
                nv == other.variables@.len(),
                i <= nv,
                distinct_ids(variable_idv(old(self).variables@)) ==> distinct_ids(
                    variable_idv(self.variables@),
                ),
                self.palettes == old(self).palettes,
                self.sprites == old(self).sprites,
                self.items == old(self).items,
                self.dialogues == old(self).dialogues,
                self.endings == old(self).endings,
                self.rooms == old(self).rooms,
                self.tiles == old(self).tiles,
                crate::game::same_header(*self, *old(self)),
            decreases nv - i,
        {
            let ghost pre = variable_idv(self.variables@);
            let ids = self.variable_ids();
            let src = &other.variables[i];
            if is_id_available(ids.as_slice(), src.id.as_str()) {
                self.variables.push(copy_variable(src));
                proof {
                    assert(variable_idv(self.variables@) =~= pre.push(
                        self.variables@.last().id@,
                    ));
                    if distinct_ids(variable_idv(old(self).variables@)) {
                        lemma_distinct_push(pre, self.variables@.last().id@);
                    }
                }
            }
            i = i + 1;
        }
    }

    /// Merge step: the identifiers the source items will take, computed
    /// against an evolving set so they stay collision-free among
    /// themselves and the target's items.
    fn precompute_item_ids(&self, other: &Game) -> (m: Vec<(String, String)>)
        ensures
            m@.len() == other.items@.len(),
            forall|j: int|
                0 <= j < m@.len() ==> (#[trigger] remap_view(m@)[j]).0
                    == other.items@[j].id@,
            forall|j: int|
                0 <= j < m@.len() ==> !item_idv(self.items@).contains(
                    (#[trigger] remap_view(m@)[j]).1,
                ),
            forall|j: int, k: int|
                0 <= j < k < m@.len() ==> remap_view(m@)[j].1 != remap_view(m@)[k].1,
    {
        let mut item_map: Vec<(String, String)> = Vec::new();
        let mut working = self.item_ids();
        let ghost base = item_idv(self.items@);
        let ni = other.items.len();
        let mut i: usize = 0;
        while i < ni
            invariant
                ni == other.items@.len(),
                i <= ni,
                item_map@.len() == i,
                base == item_idv(self.items@),
                views(working@).len() == base.len() + i,
                forall|j: int| 0 <= j < base.len() ==> views(working@)[j] == base[j],
                forall|j: int|
                    0 <= j < i ==> views(working@)[base.len() + j] == (#[trigger] remap_view(
                        item_map@,
                    )[j]).1,
                forall|j: int|
                    0 <= j < i ==> (#[trigger] remap_view(item_map@)[j]).0
                        == other.items@[j].id@,
                forall|j: int|
                    0 <= j < i ==> !base.contains((#[trigger] remap_view(item_map@)[j]).1),
                forall|j: int, k: int|
                    0 <= j < k < i ==> remap_view(item_map@)[j].1 != remap_view(item_map@)[k].1,
            decreases ni - i,
        {
            let src = &other.items[i];
            let nid = try_id(working.as_slice(), src.id.as_str());
            let ghost nidv = nid@;
            proof {
                assert(!views(working@).contains(nidv));
                if base.contains(nidv) {
                    let j = choose|j: int| 0 <= j < base.len() && base[j] == nidv;
                    assert(views(working@)[j] == nidv);
                    assert(views(working@).contains(nidv));
                }
                assert forall|j: int| 0 <= j < i implies remap_view(item_map@)[j].1
                    != nidv by {
                    if remap_view(item_map@)[j].1 == nidv {
                        assert(views(working@)[base.len() + j] == nidv);
                        assert(views(working@).contains(nidv));
                    }
                }
            }
            let ghost wpre = views(working@);
            let ghost mpre = remap_view(item_map@);
            working.push(nid.clone());
            item_map.push((src.id.clone(), nid));
            proof {
                assert(views(working@) =~= wpre.push(nidv));
                assert(remap_view(item_map@) =~= mpre.push((src.id@, nidv)));
            }
            i = i + 1;
        }
        item_map
    }

    /// Merge step: dialogues, their bodies renaming carried items first.
    #[verifier::rlimit(100)]
    #[verifier::spinoff_prover]
    fn merge_dialogues(&mut self, other: &Game, item_map: &Vec<(String, String)>) -> (m: Vec<
        (String, String),
    >)
        ensures
            distinct_ids(dialogue_idv(old(self).dialogues@)) ==> distinct_ids(
                dialogue_idv(final(self).dialogues@),
            ),
            final(self).dialogues@.len() == old(self).dialogues@.len() + other.dialogues@.len(),
            forall|j: int|
                0 <= j < old(self).dialogues@.len() ==> final(self).dialogues@[j] == old(
                    self,
                ).dialogues@[j],
            forall|j: int|
                0 <= j < other.dialogues@.len() ==> dialogue_carried(
                    #[trigger] final(self).dialogues@[old(self).dialogues@.len() + j],
                    other.dialogues@[j],
                    remap_view(item_map@),
                ),
            forall|j: int|
                0 <= j < other.dialogues@.len() ==> dialogue_idv(final(self).dialogues@).contains(
                    resolve(remap_view(m@), (#[trigger] other.dialogues@[j]).id@),
                ),
            forall|x: Seq<char>|
                dialogue_idv(old(self).dialogues@).contains(x) ==> dialogue_idv(
                    final(self).dialogues@,
                ).contains(x),
            final(self).palettes == old(self).palettes,
            final(self).sprites == old(self).sprites,
            final(self).items == old(self).items,
            final(self).endings == old(self).endings,
            final(self).rooms == old(self).rooms,
            final(self).tiles == old(self).tiles,
            final(self).variables == old(self).variables,
            crate::game::same_header(*final(self), *old(self)),
    {
        let mut dlg_map: Vec<(String, String)> = Vec::new();
        let nd = other.dialogues.len();
        let mut i: usize = 0;
        while i < nd
            invariant
                nd == other.dialogues@.len(),
                i <= nd,
                distinct_ids(dialogue_idv(old(self).dialogues@)) ==> distinct_ids(
                    dialogue_idv(self.dialogues@),
                ),
                self.dialogues@.len() == old(self).dialogues@.len() + i,
                forall|j: int|
                    0 <= j < old(self).dialogues@.len() ==> self.dialogues@[j] == old(
                        self,
                    ).dialogues@[j],
                forall|j: int|
                    0 <= j < i ==> dialogue_carried(
                        #[trigger] self.dialogues@[old(self).dialogues@.len() + j],
                        other.dialogues@[j],
                        remap_view(item_map@),
                    ),
                forall|e: int|
                    0 <= e < dlg_map@.len() ==> dialogue_idv(self.dialogues@).contains(
                        (#[trigger] remap_view(dlg_map@)[e]).1,
                    ),
                forall|j: int|
                    0 <= j < i ==> dialogue_idv(self.dialogues@).contains(
                        resolve(remap_view(dlg_map@), (#[trigger] other.dialogues@[j]).id@),
                    ),
                forall|x: Seq<char>|
                    dialogue_idv(old(self).dialogues@).contains(x) ==> dialogue_idv(self.dialogues@).contains(x),
                self.palettes == old(self).palettes,
                self.sprites == old(self).sprites,
                self.items == old(self).items,
                self.endings == old(self).endings,
                self.rooms == old(self).rooms,
                self.tiles == old(self).tiles,
                self.variables == old(self).variables,
                crate::game::same_header(*self, *old(self)),
            decreases nd - i,
        {
            let ghost pre = dialogue_idv(self.dialogues@);
            let ghost before = self.dialogues@;
            let src = &other.dialogues[i];
            let contents = rewrite_item_references(&src.contents, item_map);
            let d = copy_dialogue_with(src, src.id.clone(), contents);
            let old_id = src.id.clone();
            let nid = self.add_dialogue(d);
            proof {
                assert(dialogue_idv(self.dialogues@) =~= pre.push(nid@));
                if distinct_ids(dialogue_idv(old(self).dialogues@)) {
                    lemma_distinct_push(pre, nid@);
                }
                assert(dialogue_carried(
                    self.dialogues@.last(),
                    other.dialogues@[i as int],
                    remap_view(item_map@),
                ));
                assert forall|j: int|
                    0 <= j < i + 1 implies dialogue_carried(
                    #[trigger] self.dialogues@[old(self).dialogues@.len() + j],
                    other.dialogues@[j],
                    remap_view(item_map@),
                ) by {
                    if j < i {
                        assert(self.dialogues@[old(self).dialogues@.len() + j] == before[old(
                            self,
                        ).dialogues@.len() + j]);
                    }
                }
            }
            let ghost oldv = old_id@;
            let ghost nidv = nid@;
            let ghost mpre = remap_view(dlg_map@);
            proof {
                assert(dialogue_idv(self.dialogues@)[pre.len() as int] == nidv);
                assert(dialogue_idv(self.dialogues@).contains(nidv));
                assert forall|x: Seq<char>| pre.contains(x) implies dialogue_idv(
                    self.dialogues@,
                ).contains(x) by {
                    lemma_contains_grows(pre, dialogue_idv(self.dialogues@), x);
                }
            }
            let renamed = !str_eq(nid.as_str(), old_id.as_str());
            let prior = remap_lookup(&dlg_map, old_id.as_str());
            if renamed {
                match prior {
                    Some(_) => {},
                    None => {
                        dlg_map.push((old_id, nid));
                        proof {
                            assert(remap_view(dlg_map@) =~= mpre.push((oldv, nidv)));
                        }
                    },
                }
            }
            proof {
                let mnow = remap_view(dlg_map@);
                let ids = dialogue_idv(self.dialogues@);
                assert forall|j: int| 0 <= j < i + 1 implies ids.contains(
                    resolve(mnow, (#[trigger] other.dialogues@[j]).id@),
                ) by {
                    let x = other.dialogues@[j].id@;
                    if mnow != mpre {
                        lemma_remap_push(mpre, mnow.last(), x);
                    }
                    if j < i {
                        match remap_of(mpre, x) {
                            Some(v) => {
                                assert(resolve(mpre, x) == v);
                                assert(pre.contains(v));
                                lemma_contains_grows(pre, ids, v);
                            },
                            None => {
                                if mnow != mpre && mnow.last().0 == x {
                                    assert(resolve(mnow, x) == mnow.last().1);
                                } else {
                                    assert(resolve(mnow, x) == x);
                                    assert(pre.contains(x));
                                    lemma_contains_grows(pre, ids, x);
                                }
                            },
                        }
                    } else {
                        // the entity just carried across
                        assert(x == src.id@);
                        match remap_of(mpre, x) {
                            Some(v) => {
                                assert(resolve(mnow, x) == v);
                                lemma_remap_entry(mpre, x);
                                let e = choose|e: int|
                                    0 <= e < mpre.len() && (#[trigger] mpre[e]).1 == v;
                                assert(pre.contains(mpre[e].1));
                                lemma_contains_grows(pre, ids, v);
                            },
                            None => {
                                if renamed {
                                    assert(mnow != mpre && mnow.last() == (oldv, nidv));
                                    assert(resolve(mnow, x) == nidv);
                                } else {
                                    assert(nidv == x);
                                    assert(resolve(mnow, x) == x);
                                }
                            },
                        }
                    }
                }
                assert forall|e2: int| 0 <= e2 < mnow.len() implies ids.contains(
                    (#[trigger] mnow[e2]).1,
                ) by {
                    if e2 < mpre.len() {
                        assert(mnow[e2] == mpre[e2]);
                        assert(pre.contains(mpre[e2].1));
                        lemma_contains_grows(pre, ids, mpre[e2].1);
                    } else {
                        assert(mnow[e2].1 == nidv);
                    }
                }
            }
            i = i + 1;
        }
        dlg_map
    }

    /// Merge step: endings.
    #[verifier::rlimit(100)]
    #[verifier::spinoff_prover]
    fn merge_endings(&mut self, other: &Game) -> (m: Vec<(String, String)>)
        ensures
            distinct_ids(ending_idv(old(self).endings@)) ==> distinct_ids(
                ending_idv(final(self).endings@),
            ),
            final(self).endings@.len() == old(self).endings@.len() + other.endings@.len(),
            forall|j: int|
                0 <= j < old(self).endings@.len() ==> final(self).endings@[j] == old(
                    self,
                ).endings@[j],
            forall|j: int|
                0 <= j < other.endings@.len() ==> ending_carried(
                    #[trigger] final(self).endings@[old(self).endings@.len() + j],
                    other.endings@[j],
                ),
            forall|j: int|
                0 <= j < other.endings@.len() ==> ending_idv(final(self).endings@).contains(
                    resolve(remap_view(m@), (#[trigger] other.endings@[j]).id@),
                ),
            forall|x: Seq<char>|
                ending_idv(old(self).endings@).contains(x) ==> ending_idv(
                    final(self).endings@,
                ).contains(x),
            final(self).palettes == old(self).palettes,
            final(self).sprites == old(self).sprites,
            final(self).items == old(self).items,
            final(self).dialogues == old(self).dialogues,
            final(self).rooms == old(self).rooms,
            final(self).tiles == old(self).tiles,
            final(self).variables == old(self).variables,
            crate::game::same_header(*final(self), *old(self)),
    {
        let mut end_map: Vec<(String, String)> = Vec::new();
        let ne = other.endings.len();
        let mut i: usize = 0;
        while i < ne
            invariant
                ne == other.endings@.len(),
                i <= ne,
                distinct_ids(ending_idv(old(self).endings@)) ==> distinct_ids(
                    ending_idv(self.endings@),
                ),
                self.endings@.len() == old(self).endings@.len() + i,
                forall|j: int|
                    0 <= j < old(self).endings@.len() ==> self.endings@[j] == old(
                        self,
                    ).endings@[j],
                forall|j: int|
                    0 <= j < i ==> ending_carried(
                        #[trigger] self.endings@[old(self).endings@.len() + j],
                        other.endings@[j],
                    ),
                forall|e: int|
                    0 <= e < end_map@.len() ==> ending_idv(self.endings@).contains(
                        (#[trigger] remap_view(end_map@)[e]).1,
                    ),
                forall|j: int|
                    0 <= j < i ==> ending_idv(self.endings@).contains(
                        resolve(remap_view(end_map@), (#[trigger] other.endings@[j]).id@),
                    ),
                forall|x: Seq<char>|
                    ending_idv(old(self).endings@).contains(x) ==> ending_idv(self.endings@).contains(x),
                self.palettes == old(self).palettes,
                self.sprites == old(self).sprites,
                self.items == old(self).items,
                self.dialogues == old(self).dialogues,
                self.rooms == old(self).rooms,
                self.tiles == old(self).tiles,
                self.variables == old(self).variables,
                crate::game::same_header(*self, *old(self)),
            decreases ne - i,
        {
            let ghost pre = ending_idv(self.endings@);
            let ghost before = self.endings@;
            let src = &other.endings[i];
            let old_id = src.id.clone();
            let e = copy_ending_with_id(src, src.id.clone());
            let nid = self.add_ending(e);
            proof {
                assert(ending_idv(self.endings@) =~= pre.push(nid@));
                if distinct_ids(ending_idv(old(self).endings@)) {
                    lemma_distinct_push(pre, nid@);
                }
                assert(ending_carried(self.endings@.last(), other.endings@[i as int]));
                assert forall|j: int|
                    0 <= j < i + 1 implies ending_carried(
                    #[trigger] self.endings@[old(self).endings@.len() + j],
                    other.endings@[j],
                ) by {
                    if j < i {
                        assert(self.endings@[old(self).endings@.len() + j] == before[old(
                            self,
                        ).endings@.len() + j]);
                    }
                }
            }
            let ghost oldv = old_id@;
            let ghost nidv = nid@;
            let ghost mpre = remap_view(end_map@);
            proof {
                assert(ending_idv(self.endings@)[pre.len() as int] == nidv);
                assert(ending_idv(self.endings@).contains(nidv));
                assert forall|x: Seq<char>| pre.contains(x) implies ending_idv(
                    self.endings@,
                ).contains(x) by {
                    lemma_contains_grows(pre, ending_idv(self.endings@), x);
                }
            }
            let renamed = !str_eq(nid.as_str(), old_id.as_str());
            let prior = remap_lookup(&end_map, old_id.as_str());
            if renamed {
                match prior {
                    Some(_) => {},
                    None => {
                        end_map.push((old_id, nid));
                        proof {
                            assert(remap_view(end_map@) =~= mpre.push((oldv, nidv)));
                        }
                    },
                }
            }
            proof {
                let mnow = remap_view(end_map@);
                let ids = ending_idv(self.endings@);
                assert forall|j: int| 0 <= j < i + 1 implies ids.contains(
                    resolve(mnow, (#[trigger] other.endings@[j]).id@),
                ) by {
                    let x = other.endings@[j].id@;
                    if mnow != mpre {
                        lemma_remap_push(mpre, mnow.last(), x);
                    }
                    if j < i {
                        match remap_of(mpre, x) {
                            Some(v) => {
                                assert(resolve(mpre, x) == v);
                                assert(pre.contains(v));
                                lemma_contains_grows(pre, ids, v);
                            },
                            None => {
                                if mnow != mpre && mnow.last().0 == x {
                                    assert(resolve(mnow, x) == mnow.last().1);
                                } else {
                                    assert(resolve(mnow, x) == x);
                                    assert(pre.contains(x));
                                    lemma_contains_grows(pre, ids, x);
                                }
                            },
                        }
                    } else {
                        // the entity just carried across
                        assert(x == src.id@);
                        match remap_of(mpre, x) {
                            Some(v) => {
                                assert(resolve(mnow, x) == v);
                                lemma_remap_entry(mpre, x);
                                let e = choose|e: int|
                                    0 <= e < mpre.len() && (#[trigger] mpre[e]).1 == v;
                                assert(pre.contains(mpre[e].1));
                                lemma_contains_grows(pre, ids, v);
                            },
                            None => {
                                if renamed {
                                    assert(mnow != mpre && mnow.last() == (oldv, nidv));
                                    assert(resolve(mnow, x) == nidv);
                                } else {
                                    assert(nidv == x);
                                    assert(resolve(mnow, x) == x);
                                }
                            },
                        }
                    }
                }
                assert forall|e2: int| 0 <= e2 < mnow.len() implies ids.contains(
                    (#[trigger] mnow[e2]).1,
                ) by {
                    if e2 < mpre.len() {
                        assert(mnow[e2] == mpre[e2]);
                        assert(pre.contains(mpre[e2].1));
                        lemma_contains_grows(pre, ids, mpre[e2].1);
                    } else {
                        assert(mnow[e2].1 == nidv);
                    }
                }
            }
            i = i + 1;
        }
        end_map
    }

    /// Merge step: items, each under its precomputed identifier, its
    /// dialogue reference rewritten.
    #[verifier::rlimit(100)]
    #[verifier::spinoff_prover]
    fn insert_items(
        &mut self,
        other: &Game,
        item_map: &Vec<(String, String)>,
        dlg_map: &Vec<(String, String)>,
    )
        requires
            item_map@.len() == other.items@.len(),
            forall|j: int|
                0 <= j < item_map@.len() ==> (#[trigger] remap_view(item_map@)[j]).0
                    == other.items@[j].id@,
            forall|j: int|
                0 <= j < item_map@.len() ==> !item_idv(old(self).items@).contains(
                    (#[trigger] remap_view(item_map@)[j]).1,
                ),
            forall|j: int, k: int|
                0 <= j < k < item_map@.len() ==> remap_view(item_map@)[j].1 != remap_view(
                    item_map@,
                )[k].1,
        ensures
            distinct_ids(item_idv(old(self).items@)) ==> distinct_ids(
                item_idv(final(self).items@),
            ),
            forall|j: int|
                0 <= j < other.items@.len() ==> item_idv(final(self).items@).contains(
                    resolve(remap_view(item_map@), (#[trigger] other.items@[j]).id@),
                ),
            forall|x: Seq<char>|
                item_idv(old(self).items@).contains(x) ==> item_idv(
                    final(self).items@,
                ).contains(x),
            final(self).items@.len() == old(self).items@.len() + other.items@.len(),
            forall|j: int|
                0 <= j < old(self).items@.len() ==> final(self).items@[j] == old(self).items@[j],
            forall|j: int|
                0 <= j < other.items@.len() ==> item_carried(
                    #[trigger] final(self).items@[old(self).items@.len() + j],
                    other.items@[j],
                    remap_view(item_map@)[j].1,
                    remap_view(dlg_map@),
                ),
            final(self).palettes == old(self).palettes,
            final(self).sprites == old(self).sprites,
            final(self).dialogues == old(self).dialogues,
            final(self).endings == old(self).endings,
            final(self).rooms == old(self).rooms,
            final(self).tiles == old(self).tiles,
            final(self).variables == old(self).variables,
            crate::game::same_header(*final(self), *old(self)),
    {
        let ghost base = item_idv(old(self).items@);
        let ghost mv = remap_view(item_map@);
        let ni = other.items.len();
        let mut i: usize = 0;
        while i < ni
            invariant
                ni == other.items@.len(),
                i <= ni,
                mv == remap_view(item_map@),
                item_map@.len() == ni,
                base == item_idv(old(self).items@),
                forall|j: int| 0 <= j < ni ==> (#[trigger] mv[j]).0 == other.items@[j].id@,
                forall|j: int| 0 <= j < ni ==> !base.contains((#[trigger] mv[j]).1),
                forall|j: int, k: int| 0 <= j < k < ni ==> mv[j].1 != mv[k].1,
                item_idv(self.items@).len() == base.len() + i,
                forall|j: int| 0 <= j < base.len() ==> item_idv(self.items@)[j] == base[j],
                forall|j: int|
                    0 <= j < i ==> item_idv(self.items@)[base.len() + j] == (#[trigger] mv[j]).1,
                self.items@.len() == old(self).items@.len() + i,
                forall|j: int|
                    0 <= j < old(self).items@.len() ==> self.items@[j] == old(self).items@[j],
                forall|j: int|
                    0 <= j < i ==> item_carried(
                        #[trigger] self.items@[old(self).items@.len() + j],
                        other.items@[j],
                        remap_view(item_map@)[j].1,
                        remap_view(dlg_map@),
                    ),
                self.palettes == old(self).palettes,
                self.sprites == old(self).sprites,
                self.dialogues == old(self).dialogues,
                self.endings == old(self).endings,
                self.rooms == old(self).rooms,
                self.tiles == old(self).tiles,
                self.variables == old(self).variables,
                crate::game::same_header(*self, *old(self)),
            decreases ni - i,
        {
            let ghost pre = item_idv(self.items@);
            let src = &other.items[i];
            let mapped = item_map[i].1.clone();
            let ghost mappedv = mapped@;
            let dlg = remap_opt(dlg_map, &src.dialogue_id);
            let it = copy_item_with(src, mapped, dlg);
            proof {
                // the precomputed identifier is still free, so it is kept
                assert(mappedv == mv[i as int].1);
                if pre.contains(mappedv) {
                    let j = choose|j: int| 0 <= j < pre.len() && pre[j] == mappedv;
                    if j < base.len() {
                        assert(base[j] == mappedv);
                        assert(base.contains(mappedv));
                    } else {
                        assert(mv[j - base.len()].1 == mappedv);
                    }
                }
                assert(!item_idv(self.items@).contains(it.id@));
            }
            let ghost before = self.items@;
            let nid = self.add_item(it);
            proof {
                assert(nid@ == mappedv);
                assert(item_idv(self.items@) =~= pre.push(mappedv));
                assert(item_carried(
                    self.items@.last(),
                    other.items@[i as int],
                    mv[i as int].1,
                    remap_view(dlg_map@),
                ));
                assert forall|j: int|
                    0 <= j < i + 1 implies item_carried(
                    #[trigger] self.items@[old(self).items@.len() + j],
                    other.items@[j],
                    mv[j].1,
                    remap_view(dlg_map@),
                ) by {
                    if j < i {
                        assert(self.items@[old(self).items@.len() + j] == before[old(
                            self,
                        ).items@.len() + j]);
                    }
                }
            }
            i = i + 1;
        }
        proof {
            let ids = item_idv(self.items@);
            assert forall|j: int| 0 <= j < ni implies ids.contains(
                resolve(mv, (#[trigger] other.items@[j]).id@),
            ) by {
                let x = other.items@[j].id@;
                lemma_remap_hit(mv, x, j);
                lemma_remap_entry(mv, x);
                let v = remap_of(mv, x)->Some_0;
                let e = choose|e: int| 0 <= e < mv.len() && (#[trigger] mv[e]).1 == v;
                assert(ids[base.len() + e] == mv[e].1);
            }
            assert forall|x: Seq<char>| base.contains(x) implies ids.contains(x) by {
                let j = choose|j: int| 0 <= j < base.len() && base[j] == x;
                assert(ids[j] == x);
            }
            if distinct_ids(base) {
                assert forall|a: int, b: int| 0 <= a < b < ids.len() implies ids[a]
                    != ids[b] by {
                    if b < base.len() {
                        assert(ids[a] == base[a]);
                        assert(ids[b] == base[b]);
                        assert(base[a] != base[b]);
                    } else if a < base.len() {
                        if ids[a] == ids[b] {
                            assert(base.contains(mv[b - base.len()].1)) by {
                                assert(base[a] == mv[b - base.len()].1);
                            }
                        }
                    } else {
                        assert(mv[a - base.len()].1 != mv[b - base.len()].1);
                    }
                }
            }
        }
    }

    /// Merge step: the identifiers the source rooms will take, against an
    /// evolving set, since exits may point at rooms declared later.
    fn precompute_room_ids(&self, other: &Game) -> (m: Vec<(String, String)>)
        ensures
            m@.len() == other.rooms@.len(),
            forall|j: int|
                0 <= j < m@.len() ==> (#[trigger] remap_view(m@)[j]).0
                    == other.rooms@[j].id@,
            forall|j: int|
                0 <= j < m@.len() ==> !room_idv(self.rooms@).contains(
                    (#[trigger] remap_view(m@)[j]).1,
                ),
            forall|j: int, k: int|
                0 <= j < k < m@.len() ==> remap_view(m@)[j].1 != remap_view(m@)[k].1,
    {
        let mut room_map: Vec<(String, String)> = Vec::new();
        let mut working = self.room_ids();
        let ghost base = room_idv(self.rooms@);
        let nr = other.rooms.len();
        let mut i: usize = 0;
        while i < nr
            invariant
                nr == other.rooms@.len(),
                i <= nr,
                room_map@.len() == i,
                base == room_idv(self.rooms@),
                views(working@).len() == base.len() + i,
                forall|j: int| 0 <= j < base.len() ==> views(working@)[j] == base[j],
                forall|j: int|
                    0 <= j < i ==> views(working@)[base.len() + j] == (#[trigger] remap_view(
                        room_map@,
                    )[j]).1,
                forall|j: int|
                    0 <= j < i ==> (#[trigger] remap_view(room_map@)[j]).0
                        == other.rooms@[j].id@,
                forall|j: int|
                    0 <= j < i ==> !base.contains((#[trigger] remap_view(room_map@)[j]).1),
                forall|j: int, k: int|
                    0 <= j < k < i ==> remap_view(room_map@)[j].1 != remap_view(room_map@)[k].1,
            decreases nr - i,
        {
            let src = &other.rooms[i];
            let nid = try_id(working.as_slice(), src.id.as_str());
            let ghost nidv = nid@;
            proof {
                assert(!views(working@).contains(nidv));
                if base.contains(nidv) {
                    let j = choose|j: int| 0 <= j < base.len() && base[j] == nidv;
                    assert(views(working@)[j] == nidv);
                    assert(views(working@).contains(nidv));
                }
                assert forall|j: int| 0 <= j < i implies remap_view(room_map@)[j].1
                    != nidv by {
                    if remap_view(room_map@)[j].1 == nidv {
                        assert(views(working@)[base.len() + j] == nidv);
                        assert(views(working@).contains(nidv));
                    }
                }
            }
            let ghost wpre = views(working@);
            let ghost mpre = remap_view(room_map@);
            working.push(nid.clone());
            room_map.push((src.id.clone(), nid));
            proof {
                assert(views(working@) =~= wpre.push(nidv));
                assert(remap_view(room_map@) =~= mpre.push((src.id@, nidv)));
            }
            i = i + 1;
        }
        room_map
    }

    /// Merge step: rooms, each under its precomputed identifier, every
    /// reference pushed through the remap tables.
    #[verifier::rlimit(100)]
    #[verifier::spinoff_prover]
    fn insert_rooms(
        &mut self,
        other: &Game,
        pal_map: &Vec<(String, String)>,
        tile_map: &Vec<(String, String)>,
        item_map: &Vec<(String, String)>,
        dlg_map: &Vec<(String, String)>,
        end_map: &Vec<(String, String)>,
        room_map: &Vec<(String, String)>,
    )
        requires
            room_map@.len() == other.rooms@.len(),
            forall|j: int|
                0 <= j < room_map@.len() ==> (#[trigger] remap_view(room_map@)[j]).0
                    == other.rooms@[j].id@,
            forall|j: int|
                0 <= j < room_map@.len() ==> !room_idv(old(self).rooms@).contains(
                    (#[trigger] remap_view(room_map@)[j]).1,
                ),
            forall|j: int, k: int|
                0 <= j < k < room_map@.len() ==> remap_view(room_map@)[j].1 != remap_view(
                    room_map@,
                )[k].1,
        ensures
            distinct_ids(room_idv(old(self).rooms@)) ==> distinct_ids(
                room_idv(final(self).rooms@),
            ),
            forall|j: int|
                0 <= j < other.rooms@.len() ==> room_idv(final(self).rooms@).contains(
                    resolve(remap_view(room_map@), (#[trigger] other.rooms@[j]).id@),
                ),
            forall|x: Seq<char>|
                room_idv(old(self).rooms@).contains(x) ==> room_idv(
                    final(self).rooms@,
                ).contains(x),
            final(self).rooms@.len() == old(self).rooms@.len() + other.rooms@.len(),
            forall|j: int|
                0 <= j < old(self).rooms@.len() ==> final(self).rooms@[j] == old(self).rooms@[j],
            forall|j: int|
                0 <= j < other.rooms@.len() ==> room_rewritten(
                    #[trigger] final(self).rooms@[old(self).rooms@.len() + j],
                    other.rooms@[j],
                    remap_view(pal_map@),
                    remap_view(tile_map@),
                    remap_view(item_map@),
                    remap_view(dlg_map@),
                    remap_view(end_map@),
                    remap_view(room_map@),
                ),
            forall|j: int|
                0 <= j < other.rooms@.len() ==> (#[trigger] final(self).rooms@[old(
                    self,
                ).rooms@.len() + j]).id@ == remap_view(room_map@)[j].1,
            final(self).palettes == old(self).palettes,
            final(self).sprites == old(self).sprites,
            final(self).dialogues == old(self).dialogues,
            final(self).endings == old(self).endings,
            final(self).items == old(self).items,
            final(self).tiles == old(self).tiles,
            final(self).variables == old(self).variables,
            crate::game::same_header(*final(self), *old(self)),
    {
        let ghost base = room_idv(old(self).rooms@);
        let ghost mv = remap_view(room_map@);
        let nr = other.rooms.len();
        let mut i: usize = 0;
        while i < nr
            invariant
                nr == other.rooms@.len(),
                i <= nr,
                mv == remap_view(room_map@),
                room_map@.len() == nr,
                base == room_idv(old(self).rooms@),
                forall|j: int| 0 <= j < nr ==> (#[trigger] mv[j]).0 == other.rooms@[j].id@,
                forall|j: int| 0 <= j < nr ==> !base.contains((#[trigger] mv[j]).1),
                forall|j: int, k: int| 0 <= j < k < nr ==> mv[j].1 != mv[k].1,
                room_idv(self.rooms@).len() == base.len() + i,
                forall|j: int| 0 <= j < base.len() ==> room_idv(self.rooms@)[j] == base[j],
                forall|j: int|
                    0 <= j < i ==> room_idv(self.rooms@)[base.len() + j] == (#[trigger] mv[j]).1,
                forall|j: int|
                    0 <= j < i ==> (#[trigger] self.rooms@[old(self).rooms@.len() + j]).id@
                        == mv[j].1,
                self.rooms@.len() == old(self).rooms@.len() + i,
                forall|j: int|
                    0 <= j < old(self).rooms@.len() ==> self.rooms@[j] == old(self).rooms@[j],
                forall|j: int|
                    0 <= j < i ==> room_rewritten(
                        #[trigger] self.rooms@[old(self).rooms@.len() + j],
                        other.rooms@[j],
                        remap_view(pal_map@),
                        remap_view(tile_map@),
                        remap_view(item_map@),
                        remap_view(dlg_map@),
                        remap_view(end_map@),
                        remap_view(room_map@),
                    ),
                self.palettes == old(self).palettes,
                self.sprites == old(self).sprites,
                self.dialogues == old(self).dialogues,
                self.endings == old(self).endings,
                self.items == old(self).items,
                self.tiles == old(self).tiles,
                self.variables == old(self).variables,
                crate::game::same_header(*self, *old(self)),
            decreases nr - i,
        {
            let ghost pre = room_idv(self.rooms@);
            let src = &other.rooms[i];
            let room = rewrite_room(src, room_map[i].1.clone(), pal_map, tile_map, item_map,
                dlg_map, end_map, room_map);
            let ghost mappedv = room.id@;
            proof {
                // the precomputed identifier is still free, so it is kept
                assert(mappedv == mv[i as int].1);
                if pre.contains(mappedv) {
                    let j = choose|j: int| 0 <= j < pre.len() && pre[j] == mappedv;
                    if j < base.len() {
                        assert(base[j] == mappedv);
                        assert(base.contains(mappedv));
                    } else {
                        assert(mv[j - base.len()].1 == mappedv);
                    }
                }
                assert(!room_idv(self.rooms@).contains(room.id@));
            }
            let nid = self.add_room(room);
            proof {
                assert(nid@ == mappedv);
                assert(room_idv(self.rooms@) =~= pre.push(mappedv));
            }
            i = i + 1;
        }
        proof {
            let ids = room_idv(self.rooms@);
            assert forall|j: int| 0 <= j < nr implies ids.contains(
                resolve(mv, (#[trigger] other.rooms@[j]).id@),
            ) by {
                let x = other.rooms@[j].id@;
                lemma_remap_hit(mv, x, j);
                lemma_remap_entry(mv, x);
                let v = remap_of(mv, x)->Some_0;
                let e = choose|e: int| 0 <= e < mv.len() && (#[trigger] mv[e]).1 == v;
                assert(ids[base.len() + e] == mv[e].1);
            }
            assert forall|x: Seq<char>| base.contains(x) implies ids.contains(x) by {
                let j = choose|j: int| 0 <= j < base.len() && base[j] == x;
                assert(ids[j] == x);
            }
            if distinct_ids(base) {
                assert forall|a: int, b: int| 0 <= a < b < ids.len() implies ids[a]
                    != ids[b] by {
                    if b < base.len() {
                        assert(ids[a] == base[a]);
                        assert(ids[b] == base[b]);
                        assert(base[a] != base[b]);
                    } else if a < base.len() {
                        if ids[a] == ids[b] {
                            assert(base.contains(mv[b - base.len()].1)) by {
                                assert(base[a] == mv[b - base.len()].1);
                            }
                        }
                    } else {
                        assert(mv[a - base.len()].1 != mv[b - base.len()].1);
                    }
                }
            }
        }
    }

    /// Merge step: sprites, a second avatar demoted to an ordinary
    /// identifier before allocation, so the number of avatars never
    /// changes.
    #[verifier::rlimit(100)]
    #[verifier::spinoff_prover]
    fn merge_sprites(
        &mut self,
        other: &Game,
        dlg_map: &Vec<(String, String)>,
        room_map: &Vec<(String, String)>,
    )
        ensures
            distinct_ids(sprite_idv(old(self).sprites@)) ==> distinct_ids(
                sprite_idv(final(self).sprites@),
            ),
            count_id(sprite_idv(final(self).sprites@), "A"@) == count_id(
                sprite_idv(old(self).sprites@),
                "A"@,
            ),
            final(self).sprites@.len() == old(self).sprites@.len() + other.sprites@.len(),
            forall|j: int|
                0 <= j < old(self).sprites@.len() ==> final(self).sprites@[j] == old(
                    self,
                ).sprites@[j],
            forall|j: int|
                0 <= j < other.sprites@.len() ==> sprite_carried(
                    #[trigger] final(self).sprites@[old(self).sprites@.len() + j],
                    other.sprites@[j],
                    remap_view(dlg_map@),
                    remap_view(room_map@),
                ),
            final(self).palettes == old(self).palettes,
            final(self).rooms == old(self).rooms,
            final(self).dialogues == old(self).dialogues,
            final(self).endings == old(self).endings,
            final(self).items == old(self).items,
            final(self).tiles == old(self).tiles,
            final(self).variables == old(self).variables,
            crate::game::same_header(*final(self), *old(self)),
    {
        let ns = other.sprites.len();
        let mut i: usize = 0;
        while i < ns
            invariant
                ns == other.sprites@.len(),
                i <= ns,
                distinct_ids(sprite_idv(old(self).sprites@)) ==> distinct_ids(
                    sprite_idv(self.sprites@),
                ),
                count_id(sprite_idv(self.sprites@), "A"@) == count_id(
                    sprite_idv(old(self).sprites@),
                    "A"@,
                ),
                self.sprites@.len() == old(self).sprites@.len() + i,
                forall|j: int|
                    0 <= j < old(self).sprites@.len() ==> self.sprites@[j] == old(
                        self,
                    ).sprites@[j],
                forall|j: int|
                    0 <= j < i ==> sprite_carried(
                        #[trigger] self.sprites@[old(self).sprites@.len() + j],
                        other.sprites@[j],
                        remap_view(dlg_map@),
                        remap_view(room_map@),
                    ),
                self.palettes == old(self).palettes,
                self.rooms == old(self).rooms,
                self.dialogues == old(self).dialogues,
                self.endings == old(self).endings,
                self.items == old(self).items,
                self.tiles == old(self).tiles,
                self.variables == old(self).variables,
                crate::game::same_header(*self, *old(self)),
            decreases ns - i,
        {
            let ghost pre = sprite_idv(self.sprites@);
            let ghost sprites_before = self.sprites@;
            let src = &other.sprites[i];
            let forced_id = if str_eq(src.id.as_str(), "A") {
                String::from_str("a")
            } else {
                src.id.clone()
            };
            proof {
                reveal_strlit("A");
                reveal_strlit("a");
                assert('A' as u32 == 65 && 'a' as u32 == 97);
                if "a"@ == "A"@ {
                    assert("a"@[0] == "A"@[0]);
                }
                assert(forced_id@ != "A"@);
            }
            let dlg = remap_opt(dlg_map, &src.dialogue_id);
            let room = remap_opt(room_map, &src.room_id);
            let sp = copy_sprite_with(src, forced_id, dlg, room);
            let ghost desired = sp.id@;
            let nid = self.add_sprite(sp);
            proof {
                assert(sprite_idv(self.sprites@) =~= pre.push(nid@));
                if distinct_ids(sprite_idv(old(self).sprites@)) {
                    lemma_distinct_push(pre, nid@);
                }
                assert(nid@ != "A"@) by {
                    if nid@ == desired {
                    } else {
                        lemma_alloc_not_avatar(pre);
                    }
                }
                lemma_count_push(pre, nid@, "A"@);
                assert forall|j: int| 0 <= j < old(self).sprites@.len() implies self.sprites@[j]
                    == old(self).sprites@[j] by {
                    assert(self.sprites@[j] == sprites_before[j]);
                }
                assert(self.sprites@.last().id@ == nid@);
                assert(sprite_carried(
                    self.sprites@.last(),
                    other.sprites@[i as int],
                    remap_view(dlg_map@),
                    remap_view(room_map@),
                ));
                assert forall|j: int|
                    0 <= j < i + 1 implies sprite_carried(
                    #[trigger] self.sprites@[old(self).sprites@.len() + j],
                    other.sprites@[j],
                    remap_view(dlg_map@),
                    remap_view(room_map@),
                ) by {
                    if j < i {
                        assert(self.sprites@[old(self).sprites@.len() + j] == sprites_before[old(
                            self,
                        ).sprites@.len() + j]);
                    }
                }
            }
            i = i + 1;
        }
    }
}

/// A dialogue body with every `item "<old>"` reference renamed to the
/// item's post-merge identifier.
fn rewrite_item_references(contents: &String, item_map: &Vec<(String, String)>) -> (r: String)
    ensures
        r@ == rewrite_items_spec(contents@, remap_view(item_map@), 0),
{
    let ghost mv = remap_view(item_map@);
    let mut out = contents.clone();
    let n = item_map.len();
    let mut i: usize = 0;
    while i < n
        invariant
            mv == remap_view(item_map@),
            n == mv.len(),
            i <= n,
            rewrite_items_spec(contents@, mv, 0) == rewrite_items_spec(out@, mv, i as int),
        decreases n - i,
    {
        proof {
            reveal_strlit("item \"");
            reveal_strlit("\"");
        }
        let entry = &item_map[i];
        let ghost out0 = out@;
        proof {
            assert(mv[i as int] == (entry.0@, entry.1@));
        }
        if !str_eq(entry.0.as_str(), entry.1.as_str()) {
            let mut pattern = String::from_str("item \"");
            pattern.append(entry.0.as_str());
            pattern.append("\"");
            let mut replacement = String::from_str("item \"");
            replacement.append(entry.1.as_str());
            replacement.append("\"");
            proof {
                assert(pattern@ =~= item_pat(mv[i as int].0));
                assert(replacement@ =~= item_pat(mv[i as int].1));
            }
            out = crate::strutil::replace_all(out.as_str(), pattern.as_str(), replacement.as_str());
            proof {
                assert(mv[i as int].0 != mv[i as int].1);
                assert(rewrite_items_spec(out0, mv, i as int) == rewrite_items_spec(
                    out@,
                    mv,
                    i as int + 1,
                ));
            }
        } else {
            proof {
                assert(mv[i as int].0 == mv[i as int].1);
                assert(rewrite_items_spec(out0, mv, i as int) == rewrite_items_spec(
                    out@,
                    mv,
                    i as int + 1,
                ));
            }
        }
        i = i + 1;
    }
    proof {
        assert(rewrite_items_spec(out@, mv, n as int) == out@);
    }
    out
}

/// Is `r` the room `s` carried across/// Is `r` the room `s` carried across: the same layout, each reference
/// pushed through its remap table?
pub open spec fn room_rewritten(
    r: Room,
    s: Room,
    pal: Seq<(Seq<char>, Seq<char>)>,
    tile: Seq<(Seq<char>, Seq<char>)>,
    item: Seq<(Seq<char>, Seq<char>)>,
    dlg: Seq<(Seq<char>, Seq<char>)>,
    end: Seq<(Seq<char>, Seq<char>)>,
    roomm: Seq<(Seq<char>, Seq<char>)>,
) -> bool {
    &&& (match s.palette_id {
        Some(p) => (r.palette_id matches Some(w) && w@ == resolve(pal, p@)),
        None => r.palette_id is None,
    })
    &&& r.tiles@.len() == s.tiles@.len()
    &&& (forall|g: int|
        0 <= g < s.tiles@.len() ==> (#[trigger] r.tiles@[g])@ == resolve(tile, s.tiles@[g]@))
    &&& r.items@.len() == s.items@.len()
    &&& (forall|k: int|
        0 <= k < s.items@.len() ==> (#[trigger] r.items@[k]).id@ == resolve(
            item,
            s.items@[k].id@,
        ) && r.items@[k].position == s.items@[k].position)
    &&& r.exits@.len() == s.exits@.len()
    &&& (forall|k: int|
        0 <= k < s.exits@.len() ==> {
            let e = #[trigger] r.exits@[k];
            let x = s.exits@[k];
            e.position == x.position && e.exit.room_id@ == resolve(roomm, x.exit.room_id@)
                && e.exit.position == x.exit.position && e.exit.effect == x.exit.effect
                && e.transition == x.transition && (match x.dialogue_id {
                Some(d) => (e.dialogue_id matches Some(w) && w@ == resolve(dlg, d@)),
                None => e.dialogue_id is None,
            })
        })
    &&& r.endings@.len() == s.endings@.len()
    &&& (forall|k: int|
        0 <= k < s.endings@.len() ==> (#[trigger] r.endings@[k]).id@ == resolve(
            end,
            s.endings@[k].id@,
        ) && r.endings@[k].position == s.endings@[k].position)
}

/// A room carried across a merge: the new identifier, every reference
/// pushed through the remap tables, everything else kept.
#[verifier::rlimit(100)]
#[verifier::spinoff_prover]
pub(crate) fn rewrite_room(
    src: &Room,
    id: String,
    pal_map: &Vec<(String, String)>,
    tile_map: &Vec<(String, String)>,
    item_map: &Vec<(String, String)>,
    dlg_map: &Vec<(String, String)>,
    end_map: &Vec<(String, String)>,
    room_map: &Vec<(String, String)>,
) -> (r: Room)
    ensures
        r.id == id,
        room_rewritten(
            r,
            *src,
            remap_view(pal_map@),
            remap_view(tile_map@),
            remap_view(item_map@),
            remap_view(dlg_map@),
            remap_view(end_map@),
            remap_view(room_map@),
        ),
{
    let palette_id = remap_opt(pal_map, &src.palette_id);
    let mut tiles: Vec<String> = Vec::new();
    let ntg = src.tiles.len();
    let mut g: usize = 0;
    while g < ntg
        invariant
            ntg == src.tiles@.len(),
            g <= ntg,
            tiles@.len() == g,
            forall|q: int|
                0 <= q < g ==> (#[trigger] tiles@[q])@ == resolve(
                    remap_view(tile_map@),
                    src.tiles@[q]@,
                ),
        decreases ntg - g,
    {
        tiles.push(remap_or_same(tile_map, &src.tiles[g]));
        g = g + 1;
    }
    let mut items: Vec<Instance> = Vec::new();
    let nit = src.items.len();
    let mut k: usize = 0;
    while k < nit
        invariant
            nit == src.items@.len(),
            k <= nit,
            items@.len() == k,
            forall|q: int|
                0 <= q < k ==> (#[trigger] items@[q]).id@ == resolve(
                    remap_view(item_map@),
                    src.items@[q].id@,
                ) && items@[q].position == src.items@[q].position,
        decreases nit - k,
    {
        let inst = &src.items[k];
        items.push(Instance { position: inst.position, id: remap_or_same(item_map, &inst.id) });
        k = k + 1;
    }
    let mut exits: Vec<ExitInstance> = Vec::new();
    let nex = src.exits.len();
    let mut k2: usize = 0;
    while k2 < nex
        invariant
            nex == src.exits@.len(),
            k2 <= nex,
            exits@.len() == k2,
            forall|q: int|
                0 <= q < k2 ==> {
                    let e = #[trigger] exits@[q];
                    let s = src.exits@[q];
                    e.position == s.position && e.exit.room_id@ == resolve(
                        remap_view(room_map@),
                        s.exit.room_id@,
                    ) && e.exit.position == s.exit.position && e.exit.effect == s.exit.effect
                        && e.transition == s.transition && (match s.dialogue_id {
                        Some(d) => (e.dialogue_id matches Some(w) && w@ == resolve(
                            remap_view(dlg_map@),
                            d@,
                        )),
                        None => e.dialogue_id is None,
                    })
                },
        decreases nex - k2,
    {
        let e = &src.exits[k2];
        exits.push(
            ExitInstance {
                position: e.position,
                exit: Exit {
                    room_id: remap_or_same(room_map, &e.exit.room_id),
                    position: e.exit.position,
                    effect: e.exit.effect,
                },
                transition: e.transition,
                dialogue_id: remap_opt(dlg_map, &e.dialogue_id),
            },
        );
        k2 = k2 + 1;
    }
    let mut endings: Vec<Instance> = Vec::new();
    let nen = src.endings.len();
    let mut k3: usize = 0;
    while k3 < nen
        invariant
            nen == src.endings@.len(),
            k3 <= nen,
            endings@.len() == k3,
            forall|q: int|
                0 <= q < k3 ==> (#[trigger] endings@[q]).id@ == resolve(
                    remap_view(end_map@),
                    src.endings@[q].id@,
                ) && endings@[q].position == src.endings@[q].position,
        decreases nen - k3,
    {
        let inst = &src.endings[k3];
        endings.push(Instance { position: inst.position, id: remap_or_same(end_map, &inst.id) });
        k3 = k3 + 1;
    }
    let walls = match &src.walls {
        Some(w) => Some(crate::copy::copy_strings(w)),
        None => None,
    };
    Room { id, palette_id, name: copy_opt_string(&src.name), tiles, items, exits, endings, walls }
}

} // verus!
