//! The dedupe engine: structurally identical tiles are folded into one
//! surviving entry, a tile that equals the canonical background is folded
//! into the reserved identifier `0`, and every room grid is rewritten to
//! the surviving identifiers.

use crate::copy::copy_tile_with_id;
use crate::game::{tile_idv, Game};
use crate::merge::{distinct_ids, remap_view, resolve, rewrite_room, room_rewritten};
use crate::room::Room;
use crate::tile::{tiles_alike, Tile};
use vstd::prelude::*;

verus! {

/// The canonical background frame: sixty-four dark pixels.
pub open spec fn bg_frame() -> Seq<u8> {
    Seq::new(64, |i: int| 0u8)
}

/// Is this tile structurally the canonical background tile: no wall flag,
/// no colour, one all-dark frame?
pub open spec fn is_background(t: Tile) -> bool {
    &&& t.wall is None
    &&& t.colour_id is None
    &&& t.animation_frames@.map_values(|im: crate::image::Image| im.pixels@) == seq![bg_frame()]
}

/// What dedupe does to the rooms: every room is kept under its own
/// identifier with its grid pushed through the tile map, whose targets
/// are the reserved `0` or surviving tiles.
pub open spec fn dedupe_mapped(t0: Game, fin: Game, m: Seq<(Seq<char>, Seq<char>)>) -> bool {
    &&& fin.rooms@.len() == t0.rooms@.len()
    &&& (forall|r: int|
        0 <= r < t0.rooms@.len() ==> room_rewritten(
            #[trigger] fin.rooms@[r],
            t0.rooms@[r],
            Seq::<(Seq<char>, Seq<char>)>::empty(),
            m,
            Seq::<(Seq<char>, Seq<char>)>::empty(),
            Seq::<(Seq<char>, Seq<char>)>::empty(),
            Seq::<(Seq<char>, Seq<char>)>::empty(),
            Seq::<(Seq<char>, Seq<char>)>::empty(),
        ) && fin.rooms@[r].id@ == t0.rooms@[r].id@)
    &&& (forall|e: int|
        0 <= e < m.len() ==> ((#[trigger] m[e]).1 == "0"@ || tile_idv(fin.tiles@).contains(
            m[e].1,
        )))
}

/// A room maps to itself through empty tables.
pub proof fn lemma_room_rewritten_refl(r: Room)
    ensures
        room_rewritten(
            r,
            r,
            Seq::<(Seq<char>, Seq<char>)>::empty(),
            Seq::<(Seq<char>, Seq<char>)>::empty(),
            Seq::<(Seq<char>, Seq<char>)>::empty(),
            Seq::<(Seq<char>, Seq<char>)>::empty(),
            Seq::<(Seq<char>, Seq<char>)>::empty(),
            Seq::<(Seq<char>, Seq<char>)>::empty(),
        ),
{
    let e = Seq::<(Seq<char>, Seq<char>)>::empty();
    assert(forall|x: Seq<char>| resolve(e, x) == x);
}

/// Decides `is_background`.
fn background_check(t: &Tile) -> (r: bool)
    ensures
        r == is_background(*t),
{
    let wall_none = match &t.wall {
        None => true,
        Some(_) => false,
    };
    let colour_none = match &t.colour_id {
        None => true,
        Some(_) => false,
    };
    if !wall_none || !colour_none {
        proof {
            assert(!is_background(*t));
        }
        return false;
    }
    if t.animation_frames.len() != 1 {
        proof {
            let m = t.animation_frames@.map_values(|im: crate::image::Image| im.pixels@);
            assert(m.len() == t.animation_frames@.len());
        }
        return false;
    }
    let frame = &t.animation_frames[0];
    let ghost m = t.animation_frames@.map_values(|im: crate::image::Image| im.pixels@);
    proof {
        assert(m[0] == frame.pixels@);
    }
    if frame.pixels.len() != 64 {
        proof {
            if m == seq![bg_frame()] {
                assert(m[0] == bg_frame());
                assert(m[0] == frame.pixels@);
                assert(bg_frame().len() == 64);
            }
        }
        return false;
    }
    let mut i: usize = 0;
    while i < 64
        invariant
            frame.pixels@.len() == 64,
            i <= 64,
            m[0] == frame.pixels@,
            m == t.animation_frames@.map_values(|im: crate::image::Image| im.pixels@),
            forall|j: int| 0 <= j < i ==> frame.pixels@[j] == 0,
        decreases 64 - i,
    {
        if frame.pixels[i] != 0 {
            proof {
                if m == seq![bg_frame()] {
                    assert(m[0] == bg_frame());
                    assert(m[0] == frame.pixels@);
                    assert(frame.pixels@[i as int] == bg_frame()[i as int]);
                    assert(bg_frame()[i as int] == 0);
                }
            }
            return false;
        }
        i = i + 1;
    }
    proof {
        assert(frame.pixels@ =~= bg_frame());
        assert(m =~= seq![bg_frame()]);
    }
    true
}

impl Game {
    /// Folds structurally identical tiles together: a background-equal
    /// tile maps to the reserved `0`, later duplicates map to the first
    /// survivor, and every room grid is rewritten through the resulting
    /// map.  Afterwards no two tiles are structurally equal and none is
    /// the background, so running this twice changes nothing more: a
    /// document that is already in that state comes back untouched.
    pub fn dedupe_tiles(&mut self)
        ensures
            forall|i: int, j: int|
                0 <= i < j < final(self).tiles@.len() ==> !tiles_alike(
                    final(self).tiles@[i],
                    final(self).tiles@[j],
                ),
            forall|i: int| 0 <= i < final(self).tiles@.len() ==> !is_background(
                #[trigger] final(self).tiles@[i],
            ),
            distinct_ids(tile_idv(old(self).tiles@)) ==> distinct_ids(
                tile_idv(final(self).tiles@),
            ),
            !tile_idv(old(self).tiles@).contains("0"@) ==> !tile_idv(
                final(self).tiles@,
            ).contains("0"@),
            exists|m: Seq<(Seq<char>, Seq<char>)>| #[trigger] dedupe_mapped(
                *old(self),
                *final(self),
                m,
            ),
            ((forall|i: int, j: int|
                0 <= i < j < old(self).tiles@.len() ==> !tiles_alike(
                    old(self).tiles@[i],
                    old(self).tiles@[j],
                )) && (forall|i: int|
                0 <= i < old(self).tiles@.len() ==> !is_background(
                    #[trigger] old(self).tiles@[i],
                ))) ==> *final(self) == *old(self),
            final(self).palettes == old(self).palettes,
            final(self).sprites == old(self).sprites,
            final(self).items == old(self).items,
            final(self).dialogues == old(self).dialogues,
            final(self).endings == old(self).endings,
            final(self).variables == old(self).variables,
            crate::game::same_header(*final(self), *old(self)),
    {
        proof {
            reveal_strlit("0");
        }
        let n = self.tiles.len();
        let mut map: Vec<(String, String)> = Vec::new();
        let mut survivors: Vec<usize> = Vec::new();
        let mut any_drop = false;
        let mut i: usize = 0;
        while i < n
            invariant
                n == self.tiles@.len(),
                i <= n,
                forall|a: int|
                    0 <= a < survivors@.len() ==> 0 <= #[trigger] survivors@[a] < i,
                forall|a: int, b: int|
                    0 <= a < b < survivors@.len() ==> survivors@[a] < survivors@[b],
                forall|a: int, b: int|
                    0 <= a < b < survivors@.len() ==> !tiles_alike(
                        self.tiles@[survivors@[a] as int],
                        self.tiles@[survivors@[b] as int],
                    ),
                forall|a: int|
                    0 <= a < survivors@.len() ==> !is_background(
                        self.tiles@[#[trigger] survivors@[a] as int],
                    ),
                !any_drop ==> map@.len() == 0 && survivors@.len() == i && (forall|a: int|
                    0 <= a < i ==> survivors@[a] == a),
                forall|e: int|
                    0 <= e < map@.len() ==> ((#[trigger] remap_view(map@)[e]).1 == "0"@ || (
                    exists|a: int|
                        0 <= a < survivors@.len() && remap_view(map@)[e].1 == self.tiles@[
                            #[trigger] survivors@[a] as int].id@)),
                any_drop ==> ((exists|a: int| 0 <= a < n && is_background(#[trigger] self.tiles@[a]))
                    || (exists|a: int, b: int|
                    0 <= a < b < n && tiles_alike(self.tiles@[a], self.tiles@[b]))),
            decreases n - i,
        {
            let t = &self.tiles[i];
            let ghost mpre = remap_view(map@);
            let ghost spre = survivors@;
            if background_check(t) {
                proof {
                    reveal_strlit("0");
                }
                map.push((t.id.clone(), String::from_str("0")));
                any_drop = true;
                proof {
                    assert(is_background(self.tiles@[i as int]));
                    assert(remap_view(map@) =~= mpre.push((self.tiles@[i as int].id@, "0"@)));
                    assert forall|e: int| 0 <= e < remap_view(map@).len() implies ((
                    #[trigger] remap_view(map@)[e]).1 == "0"@ || (exists|a: int|
                        0 <= a < survivors@.len() && remap_view(map@)[e].1 == self.tiles@[
                            #[trigger] survivors@[a] as int].id@)) by {
                        if e < mpre.len() {
                            assert(remap_view(map@)[e] == mpre[e]);
                        } else {
                            assert(remap_view(map@)[e].1 == "0"@);
                        }
                    }
                }
            } else {
                let ns = survivors.len();
                let mut s: usize = 0;
                let mut dup: Option<usize> = None;
                while s < ns
                    invariant
                        n == self.tiles@.len(),
                        i < n,
                        ns == survivors@.len(),
                        s <= ns,
                        forall|a: int|
                            0 <= a < survivors@.len() ==> 0 <= #[trigger] survivors@[a] < i,
                        match dup {
                            Some(d) => 0 <= d < i && tiles_alike(
                                self.tiles@[d as int],
                                self.tiles@[i as int],
                            ) && (exists|a: int|
                                0 <= a < survivors@.len() && #[trigger] survivors@[a] == d),
                            None => forall|a: int|
                                0 <= a < s ==> !tiles_alike(
                                    self.tiles@[#[trigger] survivors@[a] as int],
                                    self.tiles@[i as int],
                                ),
                        },
                    decreases ns - s,
                {
                    if self.tiles[survivors[s]] == self.tiles[i] {
                        dup = Some(survivors[s]);
                        s = ns;
                    } else {
                        s = s + 1;
                    }
                }
                match dup {
                    Some(d) => {
                        proof {
                            assert(0 <= d < i && tiles_alike(
                                self.tiles@[d as int],
                                self.tiles@[i as int],
                            ));
                        }
                        map.push((self.tiles[i].id.clone(), self.tiles[d].id.clone()));
                        any_drop = true;
                        proof {
                            assert(remap_view(map@) =~= mpre.push(
                                (self.tiles@[i as int].id@, self.tiles@[d as int].id@),
                            ));
                            let a0 = choose|a: int|
                                0 <= a < survivors@.len() && #[trigger] survivors@[a] == d;
                            assert forall|e: int| 0 <= e < remap_view(map@).len() implies ((
                            #[trigger] remap_view(map@)[e]).1 == "0"@ || (exists|a: int|
                                0 <= a < survivors@.len() && remap_view(map@)[e].1 == self.tiles@[
                                    #[trigger] survivors@[a] as int].id@)) by {
                                if e < mpre.len() {
                                    assert(remap_view(map@)[e] == mpre[e]);
                                } else {
                                    assert(remap_view(map@)[e].1 == self.tiles@[survivors@[
                                        a0] as int].id@);
                                }
                            }
                        }
                    },
                    None => {
                        survivors.push(i);
                        proof {
                            assert(survivors@ =~= spre.push(i));
                            assert forall|e: int| 0 <= e < remap_view(map@).len() implies ((
                            #[trigger] remap_view(map@)[e]).1 == "0"@ || (exists|a: int|
                                0 <= a < survivors@.len() && remap_view(map@)[e].1 == self.tiles@[
                                    #[trigger] survivors@[a] as int].id@)) by {
                                if remap_view(map@)[e].1 != "0"@ {
                                    let a = choose|a: int|
                                        0 <= a < spre.len() && remap_view(map@)[e].1
                                            == self.tiles@[#[trigger] spre[a] as int].id@;
                                    assert(survivors@[a] == spre[a]);
                                    assert(remap_view(map@)[e].1 == self.tiles@[survivors@[
                                        a] as int].id@);
                                }
                            }
                        }
                    },
                }
            }
            i = i + 1;
        }
        if !any_drop {
            proof {
                assert forall|a: int, b: int|
                    0 <= a < b < self.tiles@.len() implies !tiles_alike(
                    self.tiles@[a],
                    self.tiles@[b],
                ) by {
                    assert(survivors@[a] == a);
                    assert(survivors@[b] == b);
                }
                assert forall|a: int| 0 <= a < self.tiles@.len() implies !is_background(
                    #[trigger] self.tiles@[a],
                ) by {
                    assert(survivors@[a] == a);
                }
                let e = Seq::<(Seq<char>, Seq<char>)>::empty();
                assert(dedupe_mapped(*old(self), *self, e)) by {
                    assert forall|r: int| 0 <= r < old(self).rooms@.len() implies room_rewritten(
                        #[trigger] self.rooms@[r],
                        old(self).rooms@[r],
                        e,
                        e,
                        e,
                        e,
                        e,
                        e,
                    ) && self.rooms@[r].id@ == old(self).rooms@[r].id@ by {
                        lemma_room_rewritten_refl(self.rooms@[r]);
                    }
                }
            }
            return ;
        }
        // rebuild the tile list from the survivors, in first-seen order
        let ns2 = survivors.len();
        let mut new_tiles: Vec<Tile> = Vec::new();
        let mut p: usize = 0;
        while p < ns2
            invariant
                ns2 == survivors@.len(),
                p <= ns2,
                n == self.tiles@.len(),
                forall|a: int|
                    0 <= a < survivors@.len() ==> 0 <= #[trigger] survivors@[a] < n,
                forall|a: int, b: int|
                    0 <= a < b < survivors@.len() ==> survivors@[a] < survivors@[b],
                forall|a: int, b: int|
                    0 <= a < b < survivors@.len() ==> !tiles_alike(
                        self.tiles@[survivors@[a] as int],
                        self.tiles@[survivors@[b] as int],
                    ),
                forall|a: int|
                    0 <= a < survivors@.len() ==> !is_background(
                        self.tiles@[#[trigger] survivors@[a] as int],
                    ),
                new_tiles@.len() == p,
                forall|a: int|
                    0 <= a < p ==> tiles_alike(
                        #[trigger] new_tiles@[a],
                        self.tiles@[survivors@[a] as int],
                    ) && new_tiles@[a].id@ == self.tiles@[survivors@[a] as int].id@,
            decreases ns2 - p,
        {
            let idx = survivors[p];
            let src = &self.tiles[idx];
            new_tiles.push(copy_tile_with_id(src, src.id.clone()));
            p = p + 1;
        }
        proof {
            assert forall|a: int, b: int| 0 <= a < b < new_tiles@.len() implies !tiles_alike(
                new_tiles@[a],
                new_tiles@[b],
            ) by {
                assert(tiles_alike(new_tiles@[a], self.tiles@[survivors@[a] as int]));
                assert(tiles_alike(new_tiles@[b], self.tiles@[survivors@[b] as int]));
                assert(!tiles_alike(
                    self.tiles@[survivors@[a] as int],
                    self.tiles@[survivors@[b] as int],
                ));
            }
            assert forall|a: int| 0 <= a < new_tiles@.len() implies !is_background(
                #[trigger] new_tiles@[a],
            ) by {
                assert(tiles_alike(new_tiles@[a], self.tiles@[survivors@[a] as int]));
            }
            if distinct_ids(tile_idv(old(self).tiles@)) {
                assert forall|a: int, b: int|
                    0 <= a < b < tile_idv(new_tiles@).len() implies tile_idv(new_tiles@)[a]
                    != tile_idv(new_tiles@)[b] by {
                    assert(tile_idv(new_tiles@)[a] == self.tiles@[survivors@[a] as int].id@);
                    assert(tile_idv(new_tiles@)[b] == self.tiles@[survivors@[b] as int].id@);
                    assert(tile_idv(old(self).tiles@)[survivors@[a] as int] == self.tiles@[
                        survivors@[a] as int].id@);
                    assert(tile_idv(old(self).tiles@)[survivors@[b] as int] == self.tiles@[
                        survivors@[b] as int].id@);
                }
            }
        }
        proof {
            if !tile_idv(old(self).tiles@).contains("0"@) && tile_idv(new_tiles@).contains(
                "0"@,
            ) {
                let a = choose|a: int|
                    0 <= a < tile_idv(new_tiles@).len() && tile_idv(new_tiles@)[a] == "0"@;
                assert(new_tiles@[a].id@ == "0"@);
                assert(self.tiles@[survivors@[a] as int].id@ == "0"@);
                assert(tile_idv(old(self).tiles@)[survivors@[a] as int] == "0"@);
                assert(tile_idv(old(self).tiles@).contains("0"@));
            }
        }
        let ghost mapv = remap_view(map@);
        proof {
            // each map target now lands on a surviving tile or the background
            assert forall|e2: int| 0 <= e2 < mapv.len() implies ((#[trigger] mapv[e2]).1 == "0"@
                || tile_idv(new_tiles@).contains(mapv[e2].1)) by {
                if mapv[e2].1 != "0"@ {
                    let a = choose|a: int|
                        0 <= a < survivors@.len() && mapv[e2].1 == self.tiles@[
                            #[trigger] survivors@[a] as int].id@;
                    assert(tile_idv(new_tiles@)[a] == new_tiles@[a].id@);
                    assert(new_tiles@[a].id@ == self.tiles@[survivors@[a] as int].id@);
                    assert(tile_idv(new_tiles@).contains(mapv[e2].1));
                }
            }
        }
        self.tiles = new_tiles;
        // rewrite every room grid through the identifier map
        let empty_map: Vec<(String, String)> = Vec::new();
        let ghost ev = Seq::<(Seq<char>, Seq<char>)>::empty();
        proof {
            assert(remap_view(empty_map@) =~= ev);
        }
        let nr = self.rooms.len();
        let mut new_rooms: Vec<Room> = Vec::new();
        let mut r: usize = 0;
        while r < nr
            invariant
                nr == self.rooms@.len(),
                self.rooms@ == old(self).rooms@,
                mapv == remap_view(map@),
                remap_view(empty_map@) == ev,
                ev == Seq::<(Seq<char>, Seq<char>)>::empty(),
                r <= nr,
                new_rooms@.len() == r,
                forall|q: int|
                    0 <= q < r ==> room_rewritten(
                        #[trigger] new_rooms@[q],
                        old(self).rooms@[q],
                        ev,
                        mapv,
                        ev,
                        ev,
                        ev,
                        ev,
                    ) && new_rooms@[q].id@ == old(self).rooms@[q].id@,
            decreases nr - r,
        {
            let src = &self.rooms[r];
            let rewritten = rewrite_room(
                src,
                src.id.clone(),
                &empty_map,
                &map,
                &empty_map,
                &empty_map,
                &empty_map,
                &empty_map,
            );
            new_rooms.push(rewritten);
            r = r + 1;
        }
        self.rooms = new_rooms;
        proof {
            assert(dedupe_mapped(*old(self), *self, mapv));
        }
    }
}

} // verus!
