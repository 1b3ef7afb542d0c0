//! Tiles: an identifier, an animation, and optional name, wall flag and
//! colour.  Two tiles are equal when their wall flag, animation and colour
//! agree; the identifier is deliberately left out, which is what tile
//! deduplication keys on.

use crate::error::Error;
use crate::frames::{frames_text, AnimationFrames};
use crate::image::{grid_pixels, img_dim, img_ok, Image};
use crate::numstr::{dec_str, u64_text, uint_shape, uint_val};
use crate::opt_line;
use crate::strutil::{
    lines_spec, rest_of, split_lines, starts_with, starts_with_spec, str_eq, views, word_and_rest,
    word_of,
};
use vstd::prelude::*;

verus! {

/// A tile entry.
#[derive(Clone, Debug, Eq)]
pub struct Tile {
    pub id: String,
    pub name: Option<String>,
    /// `Some(false)` and `None` mean the same but serialize differently,
    /// so the distinction is kept.
    pub wall: Option<bool>,
    pub animation_frames: Vec<Image>,
    pub colour_id: Option<u64>,
}

impl PartialEq for Tile {
    fn eq(&self, other: &Self) -> (r: bool) {
        let wall_eq = match (&self.wall, &other.wall) {
            (Some(a), Some(b)) => *a == *b,
            (None, None) => true,
            _ => false,
        };
        if !wall_eq {
            return false;
        }
        let colour_eq = match (&self.colour_id, &other.colour_id) {
            (Some(a), Some(b)) => *a == *b,
            (None, None) => true,
            _ => false,
        };
        if !colour_eq {
            return false;
        }
        let n = self.animation_frames.len();
        if n != other.animation_frames.len() {
            proof {
                let ma = self.animation_frames@.map_values(|im: Image| im.pixels@);
                let mb = other.animation_frames@.map_values(|im: Image| im.pixels@);
                assert(ma.len() == self.animation_frames@.len());
                assert(mb.len() == other.animation_frames@.len());
            }
            return false;
        }
        let mut i: usize = 0;
        while i < n
            invariant
                n == self.animation_frames@.len(),
                n == other.animation_frames@.len(),
                i <= n,
                forall|j: int|
                    0 <= j < i ==> self.animation_frames@[j].pixels@
                        == other.animation_frames@[j].pixels@,
            decreases n - i,
    {
            if !(self.animation_frames[i] == other.animation_frames[i]) {
                proof {
                    let ma = self.animation_frames@.map_values(|im: Image| im.pixels@);
                    let mb = other.animation_frames@.map_values(|im: Image| im.pixels@);
                    if ma == mb {
                        assert(ma[i as int] == mb[i as int]);
                    }
                }
                return false;
            }
            i = i + 1;
        }
        proof {
            let ma = self.animation_frames@.map_values(|im: Image| im.pixels@);
            let mb = other.animation_frames@.map_values(|im: Image| im.pixels@);
            assert(ma =~= mb);
        }
        true
    }
}

impl vstd::std_specs::cmp::PartialEqSpecImpl for Tile {
    open spec fn obeys_eq_spec() -> bool {
        true
    }

    open spec fn eq_spec(&self, other: &Self) -> bool {
        tiles_alike(*self, *other)
    }
}

/// Structural tile equality: wall flag, animation and colour, identifier
/// and name left out.
pub open spec fn tiles_alike(a: Tile, b: Tile) -> bool {
    &&& a.wall == b.wall
    &&& a.colour_id == b.colour_id
    &&& a.animation_frames@.map_values(|im: Image| im.pixels@) == b.animation_frames@.map_values(
        |im: Image| im.pixels@,
    )
}

/// What the trailing tag lines of a tile segment build up.
pub struct TileShape {
    pub name: Option<Seq<char>>,
    pub wall: Option<bool>,
    pub colour: Option<u64>,
    pub frames: Seq<Seq<u8>>,
}

/// Folds the lines from `i` on into the shape `t`: `WAL`, `NAME` and `COL`
/// set fields, a lone `>` opens another animation frame, anything else is
/// ignored.
pub open spec fn tile_tail(ls: Seq<Seq<char>>, i: nat, t: TileShape) -> Result<TileShape, Error>
    decreases ls.len() - i,
    when i <= ls.len()
{
    if i >= ls.len() {
        Ok(t)
    } else {
        let l = ls[i as int];
        let w = word_of(l);
        let rest = rest_of(l);
        if w == "WAL"@ {
            tile_tail(ls, i + 1, TileShape { wall: Some(rest == "true"@), ..t })
        } else if w == "NAME"@ {
            tile_tail(ls, i + 1, TileShape { name: Some(rest), ..t })
        } else if w == "COL"@ {
            if uint_shape(rest) && uint_val(rest) <= u64::MAX {
                tile_tail(ls, i + 1, TileShape { colour: Some(uint_val(rest) as u64), ..t })
            } else {
                Err(Error::Tile)
            }
        } else if w == ">"@ {
            if img_ok(ls, i + 1) {
                let d = img_dim(ls[i as int + 1]);
                tile_tail(
                    ls,
                    i + 1 + d,
                    TileShape { frames: t.frames.push(grid_pixels(ls, i + 1, d)), ..t },
                )
            } else {
                Err(Error::Image)
            }
        } else {
            tile_tail(ls, i + 1, t)
        }
    }
}

/// The tag scan only ever adds animation frames.
pub proof fn lemma_tile_tail_frames(ls: Seq<Seq<char>>, i: nat, t: TileShape)
    requires
        i <= ls.len(),
    ensures
        match tile_tail(ls, i, t) {
            Ok(sh) => sh.frames.len() >= t.frames.len(),
            Err(_) => true,
        },
    decreases ls.len() - i,
{
    if i < ls.len() {
        let l = ls[i as int];
        let w = word_of(l);
        let rest = rest_of(l);
        if w == "WAL"@ {
            lemma_tile_tail_frames(ls, i + 1, TileShape { wall: Some(rest == "true"@), ..t });
        } else if w == "NAME"@ {
            lemma_tile_tail_frames(ls, i + 1, TileShape { name: Some(rest), ..t });
        } else if w == "COL"@ {
            if uint_shape(rest) && uint_val(rest) <= u64::MAX {
                lemma_tile_tail_frames(
                    ls,
                    i + 1,
                    TileShape { colour: Some(uint_val(rest) as u64), ..t },
                );
            }
        } else if w == ">"@ {
            if img_ok(ls, i + 1) {
                let d = img_dim(ls[i as int + 1]);
                lemma_tile_tail_frames(
                    ls,
                    i + 1 + d,
                    TileShape { frames: t.frames.push(grid_pixels(ls, i + 1, d)), ..t },
                );
            }
        } else {
            lemma_tile_tail_frames(ls, i + 1, t);
        }
    }
}

/// Does a decoded tile match the shape its tag lines built?
pub open spec fn tile_matches_shape(t: Tile, sh: TileShape) -> bool {
    &&& (match t.name {
        Some(nm) => sh.name == Some(nm@),
        None => sh.name is None,
    })
    &&& t.wall == sh.wall
    &&& t.colour_id == sh.colour
    &&& t.animation_frames@.map_values(|im: Image| im.pixels@) == sh.frames
}

/// The serialized form of a tile.
pub open spec fn tile_text(t: Tile) -> Seq<char> {
    "TIL "@ + t.id@ + "\n"@ + frames_text(t.animation_frames@) + opt_line("NAME"@, match t.name {
        Some(nm) => Some(nm@),
        None => None,
    }) + (match t.wall {
        Some(true) => "\nWAL true"@,
        Some(false) => "\nWAL false"@,
        None => Seq::<char>::empty(),
    }) + (match t.colour_id {
        Some(c) => "\nCOL "@ + dec_str(c as nat),
        None => Seq::<char>::empty(),
    })
}

impl Tile {
    /// Swaps lit and dark pixels in every frame.
    pub fn invert(&mut self)
        requires
            forall|k: int, i: int|
                #![trigger old(self).animation_frames@[k].pixels@[i]]
                0 <= k < old(self).animation_frames@.len() && 0 <= i < old(self).animation_frames@[k].pixels@.len() ==> old(self).animation_frames@[k].pixels@[i]
                    <= 1,
        ensures
            final(self).animation_frames@.len() == old(self).animation_frames@.len(),
            final(self).id == old(self).id,
            final(self).name == old(self).name,
            final(self).wall == old(self).wall,
            final(self).colour_id == old(self).colour_id,
            forall|k: int|
                0 <= k < old(self).animation_frames@.len() ==> (#[trigger] final(self).animation_frames@[k]).pixels@.len() == old(self).animation_frames@[k].pixels@.len(),
            forall|k: int, i: int|
                #![trigger old(self).animation_frames@[k].pixels@[i]]
                0 <= k < old(self).animation_frames@.len() && 0 <= i < old(self).animation_frames@[k].pixels@.len() ==> final(self).animation_frames@[k].pixels@[i]
                    == 1 - old(self).animation_frames@[k].pixels@[i],
    {
        let n = self.animation_frames.len();
        let mut out: Vec<Image> = Vec::new();
        let mut k: usize = 0;
        while k < n
            invariant
                n == self.animation_frames@.len(),
                self.animation_frames@ == old(self).animation_frames@,
                forall|q: int, i: int|
                    #![trigger self.animation_frames@[q].pixels@[i]]
                    0 <= q < n && 0 <= i < self.animation_frames@[q].pixels@.len()
                        ==> self.animation_frames@[q].pixels@[i] <= 1,
                k <= n,
                out@.len() == k,
                forall|q: int|
                    0 <= q < k ==> (#[trigger] out@[q]).pixels@.len()
                        == self.animation_frames@[q].pixels@.len(),
                forall|q: int, i: int|
                    #![trigger out@[q].pixels@[i]]
                    0 <= q < k && 0 <= i < out@[q].pixels@.len() ==> out@[q].pixels@[i] == 1
                        - self.animation_frames@[q].pixels@[i],
            decreases n - k,
        {
            let mut frame = crate::copy::copy_image(&self.animation_frames[k]);
            frame.invert();
            out.push(frame);
            k = k + 1;
        }
        self.animation_frames = out;
    }

    /// Flips every frame vertically.
    pub fn flip(&mut self)
        requires
            forall|k: int|
                0 <= k < old(self).animation_frames@.len() ==> (#[trigger] old(self).animation_frames@[k]).pixels@.len() % 8 == 0,
        ensures
            final(self).animation_frames@.len() == old(self).animation_frames@.len(),
            final(self).id == old(self).id,
            final(self).name == old(self).name,
            final(self).wall == old(self).wall,
            final(self).colour_id == old(self).colour_id,
            forall|k: int|
                0 <= k < old(self).animation_frames@.len() ==> (#[trigger] final(self).animation_frames@[k]).pixels@.len() == old(self).animation_frames@[k].pixels@.len(),
            forall|k: int, i: int|
                #![trigger old(self).animation_frames@[k].pixels@[i]]
                0 <= k < old(self).animation_frames@.len() && 0 <= i < old(self).animation_frames@[k].pixels@.len() ==> final(self).animation_frames@[k].pixels@[i]
                    == old(self).animation_frames@[k].pixels@[(old(self).animation_frames@[k].pixels@.len() / 8 - 1 - i / 8) * 8 + i % 8],
    {
        let n = self.animation_frames.len();
        let mut out: Vec<Image> = Vec::new();
        let mut k: usize = 0;
        while k < n
            invariant
                n == self.animation_frames@.len(),
                self.animation_frames@ == old(self).animation_frames@,
                forall|q: int|
                    0 <= q < n ==> (#[trigger] self.animation_frames@[q]).pixels@.len() % 8 == 0,
                k <= n,
                out@.len() == k,
                forall|q: int|
                    0 <= q < k ==> (#[trigger] out@[q]).pixels@.len()
                        == self.animation_frames@[q].pixels@.len(),
                forall|q: int, i: int|
                    #![trigger out@[q].pixels@[i]]
                    0 <= q < k && 0 <= i < out@[q].pixels@.len() ==> out@[q].pixels@[i]
                        == self.animation_frames@[q].pixels@[(self.animation_frames@[q].pixels@.len()
                        / 8 - 1 - i / 8) * 8 + i % 8],
            decreases n - k,
        {
            let mut frame = crate::copy::copy_image(&self.animation_frames[k]);
            frame.flip();
            out.push(frame);
            k = k + 1;
        }
        self.animation_frames = out;
    }

    /// Mirrors every frame horizontally.
    pub fn mirror(&mut self)
        requires
            forall|k: int|
                0 <= k < old(self).animation_frames@.len() ==> (#[trigger] old(self).animation_frames@[k]).pixels@.len() % 8 == 0,
        ensures
            final(self).animation_frames@.len() == old(self).animation_frames@.len(),
            final(self).id == old(self).id,
            final(self).name == old(self).name,
            final(self).wall == old(self).wall,
            final(self).colour_id == old(self).colour_id,
            forall|k: int|
                0 <= k < old(self).animation_frames@.len() ==> (#[trigger] final(self).animation_frames@[k]).pixels@.len() == old(self).animation_frames@[k].pixels@.len(),
            forall|k: int, i: int|
                #![trigger old(self).animation_frames@[k].pixels@[i]]
                0 <= k < old(self).animation_frames@.len() && 0 <= i < old(self).animation_frames@[k].pixels@.len() ==> final(self).animation_frames@[k].pixels@[i]
                    == old(self).animation_frames@[k].pixels@[(i / 8) * 8 + (7 - i % 8)],
    {
        let n = self.animation_frames.len();
        let mut out: Vec<Image> = Vec::new();
        let mut k: usize = 0;
        while k < n
            invariant
                n == self.animation_frames@.len(),
                self.animation_frames@ == old(self).animation_frames@,
                forall|q: int|
                    0 <= q < n ==> (#[trigger] self.animation_frames@[q]).pixels@.len() % 8 == 0,
                k <= n,
                out@.len() == k,
                forall|q: int|
                    0 <= q < k ==> (#[trigger] out@[q]).pixels@.len()
                        == self.animation_frames@[q].pixels@.len(),
                forall|q: int, i: int|
                    #![trigger out@[q].pixels@[i]]
                    0 <= q < k && 0 <= i < out@[q].pixels@.len() ==> out@[q].pixels@[i]
                        == self.animation_frames@[q].pixels@[(i / 8) * 8 + (7 - i % 8)],
            decreases n - k,
        {
            let mut frame = crate::copy::copy_image(&self.animation_frames[k]);
            frame.mirror();
            out.push(frame);
            k = k + 1;
        }
        self.animation_frames = out;
    }

    /// Rotates every frame's top-left quadrant ninety degrees clockwise.
    pub fn rotate(&mut self)
        requires
            forall|k: int|
                0 <= k < old(self).animation_frames@.len() ==> (#[trigger] old(self).animation_frames@[k]).pixels@.len() >= 64,
        ensures
            final(self).animation_frames@.len() == old(self).animation_frames@.len(),
            final(self).id == old(self).id,
            final(self).name == old(self).name,
            final(self).wall == old(self).wall,
            final(self).colour_id == old(self).colour_id,
            forall|k: int|
                0 <= k < old(self).animation_frames@.len() ==> (#[trigger] final(self).animation_frames@[k]).pixels@.len() == 64,
            forall|k: int, i: int|
                #![trigger old(self).animation_frames@[k].pixels@[i]]
                0 <= k < old(self).animation_frames@.len() && 0 <= i < 64 ==> final(self).animation_frames@[k].pixels@[i] == old(self).animation_frames@[k].pixels@[(7 - i
                    % 8) * 8 + i / 8],
    {
        let n = self.animation_frames.len();
        let mut out: Vec<Image> = Vec::new();
        let mut k: usize = 0;
        while k < n
            invariant
                n == self.animation_frames@.len(),
                self.animation_frames@ == old(self).animation_frames@,
                forall|q: int|
                    0 <= q < n ==> (#[trigger] self.animation_frames@[q]).pixels@.len() >= 64,
                k <= n,
                out@.len() == k,
                forall|q: int| 0 <= q < k ==> (#[trigger] out@[q]).pixels@.len() == 64,
                forall|q: int, i: int|
                    #![trigger out@[q].pixels@[i]]
                    0 <= q < k && 0 <= i < 64 ==> out@[q].pixels@[i]
                        == self.animation_frames@[q].pixels@[(7 - i % 8) * 8 + i / 8],
            decreases n - k,
        {
            let mut frame = crate::copy::copy_image(&self.animation_frames[k]);
            frame.rotate();
            out.push(frame);
            k = k + 1;
        }
        self.animation_frames = out;
    }

    /// Decodes a `TIL` segment: the identifier from the first line, one
    /// animation frame, then any further frames and trailing tag lines.
    pub fn from_str(s: &str) -> (r: Result<Tile, Error>)
        ensures
            ({
                let ls = lines_spec(s@);
                if ls.len() == 0 {
                    r == Err::<Tile, Error>(Error::Tile)
                } else if !starts_with_spec(ls[0], "TIL "@) {
                    r == Err::<Tile, Error>(Error::Sprite)
                } else if !img_ok(ls, 1) {
                    r == Err::<Tile, Error>(Error::Image)
                } else {
                    let d = img_dim(ls[1]);
                    let init = TileShape {
                        name: None,
                        wall: None,
                        colour: None,
                        frames: seq![grid_pixels(ls, 1, d)],
                    };
                    match tile_tail(ls, 1 + d, init) {
                        Ok(sh) => r matches Ok(t) && t.id@ == ls[0].skip(4) && tile_matches_shape(
                            t,
                            sh,
                        ),
                        Err(e) => r == Err::<Tile, Error>(e),
                    }
                }
            }),
    {
        let ls = split_lines(s);
        let ghost lsv = views(ls@);
        let n = ls.len();
        if n == 0 {
            return Err(Error::Tile);
        }
        if !starts_with(ls[0].as_str(), "TIL ") {
            return Err(Error::Sprite);
        }
        proof {
            reveal_strlit("TIL ");
            assert(lsv[0] == ls@[0]@);
        }
        let l0n = ls[0].as_str().unicode_len();
        let id = crate::strutil::substr(ls[0].as_str(), 4, l0n);
        let first = Image::from_lines(&ls, 1);
        let mut tile = match first {
            Ok(p) => {
                let mut frames: Vec<Image> = Vec::new();
                frames.push(p.0);
                let t = Tile { id, name: None, wall: None, colour_id: None, animation_frames: frames };
                let mut i: usize = p.1;
                let ghost d = img_dim(lsv[1]);
                let ghost init = TileShape {
                    name: None,
                    wall: None,
                    colour: None,
                    frames: seq![grid_pixels(lsv, 1, d)],
                };
                let mut cur = t;
                proof {
                    assert(cur.animation_frames@.map_values(|im: Image| im.pixels@) =~= init.frames);
                    assert(tile_matches_shape(cur, init));
                    assert(cur.id@ =~= lsv[0].skip(4));
                }
                let ghost start = i as nat;
                let mut shape_now: Ghost<TileShape> = Ghost(init);
                while i < n
                    invariant
                        lsv == views(ls@),
                        lsv == lines_spec(s@),
                        n == lsv.len(),
                        i <= n,
                        n >= 1,
                        starts_with_spec(lsv[0], "TIL "@),
                        img_ok(lsv, 1),
                        start == 1 + img_dim(lsv[1]),
                        init == (TileShape {
                            name: None,
                            wall: None,
                            colour: None,
                            frames: seq![grid_pixels(lsv, 1, img_dim(lsv[1]))],
                        }),
                        tile_matches_shape(cur, shape_now@),
                        cur.id@ == lsv[0].skip(4),
                        tile_tail(lsv, start, init) == tile_tail(lsv, i as nat, shape_now@),
                    decreases n - i,
                {
                    let ghost oldshape = shape_now@;
                    let line = &ls[i];
                    proof {
                        assert(line@ == lsv[i as int]);
                        reveal_strlit("WAL");
                        reveal_strlit("NAME");
                        reveal_strlit("COL");
                        reveal_strlit(">");
                        reveal_strlit("true");
                    }
                    let wr = word_and_rest(line.as_str());
                    if str_eq(wr.0.as_str(), "WAL") {
                        let is_true = str_eq(wr.1.as_str(), "true");
                        cur.wall = Some(is_true);
                        proof {
                            shape_now@ = TileShape { wall: Some(is_true), ..oldshape };
                        }
                        i = i + 1;
                    } else if str_eq(wr.0.as_str(), "NAME") {
                        let ghost nmv = wr.1@;
                        cur.name = Some(wr.1);
                        proof {
                            shape_now@ = TileShape { name: Some(rest_of(lsv[i as int])), ..oldshape };
                        }
                        i = i + 1;
                    } else if str_eq(wr.0.as_str(), "COL") {
                        match crate::numstr::parse_u64(wr.1.as_str()) {
                            Some(v) => {
                                cur.colour_id = Some(v);
                                proof {
                                    shape_now@ = TileShape { colour: Some(v), ..oldshape };
                                }
                                i = i + 1;
                            },
                            None => {
                                proof {
                                    assert(tile_tail(lsv, i as nat, shape_now@)
                                        == Err::<TileShape, Error>(Error::Tile));
                                }
                                return Err(Error::Tile);
                            },
                        }
                    } else if str_eq(wr.0.as_str(), ">") {
                        match Image::from_lines(&ls, i + 1) {
                            Ok(q) => {
                                let ghost dd = img_dim(lsv[i as int + 1]);
                                cur.animation_frames.push(q.0);
                                proof {
                                    shape_now@ = TileShape {
                                        frames: oldshape.frames.push(
                                            grid_pixels(lsv, i as nat + 1, dd),
                                        ),
                                        ..oldshape
                                    };
                                    assert(cur.animation_frames@.map_values(|im: Image| im.pixels@)
                                        =~= shape_now@.frames);
                                }
                                i = q.1;
                            },
                            Err(e) => {
                                proof {
                                    assert(!img_ok(lsv, i as nat + 1));
                                    assert(tile_tail(lsv, i as nat, shape_now@)
                                        == Err::<TileShape, Error>(Error::Image));
                                }
                                return Err(e);
                            },
                        }
                    } else {
                        i = i + 1;
                    }
                }
                proof {
                    assert(tile_tail(lsv, i as nat, shape_now@) == Ok::<TileShape, Error>(
                        shape_now@,
                    ));
                }
                cur
            },
            Err(e) => {
                return Err(e);
            },
        };
        Ok(tile)
    }

    /// Writes the tile as its `TIL` segment.
    pub fn to_string(&self) -> (r: String)
        requires
            self.animation_frames@.len() >= 1,
        ensures
            r@ == tile_text(*self),
    {
        let mut out = String::from_str("TIL ");
        out.append(self.id.as_str());
        out.append("\n");
        out.append(self.animation_frames.to_string().as_str());
        let nm = crate::optional_data_line("NAME", match &self.name {
            Some(v) => Some(v.clone()),
            None => None,
        });
        out.append(nm.as_str());
        match &self.wall {
            Some(true) => out.append("\nWAL true"),
            Some(false) => out.append("\nWAL false"),
            None => {},
        }
        match &self.colour_id {
            Some(c) => {
                out.append("\nCOL ");
                out.append(u64_text(*c).as_str());
            },
            None => {},
        }
        proof {
            assert(out@ =~= tile_text(*self));
        }
        out
    }
}

} // verus!
