//! Items: an identifier, an animation, and optional name, dialogue
//! reference and colour.

use crate::error::Error;
use crate::frames::{frames_text, AnimationFrames};
use crate::image::{grid_pixels, img_dim, img_ok, Image};
use crate::numstr::{dec_str, u64_text, uint_shape, uint_val};
use crate::opt_line;
use crate::strutil::{
    lines_spec, rest_of, split_lines, starts_with, starts_with_spec, str_eq, views, word_and_rest,
    word_of,
};
use vstd::prelude::*;

verus! {

/// An item entry.
#[derive(Clone, Debug, PartialEq, Eq)]
pub struct Item {
    pub id: String,
    pub animation_frames: Vec<Image>,
    pub name: Option<String>,
    pub dialogue_id: Option<String>,
    pub colour_id: Option<u64>,
}

/// What the trailing tag lines of an item segment build up.
pub struct ItemShape {
    pub name: Option<Seq<char>>,
    pub dialogue: Option<Seq<char>>,
    pub colour: Option<u64>,
    pub frames: Seq<Seq<u8>>,
}

/// Folds the lines from `i` on into the shape `t`: `NAME`, `DLG` and `COL`
/// set fields, a lone `>` opens another animation frame, anything else is
/// ignored.
pub open spec fn item_tail(ls: Seq<Seq<char>>, i: nat, t: ItemShape) -> Result<ItemShape, Error>
    decreases ls.len() - i,
    when i <= ls.len()
{
    if i >= ls.len() {
        Ok(t)
    } else {
        let l = ls[i as int];
        let w = word_of(l);
        let rest = rest_of(l);
        if w == "NAME"@ {
            item_tail(ls, i + 1, ItemShape { name: Some(rest), ..t })
        } else if w == "DLG"@ {
            item_tail(ls, i + 1, ItemShape { dialogue: Some(rest), ..t })
        } else if w == "COL"@ {
            if uint_shape(rest) && uint_val(rest) <= u64::MAX {
                item_tail(ls, i + 1, ItemShape { colour: Some(uint_val(rest) as u64), ..t })
            } else {
                Err(Error::Item)
            }
        } else if w == ">"@ {
            if img_ok(ls, i + 1) {
                let d = img_dim(ls[i as int + 1]);
                item_tail(
                    ls,
                    i + 1 + d,
                    ItemShape { frames: t.frames.push(grid_pixels(ls, i + 1, d)), ..t },
                )
            } else {
                Err(Error::Image)
            }
        } else {
            item_tail(ls, i + 1, t)
        }
    }
}

/// The tag scan only ever adds animation frames.
pub proof fn lemma_item_tail_frames(ls: Seq<Seq<char>>, i: nat, t: ItemShape)
    requires
        i <= ls.len(),
    ensures
        match item_tail(ls, i, t) {
            Ok(sh) => sh.frames.len() >= t.frames.len(),
            Err(_) => true,
        },
    decreases ls.len() - i,
{
    if i < ls.len() {
        let l = ls[i as int];
        let w = word_of(l);
        let rest = rest_of(l);
        if w == "NAME"@ {
            lemma_item_tail_frames(ls, i + 1, ItemShape { name: Some(rest), ..t });
        } else if w == "DLG"@ {
            lemma_item_tail_frames(ls, i + 1, ItemShape { dialogue: Some(rest), ..t });
        } else if w == "COL"@ {
            if uint_shape(rest) && uint_val(rest) <= u64::MAX {
                lemma_item_tail_frames(
                    ls,
                    i + 1,
                    ItemShape { colour: Some(uint_val(rest) as u64), ..t },
                );
            }
        } else if w == ">"@ {
            if img_ok(ls, i + 1) {
                let d = img_dim(ls[i as int + 1]);
                lemma_item_tail_frames(
                    ls,
                    i + 1 + d,
                    ItemShape { frames: t.frames.push(grid_pixels(ls, i + 1, d)), ..t },
                );
            }
        } else {
            lemma_item_tail_frames(ls, i + 1, t);
        }
    }
}

/// Does a decoded item match the shape its tag lines built?
pub open spec fn item_matches_shape(t: Item, sh: ItemShape) -> bool {
    &&& (match t.name {
        Some(nm) => sh.name == Some(nm@),
        None => sh.name is None,
    })
    &&& (match t.dialogue_id {
        Some(dl) => sh.dialogue == Some(dl@),
        None => sh.dialogue is None,
    })
    &&& t.colour_id == sh.colour
    &&& t.animation_frames@.map_values(|im: Image| im.pixels@) == sh.frames
}

/// The serialized form of an item.
pub open spec fn item_text(t: Item) -> Seq<char> {
    "ITM "@ + t.id@ + "\n"@ + frames_text(t.animation_frames@) + opt_line("NAME"@, match t.name {
        Some(nm) => Some(nm@),
        None => None,
    }) + opt_line("DLG"@, match t.dialogue_id {
        Some(dl) => Some(dl@),
        None => None,
    }) + (match t.colour_id {
        Some(c) => "\nCOL "@ + dec_str(c as nat),
        None => Seq::<char>::empty(),
    })
}

impl Item {
    /// Decodes an `ITM` segment: the identifier from the first line, one
    /// animation frame, then any further frames and trailing tag lines.
    pub fn from_str(s: &str) -> (r: Result<Item, Error>)
        ensures
            ({
                let ls = lines_spec(s@);
                if ls.len() == 0 || !starts_with_spec(ls[0], "ITM "@) {
                    r == Err::<Item, Error>(Error::Sprite)
                } else if !img_ok(ls, 1) {
                    r == Err::<Item, Error>(Error::Image)
                } else {
                    let d = img_dim(ls[1]);
                    let init = ItemShape {
                        name: None,
                        dialogue: None,
                        colour: None,
                        frames: seq![grid_pixels(ls, 1, d)],
                    };
                    match item_tail(ls, 1 + d, init) {
                        Ok(sh) => r matches Ok(t) && t.id@ == ls[0].skip(4) && item_matches_shape(
                            t,
                            sh,
                        ),
                        Err(e) => r == Err::<Item, Error>(e),
                    }
                }
            }),
    {
        let ls = split_lines(s);
        let ghost lsv = views(ls@);
        let n = ls.len();
        if n == 0 || !starts_with(ls[0].as_str(), "ITM ") {
            return Err(Error::Sprite);
        }
        proof {
            reveal_strlit("ITM ");
            assert(lsv[0] == ls@[0]@);
        }
        let l0n = ls[0].as_str().unicode_len();
        let id = crate::strutil::substr(ls[0].as_str(), 4, l0n);
        let first = Image::from_lines(&ls, 1);
        let item = match first {
            Ok(p) => {
                let mut frames: Vec<Image> = Vec::new();
                frames.push(p.0);
                let t = Item {
                    id,
                    name: None,
                    dialogue_id: None,
                    colour_id: None,
                    animation_frames: frames,
                };
                let mut i: usize = p.1;
                let ghost d = img_dim(lsv[1]);
                let ghost init = ItemShape {
                    name: None,
                    dialogue: None,
                    colour: None,
                    frames: seq![grid_pixels(lsv, 1, d)],
                };
                let mut cur = t;
                proof {
                    assert(cur.animation_frames@.map_values(|im: Image| im.pixels@)
                        =~= init.frames);
                    assert(item_matches_shape(cur, init));
                    assert(cur.id@ =~= lsv[0].skip(4));
                }
                let ghost start = i as nat;
                let mut shape_now: Ghost<ItemShape> = Ghost(init);
                while i < n
                    invariant
                        lsv == views(ls@),
                        lsv == lines_spec(s@),
                        n == lsv.len(),
                        i <= n,
                        n >= 1,
                        starts_with_spec(lsv[0], "ITM "@),
                        img_ok(lsv, 1),
                        start == 1 + img_dim(lsv[1]),
                        init == (ItemShape {
                            name: None,
                            dialogue: None,
                            colour: None,
                            frames: seq![grid_pixels(lsv, 1, img_dim(lsv[1]))],
                        }),
                        item_matches_shape(cur, shape_now@),
                        cur.id@ == lsv[0].skip(4),
                        item_tail(lsv, start, init) == item_tail(lsv, i as nat, shape_now@),
                    decreases n - i,
                {
                    let ghost oldshape = shape_now@;
                    let line = &ls[i];
                    proof {
                        assert(line@ == lsv[i as int]);
                        reveal_strlit("NAME");
                        reveal_strlit("DLG");
                        reveal_strlit("COL");
                        reveal_strlit(">");
                    }
                    let wr = word_and_rest(line.as_str());
                    if str_eq(wr.0.as_str(), "NAME") {
                        cur.name = Some(wr.1);
                        proof {
                            shape_now@ = ItemShape { name: Some(rest_of(lsv[i as int])), ..oldshape };
                        }
                        i = i + 1;
                    } else if str_eq(wr.0.as_str(), "DLG") {
                        cur.dialogue_id = Some(wr.1);
                        proof {
                            shape_now@ = ItemShape {
                                dialogue: Some(rest_of(lsv[i as int])),
                                ..oldshape
                            };
                        }
                        i = i + 1;
                    } else if str_eq(wr.0.as_str(), "COL") {
                        match crate::numstr::parse_u64(wr.1.as_str()) {
                            Some(v) => {
                                cur.colour_id = Some(v);
                                proof {
                                    shape_now@ = ItemShape { colour: Some(v), ..oldshape };
                                }
                                i = i + 1;
                            },
                            None => {
                                proof {
                                    assert(item_tail(lsv, i as nat, shape_now@)
                                        == Err::<ItemShape, Error>(Error::Item));
                                }
                                return Err(Error::Item);
                            },
                        }
                    } else if str_eq(wr.0.as_str(), ">") {
                        match Image::from_lines(&ls, i + 1) {
                            Ok(q) => {
                                let ghost dd = img_dim(lsv[i as int + 1]);
                                cur.animation_frames.push(q.0);
                                proof {
                                    shape_now@ = ItemShape {
                                        frames: oldshape.frames.push(
                                            grid_pixels(lsv, i as nat + 1, dd),
                                        ),
                                        ..oldshape
                                    };
                                    assert(cur.animation_frames@.map_values(|im: Image| im.pixels@)
                                        =~= shape_now@.frames);
                                }
                                i = q.1;
                            },
                            Err(e) => {
                                proof {
                                    assert(!img_ok(lsv, i as nat + 1));
                                    assert(item_tail(lsv, i as nat, shape_now@)
                                        == Err::<ItemShape, Error>(Error::Image));
                                }
                                return Err(e);
                            },
                        }
                    } else {
                        i = i + 1;
                    }
                }
                proof {
                    assert(item_tail(lsv, i as nat, shape_now@) == Ok::<ItemShape, Error>(
                        shape_now@,
                    ));
                }
                cur
            },
            Err(e) => {
                return Err(e);
            },
        };
        Ok(item)
    }

    /// Writes the item as its `ITM` segment.
    pub fn to_string(&self) -> (r: String)
        requires
            self.animation_frames@.len() >= 1,
        ensures
            r@ == item_text(*self),
    {
        let mut out = String::from_str("ITM ");
        out.append(self.id.as_str());
        out.append("\n");
        out.append(self.animation_frames.to_string().as_str());
        let nm = crate::optional_data_line("NAME", match &self.name {
            Some(v) => Some(v.clone()),
            None => None,
        });
        out.append(nm.as_str());
        let dl = crate::optional_data_line("DLG", match &self.dialogue_id {
            Some(v) => Some(v.clone()),
            None => None,
        });
        out.append(dl.as_str());
        match &self.colour_id {
            Some(c) => {
                out.append("\nCOL ");
                out.append(u64_text(*c).as_str());
            },
            None => {},
        }
        proof {
            assert(out@ =~= item_text(*self));
        }
        out
    }
}

} // verus!
