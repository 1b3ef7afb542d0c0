//! Sprites: an identifier, an animation, and optional name, dialogue,
//! placement, colour and carried items.  The trailing tag lines are
//! gathered from the end of the segment upward; the lines before them hold
//! the animation.

use crate::error::Error;
use crate::frames::{frames_pixels, frames_text, AnimationFrames};
use crate::numstr::{dec_str, uint_shape, uint_val};
use crate::opt_line;
use crate::position::{coord_ok, position_text, Position};
use crate::image::Image;
use crate::strutil::{
    after_char, before_char, has_char, lines_spec, replace_spec, split_lines, split_on,
    starts_with, starts_with_spec, str_eq, views,
};
use vstd::prelude::*;

verus! {

/// A sprite entry; the avatar is the sprite whose identifier is `A`.
#[derive(Clone, Debug, PartialEq, Eq)]
pub struct Sprite {
    pub id: String,
    pub name: Option<String>,
    pub animation_frames: Vec<Image>,
    pub dialogue_id: Option<String>,
    pub room_id: Option<String>,
    pub position: Option<Position>,
    pub colour_id: Option<u64>,
    pub items: Vec<String>,
}

/// What the trailing tag lines of a sprite segment build up; `items` is in
/// the order the lines were popped, last line first.
pub struct SpriteShape {
    pub name: Option<Seq<char>>,
    pub dialogue: Option<Seq<char>>,
    pub room: Option<Seq<char>>,
    pub pos: Option<Position>,
    pub colour: Option<u64>,
    pub items: Seq<Seq<char>>,
}

/// The leading word the sprite tag scanner sees: empty when the line has
/// no space at all.
pub open spec fn tag_word(l: Seq<char>) -> Seq<char> {
    if has_char(l, ' ') {
        before_char(l, ' ')
    } else {
        Seq::<char>::empty()
    }
}

/// Folds the tag lines at the end of `ls[1..j]` into `t`, walking from the
/// last line upward; stops at the first line that carries no tag and
/// returns it as the end of the animation block.
pub open spec fn sprite_tags(ls: Seq<Seq<char>>, j: nat, t: SpriteShape) -> Result<
    (SpriteShape, nat),
    Error,
>
    decreases j,
    when j <= ls.len()
{
    if j <= 1 {
        Err(Error::Sprite)
    } else {
        let l = ls[j - 1];
        let w = tag_word(l);
        if w == "NAME"@ {
            sprite_tags(
                ls,
                (j - 1) as nat,
                SpriteShape { name: Some(replace_spec(l, "NAME "@, Seq::<char>::empty())), ..t },
            )
        } else if w == "DLG"@ {
            sprite_tags(
                ls,
                (j - 1) as nat,
                SpriteShape { dialogue: Some(replace_spec(l, "DLG "@, Seq::<char>::empty())), ..t },
            )
        } else if w == "POS"@ {
            let ps = split_on(replace_spec(l, "POS "@, Seq::<char>::empty()), ' ');
            if ps.len() < 2 {
                Err(Error::Sprite)
            } else if !has_char(ps[1], ',') {
                Err(Error::Sprite)
            } else {
                let cs = split_on(ps[1], ',');
                if coord_ok(cs[0]) && coord_ok(cs[1]) {
                    sprite_tags(
                        ls,
                        (j - 1) as nat,
                        SpriteShape {
                            room: Some(ps[0]),
                            pos: Some(
                                Position {
                                    x: uint_val(cs[0]) as u8,
                                    y: uint_val(cs[1]) as u8,
                                },
                            ),
                            ..t
                        },
                    )
                } else {
                    Err(Error::Sprite)
                }
            }
        } else if w == "COL"@ {
            let rest = replace_spec(l, "COL "@, Seq::<char>::empty());
            if uint_shape(rest) && uint_val(rest) <= u64::MAX {
                sprite_tags(
                    ls,
                    (j - 1) as nat,
                    SpriteShape { colour: Some(uint_val(rest) as u64), ..t },
                )
            } else {
                Err(Error::Sprite)
            }
        } else if w == "ITM"@ {
            sprite_tags(
                ls,
                (j - 1) as nat,
                SpriteShape {
                    items: t.items.push(replace_spec(l, "ITM "@, Seq::<char>::empty())),
                    ..t
                },
            )
        } else {
            Ok((t, j))
        }
    }
}

/// Does a decoded sprite match the shape its tag lines built?  The items
/// come out reversed into document order.
pub open spec fn sprite_matches_shape(t: Sprite, sh: SpriteShape) -> bool {
    &&& (match t.name {
        Some(nm) => sh.name == Some(nm@),
        None => sh.name is None,
    })
    &&& (match t.dialogue_id {
        Some(dl) => sh.dialogue == Some(dl@),
        None => sh.dialogue is None,
    })
    &&& (match t.room_id {
        Some(rm) => sh.room == Some(rm@),
        None => sh.room is None,
    })
    &&& t.position == sh.pos
    &&& t.colour_id == sh.colour
    &&& views(t.items@) == sh.items.reverse()
}

/// The serialized form of a sprite.
pub open spec fn sprite_text(t: Sprite) -> Seq<char> {
    "SPR "@ + t.id@ + "\n"@ + frames_text(t.animation_frames@) + opt_line("NAME"@, match t.name {
        Some(nm) => Some(nm@),
        None => None,
    }) + opt_line("DLG"@, match t.dialogue_id {
        Some(dl) => Some(dl@),
        None => None,
    }) + (match (t.room_id, t.position) {
        (Some(rm), Some(p)) => "\nPOS "@ + rm@ + " "@ + position_text(p),
        _ => Seq::<char>::empty(),
    }) + (match t.colour_id {
        Some(c) => "\nCOL "@ + dec_str(c as nat),
        None => Seq::<char>::empty(),
    }) + items_lines(views(t.items@))
}

/// The `ITM` lines a sprite's carried items produce.
pub open spec fn items_lines(items: Seq<Seq<char>>) -> Seq<char>
    decreases items.len(),
{
    if items.len() == 0 {
        Seq::<char>::empty()
    } else {
        "\nITM "@ + items[0] + items_lines(items.skip(1))
    }
}

impl Sprite {
    /// Decodes a `SPR` segment: the identifier from the first line, the
    /// trailing tag lines from the end, and the animation from the lines
    /// between.
    pub fn from_str(s: &str) -> (r: Result<Sprite, Error>)
        ensures
            ({
                let ls = lines_spec(s@);
                if ls.len() == 0 || !starts_with_spec(ls[0], "SPR "@) {
                    r == Err::<Sprite, Error>(Error::Sprite)
                } else {
                    let init = SpriteShape {
                        name: None,
                        dialogue: None,
                        room: None,
                        pos: None,
                        colour: None,
                        items: Seq::<Seq<char>>::empty(),
                    };
                    match sprite_tags(ls, ls.len(), init) {
                        Err(e) => r == Err::<Sprite, Error>(e),
                        Ok(sj) => match frames_pixels(ls.subrange(1, sj.1 as int), 0) {
                            Err(_) => r == Err::<Sprite, Error>(Error::Sprite),
                            Ok(pxs) => r matches Ok(t) && t.id@ == replace_spec(
                                ls[0],
                                "SPR "@,
                                Seq::<char>::empty(),
                            ) && sprite_matches_shape(t, sj.0)
                                && t.animation_frames@.map_values(|im: Image| im.pixels@) == pxs,
                        },
                    }
                }
            }),
    {
        let ls = split_lines(s);
        let ghost lsv = views(ls@);
        let n = ls.len();
        if n == 0 || !starts_with(ls[0].as_str(), "SPR ") {
            return Err(Error::Sprite);
        }
        proof {
            reveal_strlit("SPR ");
            reveal_strlit("");
            assert(""@ =~= Seq::<char>::empty());
            assert(lsv[0] == ls@[0]@);
        }
        let id = crate::strutil::replace_all(ls[0].as_str(), "SPR ", "");
        proof {
            assert(id@ == replace_spec(lsv[0], "SPR "@, Seq::<char>::empty()));
        }
        let ghost init = SpriteShape {
            name: None,
            dialogue: None,
            room: None,
            pos: None,
            colour: None,
            items: Seq::<Seq<char>>::empty(),
        };
        let mut name: Option<String> = None;
        let mut dialogue_id: Option<String> = None;
        let mut room_id: Option<String> = None;
        let mut position: Option<Position> = None;
        let mut colour_id: Option<u64> = None;
        let mut items_rev: Vec<String> = Vec::new();
        let mut j: usize = n;
        let mut shape_now: Ghost<SpriteShape> = Ghost(init);
        proof {
            assert(views(items_rev@) =~= Seq::<Seq<char>>::empty());
        }
        let boundary: usize;
        loop
            invariant_except_break
                lsv == views(ls@),
                lsv == lines_spec(s@),
                n == lsv.len(),
                n >= 1,
                1 <= j <= n,
                starts_with_spec(lsv[0], "SPR "@),
                init == (SpriteShape {
                    name: None,
                    dialogue: None,
                    room: None,
                    pos: None,
                    colour: None,
                    items: Seq::<Seq<char>>::empty(),
                }),
                id@ == replace_spec(lsv[0], "SPR "@, Seq::<char>::empty()),
                shape_matches(
                    &name,
                    &dialogue_id,
                    &room_id,
                    position,
                    colour_id,
                    views(items_rev@),
                    shape_now@,
                ),
                sprite_tags(lsv, n as nat, init) == sprite_tags(lsv, j as nat, shape_now@),
            ensures
                lsv == views(ls@),
                lsv == lines_spec(s@),
                n == lsv.len(),
                1 <= j <= n,
                init == (SpriteShape {
                    name: None,
                    dialogue: None,
                    room: None,
                    pos: None,
                    colour: None,
                    items: Seq::<Seq<char>>::empty(),
                }),
                id@ == replace_spec(lsv[0], "SPR "@, Seq::<char>::empty()),
                shape_matches(
                    &name,
                    &dialogue_id,
                    &room_id,
                    position,
                    colour_id,
                    views(items_rev@),
                    shape_now@,
                ),
                sprite_tags(lsv, n as nat, init) == Ok::<(SpriteShape, nat), Error>(
                    (shape_now@, j as nat),
                ),
                boundary == j,
            decreases j,
        {
            let ghost oldshape = shape_now@;
            if j <= 1 {
                proof {
                    assert(sprite_tags(lsv, j as nat, oldshape) == Err::<(SpriteShape, nat), Error>(
                        Error::Sprite,
                    ));
                }
                return Err(Error::Sprite);
            }
            let line = &ls[j - 1];
            proof {
                assert(line@ == lsv[j - 1]);
                reveal_strlit("");
                reveal_strlit("NAME");
                reveal_strlit("NAME ");
                reveal_strlit("DLG");
                reveal_strlit("DLG ");
                reveal_strlit("POS");
                reveal_strlit("POS ");
                reveal_strlit("COL");
                reveal_strlit("COL ");
                reveal_strlit("ITM");
                reveal_strlit("ITM ");
                assert(""@ =~= Seq::<char>::empty());
            }
            let w = match crate::strutil::split_once_sp(line.as_str()) {
                Some(ab) => {
                    proof {
                        crate::strutil::lemma_split_once_chars(line@, ab.0@, ab.1@);
                    }
                    ab.0
                },
                None => String::new(),
            };
            proof {
                assert(w@ == tag_word(lsv[j - 1]));
            }
            if str_eq(w.as_str(), "NAME") {
                name = Some(crate::strutil::replace_all(line.as_str(), "NAME ", ""));
                proof {
                    shape_now@ = SpriteShape {
                        name: Some(replace_spec(lsv[j - 1], "NAME "@, Seq::<char>::empty())),
                        ..oldshape
                    };
                }
                j = j - 1;
            } else if str_eq(w.as_str(), "DLG") {
                dialogue_id = Some(crate::strutil::replace_all(line.as_str(), "DLG ", ""));
                proof {
                    shape_now@ = SpriteShape {
                        dialogue: Some(replace_spec(lsv[j - 1], "DLG "@, Seq::<char>::empty())),
                        ..oldshape
                    };
                }
                j = j - 1;
            } else if str_eq(w.as_str(), "POS") {
                let payload = crate::strutil::replace_all(line.as_str(), "POS ", "");
                let rp = crate::strutil::split_char(payload.as_str(), ' ');
                if rp.len() < 2 {
                    proof {
                        assert(sprite_tags(lsv, j as nat, oldshape) == Err::<
                            (SpriteShape, nat),
                            Error,
                        >(Error::Sprite));
                    }
                    return Err(Error::Sprite);
                }
                proof {
                    assert(views(rp@)[0] == split_on(payload@, ' ')[0]);
                    assert(views(rp@)[1] == split_on(payload@, ' ')[1]);
                }
                if !crate::strutil::contains_char(rp[1].as_str(), ',') {
                    proof {
                        assert(sprite_tags(lsv, j as nat, oldshape) == Err::<
                            (SpriteShape, nat),
                            Error,
                        >(Error::Sprite));
                    }
                    return Err(Error::Sprite);
                }
                proof {
                    crate::exit::lemma_comma_split_len(views(rp@)[1]);
                }
                match Position::from_str(rp[1].as_str()) {
                    Ok(p) => {
                        room_id = Some(rp[0].clone());
                        position = Some(p);
                        proof {
                            shape_now@ = SpriteShape {
                                room: Some(split_on(replace_spec(lsv[j - 1], "POS "@, Seq::<char>::empty()), ' ')[0]),
                                pos: Some(p),
                                ..oldshape
                            };
                        }
                        j = j - 1;
                    },
                    Err(_) => {
                        proof {
                            assert(sprite_tags(lsv, j as nat, oldshape) == Err::<
                                (SpriteShape, nat),
                                Error,
                            >(Error::Sprite));
                        }
                        return Err(Error::Sprite);
                    },
                }
            } else if str_eq(w.as_str(), "COL") {
                let payload = crate::strutil::replace_all(line.as_str(), "COL ", "");
                match crate::numstr::parse_u64(payload.as_str()) {
                    Some(v) => {
                        colour_id = Some(v);
                        proof {
                            shape_now@ = SpriteShape { colour: Some(v), ..oldshape };
                        }
                        j = j - 1;
                    },
                    None => {
                        proof {
                            assert(sprite_tags(lsv, j as nat, oldshape) == Err::<
                                (SpriteShape, nat),
                                Error,
                            >(Error::Sprite));
                        }
                        return Err(Error::Sprite);
                    },
                }
            } else if str_eq(w.as_str(), "ITM") {
                items_rev.push(crate::strutil::replace_all(line.as_str(), "ITM ", ""));
                proof {
                    shape_now@ = SpriteShape {
                        items: oldshape.items.push(
                            replace_spec(lsv[j - 1], "ITM "@, Seq::<char>::empty()),
                        ),
                        ..oldshape
                    };
                    assert(views(items_rev@) =~= shape_now@.items);
                }
                j = j - 1;
            } else {
                proof {
                    assert(sprite_tags(lsv, j as nat, oldshape) == Ok::<(SpriteShape, nat), Error>(
                        (oldshape, j as nat),
                    ));
                }
                boundary = j;
                break;
            }
        }
        let body = sub_lines(&ls, 1, boundary);
        let frames = match crate::frames::parse_frames(&body, 0) {
            Ok(fs) => fs,
            Err(_) => {
                return Err(Error::Sprite);
            },
        };
        let mut items: Vec<String> = Vec::new();
        let mut k: usize = items_rev.len();
        while k > 0
            invariant
                k <= items_rev@.len(),
                items@.len() == items_rev@.len() - k,
                forall|q: int|
                    0 <= q < items@.len() ==> items@[q]@ == items_rev@[items_rev@.len() - 1 - q]@,
            decreases k,
        {
            items.push(items_rev[k - 1].clone());
            k = k - 1;
        }
        proof {
            assert(views(items@) =~= views(items_rev@).reverse());
        }
        let sp = Sprite {
            id,
            name,
            animation_frames: frames,
            dialogue_id,
            room_id,
            position,
            colour_id,
            items,
        };
        Ok(sp)
    }

    /// Writes the sprite as its `SPR` segment.
    pub fn to_string(&self) -> (r: String)
        requires
            self.animation_frames@.len() >= 1,
        ensures
            r@ == sprite_text(*self),
    {
        let mut out = String::from_str("SPR ");
        out.append(self.id.as_str());
        out.append("\n");
        out.append(self.animation_frames.to_string().as_str());
        let nm = crate::optional_data_line("NAME", match &self.name {
            Some(v) => Some(v.clone()),
            None => None,
        });
        out.append(nm.as_str());
        let dl = crate::optional_data_line("DLG", match &self.dialogue_id {
            Some(v) => Some(v.clone()),
            None => None,
        });
        out.append(dl.as_str());
        match (&self.room_id, &self.position) {
            (Some(rm), Some(p)) => {
                out.append("\nPOS ");
                out.append(rm.as_str());
                out.append(" ");
                out.append(p.to_string().as_str());
            },
            _ => {},
        }
        match &self.colour_id {
            Some(c) => {
                out.append("\nCOL ");
                out.append(crate::numstr::u64_text(*c).as_str());
            },
            None => {},
        }
        let ghost head = out@;
        let ghost its = views(self.items@);
        let m = self.items.len();
        let mut k: usize = 0;
        proof {
            assert(its.skip(0) =~= its);
        }
        while k < m
            invariant
                its == views(self.items@),
                m == its.len(),
                k <= m,
                head + items_lines(its) == out@ + items_lines(its.skip(k as int)),
            decreases m - k,
        {
            let ghost rest = its.skip(k as int);
            proof {
                assert(rest[0] == its[k as int]);
                assert(rest.skip(1) =~= its.skip(k as int + 1));
                assert(items_lines(rest) == "\nITM "@ + rest[0] + items_lines(rest.skip(1)));
            }
            out.append("\nITM ");
            out.append(self.items[k].as_str());
            proof {
                assert(out@ + items_lines(its.skip(k as int + 1)) =~= head + items_lines(its));
            }
            k = k + 1;
        }
        proof {
            assert(its.skip(m as int).len() == 0);
            assert(out@ + Seq::<char>::empty() =~= out@);
            assert(out@ =~= sprite_text(*self));
        }
        out
    }
}

/// Do the decoded optional fields agree with the shape?
pub open spec fn shape_matches(
    name: &Option<String>,
    dialogue_id: &Option<String>,
    room_id: &Option<String>,
    position: Option<Position>,
    colour_id: Option<u64>,
    items_rev: Seq<Seq<char>>,
    sh: SpriteShape,
) -> bool {
    &&& (match name {
        Some(nm) => sh.name == Some(nm@),
        None => sh.name is None,
    })
    &&& (match dialogue_id {
        Some(dl) => sh.dialogue == Some(dl@),
        None => sh.dialogue is None,
    })
    &&& (match room_id {
        Some(rm) => sh.room == Some(rm@),
        None => sh.room is None,
    })
    &&& position == sh.pos
    &&& colour_id == sh.colour
    &&& items_rev == sh.items
}

/// The lines from `from` up to (not including) `to`, as their own vector.
fn sub_lines(parts: &Vec<String>, from: usize, to: usize) -> (r: Vec<String>)
    requires
        from <= to <= parts@.len(),
    ensures
        views(r@) == views(parts@).subrange(from as int, to as int),
{
    let mut out: Vec<String> = Vec::new();
    let mut i: usize = from;
    while i < to
        invariant
            from <= i <= to <= parts@.len(),
            out@.len() == i - from,
            forall|q: int| 0 <= q < out@.len() ==> out@[q]@ == parts@[from + q]@,
        decreases to - i,
    {
        out.push(parts[i].clone());
        i = i + 1;
    }
    proof {
        assert(views(out@) =~= views(parts@).subrange(from as int, to as int));
    }
    out
}

} // verus!
