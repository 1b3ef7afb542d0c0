//! The segment tokenizer and dispatcher: raw document text is cut into
//! blank-line-delimited segments (blank lines inside a triple-quote block
//! do not cut), and each segment is decoded into the entity or directive
//! it carries.

use crate::dialogue::Dialogue;
use crate::ending::Ending;
use crate::error::Error;
use crate::game::{RoomFormat, RoomType, Version};
use crate::item::Item;
use crate::palette::Palette;
use crate::room::{room_parsed, Room};
use crate::sprite::Sprite;
use crate::text::{Font, TextDirection};
use crate::tile::Tile;
use crate::variable::Variable;
use crate::strutil::{
    before_char, has_char, join_with, lines_spec, replace_spec, split_lines, split_on,
    starts_with, starts_with_spec, str_eq, trim_of, trim_ws_spec, views,
};
use vstd::prelude::*;

verus! {

/// One decoded segment: an entity, a document-level directive, or a
/// diagnostic for a segment that failed to decode.
pub enum Segment {
    Name(String),
    Version(Version),
    RoomFormat(RoomFormat),
    Font(Font, Option<String>),
    TextDirection(TextDirection),
    Palette(Palette),
    Room(Room, RoomType),
    Tile(Tile),
    Sprite(Sprite),
    Item(Item),
    Dialogue(Dialogue),
    Ending(Ending),
    Variable(Variable),
    FontData(String),
    Warning(Error),
}

/// Cuts the lines into segments: `cur` is the segment being gathered,
/// `out` the finished ones, and `inside` whether a triple-quote block is
/// open, in which blank lines are ordinary content.
pub open spec fn seg_fold(
    ls: Seq<Seq<char>>,
    i: nat,
    inside: bool,
    cur: Seq<Seq<char>>,
    out: Seq<Seq<char>>,
) -> Seq<Seq<char>>
    decreases ls.len() - i,
    when i <= ls.len()
{
    if i >= ls.len() {
        out.push(join_with(cur, "\n"@))
    } else {
        let l = ls[i as int];
        let ins2 = if l == "\"\"\""@ {
            !inside
        } else {
            inside
        };
        if l.len() == 0 && !ins2 {
            seg_fold(ls, i + 1, ins2, Seq::<Seq<char>>::empty(), out.push(join_with(cur, "\n"@)))
        } else {
            seg_fold(ls, i + 1, ins2, cur.push(l), out)
        }
    }
}

/// The segments of raw text: an empty dialogue body directly before a
/// `NAME` line is first made explicit with an empty quote block, then the
/// lines are cut at blank lines outside quote blocks.
pub open spec fn segments_spec(s: Seq<char>) -> Seq<Seq<char>> {
    seg_fold(
        lines_spec(replace_spec(s, "\n\nNAME"@, "\n\"\"\"\n\"\"\"\nNAME"@)),
        0,
        false,
        Seq::<Seq<char>>::empty(),
        Seq::<Seq<char>>::empty(),
    )
}

/// Splits raw text into its segments.
pub fn segments_from_str(s: &str) -> (r: Vec<String>)
    ensures
        views(r@) == segments_spec(s@),
{
    proof {
        reveal_strlit("\n\nNAME");
        reveal_strlit("\n\"\"\"\n\"\"\"\nNAME");
    }
    let rewritten = crate::strutil::replace_all(s, "\n\nNAME", "\n\"\"\"\n\"\"\"\nNAME");
    let ls = split_lines(rewritten.as_str());
    let ghost lsv = views(ls@);
    let n = ls.len();
    let mut out: Vec<String> = Vec::new();
    let mut cur: Vec<String> = Vec::new();
    let mut inside = false;
    let mut i: usize = 0;
    proof {
        assert(views(cur@) =~= Seq::<Seq<char>>::empty());
        assert(views(out@) =~= Seq::<Seq<char>>::empty());
    }
    while i < n
        invariant
            lsv == views(ls@),
            lsv == lines_spec(replace_spec(s@, "\n\nNAME"@, "\n\"\"\"\n\"\"\"\nNAME"@)),
            n == lsv.len(),
            i <= n,
            segments_spec(s@) == seg_fold(lsv, i as nat, inside, views(cur@), views(out@)),
        decreases n - i,
    {
        let line = &ls[i];
        proof {
            assert(line@ == lsv[i as int]);
            reveal_strlit("\"\"\"");
            reveal_strlit("\n");
        }
        if str_eq(line.as_str(), "\"\"\"") {
            inside = !inside;
        }
        let ln = line.as_str().unicode_len();
        if ln == 0 && !inside {
            let seg = crate::strutil::join(&cur, "\n");
            let ghost curv = views(cur@);
            let ghost outv = views(out@);
            out.push(seg);
            cur = Vec::new();
            proof {
                assert(views(out@) =~= outv.push(join_with(curv, "\n"@)));
                assert(views(cur@) =~= Seq::<Seq<char>>::empty());
            }
        } else {
            let ghost curv = views(cur@);
            cur.push(line.clone());
            proof {
                assert(views(cur@) =~= curv.push(lsv[i as int]));
            }
        }
        i = i + 1;
    }
    let last = crate::strutil::join(&cur, "\n");
    let ghost outv = views(out@);
    let ghost curv = views(cur@);
    out.push(last);
    proof {
        assert(views(out@) =~= outv.push(join_with(curv, "\n"@)));
    }
    out
}

/// The cut always yields at least the segment being gathered.
pub proof fn lemma_seg_fold_len(
    ls: Seq<Seq<char>>,
    i: nat,
    inside: bool,
    cur: Seq<Seq<char>>,
    out: Seq<Seq<char>>,
)
    requires
        i <= ls.len(),
    ensures
        seg_fold(ls, i, inside, cur, out).len() >= out.len() + 1,
    decreases ls.len() - i,
{
    if i < ls.len() {
        let l = ls[i as int];
        let ins2 = if l == "\"\"\""@ {
            !inside
        } else {
            inside
        };
        if l.len() == 0 && !ins2 {
            lemma_seg_fold_len(
                ls,
                i + 1,
                ins2,
                Seq::<Seq<char>>::empty(),
                out.push(join_with(cur, "\n"@)),
            );
        } else {
            lemma_seg_fold_len(ls, i + 1, ins2, cur.push(l), out);
        }
    }
}

/// A tokenized document always has at least one segment.
pub proof fn lemma_segments_nonempty(s: Seq<char>)
    ensures
        segments_spec(s).len() >= 1,
{
    lemma_seg_fold_len(
        lines_spec(replace_spec(s, "\n\nNAME"@, "\n\"\"\"\n\"\"\"\nNAME"@)),
        0,
        false,
        Seq::<Seq<char>>::empty(),
        Seq::<Seq<char>>::empty(),
    );
}

/// The name the version marker introduces, and the tags a document's first
/// real segment may carry instead of a title.
pub open spec fn looks_like_data(s: Seq<char>) -> bool {
    ||| starts_with_spec(s, "# BITSY VERSION "@)
    ||| starts_with_spec(s, "! ROOM_FORMAT "@)
    ||| starts_with_spec(s, "PAL "@)
    ||| starts_with_spec(s, "DEFAULT_FONT "@)
    ||| starts_with_spec(s, "TEXT_DIRECTION "@)
}

/// Is this first segment the document's title?  A multi-line quoted title
/// always is; otherwise anything that does not look like a data segment.
pub open spec fn is_title(s: Seq<char>) -> bool {
    starts_with_spec(s, "\"\"\""@) || !looks_like_data(s)
}

/// The segments of one document, reading in order.
pub struct Segments {
    pub parts: Vec<String>,
    pub cursor: usize,
    pub emitted_name: bool,
}

impl Segments {
    /// The segments the raw text holds, after newline normalization and
    /// leading blank lines are stripped.
    pub fn new(string: &str) -> (r: Segments)
        ensures
            views(r.parts@) == segments_spec(
                crate::strutil::trim_start_spec(
                    replace_spec(string@, "\r\n"@, "\n"@),
                    '\n',
                ),
            ),
            r.cursor == 0,
            !r.emitted_name,
    {
        proof {
            reveal_strlit("\r\n");
            reveal_strlit("\n");
        }
        let normalized = crate::strutil::replace_all(string, "\r\n", "\n");
        let n = normalized.as_str().unicode_len();
        let mut lo: usize = 0;
        proof {
            assert(normalized@.skip(0) =~= normalized@);
        }
        while lo < n && normalized.as_str().get_char(lo) == '\n'
            invariant
                normalized@.len() == n,
                lo <= n,
                crate::strutil::trim_start_spec(normalized@, '\n')
                    == crate::strutil::trim_start_spec(normalized@.skip(lo as int), '\n'),
            decreases n - lo,
        {
            proof {
                assert(normalized@.skip(lo as int).skip(1) =~= normalized@.skip(lo as int + 1));
            }
            lo = lo + 1;
        }
        proof {
            if lo == n {
                assert(normalized@.skip(n as int).len() == 0);
            }
            assert(crate::strutil::trim_start_spec(normalized@, '\n') == normalized@.skip(
                lo as int,
            ));
        }
        let trimmed = crate::strutil::substr(normalized.as_str(), lo, n);
        proof {
            assert(trimmed@ == normalized@.skip(lo as int));
        }
        let parts = segments_from_str(trimmed.as_str());
        Segments { parts, cursor: 0, emitted_name: false }
    }

    /// How many segments are left to read.
    pub fn len(&self) -> (r: usize)
        requires
            self.cursor <= self.parts@.len(),
        ensures
            r == self.parts@.len() - self.cursor,
    {
        self.parts.len() - self.cursor
    }

    /// Is nothing left to read?
    pub fn is_empty(&self) -> (r: bool)
        ensures
            r == (self.parts@.len() == self.cursor),
    {
        self.parts.len() == self.cursor
    }

    /// Takes the document title off the front, when the first unread
    /// segment is one.
    fn find_name(&mut self) -> (r: Option<String>)
        requires
            old(self).cursor <= old(self).parts@.len(),
        ensures
            final(self).parts == old(self).parts,
            final(self).emitted_name == old(self).emitted_name,
            final(self).cursor <= final(self).parts@.len(),
            ({
                if old(self).cursor == old(self).parts@.len() {
                    r is None && final(self).cursor == old(self).cursor
                } else if is_title(old(self).parts@[old(self).cursor as int]@) {
                    (r matches Some(nm) && nm@ == old(self).parts@[old(self).cursor as int]@)
                        && final(self).cursor == old(self).cursor + 1
                } else {
                    r is None && final(self).cursor == old(self).cursor
                }
            }),
    {
        if self.cursor >= self.parts.len() {
            return None;
        }
        let segment = &self.parts[self.cursor];
        proof {
            reveal_strlit("\"\"\"");
            reveal_strlit("# BITSY VERSION ");
            reveal_strlit("! ROOM_FORMAT ");
            reveal_strlit("PAL ");
            reveal_strlit("DEFAULT_FONT ");
            reveal_strlit("TEXT_DIRECTION ");
        }
        let quoted = starts_with(segment.as_str(), "\"\"\"");
        let data = starts_with(segment.as_str(), "# BITSY VERSION ") || starts_with(
            segment.as_str(),
            "! ROOM_FORMAT ",
        ) || starts_with(segment.as_str(), "PAL ") || starts_with(
            segment.as_str(),
            "DEFAULT_FONT ",
        ) || starts_with(segment.as_str(), "TEXT_DIRECTION ");
        if quoted || !data {
            let name = segment.clone();
            self.cursor = self.cursor + 1;
            Some(name)
        } else {
            None
        }
    }

    /// Reads the next decoded segment: the document title on the first
    /// read when the front segment is one, then the decoding of the first
    /// recognised segment at or after the cursor, consuming everything
    /// unrecognised on the way; nothing is left when it yields nothing.
    pub fn next(&mut self) -> (r: Option<Segment>)
        requires
            old(self).cursor <= old(self).parts@.len(),
        ensures
            final(self).parts == old(self).parts,
            final(self).cursor <= final(self).parts@.len(),
            final(self).emitted_name,
            final(self).cursor >= old(self).cursor,
            r matches Some(sg) ==> (if sg is Name {
                &&& !old(self).emitted_name
                &&& old(self).cursor < old(self).parts@.len()
                &&& is_title(old(self).parts@[old(self).cursor as int]@)
                &&& (sg matches Segment::Name(nm) && nm@ == old(self).parts@[old(
                    self,
                ).cursor as int]@)
                &&& final(self).cursor == old(self).cursor + 1
            } else {
                &&& old(self).cursor < final(self).cursor <= old(self).parts@.len()
                &&& seg_recognised(old(self).parts@[final(self).cursor - 1]@)
                &&& segment_parsed(sg, old(self).parts@[final(self).cursor - 1]@)
                &&& no_recognised(
                    old(self).parts@,
                    old(self).cursor as int,
                    final(self).cursor - 1,
                )
                &&& (!old(self).emitted_name ==> !is_title(
                    old(self).parts@[old(self).cursor as int]@,
                ))
            }),
            r is None ==> (final(self).cursor == final(self).parts@.len() && no_recognised(
                old(self).parts@,
                old(self).cursor as int,
                old(self).parts@.len() as int,
            ) && (!old(self).emitted_name ==> (old(self).cursor == old(self).parts@.len()
                || !is_title(old(self).parts@[old(self).cursor as int]@)))),
    {
        if !self.emitted_name {
            self.emitted_name = true;
            let found = self.find_name();
            if let Some(name) = found {
                return Some(Segment::Name(name));
            }
        }
        while self.cursor < self.parts.len()
            invariant
                self.cursor <= self.parts@.len(),
                self.emitted_name,
                self.parts == old(self).parts,
                old(self).cursor <= self.cursor,
                no_recognised(self.parts@, old(self).cursor as int, self.cursor as int),
                !old(self).emitted_name ==> (old(self).cursor == old(self).parts@.len()
                    || !is_title(old(self).parts@[old(self).cursor as int]@)),
            decreases self.parts@.len() - self.cursor,
        {
            let seg = self.parts[self.cursor].clone();
            self.cursor = self.cursor + 1;
            let parsed = parse_segment(seg);
            if let Some(sg) = parsed {
                proof {
                    let k = self.cursor - 1;
                    assert(seg_recognised(old(self).parts@[k]@));
                    assert(segment_parsed(sg, old(self).parts@[k]@));
                }
                return Some(sg);
            }
        }
        None
    }
}

/// Does the range `parts[from..to]` hold no segment the dispatcher
/// recognises?
pub open spec fn no_recognised(parts: Seq<String>, from: int, to: int) -> bool {
    forall|k: int| from <= k < to ==> !seg_recognised((#[trigger] parts[k])@)
}

/// Did decoding the segment text `s` yield `sg`?/// Did decoding the segment text `s` yield `sg`?  Mirrors the dispatch on
/// the segment's first token.
pub open spec fn segment_parsed(sg: Segment, s: Seq<char>) -> bool {
    if starts_with_spec(s, "# BITSY VERSION"@) {
        let p = replace_spec(s, "# BITSY VERSION "@, Seq::<char>::empty());
        let ps = split_on(p, '.');
        if ps.len() == 2 && crate::position::coord_ok(ps[0]) && crate::position::coord_ok(ps[1]) {
            sg == Segment::Version(
                Version {
                    major: crate::numstr::uint_val(ps[0]) as u8,
                    minor: crate::numstr::uint_val(ps[1]) as u8,
                },
            )
        } else {
            sg == Segment::Warning(Error::Version)
        }
    } else if starts_with_spec(s, "! ROOM_FORMAT"@) {
        let p = replace_spec(s, "! ROOM_FORMAT "@, Seq::<char>::empty());
        if p == "0"@ {
            sg == Segment::RoomFormat(RoomFormat::Contiguous)
        } else if p == "1"@ {
            sg == Segment::RoomFormat(RoomFormat::CommaSeparated)
        } else {
            false
        }
    } else if !has_char(s, ' ') {
        false
    } else {
        let w = before_char(s, ' ');
        if w == "DEFAULT_FONT"@ {
            let p = replace_spec(s, "DEFAULT_FONT "@, Seq::<char>::empty());
            let f = crate::text::font_of(p);
            sg matches Segment::Font(ff, data) && ff == f && (if f == Font::Custom {
                data matches Some(d) && d@ == p
            } else {
                data is None
            })
        } else if w == "TEXT_DIRECTION"@ {
            if trim_ws_spec(s) == "TEXT_DIRECTION RTL"@ {
                sg == Segment::TextDirection(TextDirection::RightToLeft)
            } else {
                false
            }
        } else if w == "PAL"@ {
            let ls = lines_spec(s);
            sg matches Segment::Palette(p) && ls.len() >= 1 && p.id@ == (
            match crate::palette::first_pal(ls) {
                Some(v) => v,
                None => Seq::<char>::empty(),
            }) && (match crate::palette::first_name(ls) {
                Some(v) => (p.name matches Some(nm) && nm@ == v),
                None => p.name is None,
            }) && p.colours@ == crate::palette::pal_colours(ls)
        } else if w == "ROOM"@ || w == "SET"@ {
            sg matches Segment::Room(room, typ) && room_parsed(room, s) && typ == (
            if starts_with_spec(s, "SET "@) {
                RoomType::LegacySet
            } else {
                RoomType::Room
            })
        } else if w == "TIL"@ {
            match sg {
                Segment::Tile(t) => tile_decoded(t, s),
                Segment::Warning(e) => tile_failed(s, e),
                _ => false,
            }
        } else if w == "SPR"@ {
            match sg {
                Segment::Sprite(t) => sprite_decoded(t, s),
                Segment::Warning(e) => sprite_failed(s, e),
                _ => false,
            }
        } else if w == "ITM"@ {
            match sg {
                Segment::Item(t) => item_decoded(t, s),
                Segment::Warning(e) => item_failed(s, e),
                _ => false,
            }
        } else if w == "DLG"@ {
            match sg {
                Segment::Dialogue(d) => dialogue_decoded(d, s),
                Segment::Warning(e) => e == Error::Dialogue && !(lines_spec(s).len() > 0
                    && starts_with_spec(lines_spec(s)[0], "DLG "@)),
                _ => false,
            }
        } else if w == "END"@ {
            match sg {
                Segment::Ending(d) => ending_decoded(d, s),
                Segment::Warning(e) => e == Error::Ending && !(lines_spec(s).len() > 0
                    && starts_with_spec(lines_spec(s)[0], "END "@)),
                _ => false,
            }
        } else if w == "VAR"@ {
            sg matches Segment::Variable(v) && v.id@ == replace_spec(
                lines_spec(s)[0],
                "VAR "@,
                Seq::<char>::empty(),
            ) && v.initial_value@ == join_with(lines_spec(s).skip(1), "\n"@)
        } else if w == "FONT"@ {
            sg matches Segment::FontData(d) && d@ == s
        } else {
            false
        }
    }
}

/// A tile segment that decoded, with the fields its lines carry.
pub open spec fn tile_decoded(t: Tile, s: Seq<char>) -> bool {
    let ls = lines_spec(s);
    &&& ls.len() > 0
    &&& starts_with_spec(ls[0], "TIL "@)
    &&& crate::image::img_ok(ls, 1)
    &&& (match crate::tile::tile_tail(
        ls,
        1 + crate::image::img_dim(ls[1]),
        crate::tile::TileShape {
            name: None,
            wall: None,
            colour: None,
            frames: seq![crate::image::grid_pixels(ls, 1, crate::image::img_dim(ls[1]))],
        },
    ) {
        Ok(sh) => t.id@ == ls[0].skip(4) && crate::tile::tile_matches_shape(t, sh),
        Err(_) => false,
    })
}

/// Why a tile segment failed to decode.
pub open spec fn tile_failed(s: Seq<char>, e: Error) -> bool {
    let ls = lines_spec(s);
    if ls.len() == 0 {
        e == Error::Tile
    } else if !starts_with_spec(ls[0], "TIL "@) {
        e == Error::Sprite
    } else if !crate::image::img_ok(ls, 1) {
        e == Error::Image
    } else {
        match crate::tile::tile_tail(
            ls,
            1 + crate::image::img_dim(ls[1]),
            crate::tile::TileShape {
                name: None,
                wall: None,
                colour: None,
                frames: seq![crate::image::grid_pixels(ls, 1, crate::image::img_dim(ls[1]))],
            },
        ) {
            Ok(_) => false,
            Err(err) => e == err,
        }
    }
}

/// An item segment that decoded.
pub open spec fn item_decoded(t: Item, s: Seq<char>) -> bool {
    let ls = lines_spec(s);
    &&& ls.len() > 0
    &&& starts_with_spec(ls[0], "ITM "@)
    &&& crate::image::img_ok(ls, 1)
    &&& (match crate::item::item_tail(
        ls,
        1 + crate::image::img_dim(ls[1]),
        crate::item::ItemShape {
            name: None,
            dialogue: None,
            colour: None,
            frames: seq![crate::image::grid_pixels(ls, 1, crate::image::img_dim(ls[1]))],
        },
    ) {
        Ok(sh) => t.id@ == ls[0].skip(4) && crate::item::item_matches_shape(t, sh),
        Err(_) => false,
    })
}

/// Why an item segment failed to decode.
pub open spec fn item_failed(s: Seq<char>, e: Error) -> bool {
    let ls = lines_spec(s);
    if ls.len() == 0 || !starts_with_spec(ls[0], "ITM "@) {
        e == Error::Sprite
    } else if !crate::image::img_ok(ls, 1) {
        e == Error::Image
    } else {
        match crate::item::item_tail(
            ls,
            1 + crate::image::img_dim(ls[1]),
            crate::item::ItemShape {
                name: None,
                dialogue: None,
                colour: None,
                frames: seq![crate::image::grid_pixels(ls, 1, crate::image::img_dim(ls[1]))],
            },
        ) {
            Ok(_) => false,
            Err(err) => e == err,
        }
    }
}

/// A sprite segment that decoded.
pub open spec fn sprite_decoded(t: Sprite, s: Seq<char>) -> bool {
    let ls = lines_spec(s);
    &&& ls.len() > 0
    &&& starts_with_spec(ls[0], "SPR "@)
    &&& (match crate::sprite::sprite_tags(
        ls,
        ls.len(),
        crate::sprite::SpriteShape {
            name: None,
            dialogue: None,
            room: None,
            pos: None,
            colour: None,
            items: Seq::<Seq<char>>::empty(),
        },
    ) {
        Ok(sj) => match crate::frames::frames_pixels(ls.subrange(1, sj.1 as int), 0) {
            Ok(pxs) => t.id@ == replace_spec(ls[0], "SPR "@, Seq::<char>::empty())
                && crate::sprite::sprite_matches_shape(t, sj.0) && t.animation_frames@.map_values(
                |im: crate::image::Image| im.pixels@,
            ) == pxs,
            Err(_) => false,
        },
        Err(_) => false,
    })
}

/// Why a sprite segment failed to decode.
pub open spec fn sprite_failed(s: Seq<char>, e: Error) -> bool {
    let ls = lines_spec(s);
    if ls.len() == 0 || !starts_with_spec(ls[0], "SPR "@) {
        e == Error::Sprite
    } else {
        match crate::sprite::sprite_tags(
            ls,
            ls.len(),
            crate::sprite::SpriteShape {
                name: None,
                dialogue: None,
                room: None,
                pos: None,
                colour: None,
                items: Seq::<Seq<char>>::empty(),
            },
        ) {
            Ok(sj) => match crate::frames::frames_pixels(ls.subrange(1, sj.1 as int), 0) {
                Ok(_) => false,
                Err(_) => e == Error::Sprite,
            },
            Err(err) => e == err,
        }
    }
}

/// A dialogue segment that decoded.
pub open spec fn dialogue_decoded(d: Dialogue, s: Seq<char>) -> bool {
    let ls = lines_spec(s);
    &&& ls.len() > 0
    &&& starts_with_spec(ls[0], "DLG "@)
    &&& d.id@ == replace_spec(ls[0], "DLG "@, Seq::<char>::empty())
    &&& (if starts_with_spec(ls[ls.len() - 1], "NAME "@) {
        (d.name matches Some(nm) && nm@ == replace_spec(
            ls[ls.len() - 1],
            "NAME "@,
            Seq::<char>::empty(),
        )) && d.contents@ == join_with(ls.subrange(1, ls.len() - 1), "\n"@)
    } else {
        d.name is None && d.contents@ == join_with(ls.skip(1), "\n"@)
    })
}

/// An ending segment that decoded.
pub open spec fn ending_decoded(d: Ending, s: Seq<char>) -> bool {
    let ls = lines_spec(s);
    &&& ls.len() > 0
    &&& starts_with_spec(ls[0], "END "@)
    &&& d.id@ == replace_spec(ls[0], "END "@, Seq::<char>::empty())
    &&& d.dialogue@ == join_with(ls.skip(1), "\n"@)
}

/// Does a segment's first token name something the dispatcher decodes?
pub open spec fn seg_recognised(s: Seq<char>) -> bool {
    if starts_with_spec(s, "# BITSY VERSION"@) {
        true
    } else if starts_with_spec(s, "! ROOM_FORMAT"@) {
        let p = replace_spec(s, "! ROOM_FORMAT "@, Seq::<char>::empty());
        p == "0"@ || p == "1"@
    } else if !has_char(s, ' ') {
        false
    } else {
        let w = before_char(s, ' ');
        if w == "TEXT_DIRECTION"@ {
            trim_ws_spec(s) == "TEXT_DIRECTION RTL"@
        } else {
            w == "DEFAULT_FONT"@ || w == "PAL"@ || w == "ROOM"@ || w == "SET"@ || w == "TIL"@ || w
                == "SPR"@ || w == "ITM"@ || w == "DLG"@ || w == "END"@ || w == "VAR"@ || w
                == "FONT"@
        }
    }
}

/// Decodes one segment; unrecognised tags yield nothing, and a segment
/// whose entity fails to decode yields the diagnostic instead.
pub fn parse_segment(segment: String) -> (r: Option<Segment>)
    ensures
        r is Some <==> seg_recognised(segment@),
        r matches Some(sg) ==> segment_parsed(sg, segment@) && !(sg is Name),
{
    proof {
        reveal_strlit("");
        assert(""@ =~= Seq::<char>::empty());
        reveal_strlit("# BITSY VERSION");
        reveal_strlit("# BITSY VERSION ");
        reveal_strlit("! ROOM_FORMAT");
        reveal_strlit("! ROOM_FORMAT ");
    }
    if starts_with(segment.as_str(), "# BITSY VERSION") {
        let payload = crate::strutil::replace_all(segment.as_str(), "# BITSY VERSION ", "");
        let sg = match Version::new(payload.as_str()) {
            Ok(v) => Segment::Version(v),
            Err(_) => Segment::Warning(Error::Version),
        };
        return Some(sg);
    }
    if starts_with(segment.as_str(), "! ROOM_FORMAT") {
        let payload = crate::strutil::replace_all(segment.as_str(), "! ROOM_FORMAT ", "");
        return match RoomFormat::from(payload.as_str()) {
            Ok(f) => Some(Segment::RoomFormat(f)),
            Err(_) => None,
        };
    }
    let wopt = crate::strutil::split_once_sp(segment.as_str());
    let w = match wopt {
        Some(ab) => {
            proof {
                crate::strutil::lemma_split_once_chars(segment@, ab.0@, ab.1@);
            }
            ab.0
        },
        None => {
            return None;
        },
    };
    proof {
        assert(w@ == before_char(segment@, ' '));
        reveal_strlit("DEFAULT_FONT");
        reveal_strlit("DEFAULT_FONT ");
        reveal_strlit("TEXT_DIRECTION");
        reveal_strlit("TEXT_DIRECTION RTL");
        reveal_strlit("PAL");
        reveal_strlit("ROOM");
        reveal_strlit("SET");
        reveal_strlit("SET ");
        reveal_strlit("TIL");
        reveal_strlit("SPR");
        reveal_strlit("ITM");
        reveal_strlit("DLG");
        reveal_strlit("END");
        reveal_strlit("VAR");
        reveal_strlit("FONT");
    }
    if str_eq(w.as_str(), "DEFAULT_FONT") {
        let payload = crate::strutil::replace_all(segment.as_str(), "DEFAULT_FONT ", "");
        let font = Font::from(payload.as_str());
        let custom = match font {
            Font::Custom => Some(payload),
            _ => None,
        };
        Some(Segment::Font(font, custom))
    } else if str_eq(w.as_str(), "TEXT_DIRECTION") {
        let trimmed = trim_of(segment.as_str());
        if str_eq(trimmed.as_str(), "TEXT_DIRECTION RTL") {
            Some(Segment::TextDirection(TextDirection::RightToLeft))
        } else {
            None
        }
    } else if str_eq(w.as_str(), "PAL") {
        proof {
            // the segment has a space in it, so it has a line
            crate::strutil::lemma_lines_nonempty(segment@);
        }
        match Palette::from_str(segment.as_str()) {
            Ok(pw) => Some(Segment::Palette(pw.0)),
            Err(_) => None,
        }
    } else if str_eq(w.as_str(), "ROOM") || str_eq(w.as_str(), "SET") {
        let room_type = if starts_with(segment.as_str(), "SET ") {
            RoomType::LegacySet
        } else {
            RoomType::Room
        };
        let room = Room::from(segment.as_str());
        Some(Segment::Room(room, room_type))
    } else if str_eq(w.as_str(), "TIL") {
        match Tile::from_str(segment.as_str()) {
            Ok(t) => Some(Segment::Tile(t)),
            Err(e) => Some(Segment::Warning(e)),
        }
    } else if str_eq(w.as_str(), "SPR") {
        match Sprite::from_str(segment.as_str()) {
            Ok(t) => Some(Segment::Sprite(t)),
            Err(e) => Some(Segment::Warning(e)),
        }
    } else if str_eq(w.as_str(), "ITM") {
        match Item::from_str(segment.as_str()) {
            Ok(t) => Some(Segment::Item(t)),
            Err(e) => Some(Segment::Warning(e)),
        }
    } else if str_eq(w.as_str(), "DLG") {
        match Dialogue::from_str(segment.as_str()) {
            Ok(d) => Some(Segment::Dialogue(d)),
            Err(e) => Some(Segment::Warning(e)),
        }
    } else if str_eq(w.as_str(), "END") {
        match Ending::from_str(segment.as_str()) {
            Ok(d) => Some(Segment::Ending(d)),
            Err(e) => Some(Segment::Warning(e)),
        }
    } else if str_eq(w.as_str(), "VAR") {
        proof {
            assert(segment@.len() > 0);
            crate::strutil::lemma_lines_nonempty(segment@);
        }
        Some(Segment::Variable(Variable::from(segment.as_str())))
    } else if str_eq(w.as_str(), "FONT") {
        Some(Segment::FontData(segment))
    } else {
        None
    }
}

} // verus!
