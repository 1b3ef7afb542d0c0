//! Rooms: an identifier, a 16x16 tile grid (one character per tile or
//! comma-separated), and tagged lines for walls, name, palette, item and
//! ending placements, and exits.

use crate::exit::{transition_of, transition_text, Exit, Transition};
use crate::game::{RoomFormat, RoomType};
use crate::instance::{ExitInstance, Instance};
use crate::opt_line;
use crate::position::{pos_of, pos_ok, position_text, Position};
use crate::sprite::tag_word;
use crate::strutil::{
    has_char, join_with, lines_spec, replace_spec, split_lines, split_on, views,
};
use vstd::prelude::*;

verus! {

/// A room entry.
#[derive(Clone, Debug, PartialEq, Eq)]
pub struct Room {
    pub id: String,
    pub palette_id: Option<String>,
    pub name: Option<String>,
    pub tiles: Vec<String>,
    pub items: Vec<Instance>,
    pub exits: Vec<ExitInstance>,
    pub endings: Vec<Instance>,
    pub walls: Option<Vec<String>>,
}

/// The segment text with both room tags stripped, as decoding first
/// rewrites it.
pub open spec fn room_source(s: Seq<char>) -> Seq<char> {
    replace_spec(
        replace_spec(s, "ROOM "@, Seq::<char>::empty()),
        "SET "@,
        Seq::<char>::empty(),
    )
}

/// The tile identifiers one grid line contributes: up to sixteen
/// comma-separated tokens, or up to sixteen single characters with one
/// empty token when the line is short.
pub open spec fn row_ids(l: Seq<char>) -> Seq<Seq<char>> {
    if has_char(l, ',') {
        let ps = split_on(l, ',');
        if ps.len() <= 16 {
            ps
        } else {
            ps.take(16)
        }
    } else {
        if l.len() >= 16 {
            Seq::new(16, |i: int| seq![l[i]])
        } else {
            Seq::new(l.len(), |i: int| seq![l[i]]).push(Seq::<char>::empty())
        }
    }
}

/// The tile identifiers of the grid lines `ls[i..stop]` run together.
pub open spec fn grid_ids(ls: Seq<Seq<char>>, i: int, stop: int) -> Seq<Seq<char>>
    decreases stop - i,
{
    if i >= stop {
        Seq::<Seq<char>>::empty()
    } else {
        row_ids(ls[i]) + grid_ids(ls, i + 1, stop)
    }
}

/// Where the grid lines end: after line sixteen, or at the end of a short
/// segment.
pub open spec fn grid_stop(ls: Seq<Seq<char>>) -> int {
    if ls.len() < 17 {
        ls.len() as int
    } else {
        17
    }
}

/// An exit as its tag line describes it.
pub struct ExitShape {
    pub pos: Position,
    pub dest_room: Seq<char>,
    pub dest_pos: Position,
    pub transition: Option<Transition>,
    pub dialogue: Option<Seq<char>>,
}

/// What a room's tag lines build up.
pub struct RoomShape {
    pub name: Option<Seq<char>>,
    pub palette: Option<Seq<char>>,
    pub walls: Option<Seq<Seq<char>>>,
    pub items: Seq<(Seq<char>, Position)>,
    pub exits: Seq<ExitShape>,
    pub endings: Seq<(Seq<char>, Position)>,
}

/// Scans the optional `FX <effect>` / `DLG <id>` pairs at the end of an
/// exit line; a pair with an unknown effect changes nothing, and a lone
/// trailing token is ignored.
pub open spec fn fx_dlg(
    parts: Seq<Seq<char>>,
    k: nat,
    tr: Option<Transition>,
    dl: Option<Seq<char>>,
) -> (Option<Transition>, Option<Seq<char>>)
    decreases parts.len() - k,
    when k <= parts.len()
{
    if k + 1 >= parts.len() {
        (tr, dl)
    } else {
        let c0 = parts[k as int];
        let c1 = parts[k as int + 1];
        if c0 == "FX"@ {
            match transition_of(c1) {
                Ok(t) => fx_dlg(parts, k + 2, Some(t), dl),
                Err(_) => fx_dlg(parts, k + 2, tr, dl),
            }
        } else if c0 == "DLG"@ {
            fx_dlg(parts, k + 2, tr, Some(c1))
        } else {
            fx_dlg(parts, k + 2, tr, dl)
        }
    }
}

/// Does an exit line's payload carry a usable exit?
pub open spec fn ext_ok(parts: Seq<Seq<char>>) -> bool {
    &&& parts.len() >= 3
    &&& pos_ok(parts[0])
    &&& parts[1].len() > 0
    &&& parts[2].len() > 0
    &&& pos_ok(parts[2])
}

/// Folds the lines from `i` on into the shape `t`.
pub open spec fn room_tail(ls: Seq<Seq<char>>, i: nat, t: RoomShape) -> RoomShape
    decreases ls.len() - i,
    when i <= ls.len()
{
    if i >= ls.len() {
        t
    } else {
        let l = ls[i as int];
        let w = tag_word(l);
        let t2 = if w == "WAL"@ {
            RoomShape {
                walls: Some(split_on(replace_spec(l, "WAL "@, Seq::<char>::empty()), ',')),
                ..t
            }
        } else if w == "NAME"@ {
            RoomShape { name: Some(replace_spec(l, "NAME "@, Seq::<char>::empty())), ..t }
        } else if w == "PAL"@ {
            RoomShape { palette: Some(replace_spec(l, "PAL "@, Seq::<char>::empty())), ..t }
        } else if w == "ITM"@ {
            let p = replace_spec(l, "ITM "@, Seq::<char>::empty());
            if has_char(p, ' ') {
                let a = crate::strutil::before_char(p, ' ');
                let b = crate::strutil::after_char(p, ' ');
                if pos_ok(b) {
                    RoomShape { items: t.items.push((a, pos_of(b))), ..t }
                } else {
                    t
                }
            } else {
                t
            }
        } else if w == "EXT"@ {
            let parts = split_on(replace_spec(l, "EXT "@, Seq::<char>::empty()), ' ');
            if ext_ok(parts) {
                let td = fx_dlg(parts, 3, None, None);
                RoomShape {
                    exits: t.exits.push(
                        ExitShape {
                            pos: pos_of(parts[0]),
                            dest_room: parts[1],
                            dest_pos: pos_of(parts[2]),
                            transition: td.0,
                            dialogue: td.1,
                        },
                    ),
                    ..t
                }
            } else {
                t
            }
        } else if w == "END"@ {
            let p = replace_spec(l, "END "@, Seq::<char>::empty());
            if has_char(p, ' ') {
                let a = crate::strutil::before_char(p, ' ');
                let b = crate::strutil::after_char(p, ' ');
                if pos_ok(b) {
                    RoomShape { endings: t.endings.push((a, pos_of(b))), ..t }
                } else {
                    t
                }
            } else {
                t
            }
        } else {
            t
        };
        room_tail(ls, i + 1, t2)
    }
}

/// Does a decoded room match the shape its tag lines built?
pub open spec fn room_matches_shape(r: Room, sh: RoomShape) -> bool {
    &&& (match r.name {
        Some(nm) => sh.name == Some(nm@),
        None => sh.name is None,
    })
    &&& (match r.palette_id {
        Some(p) => sh.palette == Some(p@),
        None => sh.palette is None,
    })
    &&& (match r.walls {
        Some(w) => sh.walls == Some(views(w@)),
        None => sh.walls is None,
    })
    &&& r.items@.len() == sh.items.len()
    &&& (forall|k: int|
        0 <= k < r.items@.len() ==> (#[trigger] r.items@[k]).id@ == sh.items[k].0
            && r.items@[k].position == sh.items[k].1)
    &&& r.endings@.len() == sh.endings.len()
    &&& (forall|k: int|
        0 <= k < r.endings@.len() ==> (#[trigger] r.endings@[k]).id@ == sh.endings[k].0
            && r.endings@[k].position == sh.endings[k].1)
    &&& r.exits@.len() == sh.exits.len()
    &&& (forall|k: int|
        0 <= k < r.exits@.len() ==> {
            let e = #[trigger] r.exits@[k];
            let es = sh.exits[k];
            e.position == es.pos && e.exit.room_id@ == es.dest_room && e.exit.position
                == es.dest_pos && e.exit.effect == Transition::Instant && e.transition
                == es.transition && (match e.dialogue_id {
                Some(d) => es.dialogue == Some(d@),
                None => es.dialogue is None,
            })
        })
}

/// Tile identifiers run together without separators.
pub open spec fn cat_ids(ids: Seq<Seq<char>>) -> Seq<char>
    decreases ids.len(),
{
    if ids.len() == 0 {
        Seq::<char>::empty()
    } else {
        ids[0] + cat_ids(ids.skip(1))
    }
}

/// One grid row written out, with or without commas.
pub open spec fn row_line(ids: Seq<Seq<char>>, comma: bool) -> Seq<char> {
    if comma {
        join_with(ids, ","@)
    } else {
        cat_ids(ids)
    }
}

/// The whole tile grid written out, sixteen identifiers per line.
pub open spec fn grid_lines_text(ids: Seq<Seq<char>>, comma: bool) -> Seq<char>
    decreases ids.len(),
{
    if ids.len() == 0 {
        Seq::<char>::empty()
    } else if ids.len() <= 16 {
        row_line(ids, comma)
    } else {
        row_line(ids.take(16), comma) + "\n"@ + grid_lines_text(ids.skip(16), comma)
    }
}

/// The `ITM` placement lines.
pub open spec fn items_text(items: Seq<Instance>) -> Seq<char>
    decreases items.len(),
{
    if items.len() == 0 {
        Seq::<char>::empty()
    } else {
        "\nITM "@ + items[0].id@ + " "@ + position_text(items[0].position) + items_text(
            items.skip(1),
        )
    }
}

/// The `END` placement lines.
pub open spec fn endings_text(items: Seq<Instance>) -> Seq<char>
    decreases items.len(),
{
    if items.len() == 0 {
        Seq::<char>::empty()
    } else {
        "\nEND "@ + items[0].id@ + " "@ + position_text(items[0].position) + endings_text(
            items.skip(1),
        )
    }
}

/// One exit's `EXT` line.
pub open spec fn exit_line(e: ExitInstance) -> Seq<char> {
    "\nEXT "@ + position_text(e.position) + " "@ + crate::exit::exit_text(e.exit) + (
    match e.transition {
        Some(t) => transition_text(t),
        None => Seq::<char>::empty(),
    }) + (match e.dialogue_id {
        Some(d) => " DLG "@ + d@,
        None => Seq::<char>::empty(),
    })
}

/// The `EXT` lines.
pub open spec fn exits_text(es: Seq<ExitInstance>) -> Seq<char>
    decreases es.len(),
{
    if es.len() == 0 {
        Seq::<char>::empty()
    } else {
        exit_line(es[0]) + exits_text(es.skip(1))
    }
}

/// The serialized form of a room under the given grid format and room
/// tag.
pub open spec fn room_text(r: Room, fmt: RoomFormat, typ: RoomType) -> Seq<char> {
    (match typ {
        RoomType::Room => "ROOM"@,
        RoomType::LegacySet => "SET"@,
    }) + " "@ + r.id@ + "\n"@ + grid_lines_text(
        views(r.tiles@),
        fmt == RoomFormat::CommaSeparated,
    ) + opt_line("NAME"@, match r.name {
        Some(nm) => Some(nm@),
        None => None,
    }) + (match r.walls {
        Some(w) => "\nWAL "@ + join_with(views(w@), ","@),
        None => Seq::<char>::empty(),
    }) + items_text(r.items@) + exits_text(r.exits@) + endings_text(r.endings@) + (
    match r.palette_id {
        Some(p) => "\nPAL "@ + p@,
        None => Seq::<char>::empty(),
    })
}

/// Writes a tile grid, sixteen identifiers per line.
fn grid_block(tiles: &Vec<String>, comma: bool) -> (r: String)
    ensures
        r@ == grid_lines_text(views(tiles@), comma),
{
    let ghost tv = views(tiles@);
    let mut out = String::new();
    let n = tiles.len();
    let mut i: usize = 0;
    proof {
        assert(tv.skip(0) =~= tv);
        assert(Seq::<char>::empty() + grid_lines_text(tv, comma) =~= grid_lines_text(tv, comma));
    }
    while i < n
        invariant
            tv == views(tiles@),
            n == tv.len(),
            i <= n,
            grid_lines_text(tv, comma) == out@ + grid_lines_text(tv.skip(i as int), comma),
        decreases n - i,
    {
        let ghost rest = tv.skip(i as int);
        let end = if n - i < 16 {
            n
        } else {
            i + 16
        };
        let ghost row = if rest.len() <= 16 {
            rest
        } else {
            rest.take(16)
        };
        let ghost out0 = out@;
        let mut j: usize = i;
        proof {
            assert(row =~= tv.subrange(i as int, end as int));
            assert(row.skip(0) =~= row);
        }
        while j < end
            invariant
                tv == views(tiles@),
                n == tv.len(),
                i <= j <= end <= n,
                end - i <= 16,
                i < end,
                row == tv.subrange(i as int, end as int),
                out0 + row_line(row, comma) == out@ + row_line(row.skip(j - i), comma),
            decreases end - j,
        {
            let ghost rr = row.skip(j - i);
            proof {
                assert(rr[0] == tv[j as int]);
                assert(rr.skip(1) =~= row.skip(j - i + 1));
            }
            out.append(tiles[j].as_str());
            if comma && j + 1 < end {
                out.append(",");
                proof {
                    assert(rr.len() >= 2);
                    assert(join_with(rr, ","@) == rr[0] + ","@ + join_with(rr.skip(1), ","@));
                    assert(out@ + row_line(row.skip(j - i + 1), comma) =~= out0 + row_line(
                        row,
                        comma,
                    ));
                }
            } else {
                proof {
                    if comma {
                        assert(rr.len() == 1);
                        assert(join_with(rr, ","@) == rr[0]);
                        assert(row_line(row.skip(j - i + 1), comma).len() == 0);
                    } else {
                        assert(cat_ids(rr) == rr[0] + cat_ids(rr.skip(1)));
                    }
                    assert(out@ + row_line(row.skip(j - i + 1), comma) =~= out0 + row_line(
                        row,
                        comma,
                    ));
                }
            }
            j = j + 1;
        }
        proof {
            assert(row.skip(end - i) =~= Seq::<Seq<char>>::empty());
            assert(row_line(Seq::<Seq<char>>::empty(), comma).len() == 0);
            assert(out@ =~= out0 + row_line(row, comma));
        }
        if end < n {
            out.append("\n");
            proof {
                assert(rest.len() > 16);
                assert(row == rest.take(16));
                assert(grid_lines_text(rest, comma) == row_line(rest.take(16), comma) + "\n"@
                    + grid_lines_text(rest.skip(16), comma));
                assert(rest.skip(16) =~= tv.skip(end as int));
                assert(out@ + grid_lines_text(tv.skip(end as int), comma) =~= grid_lines_text(
                    tv,
                    comma,
                ));
            }
        } else {
            proof {
                assert(rest.len() <= 16);
                assert(grid_lines_text(rest, comma) == row_line(rest, comma));
                assert(row =~= rest);
                assert(tv.skip(n as int).len() == 0);
                assert(grid_lines_text(tv.skip(n as int), comma).len() == 0);
                assert(out@ + grid_lines_text(tv.skip(n as int), comma) =~= grid_lines_text(
                    tv,
                    comma,
                ));
            }
        }
        i = end;
    }
    proof {
        assert(tv.skip(n as int).len() == 0);
        assert(grid_lines_text(tv.skip(n as int), comma).len() == 0);
        assert(out@ =~= grid_lines_text(tv, comma));
    }
    out
}

/// Writes the `ITM` placement lines.
fn items_block(items: &Vec<Instance>) -> (r: String)
    ensures
        r@ == items_text(items@),
{
    let ghost its = items@;
    let mut out = String::new();
    let m = items.len();
    let mut k: usize = 0;
    proof {
        assert(its.skip(0) =~= its);
        assert(Seq::<char>::empty() + items_text(its) =~= items_text(its));
    }
    while k < m
        invariant
            its == items@,
            m == its.len(),
            k <= m,
            items_text(its) == out@ + items_text(its.skip(k as int)),
        decreases m - k,
    {
        let ghost rest = its.skip(k as int);
        proof {
            assert(rest[0] == its[k as int]);
            assert(rest.skip(1) =~= its.skip(k as int + 1));
            assert(items_text(rest) == "\nITM "@ + rest[0].id@ + " "@ + position_text(
                rest[0].position,
            ) + items_text(rest.skip(1)));
        }
        out.append("\nITM ");
        out.append(items[k].id.as_str());
        out.append(" ");
        out.append(items[k].position.to_string().as_str());
        proof {
            assert(out@ + items_text(its.skip(k as int + 1)) =~= items_text(its));
        }
        k = k + 1;
    }
    proof {
        assert(its.skip(m as int).len() == 0);
        assert(items_text(its.skip(m as int)).len() == 0);
        assert(out@ =~= items_text(its));
    }
    out
}

/// Writes the `END` placement lines.
fn endings_block(items: &Vec<Instance>) -> (r: String)
    ensures
        r@ == endings_text(items@),
{
    let ghost its = items@;
    let mut out = String::new();
    let m = items.len();
    let mut k: usize = 0;
    proof {
        assert(its.skip(0) =~= its);
        assert(Seq::<char>::empty() + endings_text(its) =~= endings_text(its));
    }
    while k < m
        invariant
            its == items@,
            m == its.len(),
            k <= m,
            endings_text(its) == out@ + endings_text(its.skip(k as int)),
        decreases m - k,
    {
        let ghost rest = its.skip(k as int);
        proof {
            assert(rest[0] == its[k as int]);
            assert(rest.skip(1) =~= its.skip(k as int + 1));
            assert(endings_text(rest) == "\nEND "@ + rest[0].id@ + " "@ + position_text(
                rest[0].position,
            ) + endings_text(rest.skip(1)));
        }
        out.append("\nEND ");
        out.append(items[k].id.as_str());
        out.append(" ");
        out.append(items[k].position.to_string().as_str());
        proof {
            assert(out@ + endings_text(its.skip(k as int + 1)) =~= endings_text(its));
        }
        k = k + 1;
    }
    proof {
        assert(its.skip(m as int).len() == 0);
        assert(endings_text(its.skip(m as int)).len() == 0);
        assert(out@ =~= endings_text(its));
    }
    out
}

/// Writes the `EXT` lines.
#[verifier::rlimit(60)]
#[verifier::spinoff_prover]
fn exits_block(es: &Vec<ExitInstance>) -> (r: String)
    ensures
        r@ == exits_text(es@),
{
    let ghost exs = es@;
    let mut out = String::new();
    let m = es.len();
    let mut k: usize = 0;
    proof {
        assert(exs.skip(0) =~= exs);
        assert(Seq::<char>::empty() + exits_text(exs) =~= exits_text(exs));
    }
    while k < m
        invariant
            exs == es@,
            m == exs.len(),
            k <= m,
            exits_text(exs) == out@ + exits_text(exs.skip(k as int)),
        decreases m - k,
    {
        let ghost rest = exs.skip(k as int);
        proof {
            assert(rest[0] == exs[k as int]);
            assert(rest.skip(1) =~= exs.skip(k as int + 1));
            assert(exits_text(rest) == exit_line(rest[0]) + exits_text(rest.skip(1)));
        }
        let e = &es[k];
        out.append("\nEXT ");
        out.append(e.position.to_string().as_str());
        out.append(" ");
        out.append(e.exit.to_string().as_str());
        match &e.transition {
            Some(t) => {
                out.append(t.to_string().as_str());
            },
            None => {},
        }
        match &e.dialogue_id {
            Some(d) => {
                out.append(" DLG ");
                out.append(d.as_str());
            },
            None => {},
        }
        proof {
            assert(out@ + exits_text(exs.skip(k as int + 1)) =~= exits_text(exs));
        }
        k = k + 1;
    }
    proof {
        assert(exs.skip(m as int).len() == 0);
        assert(exits_text(exs.skip(m as int)).len() == 0);
        assert(out@ =~= exits_text(exs));
    }
    out
}

/// The empty shape a room's tag scan starts from.
pub open spec fn room_shape_init() -> RoomShape {
    RoomShape {
        name: None,
        palette: None,
        walls: None,
        items: Seq::<(Seq<char>, Position)>::empty(),
        exits: Seq::<ExitShape>::empty(),
        endings: Seq::<(Seq<char>, Position)>::empty(),
    }
}

/// What decoding a room segment yields: an empty room for empty input,
/// and otherwise the identifier, grid and tag lines of the rewritten
/// text.
pub open spec fn room_parsed(r: Room, s: Seq<char>) -> bool {
    let ls = lines_spec(room_source(s));
    if ls.len() == 0 {
        r.id@.len() == 0 && r.tiles@.len() == 0 && r.items@.len() == 0 && r.exits@.len() == 0
            && r.endings@.len() == 0 && r.name is None && r.palette_id is None && r.walls is None
    } else {
        let sh = room_tail(ls, grid_stop(ls) as nat, room_shape_init());
        r.id@ == ls[0] && views(r.tiles@) == grid_ids(ls, 1, grid_stop(ls))
            && room_matches_shape(r, sh)
    }
}

impl Room {
    /// Writes the room as its segment under the given grid format and room
    /// tag.
    pub fn to_string(&self, room_format: RoomFormat, room_type: RoomType) -> (r: String)
        ensures
            r@ == room_text(*self, room_format, room_type),
    {
        let mut out = match room_type {
            RoomType::Room => String::from_str("ROOM"),
            RoomType::LegacySet => String::from_str("SET"),
        };
        out.append(" ");
        out.append(self.id.as_str());
        out.append("\n");
        let comma = match room_format {
            RoomFormat::CommaSeparated => true,
            RoomFormat::Contiguous => false,
        };
        out.append(grid_block(&self.tiles, comma).as_str());
        let nm = crate::optional_data_line("NAME", match &self.name {
            Some(v) => Some(v.clone()),
            None => None,
        });
        out.append(nm.as_str());
        match &self.walls {
            Some(w) => {
                out.append("\nWAL ");
                out.append(crate::strutil::join(w, ",").as_str());
            },
            None => {},
        }
        out.append(items_block(&self.items).as_str());
        out.append(exits_block(&self.exits).as_str());
        out.append(endings_block(&self.endings).as_str());
        match &self.palette_id {
            Some(p) => {
                out.append("\nPAL ");
                out.append(p.as_str());
            },
            None => {},
        }
        proof {
            assert(out@ =~= room_text(*self, room_format, room_type));
        }
        out
    }

    /// Decodes a `ROOM` (or legacy `SET`) segment: the identifier from the
    /// first line, sixteen grid lines, then tagged lines for everything
    /// else.  A tag line whose payload is unusable is dropped.
    #[verifier::rlimit(80)]
    pub fn from(string: &str) -> (r: Room)
        ensures
            room_parsed(r, string@),
    {
        proof {
            reveal_strlit("");
            reveal_strlit("ROOM ");
            reveal_strlit("SET ");
            assert(""@ =~= Seq::<char>::empty());
        }
        let step1 = crate::strutil::replace_all(string, "ROOM ", "");
        let source = crate::strutil::replace_all(step1.as_str(), "SET ", "");
        let ls = split_lines(source.as_str());
        let ghost lsv = views(ls@);
        let n = ls.len();
        if n == 0 {
            let empty_room = Room {
                id: String::new(),
                palette_id: None,
                name: None,
                tiles: Vec::new(),
                items: Vec::new(),
                exits: Vec::new(),
                endings: Vec::new(),
                walls: None,
            };
            return empty_room;
        }
        let id = ls[0].clone();
        proof {
            assert(lsv == lines_spec(room_source(string@)));
            assert(id@ == lsv[0]);
        }
        let stop: usize = if n < 17 {
            n
        } else {
            17
        };
        let mut tiles: Vec<String> = Vec::new();
        let mut i: usize = 1;
        proof {
            assert(views(tiles@) + grid_ids(lsv, 1, stop as int) =~= grid_ids(
                lsv,
                1,
                stop as int,
            ));
        }
        while i < stop
            invariant
                lsv == views(ls@),
                n == lsv.len(),
                stop == grid_stop(lsv),
                1 <= i <= stop,
                grid_ids(lsv, 1, stop as int) == views(tiles@) + grid_ids(
                    lsv,
                    i as int,
                    stop as int,
                ),
            decreases stop - i,
        {
            let line = &ls[i];
            proof {
                assert(line@ == lsv[i as int]);
            }
            let ghost tiles0 = views(tiles@);
            if crate::strutil::contains_char(line.as_str(), ',') {
                let parts = crate::strutil::split_char(line.as_str(), ',');
                let m = parts.len();
                let take = if m < 16 {
                    m
                } else {
                    16
                };
                let mut k: usize = 0;
                while k < take
                    invariant
                        take <= m,
                        m == parts@.len(),
                        k <= take,
                        tiles@.len() == tiles0.len() + k,
                        forall|q: int| 0 <= q < tiles0.len() ==> tiles@[q]@ == tiles0[q],
                        forall|q: int|
                            0 <= q < k ==> tiles@[tiles0.len() + q]@ == parts@[q]@,
                    decreases take - k,
                {
                    tiles.push(parts[k].clone());
                    k = k + 1;
                }
                proof {
                    assert(has_char(lsv[i as int], ','));
                    if m <= 16 {
                        assert(views(parts@).take(m as int) =~= views(parts@));
                        assert(row_ids(lsv[i as int]) == views(parts@));
                    } else {
                        assert(row_ids(lsv[i as int]) == views(parts@).take(16));
                    }
                    assert(views(tiles@) =~= tiles0 + row_ids(lsv[i as int]));
                }
            } else {
                let ln = line.as_str().unicode_len();
                let take = if ln < 16 {
                    ln
                } else {
                    16
                };
                let mut k: usize = 0;
                while k < take
                    invariant
                        take <= ln,
                        ln == line@.len(),
                        line@ == lsv[i as int],
                        k <= take,
                        tiles@.len() == tiles0.len() + k,
                        forall|q: int| 0 <= q < tiles0.len() ==> tiles@[q]@ == tiles0[q],
                        forall|q: int|
                            0 <= q < k ==> tiles@[tiles0.len() + q]@ == seq![line@[q]],
                    decreases take - k,
                {
                    let piece = crate::strutil::substr(line.as_str(), k, k + 1);
                    proof {
                        assert(piece@ =~= seq![line@[k as int]]);
                    }
                    tiles.push(piece);
                    k = k + 1;
                }
                if ln < 16 {
                    tiles.push(String::new());
                    proof {
                        assert(views(tiles@) =~= tiles0 + row_ids(lsv[i as int]));
                    }
                } else {
                    proof {
                        assert(views(tiles@) =~= tiles0 + row_ids(lsv[i as int]));
                    }
                }
            }
            proof {
                assert(grid_ids(lsv, i as int, stop as int) == row_ids(lsv[i as int]) + grid_ids(
                    lsv,
                    i as int + 1,
                    stop as int,
                ));
                assert(tiles0 + (row_ids(lsv[i as int]) + grid_ids(lsv, i as int + 1, stop as int))
                    =~= views(tiles@) + grid_ids(lsv, i as int + 1, stop as int));
            }
            i = i + 1;
        }
        let ghost init = RoomShape {
            name: None,
            palette: None,
            walls: None,
            items: Seq::<(Seq<char>, Position)>::empty(),
            exits: Seq::<ExitShape>::empty(),
            endings: Seq::<(Seq<char>, Position)>::empty(),
        };
        let mut room = Room {
            id,
            palette_id: None,
            name: None,
            tiles,
            items: Vec::new(),
            exits: Vec::new(),
            endings: Vec::new(),
            walls: None,
        };
        let mut shape_now: Ghost<RoomShape> = Ghost(init);
        proof {
            assert(room_matches_shape(room, init));
        }
        let ghost tilesv = views(room.tiles@);
        while i < n
            invariant
                lsv == views(ls@),
                n == lsv.len(),
                grid_stop(lsv) <= i <= n,
                init == (RoomShape {
                    name: None,
                    palette: None,
                    walls: None,
                    items: Seq::<(Seq<char>, Position)>::empty(),
                    exits: Seq::<ExitShape>::empty(),
                    endings: Seq::<(Seq<char>, Position)>::empty(),
                }),
                room.id@ == lsv[0],
                views(room.tiles@) == tilesv,
                tilesv == grid_ids(lsv, 1, grid_stop(lsv)),
                room_matches_shape(room, shape_now@),
                room_tail(lsv, grid_stop(lsv) as nat, init) == room_tail(
                    lsv,
                    i as nat,
                    shape_now@,
                ),
            decreases n - i,
        {
            let ghost oldshape = shape_now@;
            let line = &ls[i];
            proof {
                assert(line@ == lsv[i as int]);
                reveal_strlit("");
                reveal_strlit("WAL");
                reveal_strlit("WAL ");
                reveal_strlit("NAME");
                reveal_strlit("NAME ");
                reveal_strlit("PAL");
                reveal_strlit("PAL ");
                reveal_strlit("ITM");
                reveal_strlit("ITM ");
                reveal_strlit("EXT");
                reveal_strlit("EXT ");
                reveal_strlit("END");
                reveal_strlit("END ");
                reveal_strlit("FX");
                reveal_strlit("DLG");
                assert(""@ =~= Seq::<char>::empty());
            }
            let w = match crate::strutil::split_once_sp(line.as_str()) {
                Some(ab) => {
                    proof {
                        crate::strutil::lemma_split_once_chars(line@, ab.0@, ab.1@);
                    }
                    ab.0
                },
                None => String::new(),
            };
            proof {
                assert(w@ == tag_word(lsv[i as int]));
            }
            if crate::strutil::str_eq(w.as_str(), "WAL") {
                let payload = crate::strutil::replace_all(line.as_str(), "WAL ", "");
                let ids = crate::strutil::split_char(payload.as_str(), ',');
                room.walls = Some(ids);
                proof {
                    shape_now@ = RoomShape {
                        walls: Some(
                            split_on(
                                replace_spec(lsv[i as int], "WAL "@, Seq::<char>::empty()),
                                ',',
                            ),
                        ),
                        ..oldshape
                    };
                }
            } else if crate::strutil::str_eq(w.as_str(), "NAME") {
                room.name = Some(crate::strutil::replace_all(line.as_str(), "NAME ", ""));
                proof {
                    shape_now@ = RoomShape {
                        name: Some(replace_spec(lsv[i as int], "NAME "@, Seq::<char>::empty())),
                        ..oldshape
                    };
                }
            } else if crate::strutil::str_eq(w.as_str(), "PAL") {
                room.palette_id = Some(crate::strutil::replace_all(line.as_str(), "PAL ", ""));
                proof {
                    shape_now@ = RoomShape {
                        palette: Some(replace_spec(lsv[i as int], "PAL "@, Seq::<char>::empty())),
                        ..oldshape
                    };
                }
            } else if crate::strutil::str_eq(w.as_str(), "ITM") {
                let payload = crate::strutil::replace_all(line.as_str(), "ITM ", "");
                match crate::strutil::split_once_sp(payload.as_str()) {
                    Some(ab) => {
                        proof {
                            crate::strutil::lemma_split_once_chars(payload@, ab.0@, ab.1@);
                        }
                        if crate::strutil::contains_char(ab.1.as_str(), ',') {
                            proof {
                                crate::exit::lemma_comma_split_len(ab.1@);
                            }
                            match Position::from_str(ab.1.as_str()) {
                                Ok(p) => {
                                    room.items.push(Instance { position: p, id: ab.0 });
                                    proof {
                                        shape_now@ = RoomShape {
                                            items: oldshape.items.push(
                                                (
                                                    crate::strutil::before_char(
                                                        replace_spec(
                                                            lsv[i as int],
                                                            "ITM "@,
                                                            Seq::<char>::empty(),
                                                        ),
                                                        ' ',
                                                    ),
                                                    p,
                                                ),
                                            ),
                                            ..oldshape
                                        };
                                    }
                                },
                                Err(_) => {},
                            }
                        } else {
                            proof {
                                crate::exit::lemma_no_comma_short_split(ab.1@);
                            }
                        }
                    },
                    None => {},
                }
            } else if crate::strutil::str_eq(w.as_str(), "EXT") {
                let payload = crate::strutil::replace_all(line.as_str(), "EXT ", "");
                let parts = crate::strutil::split_char(payload.as_str(), ' ');
                let ghost partsv = split_on(
                    replace_spec(lsv[i as int], "EXT "@, Seq::<char>::empty()),
                    ' ',
                );
                proof {
                    assert(views(parts@) == partsv);
                }
                if parts.len() >= 3 && crate::strutil::contains_char(parts[0].as_str(), ',') {
                    proof {
                        crate::exit::lemma_comma_split_len(views(parts@)[0]);
                    }
                    match Position::from_str(parts[0].as_str()) {
                        Ok(pos) => {
                            let p1n = parts[1].as_str().unicode_len();
                            let p2n = parts[2].as_str().unicode_len();
                            if p1n > 0 && p2n > 0 && crate::strutil::contains_char(
                                parts[2].as_str(),
                                ',',
                            ) {
                                proof {
                                    crate::exit::lemma_comma_split_len(views(parts@)[2]);
                                }
                                match Position::from_str(parts[2].as_str()) {
                                    Ok(dpos) => {
                                        let mut tr: Option<Transition> = None;
                                        let mut dl: Option<String> = None;
                                        let mut k: usize = 3;
                                        let m = parts.len();
                                        while k < m - 1
                                            invariant
                                                partsv == views(parts@),
                                                m == partsv.len(),
                                                m >= 3,
                                                3 <= k <= m,
                                                (match dl {
                                                    Some(ref d) => fx_dlg(partsv, 3, None, None)
                                                        == fx_dlg(
                                                        partsv,
                                                        k as nat,
                                                        tr,
                                                        Some(d@),
                                                    ),
                                                    None => fx_dlg(partsv, 3, None, None)
                                                        == fx_dlg(partsv, k as nat, tr, None),
                                                }),
                                            decreases m - k,
                                        {
                                            proof {
                                                reveal_strlit("FX");
                                                reveal_strlit("DLG");
                                            }
                                            let c0 = &parts[k];
                                            let c1 = &parts[k + 1];
                                            proof {
                                                assert(c0@ == partsv[k as int]);
                                                assert(c1@ == partsv[k as int + 1]);
                                            }
                                            if crate::strutil::str_eq(c0.as_str(), "FX") {
                                                match Transition::from_str(c1.as_str()) {
                                                    Ok(t) => {
                                                        tr = Some(t);
                                                    },
                                                    Err(_) => {},
                                                }
                                            } else if crate::strutil::str_eq(c0.as_str(), "DLG") {
                                                dl = Some(c1.clone());
                                            }
                                            k = k + 2;
                                        }
                                        let ghost td = fx_dlg(partsv, 3, None, None);
                                        proof {
                                            assert(k <= m);
                                            assert(k + 1 >= m);
                                            match dl {
                                                Some(ref d) => {
                                                    assert(fx_dlg(partsv, k as nat, tr, Some(d@))
                                                        == (tr, Some(d@)));
                                                    assert(td == (tr, Some(d@)));
                                                },
                                                None => {
                                                    assert(fx_dlg(
                                                        partsv,
                                                        k as nat,
                                                        tr,
                                                        None::<Seq<char>>,
                                                    ) == (tr, None::<Seq<char>>));
                                                    assert(td == (tr, None::<Seq<char>>));
                                                },
                                            }
                                        }
                                        let dest_room = parts[1].clone();
                                        room.exits.push(
                                            ExitInstance {
                                                position: pos,
                                                exit: Exit {
                                                    room_id: dest_room,
                                                    position: dpos,
                                                    effect: Transition::Instant,
                                                },
                                                transition: tr,
                                                dialogue_id: dl,
                                            },
                                        );
                                        proof {
                                            shape_now@ = RoomShape {
                                                exits: oldshape.exits.push(
                                                    ExitShape {
                                                        pos: pos,
                                                        dest_room: partsv[1],
                                                        dest_pos: dpos,
                                                        transition: td.0,
                                                        dialogue: td.1,
                                                    },
                                                ),
                                                ..oldshape
                                            };
                                            assert(ext_ok(partsv));
                                        }
                                    },
                                    Err(_) => {},
                                }
                            } else {
                                proof {
                                    if p2n > 0 && !has_char(views(parts@)[2], ',') {
                                        crate::exit::lemma_no_comma_short_split(views(parts@)[2]);
                                    }
                                }
                            }
                        },
                        Err(_) => {},
                    }
                } else {
                    proof {
                        if parts@.len() >= 3 && !has_char(views(parts@)[0], ',') {
                            crate::exit::lemma_no_comma_short_split(views(parts@)[0]);
                        }
                    }
                }
            } else if crate::strutil::str_eq(w.as_str(), "END") {
                let payload = crate::strutil::replace_all(line.as_str(), "END ", "");
                match crate::strutil::split_once_sp(payload.as_str()) {
                    Some(ab) => {
                        proof {
                            crate::strutil::lemma_split_once_chars(payload@, ab.0@, ab.1@);
                        }
                        if crate::strutil::contains_char(ab.1.as_str(), ',') {
                            proof {
                                crate::exit::lemma_comma_split_len(ab.1@);
                            }
                            match Position::from_str(ab.1.as_str()) {
                                Ok(p) => {
                                    room.endings.push(Instance { position: p, id: ab.0 });
                                    proof {
                                        shape_now@ = RoomShape {
                                            endings: oldshape.endings.push(
                                                (
                                                    crate::strutil::before_char(
                                                        replace_spec(
                                                            lsv[i as int],
                                                            "END "@,
                                                            Seq::<char>::empty(),
                                                        ),
                                                        ' ',
                                                    ),
                                                    p,
                                                ),
                                            ),
                                            ..oldshape
                                        };
                                    }
                                },
                                Err(_) => {},
                            }
                        } else {
                            proof {
                                crate::exit::lemma_no_comma_short_split(ab.1@);
                            }
                        }
                    },
                    None => {},
                }
            }
            i = i + 1;
        }
        room
    }
}

} // verus!
