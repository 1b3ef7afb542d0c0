//! Palettes: an identifier, an optional name, and an ordered list of RGB
//! colours, one per line.

use crate::colour::{channel_val, colour_text, Colour};
use crate::error::Error;
use crate::strutil::{
    join_with, lines_spec, replace_spec, split_lines, split_on, starts_with, starts_with_spec,
    trim_char, views,
};
use vstd::prelude::*;

verus! {

/// A palette entry.
#[derive(Clone, Debug, PartialEq, Eq)]
pub struct Palette {
    pub id: String,
    pub name: Option<String>,
    pub colours: Vec<Colour>,
}

/// Does this line decode as a colour (exactly three comma-separated
/// tokens)?
pub open spec fn colour_line_ok(l: Seq<char>) -> bool {
    split_on(trim_char(l, ','), ',').len() == 3
}

/// The colour a well-shaped colour line decodes to.
pub open spec fn colour_of_line(l: Seq<char>) -> Colour {
    let ps = split_on(trim_char(l, ','), ',');
    Colour { red: channel_val(ps[0]), green: channel_val(ps[1]), blue: channel_val(ps[2]) }
}

/// Is this line one of the palette's tag lines rather than a colour?
pub open spec fn pal_tagged(l: Seq<char>) -> bool {
    starts_with_spec(l, "PAL "@) || starts_with_spec(l, "NAME "@)
}

/// The identifier from the first `PAL` line, when there is one.
pub open spec fn first_pal(ls: Seq<Seq<char>>) -> Option<Seq<char>>
    decreases ls.len(),
{
    if ls.len() == 0 {
        None
    } else if starts_with_spec(ls[0], "PAL "@) {
        Some(replace_spec(ls[0], "PAL "@, Seq::<char>::empty()))
    } else {
        first_pal(ls.skip(1))
    }
}

/// The name from the first `NAME` line, when there is one.
pub open spec fn first_name(ls: Seq<Seq<char>>) -> Option<Seq<char>>
    decreases ls.len(),
{
    if ls.len() == 0 {
        None
    } else if starts_with_spec(ls[0], "NAME "@) {
        Some(replace_spec(ls[0], "NAME "@, Seq::<char>::empty()))
    } else {
        first_name(ls.skip(1))
    }
}

/// The colours of every untagged well-shaped line, in order.
pub open spec fn pal_colours(ls: Seq<Seq<char>>) -> Seq<Colour>
    decreases ls.len(),
{
    if ls.len() == 0 {
        Seq::<Colour>::empty()
    } else if pal_tagged(ls[0]) {
        pal_colours(ls.skip(1))
    } else if colour_line_ok(ls[0]) {
        seq![colour_of_line(ls[0])] + pal_colours(ls.skip(1))
    } else {
        pal_colours(ls.skip(1))
    }
}

/// How many untagged lines fail to decode as colours.
pub open spec fn pal_bad_lines(ls: Seq<Seq<char>>) -> nat
    decreases ls.len(),
{
    if ls.len() == 0 {
        0
    } else if pal_tagged(ls[0]) {
        pal_bad_lines(ls.skip(1))
    } else if colour_line_ok(ls[0]) {
        pal_bad_lines(ls.skip(1))
    } else {
        1 + pal_bad_lines(ls.skip(1))
    }
}

/// The serialized form of a palette.
pub open spec fn palette_text(p: Palette) -> Seq<char> {
    "PAL "@ + p.id@ + "\n"@ + (match p.name {
        Some(nm) => "NAME "@ + nm@ + "\n"@,
        None => Seq::<char>::empty(),
    }) + join_with(p.colours@.map_values(|c: Colour| colour_text(c)), "\n"@)
}

impl Palette {
    /// Decodes a `PAL` segment: the identifier from its first `PAL` line
    /// (empty when absent), the name from its first `NAME` line, a colour
    /// from every other line, and one diagnostic per line that decodes as
    /// neither.
    pub fn from_str(s: &str) -> (r: Result<(Palette, Vec<Error>), Error>)
        ensures
            ({
                let ls = lines_spec(s@);
                if ls.len() == 0 {
                    r == Err::<(Palette, Vec<Error>), Error>(Error::Palette)
                } else {
                    r matches Ok(pw) && pw.0.id@ == (match first_pal(ls) {
                        Some(v) => v,
                        None => Seq::<char>::empty(),
                    }) && (match first_name(ls) {
                        Some(v) => (pw.0.name matches Some(nm) && nm@ == v),
                        None => pw.0.name is None,
                    }) && pw.0.colours@ == pal_colours(ls) && pw.1@.len() == pal_bad_lines(ls)
                        && (forall|i: int| 0 <= i < pw.1@.len() ==> pw.1@[i] == Error::Colour)
                }
            }),
    {
        let ls = split_lines(s);
        let ghost lsv = views(ls@);
        let n = ls.len();
        if n == 0 {
            return Err(Error::Palette);
        }
        proof {
            reveal_strlit("");
            reveal_strlit("PAL ");
            reveal_strlit("NAME ");
            assert(""@ =~= Seq::<char>::empty());
            assert(lsv.skip(0) =~= lsv);
        }
        let mut id = String::new();
        let mut name: Option<String> = None;
        let mut colours: Vec<Colour> = Vec::new();
        let mut warnings: Vec<Error> = Vec::new();
        let mut have_id = false;
        let mut i: usize = 0;
        while i < n
            invariant
                lsv == views(ls@),
                n == lsv.len(),
                i <= n,
                have_id ==> (first_pal(lsv) matches Some(v) && id@ == v),
                !have_id ==> first_pal(lsv) == first_pal(lsv.skip(i as int)) && id@
                    == Seq::<char>::empty(),
                match name {
                    Some(nm) => (first_name(lsv) matches Some(v) && nm@ == v),
                    None => first_name(lsv) == first_name(lsv.skip(i as int)),
                },
                pal_colours(lsv) == colours@ + pal_colours(lsv.skip(i as int)),
                pal_bad_lines(lsv) == warnings@.len() + pal_bad_lines(lsv.skip(i as int)),
                forall|k: int| 0 <= k < warnings@.len() ==> warnings@[k] == Error::Colour,
            decreases n - i,
        {
            let ghost rest = lsv.skip(i as int);
            proof {
                assert(rest[0] == lsv[i as int]);
                assert(rest.skip(1) =~= lsv.skip(i as int + 1));
            }
            let line = &ls[i];
            proof {
                assert(line@ == rest[0]);
                reveal_strlit("");
                reveal_strlit("PAL ");
                reveal_strlit("NAME ");
                assert(""@ =~= Seq::<char>::empty());
            }
            if starts_with(line.as_str(), "PAL ") {
                proof {
                    // a PAL line does not begin with NAME
                    if starts_with_spec(rest[0], "NAME "@) {
                        assert(rest[0].take(5)[0] == rest[0][0]);
                        assert(rest[0].take(4)[0] == rest[0][0]);
                        assert(rest[0][0] == 'N');
                        assert(rest[0][0] == 'P');
                    }
                    assert(!starts_with_spec(rest[0], "NAME "@));
                }
                if !have_id {
                    id = crate::strutil::replace_all(line.as_str(), "PAL ", "");
                    have_id = true;
                    proof {
                        assert(first_pal(rest) == Some(
                            replace_spec(rest[0], "PAL "@, Seq::<char>::empty()),
                        ));
                    }
                }
            } else if starts_with(line.as_str(), "NAME ") {
                if name.is_none() {
                    name = Some(crate::strutil::replace_all(line.as_str(), "NAME ", ""));
                    proof {
                        assert(first_name(rest) == Some(
                            replace_spec(rest[0], "NAME "@, Seq::<char>::empty()),
                        ));
                    }
                }
            } else {
                match Colour::from(line.as_str()) {
                    Ok(c) => {
                        colours.push(c);
                        proof {
                            assert(colour_line_ok(rest[0]));
                            assert(c == colour_of_line(rest[0]));
                            assert(colours@ =~= colours@.drop_last().push(c));
                            assert(colours@.drop_last() + (seq![c] + pal_colours(rest.skip(1)))
                                =~= colours@ + pal_colours(rest.skip(1)));
                        }
                    },
                    Err(e) => {
                        warnings.push(e);
                    },
                }
            }
            i = i + 1;
        }
        proof {
            assert(lsv.skip(n as int).len() == 0);
            assert(pal_colours(lsv.skip(n as int)) == Seq::<Colour>::empty());
            assert(colours@ + Seq::<Colour>::empty() =~= colours@);
            if !have_id {
                assert(first_pal(lsv) is None);
            }
        }
        Ok((Palette { id, name, colours }, warnings))
    }

    /// Writes the palette as its `PAL` segment.
    pub fn to_string(&self) -> (r: String)
        ensures
            r@ == palette_text(*self),
    {
        let mut out = String::from_str("PAL ");
        out.append(self.id.as_str());
        out.append("\n");
        match &self.name {
            Some(nm) => {
                out.append("NAME ");
                out.append(nm.as_str());
                out.append("\n");
            },
            None => {},
        }
        let ghost head = out@;
        let ghost cols = self.colours@.map_values(|c: Colour| colour_text(c));
        let n = self.colours.len();
        let mut i: usize = 0;
        proof {
            assert(cols.skip(0) =~= cols);
        }
        while i < n
            invariant
                cols == self.colours@.map_values(|c: Colour| colour_text(c)),
                n == cols.len(),
                n == self.colours@.len(),
                i <= n,
                head + join_with(cols, "\n"@) == out@ + join_with(cols.skip(i as int), "\n"@),
                i == n ==> out@ == head + join_with(cols, "\n"@),
            decreases n - i,
        {
            let ghost rest = cols.skip(i as int);
            proof {
                assert(rest[0] == cols[i as int]);
                assert(rest.skip(1) =~= cols.skip(i as int + 1));
            }
            out.append(self.colours[i].to_string().as_str());
            if i + 1 < n {
                out.append("\n");
                proof {
                    assert(join_with(rest, "\n"@) == rest[0] + "\n"@ + join_with(
                        rest.skip(1),
                        "\n"@,
                    ));
                    assert(out@ + join_with(cols.skip(i as int + 1), "\n"@) =~= head + join_with(
                        cols,
                        "\n"@,
                    ));
                }
            } else {
                proof {
                    assert(join_with(rest, "\n"@) == rest[0]);
                    assert(out@ + join_with(cols.skip(i as int + 1), "\n"@) =~= head + join_with(
                        cols,
                        "\n"@,
                    ));
                }
            }
            i = i + 1;
        }
        proof {
            if n == 0 {
                assert(join_with(cols, "\n"@).len() == 0);
                assert(out@ =~= head + join_with(cols, "\n"@));
            }
            assert(out@ =~= palette_text(*self));
        }
        out
    }
}

} // verus!
