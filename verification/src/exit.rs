//! Exits between rooms: a destination room and position, with an optional
//! transition effect.

use crate::error::Error;
use crate::position::{coord_ok, position_text, Position};
use crate::strutil::{split_ws, str_eq, views};
use vstd::prelude::*;

verus! {

/// The screen transition an exit plays, `None` meaning an instant cut.
#[derive(Clone, Copy, Debug, PartialEq, Eq, Structural)]
pub enum Transition {
    Instant,
    FadeToWhite,
    FadeToBlack,
    Wave,
    Tunnel,
    SlideUp,
    SlideDown,
    SlideLeft,
    SlideRight,
}

/// The transition a token names, when it names one.
pub open spec fn transition_of(s: Seq<char>) -> Result<Transition, Error> {
    if s == "fade_w"@ {
        Ok(Transition::FadeToWhite)
    } else if s == "fade_b"@ {
        Ok(Transition::FadeToBlack)
    } else if s == "wave"@ {
        Ok(Transition::Wave)
    } else if s == "tunnel"@ {
        Ok(Transition::Tunnel)
    } else if s == "slide_u"@ {
        Ok(Transition::SlideUp)
    } else if s == "slide_d"@ {
        Ok(Transition::SlideDown)
    } else if s == "slide_l"@ {
        Ok(Transition::SlideLeft)
    } else if s == "slide_r"@ {
        Ok(Transition::SlideRight)
    } else {
        Err(Error::Transition)
    }
}

/// The serialized form of a transition, leading space included; an instant
/// cut writes nothing.
pub open spec fn transition_text(t: Transition) -> Seq<char> {
    match t {
        Transition::FadeToWhite => " FX fade_w"@,
        Transition::FadeToBlack => " FX fade_b"@,
        Transition::Wave => " FX wave"@,
        Transition::Tunnel => " FX tunnel"@,
        Transition::SlideUp => " FX slide_u"@,
        Transition::SlideDown => " FX slide_d"@,
        Transition::SlideLeft => " FX slide_l"@,
        Transition::SlideRight => " FX slide_r"@,
        Transition::Instant => Seq::<char>::empty(),
    }
}

impl Transition {
    /// Decodes a transition token.
    pub fn from_str(s: &str) -> (r: Result<Transition, Error>)
        ensures
            r == transition_of(s@),
    {
        if str_eq(s, "fade_w") {
            Ok(Transition::FadeToWhite)
        } else if str_eq(s, "fade_b") {
            Ok(Transition::FadeToBlack)
        } else if str_eq(s, "wave") {
            Ok(Transition::Wave)
        } else if str_eq(s, "tunnel") {
            Ok(Transition::Tunnel)
        } else if str_eq(s, "slide_u") {
            Ok(Transition::SlideUp)
        } else if str_eq(s, "slide_d") {
            Ok(Transition::SlideDown)
        } else if str_eq(s, "slide_l") {
            Ok(Transition::SlideLeft)
        } else if str_eq(s, "slide_r") {
            Ok(Transition::SlideRight)
        } else {
            Err(Error::Transition)
        }
    }

    /// Writes the transition's ` FX <name>` suffix, empty for an instant
    /// cut.
    pub fn to_string(&self) -> (r: String)
        ensures
            r@ == transition_text(*self),
    {
        match self {
            Transition::FadeToWhite => String::from_str(" FX fade_w"),
            Transition::FadeToBlack => String::from_str(" FX fade_b"),
            Transition::Wave => String::from_str(" FX wave"),
            Transition::Tunnel => String::from_str(" FX tunnel"),
            Transition::SlideUp => String::from_str(" FX slide_u"),
            Transition::SlideDown => String::from_str(" FX slide_d"),
            Transition::SlideLeft => String::from_str(" FX slide_l"),
            Transition::SlideRight => String::from_str(" FX slide_r"),
            Transition::Instant => {
                let r = String::new();
                proof {
                    assert(r@ =~= transition_text(Transition::Instant));
                }
                r
            },
        }
    }
}

/// An exit's destination: a room, a position in it, and the transition
/// played on the way.
#[derive(Clone, Debug, PartialEq, Eq)]
pub struct Exit {
    pub room_id: String,
    pub position: Position,
    pub effect: Transition,
}

/// The serialized form of an exit destination.
pub open spec fn exit_text(e: Exit) -> Seq<char> {
    e.room_id@ + " "@ + position_text(e.position) + transition_text(e.effect)
}

impl Exit {
    /// Decodes `<room> <x,y>` with an optional ` FX <effect>` tail.  A
    /// third token must be followed by a fourth, the effect's name; the
    /// original grammar has no three-token form.
    pub fn from_str(s: &str) -> (r: Result<Exit, Error>)
        requires
            split_ws(s@).len() != 3,
        ensures
            ({
                let ps = split_ws(s@);
                if ps.len() < 2 {
                    r == Err::<Exit, Error>(Error::Exit)
                } else if !(crate::strutil::split_on(ps[1], ',').len() >= 2) {
                    r == Err::<Exit, Error>(Error::Position)
                } else if !({
                    let cs = crate::strutil::split_on(ps[1], ',');
                    coord_ok(cs[0]) && coord_ok(cs[1])
                }) {
                    r == Err::<Exit, Error>(Error::Position)
                } else if ps.len() == 2 {
                    r matches Ok(e) && e.room_id@ == ps[0] && e.position == (Position {
                        x: crate::numstr::uint_val(crate::strutil::split_on(ps[1], ',')[0]) as u8,
                        y: crate::numstr::uint_val(crate::strutil::split_on(ps[1], ',')[1]) as u8,
                    }) && e.effect == Transition::Instant
                } else if transition_of(ps[3]) is Ok {
                    r matches Ok(e) && e.room_id@ == ps[0] && e.position == (Position {
                        x: crate::numstr::uint_val(crate::strutil::split_on(ps[1], ',')[0]) as u8,
                        y: crate::numstr::uint_val(crate::strutil::split_on(ps[1], ',')[1]) as u8,
                    }) && Ok::<Transition, Error>(e.effect) == transition_of(ps[3])
                } else {
                    r == Err::<Exit, Error>(Error::Transition)
                }
            }),
    {
        let parts = crate::strutil::split_whitespace_of(s);
        if parts.len() < 2 {
            return Err(Error::Exit);
        }
        let room_id = parts[0].clone();
        if !crate::strutil::contains_char(parts[1].as_str(), ',') {
            proof {
                lemma_no_comma_short_split(views(parts@)[1]);
            }
            return Err(Error::Position);
        }
        proof {
            lemma_comma_split_len(views(parts@)[1]);
        }
        let position = match Position::from_str(parts[1].as_str()) {
            Ok(p) => p,
            Err(e) => {
                return Err(e);
            },
        };
        let effect = if parts.len() > 2 {
            match Transition::from_str(parts[3].as_str()) {
                Ok(t) => t,
                Err(e) => {
                    return Err(e);
                },
            }
        } else {
            Transition::Instant
        };
        Ok(Exit { room_id, position, effect })
    }

    /// Writes the exit as `<room> <x,y>` plus the transition suffix.
    pub fn to_string(&self) -> (r: String)
        ensures
            r@ == exit_text(*self),
    {
        let mut out = self.room_id.clone();
        out.append(" ");
        out.append(self.position.to_string().as_str());
        out.append(self.effect.to_string().as_str());
        proof {
            assert(out@ =~= exit_text(*self));
        }
        out
    }
}

/// A string without a comma splits on commas into itself alone.
pub proof fn lemma_no_comma_short_split(s: Seq<char>)
    requires
        !crate::strutil::has_char(s, ','),
    ensures
        crate::strutil::split_on(s, ',').len() == 1,
{
    lemma_split_acc_no_sep(s, ',', Seq::<char>::empty());
}

/// A string with a comma splits on commas into at least two parts.
pub proof fn lemma_comma_split_len(s: Seq<char>)
    requires
        crate::strutil::has_char(s, ','),
    ensures
        crate::strutil::split_on(s, ',').len() >= 2,
{
    lemma_split_acc_sep(s, ',', Seq::<char>::empty());
}

/// Splitting on an absent separator yields one part.
proof fn lemma_split_acc_no_sep(s: Seq<char>, c: char, cur: Seq<char>)
    requires
        !crate::strutil::has_char(s, c),
    ensures
        crate::strutil::split_acc(s, c, cur).len() == 1,
    decreases s.len(),
{
    if s.len() > 0 {
        assert(s[0] != c);
        assert(forall|i: int| 0 <= i < s.skip(1).len() ==> s.skip(1)[i] == s[i + 1]);
        lemma_split_acc_no_sep(s.skip(1), c, cur.push(s[0]));
    }
}

/// Splitting on a present separator yields at least two parts.
proof fn lemma_split_acc_sep(s: Seq<char>, c: char, cur: Seq<char>)
    requires
        crate::strutil::has_char(s, c),
    ensures
        crate::strutil::split_acc(s, c, cur).len() >= 2,
    decreases s.len(),
{
    if s[0] == c {
        crate::strutil::lemma_split_acc_len(s.skip(1), c, Seq::<char>::empty());
    } else {
        let i = choose|i: int| 0 <= i < s.len() && s[i] == c;
        assert(s.skip(1)[i - 1] == c);
        lemma_split_acc_sep(s.skip(1), c, cur.push(s[0]));
    }
}

} // verus!
