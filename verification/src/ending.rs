//! Endings: an identifier and a free-form closing text, much like a
//! dialogue without a display name.

use crate::error::Error;
use crate::strutil::{
    join_with, lines_spec, replace_spec, split_lines, starts_with, starts_with_spec, tail_of,
    views,
};
use vstd::prelude::*;

verus! {

/// An ending entry.
#[derive(Clone, Debug, PartialEq, Eq)]
pub struct Ending {
    pub id: String,
    pub dialogue: String,
}

/// The serialized form of an ending.
pub open spec fn ending_text(e: Ending) -> Seq<char> {
    "END "@ + e.id@ + "\n"@ + e.dialogue@
}

impl Ending {
    /// Decodes an `END` segment: the identifier from the first line, the
    /// text from the rest.
    pub fn from_str(s: &str) -> (r: Result<Ending, Error>)
        ensures
            ({
                let ls = lines_spec(s@);
                if ls.len() == 0 || !starts_with_spec(ls[0], "END "@) {
                    r == Err::<Ending, Error>(Error::Ending)
                } else {
                    r matches Ok(e) && e.id@ == replace_spec(ls[0], "END "@, Seq::<char>::empty())
                        && e.dialogue@ == join_with(ls.skip(1), "\n"@)
                }
            }),
    {
        let ls = split_lines(s);
        if ls.len() == 0 || !starts_with(ls[0].as_str(), "END ") {
            return Err(Error::Ending);
        }
        proof {
            reveal_strlit("");
            reveal_strlit("END ");
            assert(""@ =~= Seq::<char>::empty());
            assert(views(ls@)[0] == lines_spec(s@)[0]);
        }
        let id = crate::strutil::replace_all(ls[0].as_str(), "END ", "");
        let rest = tail_of(&ls, 1);
        let dialogue = crate::strutil::join(&rest, "\n");
        Ok(Ending { id, dialogue })
    }

    /// Writes the ending as its `END` segment.
    pub fn to_string(&self) -> (r: String)
        ensures
            r@ == ending_text(*self),
    {
        let mut out = String::from_str("END ");
        out.append(self.id.as_str());
        out.append("\n");
        out.append(self.dialogue.as_str());
        proof {
            assert(out@ =~= ending_text(*self));
        }
        out
    }
}

/// Round-trip identity for ending segments: on a well-formed `END`
/// segment — carriage-return-free, more than one line, no trailing
/// newline, and the tag not recurring inside the identifier — the fields
/// the decoder's contract pins down write back to the very text they came
/// from.
pub proof fn lemma_ending_round_trip(e: Ending, t: Seq<char>)
    requires
        !crate::strutil::has_char(t, '\r'),
        t.len() > 0,
        t[t.len() - 1] != '\n',
        lines_spec(t).len() >= 2,
        starts_with_spec(lines_spec(t)[0], "END "@),
        !crate::strutil::contains_sub(lines_spec(t)[0].skip(4), "END "@),
        e.id@ == replace_spec(lines_spec(t)[0], "END "@, Seq::<char>::empty()),
        e.dialogue@ == join_with(lines_spec(t).skip(1), "\n"@),
    ensures
        ending_text(e) == t,
{
    reveal_strlit("END ");
    let ls = lines_spec(t);
    let l0 = ls[0];
    assert(l0 =~= "END "@ + l0.skip(4)) by {
        assert(l0.take(4) == "END "@);
        assert forall|i: int| 0 <= i < l0.len() implies ("END "@ + l0.skip(4))[i] == l0[i] by {
            if i < 4 {
                assert(l0.take(4)[i] == l0[i]);
            }
        }
    }
    crate::strutil::lemma_replace_prefix("END "@, l0.skip(4), Seq::<char>::empty());
    assert(e.id@ == Seq::<char>::empty() + l0.skip(4));
    assert(e.id@ =~= l0.skip(4));
    crate::strutil::lemma_lines_join(t);
    assert(join_with(ls, "\n"@) == l0 + "\n"@ + join_with(ls.skip(1), "\n"@));
    assert(ending_text(e) =~= l0 + "\n"@ + join_with(ls.skip(1), "\n"@));
}

} // verus!
