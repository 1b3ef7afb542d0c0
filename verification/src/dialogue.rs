//! Dialogues: an identifier, a free-form body, and an optional display
//! name on a trailing `NAME` line.

use crate::error::Error;
use crate::opt_line;
use crate::strutil::{
    join_with, lines_spec, replace_spec, split_lines, starts_with, starts_with_spec, tail_of,
    views,
};
use vstd::prelude::*;

verus! {

/// A dialogue entry; the body may span several lines.
#[derive(Clone, Debug, PartialEq, Eq)]
pub struct Dialogue {
    pub id: String,
    pub contents: String,
    pub name: Option<String>,
}

/// The view of an optional string.
pub open spec fn opt_view(o: Option<String>) -> Option<Seq<char>> {
    match o {
        Some(s) => Some(s@),
        None => None,
    }
}

/// The serialized form of a dialogue.
pub open spec fn dialogue_text(d: Dialogue) -> Seq<char> {
    "DLG "@ + d.id@ + "\n"@ + d.contents@ + opt_line("NAME"@, opt_view(d.name))
}

impl Dialogue {
    /// Decodes a `DLG` segment: the identifier from the first line, a
    /// display name from a trailing `NAME` line when there is one, and the
    /// body from the lines between.
    pub fn from_str(s: &str) -> (r: Result<Dialogue, Error>)
        ensures
            ({
                let ls = lines_spec(s@);
                if ls.len() == 0 || !starts_with_spec(ls[0], "DLG "@) {
                    r == Err::<Dialogue, Error>(Error::Dialogue)
                } else if starts_with_spec(ls[ls.len() - 1], "NAME "@) {
                    r matches Ok(d) && d.id@ == replace_spec(ls[0], "DLG "@, Seq::<char>::empty())
                        && (d.name matches Some(nm) && nm@ == replace_spec(
                        ls[ls.len() - 1],
                        "NAME "@,
                        Seq::<char>::empty(),
                    )) && d.contents@ == join_with(ls.subrange(1, ls.len() - 1), "\n"@)
                } else {
                    r matches Ok(d) && d.id@ == replace_spec(ls[0], "DLG "@, Seq::<char>::empty())
                        && d.name is None && d.contents@ == join_with(ls.skip(1), "\n"@)
                }
            }),
    {
        let ls = split_lines(s);
        if ls.len() == 0 || !starts_with(ls[0].as_str(), "DLG ") {
            return Err(Error::Dialogue);
        }
        proof {
            reveal_strlit("");
            reveal_strlit("DLG ");
            reveal_strlit("NAME ");
            assert(""@ =~= Seq::<char>::empty());
            assert(views(ls@)[0] == lines_spec(s@)[0]);
            assert(views(ls@)[ls@.len() - 1] == lines_spec(s@)[ls@.len() - 1]);
        }
        let id = crate::strutil::replace_all(ls[0].as_str(), "DLG ", "");
        let n = ls.len();
        if starts_with(ls[n - 1].as_str(), "NAME ") {
            proof {
                if n == 1 {
                    // one line cannot begin with both tags
                    let l0 = ls@[0]@;
                    assert(views(ls@)[0] == l0);
                    assert(starts_with_spec(l0, "DLG "@));
                    assert(starts_with_spec(l0, "NAME "@));
                    assert(l0.take("DLG "@.len() as int)[0] == l0[0]);
                    assert(l0[0] == 'D');
                    assert(l0.take("NAME "@.len() as int)[0] == l0[0]);
                    assert(l0[0] == 'N');
                }
            }
            let name = crate::strutil::replace_all(ls[n - 1].as_str(), "NAME ", "");
            let mut body: Vec<String> = Vec::new();
            let mut i: usize = 1;
            while i < n - 1
                invariant
                    n == ls@.len(),
                    n >= 2,
                    1 <= i <= n - 1,
                    body@.len() == i - 1,
                    forall|j: int| 0 <= j < body@.len() ==> body@[j]@ == ls@[j + 1]@,
                decreases n - i,
            {
                body.push(ls[i].clone());
                i = i + 1;
            }
            proof {
                assert(views(body@) =~= views(ls@).subrange(1, n as int - 1));
            }
            let contents = crate::strutil::join(&body, "\n");
            Ok(Dialogue { id, contents, name: Some(name) })
        } else {
            let rest = tail_of(&ls, 1);
            let contents = crate::strutil::join(&rest, "\n");
            Ok(Dialogue { id, contents, name: None })
        }
    }

    /// Writes the dialogue as its `DLG` segment.
    pub fn to_string(&self) -> (r: String)
        ensures
            r@ == dialogue_text(*self),
    {
        let mut out = String::from_str("DLG ");
        out.append(self.id.as_str());
        out.append("\n");
        out.append(self.contents.as_str());
        let tail = crate::optional_data_line("NAME", match &self.name {
            Some(v) => Some(v.clone()),
            None => None,
        });
        out.append(tail.as_str());
        proof {
            assert(out@ =~= dialogue_text(*self));
        }
        out
    }
}

} // verus!
