//! Game variables: an identifier and a free-form initial value.

use crate::strutil::{join_with, lines_spec, replace_spec, split_lines, tail_of, views};
use vstd::prelude::*;

verus! {

/// A named variable with its initial value; variables are only ever
/// deduplicated by identifier, never renamed.
#[derive(Clone, Debug, PartialEq, Eq)]
pub struct Variable {
    pub id: String,
    pub initial_value: String,
}

/// The serialized form of a variable.
pub open spec fn variable_text(v: Variable) -> Seq<char> {
    "VAR "@ + v.id@ + "\n"@ + v.initial_value@
}

impl Variable {
    /// Decodes a `VAR` segment: the identifier from the first line, the
    /// initial value from the remaining lines, newlines kept so that the
    /// segment writes back to the text it came from.
    pub fn from(string: &str) -> (r: Variable)
        requires
            lines_spec(string@).len() >= 1,
        ensures
            ({
                let ls = lines_spec(string@);
                r.id@ == replace_spec(ls[0], "VAR "@, Seq::<char>::empty()) && r.initial_value@
                    == join_with(ls.skip(1), "\n"@)
            }),
    {
        let ls = split_lines(string);
        proof {
            reveal_strlit("");
            reveal_strlit("VAR ");
            assert(""@ =~= Seq::<char>::empty());
            assert(views(ls@)[0] == lines_spec(string@)[0]);
        }
        let id = crate::strutil::replace_all(ls[0].as_str(), "VAR ", "");
        let rest = tail_of(&ls, 1);
        let initial_value = crate::strutil::join(&rest, "\n");
        Variable { id, initial_value }
    }

    /// Writes the variable as its `VAR` segment.
    pub fn to_string(&self) -> (r: String)
        ensures
            r@ == variable_text(*self),
    {
        let mut out = String::from_str("VAR ");
        out.append(self.id.as_str());
        out.append("\n");
        out.append(self.initial_value.as_str());
        proof {
            assert(out@ =~= variable_text(*self));
        }
        out
    }
}

} // verus!
