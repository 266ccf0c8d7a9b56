use crate::text::{decimal_of, decimal_string};
use vstd::prelude::*;
use vstd::string::StringExecFns;

verus! {

/// Error raised while loading a `.env` file.
///
/// A `FormatException` carries a human-readable message, the path of the
/// offending file, and the 1-based line number at which the grammar
/// violation was detected.  A `PathException` carries the path of a file
/// that could not be read; it is raised by I/O code around the parser,
/// never by the parser itself.
#[derive(Debug)]
pub enum Exception {
    FormatException(String, String, usize),
    PathException(String),
}

impl Exception {
    /// The one-line description of the exception: the message with the file
    /// and line for a grammar violation, or the unreadable file's path.
    pub open spec fn spec_text(&self) -> Seq<char> {
        match self {
            Exception::FormatException(m, p, l) => m@ + " in \""@ + p@ + "\" at line "@
                + decimal_of(*l as int),
            Exception::PathException(p) => "Unable to read the \""@ + p@
                + "\" environment file."@,
        }
    }

    /// Renders the exception as its one-line description.
    pub fn text(&self) -> (r: String)
        ensures
            r@ == self.spec_text(),
    {
        match self {
            Exception::FormatException(m, p, l) => {
                let mut r = m.clone();
                r.append(" in \"");
                r.append(p.as_str());
                r.append("\" at line ");
                let num = decimal_string(*l);
                r.append(num.as_str());
                r
            },
            Exception::PathException(p) => {
                let mut r = String::from_str("Unable to read the \"");
                r.append(p.as_str());
                r.append("\" environment file.");
                r
            },
        }
    }
}

} // verus!
