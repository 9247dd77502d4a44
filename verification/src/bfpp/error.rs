//! What can go wrong in preprocessing.

use vstd::prelude::*;
use vstd::string::*;

verus! {

/// A preprocessing failure. Paths and causes are held as text.
#[derive(Debug)]
pub enum Error {
    /// The command line was not understood.
    Usage,
    /// A file could not be read.
    ReadFailed { path: String, source: String },
    /// A file could not be written.
    WriteFailed { path: String, source: String },
    /// A file is not UTF-8.
    InvalidUtf8 { path: String },
    /// An include directive is malformed, or includes form a cycle.
    IncludeError { path: String, message: String },
    /// A `@repeat` macro is malformed.
    RepeatError { message: String },
}

impl Error {
    /// The message for this error.
    pub open spec fn text(self) -> Seq<char> {
        match self {
            Error::Usage => "Usage: bfpp <input.bfpp> -o <output.bf>"@,
            Error::ReadFailed { path, source } => "failed to read '"@ + path@ + "': "@ + source@,
            Error::WriteFailed { path, source } => "failed to write '"@ + path@ + "': "@ + source@,
            Error::InvalidUtf8 { path } => "invalid UTF-8 in '"@ + path@ + "'"@,
            Error::IncludeError { path, message } => "include error in '"@ + path@ + "': "@
                + message@,
            Error::RepeatError { message } => "repeat error: "@ + message@,
        }
    }

    /// Renders the message for this error.
    pub fn to_string(&self) -> (r: String)
        ensures
            r@ == self.text(),
    {
        match self {
            Error::Usage => String::from_str("Usage: bfpp <input.bfpp> -o <output.bf>"),
            Error::ReadFailed { path, source } => {
                let mut r = String::from_str("failed to read '");
                r.append(path.as_str());
                r.append("': ");
                r.append(source.as_str());
                r
            },
            Error::WriteFailed { path, source } => {
                let mut r = String::from_str("failed to write '");
                r.append(path.as_str());
                r.append("': ");
                r.append(source.as_str());
                r
            },
            Error::InvalidUtf8 { path } => {
                let mut r = String::from_str("invalid UTF-8 in '");
                r.append(path.as_str());
                r.append("'");
                r
            },
            Error::IncludeError { path, message } => {
                let mut r = String::from_str("include error in '");
                r.append(path.as_str());
                r.append("': ");
                r.append(message.as_str());
                r
            },
            Error::RepeatError { message } => {
                let mut r = String::from_str("repeat error: ");
                r.append(message.as_str());
                r
            },
        }
    }
}

} // verus!
