//! Failure conditions raised while assembling or advancing streams.

use vstd::prelude::*;

verus! {

/// A failure found while building a source or advancing the pool.
///
/// Failures carry short textual context rather than the collaborator's own
/// error values, so that every variant is plain data.
#[derive(Debug)]
pub enum Error {
    /// An input/output failure, with a short description.
    Io(String),
    /// A splice-point annotation that does not hold an unsigned decimal number.
    Parse(String),
    /// A failure reported by the decoding collaborator.
    Vorbis(String),
    /// Several failures found during one scan of the pool.
    Multiple(Vec<Error>),
    /// Clips or sources whose audio formats disagree.
    AudioFormat,
    /// A failure tied to one clip, named by its handle.
    File(String, Box<Error>),
    /// A failure tied to one source directory, named by its path.
    Dir(String, Box<Error>),
    /// An aggregate was requested where no failure was recorded.
    NoItems,
}

impl Error {
    /// A short fixed description of the failure's category.
    pub fn description(&self) -> (r: &'static str)
        ensures
            self is Io ==> r@ == "an I/O error"@,
            self is Parse ==> r@ == "a parse error"@,
            self is Vorbis ==> r@ == "a Vorbis decoder error"@,
            self is Multiple ==> r@ == "multiple errors"@,
            self is AudioFormat ==> r@ == "inconsistent audio formats"@,
            self is File ==> r@ == "an error occurred in a file"@,
            self is Dir ==> r@ == "an error occurred in a directory"@,
            self is NoItems ==> r@ == "no items"@,
    {
        match self {
            Error::Io(_) => "an I/O error",
            Error::Parse(_) => "a parse error",
            Error::Vorbis(_) => "a Vorbis decoder error",
            Error::Multiple(_) => "multiple errors",
            Error::AudioFormat => "inconsistent audio formats",
            Error::File(_, _) => "an error occurred in a file",
            Error::Dir(_, _) => "an error occurred in a directory",
            Error::NoItems => "no items",
        }
    }
}

impl From<Vec<Error>> for Error {
    /// Collapses the failures of one scan: one alone stands for itself,
    /// several fold into `Multiple`, and none at all becomes `NoItems`.
    fn from(errors: Vec<Error>) -> (r: Error) {
        if errors.len() > 1 {
            Error::Multiple(errors)
        } else {
            let mut errors = errors;
            if let Some(e) = errors.pop() {
                e
            } else {
                Error::NoItems
            }
        }
    }
}

impl vstd::std_specs::convert::FromSpecImpl<Vec<Error>> for Error {
    open spec fn obeys_from_spec() -> bool {
        true
    }

    open spec fn from_spec(errors: Vec<Error>) -> Error {
        if errors@.len() == 0 {
            Error::NoItems
        } else if errors@.len() == 1 {
            errors@[0]
        } else {
            Error::Multiple(errors)
        }
    }
}

} // verus!
