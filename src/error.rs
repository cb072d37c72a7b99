use vstd::prelude::*;

verus! {

#[verifier::external_type_specification]
#[verifier::external_body]
pub struct ExIoError(std::io::Error);

/// Why reading FASTA records failed.
#[derive(Debug)]
pub enum Error {
    /// The byte source failed.
    Io(std::io::Error),
    /// The first non-empty line does not start with `>`.
    InvalidStart {
        /// Line number (1-based).
        line: usize,
        /// The byte that was found instead.
        found: u8,
    },
    /// The buffer policy refused to let the buffer grow while one record
    /// still did not fit.
    BufferLimit,
}

impl From<std::io::Error> for Error {
    fn from(e: std::io::Error) -> (r: Error)
        ensures
            r == Error::Io(e),
    {
        Error::Io(e)
    }
}

impl vstd::std_specs::convert::FromSpecImpl<std::io::Error> for Error {
    open spec fn obeys_from_spec() -> bool {
        true
    }

    open spec fn from_spec(e: std::io::Error) -> Error {
        Error::Io(e)
    }
}

/// Relies on `std::error::Error::description` of `std::io::Error`: the
/// error's own short description. Nothing is claimed of the text.
#[verifier::external_body]
#[allow(deprecated)]
fn io_description(e: &std::io::Error) -> &str {
    std::error::Error::description(e)
}

impl Error {
    /// A short description of the error kind.
    pub fn description(&self) -> (r: &str)
        ensures
            self is InvalidStart ==> r@ == "invalid record start"@,
            self is BufferLimit ==> r@ == "buffer limit reached"@,
    {
        match self {
            Error::Io(e) => io_description(e),
            Error::InvalidStart { .. } => "invalid record start",
            Error::BufferLimit => "buffer limit reached",
        }
    }
}

} // verus!
