//! Errors of loading a song and of preparing it for rendering.

use vstd::prelude::*;

verus! {

/// std's `str::Utf8Error`, carried opaque by `AsciiLoadError::Utf8`; nothing is assumed
/// of its contents.
#[verifier::external_type_specification]
#[verifier::external_body]
pub struct ExUtf8Error(std::str::Utf8Error);

/// std's `io::Error`, carried opaque by `AsciiLoadError::IO`; nothing is assumed of its
/// contents.
#[verifier::external_type_specification]
#[verifier::external_body]
pub struct ExIoError(std::io::Error);

/// An error in loading a song from its text form.
#[derive(Debug)]
pub enum AsciiLoadError {
    Format(String),
    Utf8(std::str::Utf8Error),
    IO(std::io::Error),
}

impl From<String> for AsciiLoadError {
    fn from(description: String) -> (r: AsciiLoadError)
        ensures
            r == AsciiLoadError::Format(description),
    {
        AsciiLoadError::Format(description)
    }
}

impl vstd::std_specs::convert::FromSpecImpl<String> for AsciiLoadError {
    open spec fn obeys_from_spec() -> bool {
        true
    }

    open spec fn from_spec(description: String) -> AsciiLoadError {
        AsciiLoadError::Format(description)
    }
}

impl From<std::str::Utf8Error> for AsciiLoadError {
    fn from(error: std::str::Utf8Error) -> (r: AsciiLoadError)
        ensures
            r == AsciiLoadError::Utf8(error),
    {
        AsciiLoadError::Utf8(error)
    }
}

impl vstd::std_specs::convert::FromSpecImpl<std::str::Utf8Error> for AsciiLoadError {
    open spec fn obeys_from_spec() -> bool {
        true
    }

    open spec fn from_spec(error: std::str::Utf8Error) -> AsciiLoadError {
        AsciiLoadError::Utf8(error)
    }
}

impl From<std::io::Error> for AsciiLoadError {
    fn from(error: std::io::Error) -> (r: AsciiLoadError)
        ensures
            r == AsciiLoadError::IO(error),
    {
        AsciiLoadError::IO(error)
    }
}

impl vstd::std_specs::convert::FromSpecImpl<std::io::Error> for AsciiLoadError {
    open spec fn obeys_from_spec() -> bool {
        true
    }

    open spec fn from_spec(error: std::io::Error) -> AsciiLoadError {
        AsciiLoadError::IO(error)
    }
}

/// An error in setting up the rendering of a song.
#[derive(Debug, Clone, Copy, PartialEq, Eq, Structural)]
pub enum GenerateSamplesError {
    /// A voice has no notes.
    EmptyVoice,
}

/// Any error of loading a song and setting up its rendering.
#[derive(Debug)]
pub enum LoadError {
    Ascii(AsciiLoadError),
    GenerateSamples(GenerateSamplesError),
}

impl From<AsciiLoadError> for LoadError {
    fn from(error: AsciiLoadError) -> (r: LoadError)
        ensures
            r == LoadError::Ascii(error),
    {
        LoadError::Ascii(error)
    }
}

impl vstd::std_specs::convert::FromSpecImpl<AsciiLoadError> for LoadError {
    open spec fn obeys_from_spec() -> bool {
        true
    }

    open spec fn from_spec(error: AsciiLoadError) -> LoadError {
        LoadError::Ascii(error)
    }
}

impl From<GenerateSamplesError> for LoadError {
    fn from(error: GenerateSamplesError) -> (r: LoadError)
        ensures
            r == LoadError::GenerateSamples(error),
    {
        LoadError::GenerateSamples(error)
    }
}

impl vstd::std_specs::convert::FromSpecImpl<GenerateSamplesError> for LoadError {
    open spec fn obeys_from_spec() -> bool {
        true
    }

    open spec fn from_spec(error: GenerateSamplesError) -> LoadError {
        LoadError::GenerateSamples(error)
    }
}

} // verus!
