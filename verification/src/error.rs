//! Errors that can be encountered while resolving a HOCON document.

use vstd::prelude::*;

verus! {

/// Mathematical model of an [`Error`]: the same variants with string
/// payloads as character sequences.
pub enum ErrorV {
    /// Model of [`Error::IO`].
    IO { message: Seq<char> },
    /// Model of [`Error::File`].
    File { path: Seq<char> },
    /// Model of [`Error::Parse`].
    Parse,
    /// Model of [`Error::Include`].
    Include { path: Seq<char> },
    /// Model of [`Error::TooManyIncludes`].
    TooManyIncludes,
    /// Model of [`Error::IncludeNotAllowedFromStr`].
    IncludeNotAllowedFromStr,
    /// Model of [`Error::DisabledExternalUrl`].
    DisabledExternalUrl,
    /// Model of [`Error::KeyNotFound`].
    KeyNotFound { key: Seq<char> },
    /// Model of [`Error::MissingKey`].
    MissingKey,
    /// Model of [`Error::InvalidKey`].
    InvalidKey,
    /// Model of [`Error::Deserialization`].
    Deserialization { message: Seq<char> },
}

/// Errors that can be encountered while reading a HOCON document.
#[derive(Debug, PartialEq)]
pub enum Error {
    /// An I/O failure, with the description of the underlying error.
    IO {
        /// Description of the original I/O error.
        message: String,
    },
    /// Error reading a file: not found, permissions, ...
    File {
        /// Path to the file being read.
        path: String,
    },
    /// The document is not valid HOCON.
    Parse,
    /// Error including a document.
    Include {
        /// Path of the included file.
        path: String,
    },
    /// An include chain went deeper than the configured maximum depth.
    TooManyIncludes,
    /// An include directive appeared in a document loaded from a string.
    IncludeNotAllowedFromStr,
    /// An `include url(...)` directive was found while loading from
    /// external URLs is disabled.
    DisabledExternalUrl,
    /// A substitution referred to a key that is not in the document.
    KeyNotFound {
        /// The key that was searched.
        key: String,
    },
    /// A value was asked of a key that is not present.
    MissingKey,
    /// A value was asked with a key of the wrong kind.
    InvalidKey,
    /// Error while deserializing to a target type.
    Deserialization {
        /// Message describing the deserialization failure.
        message: String,
    },
}

impl View for Error {
    type V = ErrorV;

    open spec fn view(&self) -> ErrorV {
        match self {
            Error::IO { message } => ErrorV::IO { message: message@ },
            Error::File { path } => ErrorV::File { path: path@ },
            Error::Parse => ErrorV::Parse,
            Error::Include { path } => ErrorV::Include { path: path@ },
            Error::TooManyIncludes => ErrorV::TooManyIncludes,
            Error::IncludeNotAllowedFromStr => ErrorV::IncludeNotAllowedFromStr,
            Error::DisabledExternalUrl => ErrorV::DisabledExternalUrl,
            Error::KeyNotFound { key } => ErrorV::KeyNotFound { key: key@ },
            Error::MissingKey => ErrorV::MissingKey,
            Error::InvalidKey => ErrorV::InvalidKey,
            Error::Deserialization { message } => ErrorV::Deserialization { message: message@ },
        }
    }
}

impl Clone for Error {
    /// Clones the error; the copy has the same model.
    fn clone(&self) -> (res: Self)
        ensures
            res@ == self@,
    {
        match self {
            Error::IO { message } => Error::IO { message: message.clone() },
            Error::File { path } => Error::File { path: path.clone() },
            Error::Parse => Error::Parse,
            Error::Include { path } => Error::Include { path: path.clone() },
            Error::TooManyIncludes => Error::TooManyIncludes,
            Error::IncludeNotAllowedFromStr => Error::IncludeNotAllowedFromStr,
            Error::DisabledExternalUrl => Error::DisabledExternalUrl,
            Error::KeyNotFound { key } => Error::KeyNotFound { key: key.clone() },
            Error::MissingKey => Error::MissingKey,
            Error::InvalidKey => Error::InvalidKey,
            Error::Deserialization { message } => Error::Deserialization {
                message: message.clone(),
            },
        }
    }
}

impl Error {
    /// A human-readable description of the error; string payloads
    /// are shown quoted.
    pub fn message(&self) -> (r: String)
        ensures
            self@ matches ErrorV::Deserialization { message } ==> r@ == "Error deserializing: \""@
                + message + "\""@,
            self@ matches ErrorV::KeyNotFound { key } ==> r@ == "Error looking for key \""@ + key
                + "\""@,
    {
        match self {
            Error::IO { message } => {
                let mut r = "Error during IO: \"".to_owned();
                r.append(message.as_str());
                r.append("\"");
                r
            },
            Error::File { path } => {
                let mut r = "Error reading file \"".to_owned();
                r.append(path.as_str());
                r.append("\"");
                r
            },
            Error::Parse => "Error while parsing document".to_owned(),
            Error::Include { path } => {
                let mut r = "Error including document at \"".to_owned();
                r.append(path.as_str());
                r.append("\"");
                r
            },
            Error::TooManyIncludes => "Error processing deep includes".to_owned(),
            Error::IncludeNotAllowedFromStr => {
                "Error processing includes from a str source".to_owned()
            },
            Error::DisabledExternalUrl => {
                "Error including document with external URL as feature has been disabled"
                    .to_owned()
            },
            Error::KeyNotFound { key } => {
                let mut r = "Error looking for key \"".to_owned();
                r.append(key.as_str());
                r.append("\"");
                r
            },
            Error::MissingKey => "Error getting a value because key is not present".to_owned(),
            Error::InvalidKey => {
                "Error getting a value because of an invalid key type".to_owned()
            },
            Error::Deserialization { message } => {
                let mut r = "Error deserializing: \"".to_owned();
                r.append(message.as_str());
                r.append("\"");
                r
            },
        }
    }

    /// Whether two errors have the same model; the decidable equality
    /// the resolution engine uses on error markers.
    pub fn same_as(&self, other: &Error) -> (res: bool)
        ensures
            res == (self@ == other@),
    {
        match (self, other) {
            (Error::IO { message: a }, Error::IO { message: b }) => *a == *b,
            (Error::File { path: a }, Error::File { path: b }) => *a == *b,
            (Error::Parse, Error::Parse) => true,
            (Error::Include { path: a }, Error::Include { path: b }) => *a == *b,
            (Error::TooManyIncludes, Error::TooManyIncludes) => true,
            (Error::IncludeNotAllowedFromStr, Error::IncludeNotAllowedFromStr) => true,
            (Error::DisabledExternalUrl, Error::DisabledExternalUrl) => true,
            (Error::KeyNotFound { key: a }, Error::KeyNotFound { key: b }) => *a == *b,
            (Error::MissingKey, Error::MissingKey) => true,
            (Error::InvalidKey, Error::InvalidKey) => true,
            (Error::Deserialization { message: a }, Error::Deserialization { message: b }) => {
                *a == *b
            },
            _ => false,
        }
    }
}

} // verus!
