//! The error taxonomy of the ingestion pipeline.
//!
//! Every failure is a kind plus a detail text. Failures that arise outside the
//! library (the filesystem, the catalog, the YAML deserialiser) arrive as their
//! message and keep their kind, so that a caller can tell them apart.

use vstd::prelude::*;
use vstd::string::*;

verus! {

/// What went wrong, without the detail.
#[derive(Clone, Copy, Debug, PartialEq, Eq, Structural)]
pub enum ErrorKind {
    IO,
    Utf8,
    Parse,
    MiniJinja,
    NotFound,
    Watcher,
    Sqlx,
    DoesNotExist,
    InvalidDirectory,
    SerdeYaml,
}

#[derive(Debug)]
pub enum KnawledgeError {
    /// Filesystem enumeration, read or canonicalisation failed.
    IO(String),
    /// A path segment or file name was not valid UTF-8.
    Utf8(String),
    /// A number could not be read.
    Parse(String),
    /// A template failed to render.
    MiniJinja(String),
    NotFound(String),
    /// The filesystem watcher failed.
    Watcher(String),
    /// A catalog operation failed.
    Sqlx(String),
    DoesNotExist(String),
    /// A directory has no final path segment, or one that is not UTF-8.
    InvalidDirectory(String),
    /// Front-matter could not be deserialised.
    SerdeYaml(String),
}

/// A failure as contracts see it.
pub ghost struct ErrorView {
    pub kind: ErrorKind,
    pub detail: Seq<char>,
}

impl View for KnawledgeError {
    type V = ErrorView;

    open spec fn view(&self) -> ErrorView {
        match self {
            KnawledgeError::IO(d) => ErrorView { kind: ErrorKind::IO, detail: d@ },
            KnawledgeError::Utf8(d) => ErrorView { kind: ErrorKind::Utf8, detail: d@ },
            KnawledgeError::Parse(d) => ErrorView { kind: ErrorKind::Parse, detail: d@ },
            KnawledgeError::MiniJinja(d) => ErrorView { kind: ErrorKind::MiniJinja, detail: d@ },
            KnawledgeError::NotFound(d) => ErrorView { kind: ErrorKind::NotFound, detail: d@ },
            KnawledgeError::Watcher(d) => ErrorView { kind: ErrorKind::Watcher, detail: d@ },
            KnawledgeError::Sqlx(d) => ErrorView { kind: ErrorKind::Sqlx, detail: d@ },
            KnawledgeError::DoesNotExist(d) => ErrorView {
                kind: ErrorKind::DoesNotExist,
                detail: d@,
            },
            KnawledgeError::InvalidDirectory(d) => ErrorView {
                kind: ErrorKind::InvalidDirectory,
                detail: d@,
            },
            KnawledgeError::SerdeYaml(d) => ErrorView { kind: ErrorKind::SerdeYaml, detail: d@ },
        }
    }
}

/// The text that introduces a failure of the given kind in its message.
pub open spec fn prefix(kind: ErrorKind) -> Seq<char> {
    match kind {
        ErrorKind::IO => "IO: "@,
        ErrorKind::Utf8 => "UTF-8: "@,
        ErrorKind::Parse => "Parse int: "@,
        ErrorKind::MiniJinja => "Template: "@,
        ErrorKind::NotFound => "Not found: "@,
        ErrorKind::Watcher => "Inotify error: "@,
        ErrorKind::Sqlx => "SQL: "@,
        ErrorKind::DoesNotExist => "Does not exist: "@,
        ErrorKind::InvalidDirectory => "Invalid Directory: "@,
        ErrorKind::SerdeYaml => "YAML error: "@,
    }
}

/// The HTTP status that a failure of the given kind is answered with.
pub open spec fn status_of(kind: ErrorKind) -> u16 {
    match kind {
        ErrorKind::Utf8 => 400,
        ErrorKind::NotFound | ErrorKind::DoesNotExist => 404,
        _ => 500,
    }
}

/// Whether the answer to a failure of the given kind shows the bare detail
/// rather than the whole message.
pub open spec fn answers_with_detail(kind: ErrorKind) -> bool {
    !(kind is Sqlx || kind is InvalidDirectory || kind is SerdeYaml)
}

impl KnawledgeError {
    pub fn kind(&self) -> (k: ErrorKind)
        ensures
            k == self@.kind,
    {
        match self {
            KnawledgeError::IO(_) => ErrorKind::IO,
            KnawledgeError::Utf8(_) => ErrorKind::Utf8,
            KnawledgeError::Parse(_) => ErrorKind::Parse,
            KnawledgeError::MiniJinja(_) => ErrorKind::MiniJinja,
            KnawledgeError::NotFound(_) => ErrorKind::NotFound,
            KnawledgeError::Watcher(_) => ErrorKind::Watcher,
            KnawledgeError::Sqlx(_) => ErrorKind::Sqlx,
            KnawledgeError::DoesNotExist(_) => ErrorKind::DoesNotExist,
            KnawledgeError::InvalidDirectory(_) => ErrorKind::InvalidDirectory,
            KnawledgeError::SerdeYaml(_) => ErrorKind::SerdeYaml,
        }
    }

    pub fn detail(&self) -> (d: &str)
        ensures
            d@ == self@.detail,
    {
        match self {
            KnawledgeError::IO(d) => d.as_str(),
            KnawledgeError::Utf8(d) => d.as_str(),
            KnawledgeError::Parse(d) => d.as_str(),
            KnawledgeError::MiniJinja(d) => d.as_str(),
            KnawledgeError::NotFound(d) => d.as_str(),
            KnawledgeError::Watcher(d) => d.as_str(),
            KnawledgeError::Sqlx(d) => d.as_str(),
            KnawledgeError::DoesNotExist(d) => d.as_str(),
            KnawledgeError::InvalidDirectory(d) => d.as_str(),
            KnawledgeError::SerdeYaml(d) => d.as_str(),
        }
    }

    /// The failure as one line of text: what kind it is, then the detail.
    pub fn message(&self) -> (m: String)
        ensures
            m@ == prefix(self@.kind) + self@.detail,
    {
        let head: &str = match self {
            KnawledgeError::IO(_) => "IO: ",
            KnawledgeError::Utf8(_) => "UTF-8: ",
            KnawledgeError::Parse(_) => "Parse int: ",
            KnawledgeError::MiniJinja(_) => "Template: ",
            KnawledgeError::NotFound(_) => "Not found: ",
            KnawledgeError::Watcher(_) => "Inotify error: ",
            KnawledgeError::Sqlx(_) => "SQL: ",
            KnawledgeError::DoesNotExist(_) => "Does not exist: ",
            KnawledgeError::InvalidDirectory(_) => "Invalid Directory: ",
            KnawledgeError::SerdeYaml(_) => "YAML error: ",
        };
        head.to_owned().concat(self.detail())
    }

    /// The HTTP status that answers this failure: 404 for what is not there,
    /// 400 for text that is not UTF-8, 500 for everything else.
    pub fn status_code(&self) -> (s: u16)
        ensures
            s == status_of(self@.kind),
    {
        match self {
            KnawledgeError::Utf8(_) => 400,
            KnawledgeError::NotFound(_) | KnawledgeError::DoesNotExist(_) => 404,
            _ => 500,
        }
    }

    /// The body of the answer to this failure: the detail alone, except for
    /// catalog, directory and front-matter failures, which show the whole
    /// message.
    pub fn response_body(&self) -> (b: String)
        ensures
            b@ == if answers_with_detail(self@.kind) {
                self@.detail
            } else {
                prefix(self@.kind) + self@.detail
            },
    {
        match self {
            KnawledgeError::Sqlx(_)
            | KnawledgeError::InvalidDirectory(_)
            | KnawledgeError::SerdeYaml(_) => self.message(),
            _ => self.detail().to_owned(),
        }
    }
}

} // verus!
