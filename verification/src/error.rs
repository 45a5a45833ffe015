//! Errors reported by Turtle write-back and expression parsing.
use vstd::prelude::*;
use crate::text::{chars_of, push_all, push_str, string_from};

verus! {

/// Failure of a write-back or parsing operation; each variant carries its detail text.
#[derive(Debug, Clone, PartialEq, Eq)]
pub enum OwlError {
    UnsupportedFormat(String),
    PatchInvalid(String),
    EntityNotFound(String),
    EntityExists(String),
    LoadFailed(String),
    SerializeFailed(String),
    Io(String),
    Store(String),
    ManchesterInvalid(String),
}

/// Human-readable heading of each error kind.
pub open spec fn heading(e: OwlError) -> Seq<char> {
    match e {
        OwlError::UnsupportedFormat(_) => "unsupported format for write-back: "@,
        OwlError::PatchInvalid(_) => "patch validation failed: "@,
        OwlError::EntityNotFound(_) => "entity not found: "@,
        OwlError::EntityExists(_) => "entity already exists: "@,
        OwlError::LoadFailed(_) => "Horned-OWL load failed: "@,
        OwlError::SerializeFailed(_) => "Horned-OWL serialize failed: "@,
        OwlError::Io(_) => "IO error: "@,
        OwlError::Store(_) => "store error: "@,
        OwlError::ManchesterInvalid(_) => "invalid Manchester expression: "@,
    }
}

/// Detail text carried by an error.
pub open spec fn detail(e: OwlError) -> Seq<char> {
    match e {
        OwlError::UnsupportedFormat(s) => s@,
        OwlError::PatchInvalid(s) => s@,
        OwlError::EntityNotFound(s) => s@,
        OwlError::EntityExists(s) => s@,
        OwlError::LoadFailed(s) => s@,
        OwlError::SerializeFailed(s) => s@,
        OwlError::Io(s) => s@,
        OwlError::Store(s) => s@,
        OwlError::ManchesterInvalid(s) => s@,
    }
}

impl OwlError {
    /// The displayed message: heading followed by the detail.
    pub fn message(&self) -> (r: String)
        ensures
            r@ == heading(*self) + detail(*self),
    {
        let mut out: Vec<char> = Vec::new();
        match self {
            OwlError::UnsupportedFormat(s) => {
                push_str(&mut out, "unsupported format for write-back: ");
                push_str(&mut out, s.as_str());
            },
            OwlError::PatchInvalid(s) => {
                push_str(&mut out, "patch validation failed: ");
                push_str(&mut out, s.as_str());
            },
            OwlError::EntityNotFound(s) => {
                push_str(&mut out, "entity not found: ");
                push_str(&mut out, s.as_str());
            },
            OwlError::EntityExists(s) => {
                push_str(&mut out, "entity already exists: ");
                push_str(&mut out, s.as_str());
            },
            OwlError::LoadFailed(s) => {
                push_str(&mut out, "Horned-OWL load failed: ");
                push_str(&mut out, s.as_str());
            },
            OwlError::SerializeFailed(s) => {
                push_str(&mut out, "Horned-OWL serialize failed: ");
                push_str(&mut out, s.as_str());
            },
            OwlError::Io(s) => {
                push_str(&mut out, "IO error: ");
                push_str(&mut out, s.as_str());
            },
            OwlError::Store(s) => {
                push_str(&mut out, "store error: ");
                push_str(&mut out, s.as_str());
            },
            OwlError::ManchesterInvalid(s) => {
                push_str(&mut out, "invalid Manchester expression: ");
                push_str(&mut out, s.as_str());
            },
        }
        string_from(out.as_slice())
    }
}

/// Error detail text `a` followed by `b`.
pub fn join2(a: &str, b: &[char]) -> (r: String)
    ensures
        r@ == a@ + b@,
{
    let mut out = chars_of(a);
    push_all(&mut out, b);
    string_from(out.as_slice())
}

/// Kind of an `OwlError`, without its detail.
#[derive(PartialEq, Eq, Structural, Clone, Copy, Debug)]
pub enum ErrKind {
    UnsupportedFormat,
    PatchInvalid,
    EntityNotFound,
    EntityExists,
    LoadFailed,
    SerializeFailed,
    Io,
    Store,
    ManchesterInvalid,
}

/// An error as its kind and detail text.
pub open spec fn err_of(e: OwlError) -> (ErrKind, Seq<char>) {
    match e {
        OwlError::UnsupportedFormat(s) => (ErrKind::UnsupportedFormat, s@),
        OwlError::PatchInvalid(s) => (ErrKind::PatchInvalid, s@),
        OwlError::EntityNotFound(s) => (ErrKind::EntityNotFound, s@),
        OwlError::EntityExists(s) => (ErrKind::EntityExists, s@),
        OwlError::LoadFailed(s) => (ErrKind::LoadFailed, s@),
        OwlError::SerializeFailed(s) => (ErrKind::SerializeFailed, s@),
        OwlError::Io(s) => (ErrKind::Io, s@),
        OwlError::Store(s) => (ErrKind::Store, s@),
        OwlError::ManchesterInvalid(s) => (ErrKind::ManchesterInvalid, s@),
    }
}

/// Outcome of a text edit: the new text, or the error kind and detail.
pub type Outcome = Result<Seq<char>, (ErrKind, Seq<char>)>;

/// An edit result viewed as an `Outcome`.
pub open spec fn outcome(r: Result<Vec<char>, OwlError>) -> Outcome {
    match r {
        Ok(v) => Ok(v@),
        Err(e) => Err(err_of(e)),
    }
}

/// Build an error of kind `k` with detail `d`.
pub fn make_err(k: ErrKind, d: &[char]) -> (r: OwlError)
    ensures
        err_of(r) == (k, d@),
{
    let s = string_from(d);
    match k {
        ErrKind::UnsupportedFormat => OwlError::UnsupportedFormat(s),
        ErrKind::PatchInvalid => OwlError::PatchInvalid(s),
        ErrKind::EntityNotFound => OwlError::EntityNotFound(s),
        ErrKind::EntityExists => OwlError::EntityExists(s),
        ErrKind::LoadFailed => OwlError::LoadFailed(s),
        ErrKind::SerializeFailed => OwlError::SerializeFailed(s),
        ErrKind::Io => OwlError::Io(s),
        ErrKind::Store => OwlError::Store(s),
        ErrKind::ManchesterInvalid => OwlError::ManchesterInvalid(s),
    }
}

/// Build an error whose detail is `a` followed by `b`.
pub fn err2(k: ErrKind, a: &str, b: &[char]) -> (r: OwlError)
    ensures
        err_of(r) == (k, a@ + b@),
{
    let mut out = chars_of(a);
    push_all(&mut out, b);
    make_err(k, out.as_slice())
}

} // verus!
