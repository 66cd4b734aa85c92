//! The error type shared by every fallible operation of the library.
use vstd::prelude::*;

use crate::text::{decimal, decimal_chars, push_all, push_str, string_of};

verus! {

/// Why an operation failed. The application serializes it for the frontend
/// as `{ kind, message }` so the UI can branch on `kind` (for example to
/// prompt for a password) while still showing `message`.
#[derive(Debug)]
pub enum SheafError {
    Engine(String),
    Pdf(String),
    PasswordRequired,
    NoSuchDocument(u32),
    NoSuchPage(u16),
    /// An I/O failure, by the text of the operating system's error.
    Io(String),
}

pub type Result<T> = core::result::Result<T, SheafError>;

pub open spec fn kind_of(e: SheafError) -> Seq<char> {
    match e {
        SheafError::Engine(_) => "engine"@,
        SheafError::Pdf(_) => "pdf"@,
        SheafError::PasswordRequired => "password_required"@,
        SheafError::NoSuchDocument(_) => "no_such_document"@,
        SheafError::NoSuchPage(_) => "no_such_page"@,
        SheafError::Io(_) => "io"@,
    }
}

/// The human-readable text of an error.
pub open spec fn message_of(e: SheafError) -> Seq<char> {
    match e {
        SheafError::Engine(m) => "engine error: "@ + m@,
        SheafError::Pdf(m) => "pdf error: "@ + m@,
        SheafError::PasswordRequired => "document is password protected"@,
        SheafError::NoSuchDocument(id) => "no such document: "@ + decimal(id as nat),
        SheafError::NoSuchPage(p) => "no such page: "@ + decimal(p as nat),
        SheafError::Io(m) => "io error: "@ + m@,
    }
}

/// An `Engine` error with the text `msg`.
pub fn engine_error(msg: &str) -> (e: SheafError)
    ensures
        e matches SheafError::Engine(m) && m@ == msg@,
{
    SheafError::Engine(msg.to_owned())
}

/// A `Pdf` error with the text `msg`.
pub fn pdf_error(msg: &str) -> (e: SheafError)
    ensures
        e matches SheafError::Pdf(m) && m@ == msg@,
{
    SheafError::Pdf(msg.to_owned())
}

impl SheafError {
    /// The machine-readable kind the frontend branches on.
    pub fn kind(&self) -> (k: &'static str)
        ensures
            k@ == kind_of(*self),
    {
        match self {
            SheafError::Engine(_) => "engine",
            SheafError::Pdf(_) => "pdf",
            SheafError::PasswordRequired => "password_required",
            SheafError::NoSuchDocument(_) => "no_such_document",
            SheafError::NoSuchPage(_) => "no_such_page",
            SheafError::Io(_) => "io",
        }
    }

    /// The text shown to the user.
    pub fn message(&self) -> (m: String)
        ensures
            m@ == message_of(*self),
    {
        let mut out: Vec<char> = Vec::new();
        match self {
            SheafError::Engine(m) => {
                push_str(&mut out, "engine error: ");
                push_str(&mut out, m.as_str());
            },
            SheafError::Pdf(m) => {
                push_str(&mut out, "pdf error: ");
                push_str(&mut out, m.as_str());
            },
            SheafError::PasswordRequired => {
                push_str(&mut out, "document is password protected");
            },
            SheafError::NoSuchDocument(id) => {
                push_str(&mut out, "no such document: ");
                push_all(&mut out, decimal_chars(*id as u64).as_slice());
            },
            SheafError::NoSuchPage(p) => {
                push_str(&mut out, "no such page: ");
                push_all(&mut out, decimal_chars(*p as u64).as_slice());
            },
            SheafError::Io(m) => {
                push_str(&mut out, "io error: ");
                push_str(&mut out, m.as_str());
            },
        }
        string_of(out.as_slice())
    }
}

} // verus!
