//! Error types of the store.
//!
//! Every fallible operation returns a typed result; errors carry an optional
//! wrapped cause for chaining.  No operation panics on ordinary bad input.

use vstd::prelude::*;

verus! {

/// Kind of store error.
#[derive(Clone, Copy, Debug, PartialEq, Eq, Structural)]
pub enum StoreErrorKind {
    ConfigurationError,
    FileError,
    IdLocked,
    IdNotFound,
    OutOfMemory,
    FileNotFound,
    FileNotCreated,
    IoError,
    StorePathExists,
    StorePathCreate,
    LockError,
    LockPoisoned,
    EntryAlreadyBorrowed,
    EntryAlreadyExists,
    EntryNotExistent,
    EntryRenameError,
    MalformedEntry,
    HeaderPathSyntaxError,
    HeaderPathTypeFailure,
    HeaderKeyNotFound,
    HeaderTypeFailure,
    HookRegisterError,
    AspectNameNotFoundError,
    HookExecutionError,
    PreHookExecuteError,
    PostHookExecuteError,
    StorePathLacksVersion,
    GlobError,
    EncodingError,
}

/// A short description of a store error kind.
pub fn store_error_type_as_str(e: &StoreErrorKind) -> (r: &'static str)
{
    match e {
        StoreErrorKind::ConfigurationError => "Store Configuration Error",
        StoreErrorKind::FileError => "File Error",
        StoreErrorKind::IdLocked => "ID locked",
        StoreErrorKind::IdNotFound => "ID not found",
        StoreErrorKind::OutOfMemory => "Out of Memory",
        StoreErrorKind::FileNotFound => "File corresponding to ID not found",
        StoreErrorKind::FileNotCreated => "File corresponding to ID could not be created",
        StoreErrorKind::IoError => "File Error",
        StoreErrorKind::StorePathExists => "Store path exists",
        StoreErrorKind::StorePathCreate => "Store path create",
        StoreErrorKind::LockError => "Error locking datastructure",
        StoreErrorKind::LockPoisoned => "The internal Store Lock has been poisoned",
        StoreErrorKind::EntryAlreadyBorrowed => "Entry is already borrowed",
        StoreErrorKind::EntryAlreadyExists => "Entry already exists",
        StoreErrorKind::EntryNotExistent => "Entry does not exists",
        StoreErrorKind::EntryRenameError => "Entry rename error",
        StoreErrorKind::MalformedEntry => "Entry has invalid formatting, missing header",
        StoreErrorKind::HeaderPathSyntaxError => "Syntax error in accessor string",
        StoreErrorKind::HeaderPathTypeFailure => "Header has wrong type for path",
        StoreErrorKind::HeaderKeyNotFound => "Header Key not found",
        StoreErrorKind::HeaderTypeFailure => "Header type is wrong",
        StoreErrorKind::HookRegisterError => "Hook register error",
        StoreErrorKind::AspectNameNotFoundError => "Aspect name not found",
        StoreErrorKind::HookExecutionError => "Hook execution error",
        StoreErrorKind::PreHookExecuteError => "Pre-Hook execution error",
        StoreErrorKind::PostHookExecuteError => "Post-Hook execution error",
        StoreErrorKind::StorePathLacksVersion => "The supplied store path has no version part",
        StoreErrorKind::GlobError => "glob() error",
        StoreErrorKind::EncodingError => "Encoding error",
    }
}

/// Kind of header parser error.
#[derive(Clone, Copy, Debug, PartialEq, Eq, Structural)]
pub enum ParserErrorKind {
    TOMLParserErrors,
    MissingMainSection,
    MissingVersionInfo,
    NonTableInBaseTable,
    HeaderInconsistency,
}

/// A short description of a parser error kind.
pub fn parser_error_type_as_str(e: &ParserErrorKind) -> (r: &'static str)
{
    match e {
        ParserErrorKind::TOMLParserErrors => "Several TOML-Parser-Errors",
        ParserErrorKind::MissingMainSection => "Missing main section",
        ParserErrorKind::MissingVersionInfo => "Missing version information in main section",
        ParserErrorKind::NonTableInBaseTable => "A non-table was found in the base table",
        ParserErrorKind::HeaderInconsistency => "The header is inconsistent",
    }
}

/// Header parser error type, optionally with a cause.
#[derive(Debug)]
pub struct ParserError {
    kind: ParserErrorKind,
    cause: Option<Box<ParserError>>,
}

impl ParserError {
    /// Build a new `ParserError` from a `ParserErrorKind`, optionally with
    /// cause.
    pub fn new(k: ParserErrorKind, cause: Option<Box<ParserError>>) -> (r: ParserError)
        ensures
            r.spec_kind() == k,
            r.spec_cause() == cause,
    {
        ParserError { kind: k, cause: cause }
    }

    /// The kind of this error.
    pub closed spec fn spec_kind(&self) -> ParserErrorKind {
        self.kind
    }

    /// The wrapped cause, if any.
    pub closed spec fn spec_cause(&self) -> Option<Box<ParserError>> {
        self.cause
    }

    /// Get the error kind of this `ParserError`.
    pub fn err_type(&self) -> (r: ParserErrorKind)
        ensures
            r == self.spec_kind(),
    {
        self.kind
    }

    /// A short description of this error.
    pub fn as_str(&self) -> (r: &'static str)
    {
        parser_error_type_as_str(&self.kind)
    }
}

/// Store error type, optionally with a cause.
///
/// The cause is either another store error (hook failures wrap the failing
/// hook's error) or a parser error (malformed entries wrap the parse failure).
#[derive(Debug)]
pub struct StoreError {
    err_type: StoreErrorKind,
    cause: Option<Box<StoreError>>,
    parser_cause: Option<Box<ParserError>>,
}

impl StoreError {
    /// Build a new `StoreError` from a `StoreErrorKind`, optionally with
    /// cause.
    pub fn new(errtype: StoreErrorKind, cause: Option<Box<StoreError>>) -> (r: StoreError)
        ensures
            r.spec_kind() == errtype,
            r.spec_cause() == cause,
            r.spec_parser_cause() is None,
    {
        StoreError { err_type: errtype, cause: cause, parser_cause: None }
    }

    /// Wrap a parser error as a malformed-entry store error.
    pub fn from_parser_error(cause: ParserError) -> (r: StoreError)
        ensures
            r.spec_kind() == StoreErrorKind::MalformedEntry,
            r.spec_cause() is None,
            r.spec_parser_cause() matches Some(c) && c.spec_kind() == cause.spec_kind(),
    {
        StoreError {
            err_type: StoreErrorKind::MalformedEntry,
            cause: None,
            parser_cause: Some(Box::new(cause)),
        }
    }

    /// The kind of this error.
    pub closed spec fn spec_kind(&self) -> StoreErrorKind {
        self.err_type
    }

    /// The wrapped store-error cause, if any.
    pub closed spec fn spec_cause(&self) -> Option<Box<StoreError>> {
        self.cause
    }

    /// The wrapped parser-error cause, if any.
    pub closed spec fn spec_parser_cause(&self) -> Option<Box<ParserError>> {
        self.parser_cause
    }

    /// The kind of the wrapped cause, if any.
    pub open spec fn spec_cause_kind(&self) -> Option<StoreErrorKind> {
        match self.spec_cause() {
            Some(c) => Some(c.spec_kind()),
            None => None,
        }
    }

    /// Get the error kind of this `StoreError`.
    pub fn err_type(&self) -> (r: StoreErrorKind)
        ensures
            r == self.spec_kind(),
    {
        self.err_type
    }

    /// The wrapped cause of this error, if any.
    pub fn cause(&self) -> (r: Option<&StoreError>)
        ensures
            match r {
                Some(c) => self.spec_cause() matches Some(b) && *c == *b,
                None => self.spec_cause() is None,
            },
    {
        match &self.cause {
            Some(c) => Some(&**c),
            None => None,
        }
    }

    /// The wrapped parser-error cause of this error, if any.
    pub fn parser_cause(&self) -> (r: Option<&ParserError>)
        ensures
            match r {
                Some(c) => self.spec_parser_cause() matches Some(b) && *c == *b,
                None => self.spec_parser_cause() is None,
            },
    {
        match &self.parser_cause {
            Some(c) => Some(&**c),
            None => None,
        }
    }

    /// A short description of this error.
    pub fn as_str(&self) -> (r: &'static str)
    {
        store_error_type_as_str(&self.err_type)
    }
}

} // verus!
