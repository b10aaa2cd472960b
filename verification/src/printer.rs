//! Entry-printing surface: the interface output modules implement.

use vstd::prelude::*;

use crate::store::FileLockEntry;

verus! {

/// Kind of entry-printer error.
#[derive(Clone, Copy, Debug, PartialEq, Eq)]
pub enum EntryPrinterErrorKind {
    Unknown,
}

/// A short description of an entry-printer error kind.
pub fn entry_printer_error_type_as_str(e: &EntryPrinterErrorKind) -> (r: &'static str)
{
    match e {
        EntryPrinterErrorKind::Unknown => "",
    }
}

/// Entry-printer error type, optionally with a cause.
#[derive(Debug)]
pub struct EntryPrinterError {
    err_type: EntryPrinterErrorKind,
    cause: Option<Box<EntryPrinterError>>,
}

impl EntryPrinterError {
    /// Build a new `EntryPrinterError` from an `EntryPrinterErrorKind`,
    /// optionally with cause.
    pub fn new(errtype: EntryPrinterErrorKind, cause: Option<Box<EntryPrinterError>>) -> (r:
        EntryPrinterError)
        ensures
            r.spec_kind() == errtype,
    {
        EntryPrinterError { err_type: errtype, cause: cause }
    }

    /// The kind of this error.
    pub closed spec fn spec_kind(&self) -> EntryPrinterErrorKind {
        self.err_type
    }

    /// Get the error kind of this `EntryPrinterError`.
    pub fn err_type(&self) -> (r: EntryPrinterErrorKind)
        ensures
            r == self.spec_kind(),
    {
        self.err_type
    }
}

/// Printing of borrowed entries; implemented by output modules.
pub trait EntryPrinter {
    fn print_entry(&self, e: &FileLockEntry) -> Result<(), EntryPrinterError>;

    fn print_entries(&self, es: Vec<&FileLockEntry>) -> (r: Result<(), EntryPrinterError>) {
        let mut i: usize = 0;
        while i < es.len()
            invariant
                0 <= i <= es@.len(),
            decreases es@.len() - i,
        {
            match self.print_entry(es[i]) {
                Err(e) => {
                    return Err(e);
                },
                Ok(_) => {},
            }
            i = i + 1;
        }
        Ok(())
    }
}

} // verus!
