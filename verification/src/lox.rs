//! The interpreter shell's error state.
//!
//! A driver scans one source unit at a time and records whether any error
//! was reported.  The flag is an explicit value here: the driver reads it
//! after a whole file to decide its exit status, and clears it between
//! interactive lines by starting from a fresh `Lox`.  Formatting and
//! printing a diagnostic belong to the driver, not to this type.

use vstd::prelude::*;

verus! {

/// Whether any error has been reported since this value was created.
#[derive(Debug)]
pub struct Lox {
    pub had_error: bool,
}

impl Lox {
    /// A shell that has seen no error yet.
    pub fn new() -> (lox: Lox)
        ensures
            !lox.had_error,
    {
        Lox { had_error: false }
    }

    /// Records that an error was reported at `line` with `message`.  The
    /// text and line are the driver's to print; here only the flag changes.
    pub fn error(&mut self, line: usize, message: String)
        ensures
            final(self).had_error,
    {
        let _ = line;
        let _ = message;
        self.had_error = true;
    }
}

} // verus!
