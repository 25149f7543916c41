//! The state of the install dashboard: whether an operation runs and what
//! the last one reported. Performing the filesystem work lives with the
//! callers; the state transitions around it live here.

use vstd::prelude::*;

use crate::text::push_str;
use vstd::string::StringExecFns;

verus! {

/// State of the install dashboard.
#[derive(Debug)]
pub struct InstallerState {
    /// The last operation's result message.
    pub last_operation: Option<String>,
    /// Whether an operation is in progress.
    pub operation_in_progress: bool,
}

/// The mathematical value of an [`InstallerState`].
pub ghost struct InstallerStateV {
    pub last_operation: Option<Seq<char>>,
    pub operation_in_progress: bool,
}

impl View for InstallerState {
    type V = InstallerStateV;

    open spec fn view(&self) -> InstallerStateV {
        InstallerStateV {
            last_operation: self.last_operation.deep_view(),
            operation_in_progress: self.operation_in_progress,
        }
    }
}

impl InstallerState {
    /// A fresh dashboard: nothing has run, nothing runs.
    pub fn new() -> (r: InstallerState)
        ensures
            r@.last_operation is None,
            !r@.operation_in_progress,
    {
        InstallerState { last_operation: None, operation_in_progress: false }
    }

    /// Claims the dashboard for one operation. Fails when one already runs,
    /// leaving the state unchanged; otherwise marks the dashboard busy.
    pub fn begin_operation(&mut self) -> (r: bool)
        ensures
            old(self)@.operation_in_progress ==> !r && final(self)@ == old(self)@,
            !old(self)@.operation_in_progress ==> r && final(self)@.operation_in_progress
                && final(self)@.last_operation == old(self)@.last_operation,
    {
        if self.operation_in_progress {
            false
        } else {
            self.operation_in_progress = true;
            true
        }
    }

    /// Records one operation's outcome and releases the dashboard. The
    /// stored message carries a success or failure mark.
    pub fn finish_operation(&mut self, message: String, succeeded: bool)
        ensures
            !final(self)@.operation_in_progress,
            final(self)@.last_operation == Some(
                (if succeeded {
                    "\u{2713} "@
                } else {
                    "\u{2717} "@
                }) + message@,
            ),
    {
        let mut marked: String = if succeeded {
            String::from_str("\u{2713} ")
        } else {
            String::from_str("\u{2717} ")
        };
        push_str(&mut marked, message.as_str());
        self.last_operation = Some(marked);
        self.operation_in_progress = false;
    }
}

} // verus!
