//! The decisions of a processing run: what is done with each file and the
//! exit code. Reading and writing files is left to the caller.

use vstd::prelude::*;

verus! {

/// Exit code for when check mode detects differences.
pub const CHECK_FAILED_EXIT_CODE: i32 = 1;

/// Exit code for success.
pub const SUCCESS_EXIT_CODE: i32 = 0;

/// The output options of a run.
#[derive(Debug, Clone, Copy, PartialEq, Eq, Structural)]
pub struct OutputFlags {
    pub check: bool,
    pub in_place: bool,
    pub diff: bool,
    pub json: bool,
    pub list_files: bool,
}

/// What is done with a processed file.
#[derive(Debug, Clone, Copy, PartialEq, Eq, Structural)]
pub enum FileAction {
    /// Print a diff of the changes.
    PrintDiff,
    /// Report on stderr that the file needs fixing.
    ReportNeedsFixing,
    /// Write the processed content back to the file.
    Write,
    /// Print the processed content on stdout.
    PrintProcessed,
    /// Nothing more.
    Nothing,
}

/// The action for a file: a changed file is shown as a diff, reported in
/// check mode, written in place, or printed; an unchanged one is printed
/// only in plain output mode. JSON and file-list output print no content.
pub open spec fn file_action_spec(flags: OutputFlags, needs_fixing: bool) -> FileAction {
    if needs_fixing {
        if flags.diff {
            FileAction::PrintDiff
        } else if flags.check {
            if !flags.list_files && !flags.json {
                FileAction::ReportNeedsFixing
            } else {
                FileAction::Nothing
            }
        } else if flags.in_place {
            FileAction::Write
        } else if !flags.json && !flags.list_files {
            FileAction::PrintProcessed
        } else {
            FileAction::Nothing
        }
    } else if !flags.check && !flags.in_place && !flags.json && !flags.list_files {
        FileAction::PrintProcessed
    } else {
        FileAction::Nothing
    }
}

/// Decide what is done with a processed file.
pub fn file_action(flags: &OutputFlags, needs_fixing: bool) -> (r: FileAction)
    ensures
        r == file_action_spec(*flags, needs_fixing),
{
    if needs_fixing {
        if flags.diff {
            FileAction::PrintDiff
        } else if flags.check {
            if !flags.list_files && !flags.json {
                FileAction::ReportNeedsFixing
            } else {
                FileAction::Nothing
            }
        } else if flags.in_place {
            FileAction::Write
        } else if !flags.json && !flags.list_files {
            FileAction::PrintProcessed
        } else {
            FileAction::Nothing
        }
    } else if !flags.check && !flags.in_place && !flags.json && !flags.list_files {
        FileAction::PrintProcessed
    } else {
        FileAction::Nothing
    }
}

/// A file is skipped when a maximum size is set and the file is larger.
pub fn exceeds_max_size(file_size: u64, max_size: Option<u64>) -> (b: bool)
    ensures
        b == (match max_size {
            Some(m) => file_size > m,
            None => false,
        }),
{
    match max_size {
        Some(m) => file_size > m,
        None => false,
    }
}

/// The exit code of a run: failure when a file had an error, or when check
/// mode found a file that needs fixing.
pub fn exit_code(error_files: usize, check: bool, any_needs_fixing: bool) -> (r: i32)
    ensures
        r == (if error_files > 0 || (check && any_needs_fixing) {
            CHECK_FAILED_EXIT_CODE
        } else {
            SUCCESS_EXIT_CODE
        }),
{
    if error_files > 0 || (check && any_needs_fixing) {
        CHECK_FAILED_EXIT_CODE
    } else {
        SUCCESS_EXIT_CODE
    }
}

} // verus!
