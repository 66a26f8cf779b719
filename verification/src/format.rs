//! Texts for showing paths and candidates to a person.

use vstd::prelude::*;
use vstd::string::StringExecFns;
use crate::models::{RemovalAction, RemovalActionView, RemovalCandidate, RemovalCandidateView};

verus! {

/// What `std::path::Path::strip_prefix` leaves of a path when a base is
/// taken off its front, or `None` where the path does not begin with the
/// base.
pub uninterp spec fn path_below(base: Seq<char>, path: Seq<char>) -> Option<Seq<char>>;

/// Calls `std::path::Path::strip_prefix`.
///
/// Trusted: the result is the one named by [`path_below`]. Both paths are
/// valid text, so turning the rest back into text loses nothing.
#[verifier::external_body]
fn strip_prefix(base: &str, path: &str) -> (rest: Option<String>)
    ensures
        match rest {
            Some(below) => path_below(base@, path@) == Some(below@),
            None => path_below(base@, path@) is None,
        },
{
    match std::path::Path::new(path).strip_prefix(base) {
        Ok(rest) => Some(rest.to_string_lossy().into_owned()),
        Err(_) => None,
    }
}

/// The path as it is shown below a base: without the base where it begins
/// with it, unchanged where it does not.
pub open spec fn shown_path(base: Seq<char>, path: Seq<char>) -> Seq<char> {
    match path_below(base, path) {
        Some(below) => below,
        None => path,
    }
}

/// The last 80 characters of a text after three dots, or the text itself
/// where it has no more than 80.
pub open spec fn shortened(text: Seq<char>) -> Seq<char> {
    if text.len() > 80 {
        "..."@ + text.subrange(text.len() - 80, text.len() as int)
    } else {
        text
    }
}

/// The path relative to `base_path` where it lies below it, else the path
/// itself.
pub fn try_relativize_path(base_path: &str, path: &str) -> (shown: String)
    ensures
        shown@ == shown_path(base_path@, path@),
{
    match strip_prefix(base_path, path) {
        Some(below) => below,
        None => String::from_str(path),
    }
}

/// The text that shows the path `p` to someone who knows where `base_path`
/// is.
pub fn format_path(base_path: &str, p: &str) -> (shown: String)
    ensures
        shown@ == shown_path(base_path@, p@),
{
    try_relativize_path(base_path, p)
}

/// As [`format_path`], but never longer than 83 characters: of a longer text
/// only the end is kept.
pub fn format_path_truncate(base_path: &str, p: &str) -> (shown: String)
    ensures
        shown@ == shortened(shown_path(base_path@, p@)),
{
    let full = format_path(base_path, p);
    let n = full.as_str().unicode_len();
    if n > 80 {
        let tail = full.as_str().substring_char(n - 80, n);
        String::from_str("...").concat(tail)
    } else {
        full
    }
}

/// How a candidate is shown: one that deletes as the path of its entry, one
/// that runs a command as the command and the path of its directory, each
/// between backquotes.
pub open spec fn shown_candidate(base: Seq<char>, candidate: RemovalCandidateView) -> Seq<char> {
    match candidate.action {
        RemovalActionView::Delete { file_info, .. } => shown_path(base, file_info.path),
        RemovalActionView::RunCommand { work_dir, command } => "`"@ + command + "` in `"@
            + shown_path(base, work_dir.path) + "`"@,
    }
}

/// The text that shows a candidate.
pub fn format_candidate(base_path: &str, candidate: &RemovalCandidate) -> (shown: String)
    ensures
        shown@ == shown_candidate(base_path@, candidate@),
{
    match &candidate.action {
        RemovalAction::Delete { file_info, .. } => format_path(base_path, file_info.path.as_str()),
        RemovalAction::RunCommand { work_dir, command } => {
            let path = format_path(base_path, work_dir.path.as_str());
            let mut shown = String::from_str("`");
            shown.append(command.as_str());
            shown.append("` in `");
            shown.append(path.as_str());
            shown.append("`");
            shown
        },
    }
}

/// The moment of the work on a candidate that a text is about.
#[derive(Debug, Clone, Copy, PartialEq, Eq, Structural)]
pub enum ActionLabel {
    Start,
    Success,
    Failed,
}

/// The words for what is being done to a candidate at a moment.
pub open spec fn action_words(deletes: bool, label: ActionLabel) -> Seq<char> {
    if deletes {
        match label {
            ActionLabel::Start => "Removing"@,
            ActionLabel::Success => "Removed"@,
            ActionLabel::Failed => "Failed to remove"@,
        }
    } else {
        match label {
            ActionLabel::Start => "Executing"@,
            ActionLabel::Success => "Executed"@,
            ActionLabel::Failed => "Failed to execute"@,
        }
    }
}

/// The words for what is being done to `candidate` at the moment `label`.
pub fn format_clean_action(candidate: &RemovalCandidate, label: ActionLabel) -> (text: &'static str)
    ensures
        text@ == action_words(candidate@.action is Delete, label),
{
    match &candidate.action {
        RemovalAction::Delete { .. } => match label {
            ActionLabel::Start => "Removing",
            ActionLabel::Success => "Removed",
            ActionLabel::Failed => "Failed to remove",
        },
        RemovalAction::RunCommand { .. } => match label {
            ActionLabel::Start => "Executing",
            ActionLabel::Success => "Executed",
            ActionLabel::Failed => "Failed to execute",
        },
    }
}

/// The text that `indicatif::HumanBytes` shows for a number of bytes.
pub uninterp spec fn human_bytes(size: u64) -> Seq<char>;

/// Has `indicatif::HumanBytes` show a number of bytes.
///
/// Trusted: the result is the one named by [`human_bytes`]. The source
/// divides by 1024 until the number is below 1024 and shows it with the unit
/// it arrives at, so the text depends on the number alone.
#[verifier::external_body]
pub fn format_file_size(size: u64) -> (shown: String)
    ensures
        shown@ == human_bytes(size),
{
    indicatif::HumanBytes(size).to_string()
}

/// How a size is shown that may not be known: as a question mark where it is
/// not.
pub open spec fn shown_size(size: Option<u64>) -> Seq<char> {
    match size {
        Some(known) => human_bytes(known),
        None => "?"@,
    }
}

/// The text that shows a size that may not be known.
pub fn format_opt_file_size(size: Option<u64>) -> (shown: String)
    ensures
        shown@ == shown_size(size),
{
    match size {
        Some(known) => format_file_size(known),
        None => String::from_str("?"),
    }
}

/// How a total is shown: as its size, with a plus sign behind it where more
/// may come on top.
pub open spec fn shown_total(size: u64, has_more: bool) -> Seq<char> {
    if has_more {
        human_bytes(size) + "+"@
    } else {
        human_bytes(size)
    }
}

/// The text that shows a total to which more may come.
pub fn format_file_size_and_more(size: u64, has_more: bool) -> (shown: String)
    ensures
        shown@ == shown_total(size, has_more),
{
    let shown = format_file_size(size);
    if has_more {
        shown.concat("+")
    } else {
        shown
    }
}

/// What is said of a candidate at a moment of the work on it: the words for
/// the action, a space, and the candidate.
pub open spec fn shown_action(
    base: Seq<char>,
    candidate: RemovalCandidateView,
    label: ActionLabel,
) -> Seq<char> {
    action_words(candidate.action is Delete, label) + " "@ + shown_candidate(base, candidate)
}

/// The line that says what is being done to a candidate, or that it has
/// been done.
pub fn format_action(
    base_path: &str,
    candidate: &RemovalCandidate,
    label: ActionLabel,
) -> (line: String)
    ensures
        line@ == shown_action(base_path@, candidate@, label),
{
    let mut line = String::from_str(format_clean_action(candidate, label));
    line.append(" ");
    line.append(format_candidate(base_path, candidate).as_str());
    line
}

/// The line that says that a candidate could not be carried out, and why:
/// what is said of a failed candidate, a colon, a space, and the report.
pub fn format_failure(base_path: &str, candidate: &RemovalCandidate, report: &str) -> (line: String)
    ensures
        line@ == shown_action(base_path@, candidate@, ActionLabel::Failed) + ": "@ + report@,
{
    let mut line = format_action(base_path, candidate, ActionLabel::Failed);
    line.append(": ");
    line.append(report);
    line
}

/// The message that says which directory is being scanned; the path is
/// shortened where it is long.
pub fn format_scanning(base_path: &str, path: &str) -> (line: String)
    ensures
        line@ == "Scanning "@ + shortened(shown_path(base_path@, path@)),
{
    let mut line = String::from_str("Scanning ");
    line.append(format_path_truncate(base_path, path).as_str());
    line
}

/// The line that says that a directory could not be scanned, and why.
pub fn format_scan_failure(base_path: &str, path: &str, report: &str) -> (line: String)
    ensures
        line@ == "Failed to scan "@ + shown_path(base_path@, path@) + ": "@ + report@,
{
    let mut line = String::from_str("Failed to scan ");
    line.append(format_path(base_path, path).as_str());
    line.append(": ");
    line.append(report);
    line
}

} // verus!
