//! The decisions of a processing run: which inputs are accepted, in which
//! order the folders are checked, how a clash with an existing output file is
//! settled, and the status shown at the end. The caller performs the checks
//! and dialogs that a step asks for and hands back what it found.
use vstd::prelude::*;

use crate::csv_output::{ends_with, has_no_prefix, is_plain_component, is_plain_file_name};
use crate::file_names::lemma_last_index_of_bounds;
use crate::text::{decimal_digits, digit_char, last_index_of, trim, trim_str};

verus! {

/// The UNC base path that the form starts with.
pub const DEFAULT_UNC_BASE: &'static str = "\\\\etail.rs\\files\\hardwaretools\\Images2\\Images_Uploaded_3_18_26";

// ---------------------------------------------------------------------------
// Status
// ---------------------------------------------------------------------------

#[derive(Debug, Clone, Copy, PartialEq, Eq, Structural)]
pub enum StatusLevel {
    Info,
    Success,
    Warning,
    Error,
}

/// The status line of the application.
#[derive(Debug, Clone)]
pub struct AppStatus {
    pub level: StatusLevel,
    pub text: String,
}

impl AppStatus {
    pub fn info(text: String) -> (res: AppStatus)
        ensures
            res.level == StatusLevel::Info,
            res.text@ == text@,
    {
        AppStatus { level: StatusLevel::Info, text }
    }

    pub fn success(text: String) -> (res: AppStatus)
        ensures
            res.level == StatusLevel::Success,
            res.text@ == text@,
    {
        AppStatus { level: StatusLevel::Success, text }
    }

    pub fn warning(text: String) -> (res: AppStatus)
        ensures
            res.level == StatusLevel::Warning,
            res.text@ == text@,
    {
        AppStatus { level: StatusLevel::Warning, text }
    }

    pub fn error(text: String) -> (res: AppStatus)
        ensures
            res.level == StatusLevel::Error,
            res.text@ == text@,
    {
        AppStatus { level: StatusLevel::Error, text }
    }
}

/// The status before the first run.
pub fn initial_status() -> (res: AppStatus)
    ensures
        res.level == StatusLevel::Info,
        res.text@ == "Select inputs, then click Run."@,
{
    AppStatus::info(String::from_str("Select inputs, then click Run."))
}

/// The status of a run that stopped on an error with message `message`.
pub fn error_status(message: &str) -> (res: AppStatus)
    ensures
        res.level == StatusLevel::Error,
        res.text@ == "Error: "@ + message@,
{
    let mut text = String::from_str("Error: ");
    text.append(message);
    AppStatus::error(text)
}

/// The status of a run whose output clash the user cancelled.
pub fn cancelled_status() -> (res: AppStatus)
    ensures
        res.level == StatusLevel::Warning,
        res.text@ == "Warning: operation cancelled during output conflict resolution."@,
{
    AppStatus::warning(String::from_str("Warning: operation cancelled during output conflict resolution."))
}

fn digit_text(d: usize) -> (res: &'static str)
    requires
        d < 10,
    ensures
        res@ == seq![digit_char(d as nat)],
{
    proof {
        reveal_strlit("0");
        reveal_strlit("1");
        reveal_strlit("2");
        reveal_strlit("3");
        reveal_strlit("4");
        reveal_strlit("5");
        reveal_strlit("6");
        reveal_strlit("7");
        reveal_strlit("8");
        reveal_strlit("9");
    }
    let res = if d == 0 {
        "0"
    } else if d == 1 {
        "1"
    } else if d == 2 {
        "2"
    } else if d == 3 {
        "3"
    } else if d == 4 {
        "4"
    } else if d == 5 {
        "5"
    } else if d == 6 {
        "6"
    } else if d == 7 {
        "7"
    } else if d == 8 {
        "8"
    } else {
        "9"
    };
    assert(res@ =~= seq![digit_char(d as nat)]);
    res
}

/// `n` in decimal digits.
pub fn decimal_text(n: usize) -> (res: String)
    ensures
        res@ == decimal_digits(n as nat),
    decreases n,
{
    if n < 10 {
        String::from_str(digit_text(n))
    } else {
        let mut text = decimal_text(n / 10);
        text.append(digit_text(n % 10));
        text
    }
}

/// The status of a finished run.
pub fn finished_status(rows_written: usize, output_path: &str) -> (res: AppStatus)
    ensures
        res.level == StatusLevel::Success,
        res.text@ == "Done.\n\nRows written: "@ + decimal_digits(rows_written as nat) + "\nOutput: "@
            + output_path@,
{
    let mut text = String::from_str("Done.\n\nRows written: ");
    let count = decimal_text(rows_written);
    text.append(count.as_str());
    text.append("\nOutput: ");
    text.append(output_path);
    AppStatus::success(text)
}

// ---------------------------------------------------------------------------
// Form fields
// ---------------------------------------------------------------------------

/// A required path field: its trimmed text, or the message `<label> is required`.
pub fn required_path(raw: &str, label: &str) -> (res: Result<String, String>)
    ensures
        match res {
            Ok(p) => trim(raw@).len() > 0 && p@ == trim(raw@),
            Err(m) => trim(raw@).len() == 0 && m@ == label@ + " is required"@,
        },
{
    let trimmed = trim_str(raw);
    if trimmed.is_empty() {
        let mut message = String::from_str(label);
        message.append(" is required");
        Err(message)
    } else {
        Ok(trimmed.to_owned())
    }
}

/// The folder that the output-folder dialog opens in: the image folder, when given.
pub fn output_dialog_start(image_folder_field: &str) -> (res: Option<String>)
    ensures
        match res {
            Some(p) => trim(image_folder_field@).len() > 0 && p@ == trim(image_folder_field@),
            None => trim(image_folder_field@).len() == 0,
        },
{
    let trimmed = trim_str(image_folder_field);
    if trimmed.is_empty() {
        None
    } else {
        Some(trimmed.to_owned())
    }
}

/// The output folder: the trimmed output field, or the image folder when it is blank.
pub open spec fn chosen_output_folder(image_folder: Seq<char>, output_field: Seq<char>) -> Seq<char> {
    if trim(output_field).len() == 0 {
        image_folder
    } else {
        trim(output_field)
    }
}

// ---------------------------------------------------------------------------
// The run
// ---------------------------------------------------------------------------

/// Where a run stands, and what the caller has to do next.
#[derive(Debug, Clone)]
pub enum RunStep {
    /// Check whether `image_folder` is a directory.
    CheckImageFolder { image_folder: String, output_field: String, unc_field: String },
    /// Check whether `output_folder` exists and is a directory.
    CheckOutputFolder { image_folder: String, output_folder: String, unc_field: String },
    /// List `image_folder`, build the catalog with `unc_base`, and write the
    /// CSV file in `output_folder`.
    Collect { image_folder: String, output_folder: String, unc_base: String },
    /// The run is over with this status.
    Finish(AppStatus),
}

/// What the caller found when it checked a folder.
#[derive(Debug, Clone, Copy, PartialEq, Eq, Structural)]
pub struct FolderCheck {
    pub exists: bool,
    pub is_dir: bool,
}

/// The first step of a run on the form fields: the image folder is required.
pub fn start_run(image_field: &str, output_field: &str, unc_field: &str) -> (res: RunStep)
    ensures
        trim(image_field@).len() == 0 ==> (res matches RunStep::Finish(s) && s.level == StatusLevel::Error
            && s.text@ == "Error: "@ + "Image folder"@ + " is required"@),
        trim(image_field@).len() > 0 ==> (res matches RunStep::CheckImageFolder { image_folder, output_field: o, unc_field: u }
            && image_folder@ == trim(image_field@) && o@ == output_field@ && u@ == unc_field@),
{
    match required_path(image_field, "Image folder") {
        Err(message) => RunStep::Finish(error_status(message.as_str())),
        Ok(image_folder) => RunStep::CheckImageFolder {
            image_folder,
            output_field: String::from_str(output_field),
            unc_field: String::from_str(unc_field),
        },
    }
}

/// The step after `step`, given what the caller found when checking the folder
/// that `step` names. A step that names no folder stays as it is.
pub fn next_run_step(step: RunStep, check: FolderCheck) -> (res: RunStep)
    ensures
        match step {
            RunStep::CheckImageFolder { image_folder, output_field, unc_field } => if !check.is_dir {
                res matches RunStep::Finish(s) && s.level == StatusLevel::Error && s.text@ == "Error: "@
                    + "Image folder is not a directory: "@ + image_folder@
            } else {
                res matches RunStep::CheckOutputFolder { image_folder: i, output_folder, unc_field: u }
                    && i@ == image_folder@ && output_folder@ == chosen_output_folder(
                    image_folder@,
                    output_field@,
                ) && u@ == unc_field@
            },
            RunStep::CheckOutputFolder { image_folder, output_folder, unc_field } => if !check.exists {
                res matches RunStep::Finish(s) && s.level == StatusLevel::Error && s.text@ == "Error: "@
                    + "Output folder does not exist: "@ + output_folder@
            } else if !check.is_dir {
                res matches RunStep::Finish(s) && s.level == StatusLevel::Error && s.text@ == "Error: "@
                    + "Output path is not a directory: "@ + output_folder@
            } else if trim(unc_field@).len() == 0 {
                res matches RunStep::Finish(s) && s.level == StatusLevel::Error && s.text@ == "Error: "@
                    + "UNC base path cannot be blank"@
            } else {
                res matches RunStep::Collect { image_folder: i, output_folder: o, unc_base }
                    && i@ == image_folder@ && o@ == output_folder@ && unc_base@ == trim(unc_field@)
            },
            _ => res == step,
        },
{
    match step {
        RunStep::CheckImageFolder { image_folder, output_field, unc_field } => {
            if !check.is_dir {
                let mut message = String::from_str("Image folder is not a directory: ");
                message.append(image_folder.as_str());
                RunStep::Finish(error_status(message.as_str()))
            } else {
                let trimmed = trim_str(output_field.as_str());
                let output_folder = if trimmed.is_empty() {
                    image_folder.clone()
                } else {
                    trimmed.to_owned()
                };
                RunStep::CheckOutputFolder { image_folder, output_folder, unc_field }
            }
        },
        RunStep::CheckOutputFolder { image_folder, output_folder, unc_field } => {
            if !check.exists {
                let mut message = String::from_str("Output folder does not exist: ");
                message.append(output_folder.as_str());
                RunStep::Finish(error_status(message.as_str()))
            } else if !check.is_dir {
                let mut message = String::from_str("Output path is not a directory: ");
                message.append(output_folder.as_str());
                RunStep::Finish(error_status(message.as_str()))
            } else {
                let unc_base = trim_str(unc_field.as_str());
                if unc_base.is_empty() {
                    RunStep::Finish(error_status("UNC base path cannot be blank"))
                } else {
                    RunStep::Collect { image_folder, output_folder, unc_base: unc_base.to_owned() }
                }
            }
        },
        other => other,
    }
}

// ---------------------------------------------------------------------------
// Settling a clash with an existing output file
// ---------------------------------------------------------------------------

/// An answer to a yes/no/cancel question.
#[derive(Debug, Clone, Copy, PartialEq, Eq, Structural)]
pub enum Answer {
    Yes,
    No,
    Cancel,
}

/// Where the choice of the output file stands, and what the caller has to do next.
#[derive(Debug, Clone)]
pub enum OutputStep {
    /// Check whether `target` exists.
    Probe { target: String },
    /// Ask whether to overwrite `target` (yes), pick another name (no) or cancel.
    AskOverwrite { target: String },
    /// Ask for another file with a save dialog in the folder of `target`,
    /// proposing its file name.
    PickName { target: String },
    /// Check whether the picked file exists.
    ProbePicked { target: String, picked: String },
    /// Ask whether to overwrite the picked file (yes) or pick again (no).
    ConfirmPicked { target: String, picked: String },
    /// Write the output to this file.
    Write(String),
    /// The user cancelled.
    Cancelled,
}

/// What the caller found or was told.
#[derive(Debug, Clone)]
pub enum OutputEvent {
    /// Whether the file that the step names exists.
    Exists(bool),
    /// The user's answer to the question that the step asks.
    Answered(Answer),
    /// The file picked in the save dialog, if any.
    Picked(Option<String>),
}

/// The first step for the output file `target`.
pub fn start_output(target: &str) -> (res: OutputStep)
    ensures
        res matches OutputStep::Probe { target: t } && t@ == target@,
{
    OutputStep::Probe { target: String::from_str(target) }
}

/// The step after `step`, given `event`. An existing target is overwritten only
/// on a yes; a picked file is taken when it does not exist or the user agrees
/// to overwrite it, and picked again otherwise. An event that does not answer
/// what the step asks leaves the step as it is.
pub fn next_output_step(step: OutputStep, event: OutputEvent) -> (res: OutputStep)
    ensures
        match (step, event) {
            (OutputStep::Probe { target }, OutputEvent::Exists(false)) => res matches OutputStep::Write(p) && p@ == target@,
            (OutputStep::Probe { target }, OutputEvent::Exists(true)) => res matches OutputStep::AskOverwrite { target: t } && t@ == target@,
            (OutputStep::AskOverwrite { target }, OutputEvent::Answered(Answer::Yes)) => res matches OutputStep::Write(p) && p@ == target@,
            (OutputStep::AskOverwrite { target }, OutputEvent::Answered(Answer::No)) => res matches OutputStep::PickName { target: t } && t@ == target@,
            (OutputStep::AskOverwrite { target }, OutputEvent::Answered(Answer::Cancel)) => res matches OutputStep::Cancelled,
            (OutputStep::PickName { target }, OutputEvent::Picked(None)) => res matches OutputStep::Cancelled,
            (OutputStep::PickName { target }, OutputEvent::Picked(Some(p))) => res matches OutputStep::ProbePicked { target: t, picked } && t@ == target@ && picked@ == p@,
            (OutputStep::ProbePicked { target, picked }, OutputEvent::Exists(false)) => res matches OutputStep::Write(p) && p@ == picked@,
            (OutputStep::ProbePicked { target, picked }, OutputEvent::Exists(true)) => res matches OutputStep::ConfirmPicked { target: t, picked: q } && t@ == target@ && q@ == picked@,
            (OutputStep::ConfirmPicked { target, picked }, OutputEvent::Answered(Answer::Yes)) => res matches OutputStep::Write(p) && p@ == picked@,
            (OutputStep::ConfirmPicked { target, picked }, OutputEvent::Answered(Answer::No)) => res matches OutputStep::PickName { target: t } && t@ == target@,
            (OutputStep::ConfirmPicked { target, picked }, OutputEvent::Answered(Answer::Cancel)) => res matches OutputStep::PickName { target: t } && t@ == target@,
            (s, _) => res == s,
        },
{
    match (step, event) {
        (OutputStep::Probe { target }, OutputEvent::Exists(exists)) => {
            if exists {
                OutputStep::AskOverwrite { target }
            } else {
                OutputStep::Write(target)
            }
        },
        (OutputStep::AskOverwrite { target }, OutputEvent::Answered(answer)) => match answer {
            Answer::Yes => OutputStep::Write(target),
            Answer::No => OutputStep::PickName { target },
            Answer::Cancel => OutputStep::Cancelled,
        },
        (OutputStep::PickName { target }, OutputEvent::Picked(picked)) => match picked {
            None => OutputStep::Cancelled,
            Some(p) => OutputStep::ProbePicked { target, picked: p },
        },
        (OutputStep::ProbePicked { target, picked }, OutputEvent::Exists(exists)) => {
            if exists {
                OutputStep::ConfirmPicked { target, picked }
            } else {
                OutputStep::Write(picked)
            }
        },
        (OutputStep::ConfirmPicked { target, picked }, OutputEvent::Answered(answer)) => match answer {
            Answer::Yes => OutputStep::Write(picked),
            _ => OutputStep::PickName { target },
        },
        (s, _) => s,
    }
}

// ---------------------------------------------------------------------------
// The rename dialog
// ---------------------------------------------------------------------------

/// A directory path that `Path::parent` gives back as it is written: not
/// empty, no Windows prefix, and a last component that is neither empty nor `.`.
pub open spec fn is_written_directory(d: Seq<char>) -> bool {
    &&& d.len() > 0
    &&& has_no_prefix(d)
    &&& d.last() != '/'
    &&& !(d.last() == '.' && (d.len() == 1 || d[d.len() - 2] == '/'))
}

/// `p` cut at its last `/` into a directory as `Path::parent` gives it back and
/// a plain file name, when it has that shape; a name directly under the root
/// has the root `/` as its directory.
pub open spec fn split_at_last_slash(p: Seq<char>) -> Option<(Seq<char>, Seq<char>)> {
    let i = last_index_of(p, '/');
    if i < 0 {
        None
    } else {
        let d = p.take(i);
        let n = p.skip(i + 1);
        if i == 0 && is_plain_file_name(n) {
            Some((seq!['/'], n))
        } else if is_written_directory(d) && is_plain_file_name(n) {
            Some((d, n))
        } else {
            None
        }
    }
}

/// `std::path::Path::parent`, as a string: the path without its final
/// component. As its documentation shows, an empty path and `/` have none, a
/// relative path of one component has the empty path as its parent, `/` and a
/// plain file name have `/`, and a directory written plainly, a `/` and a
/// plain file name give back the directory. What
/// it gives for other paths (prefixes, `.` components, trailing separators)
/// depends on the platform and is left unstated.
#[verifier::external_body]
fn path_parent(p: &str) -> (res: Option<String>)
    ensures
        p@.len() == 0 ==> res.is_none(),
        p@ == seq!['/'] ==> res.is_none(),
        is_plain_component(p@) ==> res.is_some() && res.unwrap()@.len() == 0,
        split_at_last_slash(p@) is Some ==> res.is_some() && res.unwrap()@ == split_at_last_slash(p@).unwrap().0,
{
    match std::path::Path::new(p).parent() {
        Some(d) => Some(d.to_string_lossy().into_owned()),
        None => None,
    }
}

/// `std::path::Path::file_name`, as a string: the final component of the path.
/// As its documentation shows, a plain file name is its own file name, a path
/// without a Windows prefix that ends in `/` and a plain file name gives that
/// name, and an empty path, `/` and a path that ends in `..` have none. What it
/// gives for other paths depends on the platform and is left unstated.
#[verifier::external_body]
fn path_file_name(p: &str) -> (res: Option<String>)
    ensures
        p@.len() == 0 ==> res.is_none(),
        p@ == seq!['/'] ==> res.is_none(),
        p@ == seq!['.', '.'] ==> res.is_none(),
        has_no_prefix(p@) && ends_with(p@, seq!['/', '.', '.']) ==> res.is_none(),
        is_plain_file_name(p@) ==> res.is_some() && res.unwrap()@ == p@,
        last_index_of(p@, '/') >= 0 && has_no_prefix(p@) && is_plain_file_name(
            p@.skip(last_index_of(p@, '/') + 1),
        ) ==> res.is_some() && res.unwrap()@ == p@.skip(last_index_of(p@, '/') + 1),
{
    match std::path::Path::new(p).file_name() {
        Some(n) => Some(n.to_string_lossy().into_owned()),
        None => None,
    }
}

/// The folder and the file name that the rename dialog opens with, given the
/// parent folder and the file name of the output file: an error when either is
/// missing, the parent checked first.
pub fn rename_dialog_from(parent: Option<String>, file_name: Option<String>) -> (res: Result<(String, String), String>)
    ensures
        match (parent, file_name) {
            (None, _) => res matches Err(m) && m@ == "Cannot rename output without a parent directory"@,
            (Some(_), None) => res matches Err(m) && m@ == "Output file has an invalid name"@,
            (Some(d), Some(n)) => res matches Ok((a, b)) && a@ == d@ && b@ == n@,
        },
{
    match parent {
        None => Err(String::from_str("Cannot rename output without a parent directory")),
        Some(d) => match file_name {
            None => Err(String::from_str("Output file has an invalid name")),
            Some(n) => Ok((d, n)),
        },
    }
}

/// The folder and the file name that the rename dialog for the output file
/// `target` opens with, from `Path::parent` and `Path::file_name`.
pub fn rename_dialog_start(target: &str) -> (res: Result<(String, String), String>)
    ensures
        res matches Err(m) ==> m@ == "Cannot rename output without a parent directory"@ || m@
            == "Output file has an invalid name"@,
        target@.len() == 0 || target@ == seq!['/'] ==> (res matches Err(m) && m@
            == "Cannot rename output without a parent directory"@),
        target@ == seq!['.', '.'] ==> (res matches Err(m) && m@ == "Output file has an invalid name"@),
        is_plain_file_name(target@) ==> (res matches Ok((d, n)) && d@.len() == 0 && n@ == target@),
        split_at_last_slash(target@) matches Some((d, n)) ==> (res matches Ok((a, b)) && a@ == d && b@ == n),
{
    let parent = path_parent(target);
    let file_name = path_file_name(target);
    proof {
        if let Some((d, n)) = split_at_last_slash(target@) {
            let t = target@;
            lemma_last_index_of_bounds(t, '/');
            let head = t.take(last_index_of(t, '/') + 1);
            assert(t =~= head + n);
            assert(head.last() == '/');
            if last_index_of(t, '/') != 0 {
                assert(head =~= d + seq!['/']);
                assert(t[0] == d[0]);
                if d.len() > 1 {
                    assert(t[1] == d[1]);
                }
            } else {
                assert(t[1] == n[0]);
            }
            assert forall|c: char| c == '\\' || c == ':' implies !t.contains(c) by {
                if t.contains(c) {
                    let k = choose|k: int| 0 <= k < t.len() && t[k] == c;
                    if k < head.len() - 1 {
                        assert(d[k] == c);
                    } else if k >= head.len() {
                        assert(n[k - head.len()] == c);
                    }
                }
            }
        }
    }
    rename_dialog_from(parent, file_name)
}

} // verus!
