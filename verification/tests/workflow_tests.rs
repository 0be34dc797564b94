use etail_image_processor::workflow::{
    cancelled_status, decimal_text, finished_status, initial_status, next_output_step, next_run_step,
    output_dialog_start, rename_dialog_from, rename_dialog_start, required_path, start_output,
    start_run, Answer, FolderCheck, OutputEvent,
    OutputStep, RunStep, StatusLevel, DEFAULT_UNC_BASE,
};

#[test]
fn required_path_trims_or_reports() {
    assert_eq!(required_path("  /a/b ", "Image folder"), Ok("/a/b".to_owned()));
    assert_eq!(
        required_path("   ", "Image folder"),
        Err("Image folder is required".to_owned())
    );
}

#[test]
fn output_dialog_starts_in_image_folder() {
    assert_eq!(output_dialog_start(" /img "), Some("/img".to_owned()));
    assert_eq!(output_dialog_start("  "), None);
}

#[test]
fn statuses_have_their_texts() {
    let s = initial_status();
    assert_eq!(s.level, StatusLevel::Info);
    assert_eq!(s.text, "Select inputs, then click Run.");
    let s = cancelled_status();
    assert_eq!(s.level, StatusLevel::Warning);
    assert_eq!(s.text, "Warning: operation cancelled during output conflict resolution.");
    let s = finished_status(12, "/out/images.csv");
    assert_eq!(s.level, StatusLevel::Success);
    assert_eq!(s.text, "Done.\n\nRows written: 12\nOutput: /out/images.csv");
    assert_eq!(decimal_text(0), "0");
    assert_eq!(decimal_text(1234567), "1234567");
    assert!(DEFAULT_UNC_BASE.starts_with("\\\\etail.rs"));
}

fn finish_text(step: RunStep) -> String {
    match step {
        RunStep::Finish(status) => {
            assert_eq!(status.level, StatusLevel::Error);
            status.text
        }
        other => panic!("unexpected step {other:?}"),
    }
}

#[test]
fn run_requires_an_image_folder() {
    assert_eq!(finish_text(start_run("  ", "", "x")), "Error: Image folder is required");
}

#[test]
fn run_checks_folders_in_order() {
    let step = start_run(" /img ", "  ", " \\\\srv ");
    let step = next_run_step(step, FolderCheck { exists: true, is_dir: true });
    match &step {
        RunStep::CheckOutputFolder { image_folder, output_folder, .. } => {
            assert_eq!(image_folder, "/img");
            assert_eq!(output_folder, "/img");
        }
        other => panic!("unexpected step {other:?}"),
    }
    let step = next_run_step(step, FolderCheck { exists: true, is_dir: true });
    match step {
        RunStep::Collect { image_folder, output_folder, unc_base } => {
            assert_eq!(image_folder, "/img");
            assert_eq!(output_folder, "/img");
            assert_eq!(unc_base, "\\\\srv");
        }
        other => panic!("unexpected step {other:?}"),
    }
}

#[test]
fn run_reports_each_folder_error() {
    let step = next_run_step(start_run("/img", "/out", "u"), FolderCheck { exists: false, is_dir: false });
    assert_eq!(finish_text(step), "Error: Image folder is not a directory: /img");

    let step = next_run_step(start_run("/img", " /out ", "u"), FolderCheck { exists: true, is_dir: true });
    let missing = next_run_step(step.clone(), FolderCheck { exists: false, is_dir: false });
    assert_eq!(finish_text(missing), "Error: Output folder does not exist: /out");
    let not_dir = next_run_step(step, FolderCheck { exists: true, is_dir: false });
    assert_eq!(finish_text(not_dir), "Error: Output path is not a directory: /out");

    let step = next_run_step(start_run("/img", "", "   "), FolderCheck { exists: true, is_dir: true });
    let blank = next_run_step(step, FolderCheck { exists: true, is_dir: true });
    assert_eq!(finish_text(blank), "Error: UNC base path cannot be blank");
}

fn written(step: OutputStep) -> String {
    match step {
        OutputStep::Write(path) => path,
        other => panic!("unexpected step {other:?}"),
    }
}

#[test]
fn missing_target_is_written() {
    let step = next_output_step(start_output("/o/a.csv"), OutputEvent::Exists(false));
    assert_eq!(written(step), "/o/a.csv");
}

#[test]
fn existing_target_needs_yes_to_overwrite() {
    let ask = next_output_step(start_output("/o/a.csv"), OutputEvent::Exists(true));
    assert_eq!(written(next_output_step(ask.clone(), OutputEvent::Answered(Answer::Yes))), "/o/a.csv");
    assert!(matches!(
        next_output_step(ask.clone(), OutputEvent::Answered(Answer::Cancel)),
        OutputStep::Cancelled
    ));
    let pick = next_output_step(ask, OutputEvent::Answered(Answer::No));
    assert!(matches!(pick, OutputStep::PickName { .. }));
    assert!(matches!(
        next_output_step(pick.clone(), OutputEvent::Picked(None)),
        OutputStep::Cancelled
    ));
    let probe = next_output_step(pick, OutputEvent::Picked(Some("/o/b.csv".to_owned())));
    let confirm = next_output_step(probe.clone(), OutputEvent::Exists(true));
    assert!(matches!(
        next_output_step(confirm.clone(), OutputEvent::Answered(Answer::No)),
        OutputStep::PickName { .. }
    ));
    assert_eq!(written(next_output_step(confirm, OutputEvent::Answered(Answer::Yes))), "/o/b.csv");
    assert_eq!(written(next_output_step(probe, OutputEvent::Exists(false))), "/o/b.csv");
}

#[test]
fn unrelated_events_leave_the_step() {
    let step = start_output("/o/a.csv");
    let same = next_output_step(step, OutputEvent::Answered(Answer::Yes));
    assert!(matches!(same, OutputStep::Probe { .. }));
}

#[test]
fn rename_dialog_opens_in_the_folder_of_the_output_file() {
    assert_eq!(
        rename_dialog_start("/o/a.csv"),
        Ok(("/o".to_owned(), "a.csv".to_owned()))
    );
    assert_eq!(
        rename_dialog_start("a.csv"),
        Ok(("".to_owned(), "a.csv".to_owned()))
    );
}

#[test]
fn rename_dialog_needs_a_parent_and_a_file_name() {
    let no_parent = Err("Cannot rename output without a parent directory".to_owned());
    let bad_name = Err("Output file has an invalid name".to_owned());
    assert_eq!(rename_dialog_start(""), no_parent);
    assert_eq!(rename_dialog_start("/"), no_parent);
    assert_eq!(rename_dialog_start(".."), bad_name);
    assert_eq!(rename_dialog_start("/o/.."), bad_name);
    assert_eq!(rename_dialog_from(None, None), no_parent);
    assert_eq!(rename_dialog_from(Some("/o".to_owned()), None), bad_name);
    assert_eq!(
        rename_dialog_from(Some("/o".to_owned()), Some("b.csv".to_owned())),
        Ok(("/o".to_owned(), "b.csv".to_owned()))
    );
}

#[test]
fn rename_dialog_for_a_file_under_the_root_opens_at_the_root() {
    assert_eq!(
        rename_dialog_start("/images.csv"),
        Ok(("/".to_owned(), "images.csv".to_owned()))
    );
}
