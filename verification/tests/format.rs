use ocy_core::format::{
    format_action, format_candidate, format_clean_action, format_failure, format_file_size,
    format_file_size_and_more, format_opt_file_size, format_path, format_path_truncate,
    format_scan_failure, format_scanning, try_relativize_path, ActionLabel,
};
use ocy_core::models::{
    total_size, Failure, FileInfo, RemovalAction, RemovalCandidate, SimpleFileKind,
};

fn dir(path: &str) -> FileInfo {
    FileInfo::new(path.to_string(), "n".to_string(), SimpleFileKind::Directory)
}

fn delete(path: &str, size: Option<u64>) -> RemovalCandidate {
    RemovalCandidate::new("Cargo".to_string(), dir(path), size)
}

fn run(path: &str, command: &str) -> RemovalCandidate {
    RemovalCandidate::new_cmd("Make".to_string(), dir(path), command.to_string())
}

#[test]
fn a_path_below_the_base_is_shown_without_it() {
    assert_eq!(format_path("/home/user", "/home/user/a/b"), "a/b");
    assert_eq!(format_path("/home/user/", "/home/user/a"), "a");
    assert_eq!(try_relativize_path("/home/user", "/home/user/x"), "x");
    assert_eq!(format_path("/home/user", "/home/user"), "");
}

#[test]
fn a_path_elsewhere_is_shown_whole() {
    assert_eq!(format_path("/home/user", "/etc/passwd"), "/etc/passwd");
    assert_eq!(format_path("/home/us", "/home/user/a"), "/home/user/a");
    assert_eq!(try_relativize_path("/a/b", "/a"), "/a");
}

#[test]
fn a_short_path_is_not_truncated() {
    assert_eq!(format_path_truncate("/base", "/base/short"), "short");
    let eighty = "x".repeat(80);
    assert_eq!(format_path_truncate("/base", &format!("/base/{}", eighty)), eighty);
}

#[test]
fn a_long_path_keeps_its_last_80_characters() {
    let long = format!("{}{}", "a".repeat(30), "b".repeat(60));
    let shown = format_path_truncate("/base", &format!("/base/{}", long));
    assert_eq!(shown, format!("...{}{}", "a".repeat(20), "b".repeat(60)));
    assert_eq!(shown.chars().count(), 83);
    let eighty_one = format!("y{}", "x".repeat(80));
    assert_eq!(
        format_path_truncate("/base", &format!("/base/{}", eighty_one)),
        format!("...{}", "x".repeat(80))
    );
}

#[test]
fn a_candidate_is_shown_by_its_path_or_by_its_command() {
    assert_eq!(format_candidate("/home/user", &delete("/home/user/p/target", None)), "p/target");
    assert_eq!(
        format_candidate("/home/user", &run("/home/user/p", "make clean")),
        "`make clean` in `p`"
    );
    assert_eq!(format_candidate("/other", &run("/home/user/p", "x")), "`x` in `/home/user/p`");
}

#[test]
fn the_words_for_an_action_depend_on_what_it_is_and_on_the_moment() {
    let d = delete("/p", None);
    let r = run("/p", "make clean");
    assert_eq!(format_clean_action(&d, ActionLabel::Start), "Removing");
    assert_eq!(format_clean_action(&d, ActionLabel::Success), "Removed");
    assert_eq!(format_clean_action(&d, ActionLabel::Failed), "Failed to remove");
    assert_eq!(format_clean_action(&r, ActionLabel::Start), "Executing");
    assert_eq!(format_clean_action(&r, ActionLabel::Success), "Executed");
    assert_eq!(format_clean_action(&r, ActionLabel::Failed), "Failed to execute");
}

#[test]
fn a_candidate_knows_its_size_or_estimates_it_as_nothing() {
    assert_eq!(delete("/p", Some(42)).file_size(), Some(42));
    assert_eq!(delete("/p", Some(42)).estimate_file_size(), 42);
    assert_eq!(delete("/p", None).file_size(), None);
    assert_eq!(delete("/p", None).estimate_file_size(), 0);
    assert_eq!(run("/p", "make clean").file_size(), None);
    assert_eq!(run("/p", "make clean").estimate_file_size(), 0);
    assert_eq!(delete("/p", Some(u64::MAX)).estimate_file_size(), u64::MAX);
}

#[test]
fn candidates_are_built_as_they_are_asked_for() {
    let c = delete("/p/target", Some(7));
    assert_eq!(c.matcher_name, "Cargo");
    match &c.action {
        RemovalAction::Delete { file_info, file_size } => {
            assert_eq!(file_info.path, "/p/target");
            assert_eq!(file_info.name, "n");
            assert_eq!(file_info.kind, SimpleFileKind::Directory);
            assert_eq!(*file_size, Some(7));
        }
        RemovalAction::RunCommand { .. } => panic!("should delete"),
    }
    let c = run("/p", "make clean");
    assert_eq!(c.matcher_name, "Make");
    match &c.action {
        RemovalAction::RunCommand { work_dir, command } => {
            assert_eq!(work_dir.path, "/p");
            assert_eq!(command, "make clean");
        }
        RemovalAction::Delete { .. } => panic!("should run"),
    }
    let copy = c.clone();
    assert_eq!(copy.matcher_name, "Make");
    assert!(matches!(copy.action, RemovalAction::RunCommand { .. }));
    assert_eq!(Failure::new("why".to_string()).clone().message, "why");
    assert_eq!(dir("/p").clone().path, "/p");
}

#[test]
fn the_total_is_the_sum_of_the_estimates() {
    assert_eq!(total_size(&[]), (0, false));
    assert_eq!(total_size(&[delete("/a", Some(10)), delete("/b", Some(32))]), (42, false));
    assert_eq!(total_size(&[delete("/a", Some(10)), delete("/b", None)]), (10, true));
    assert_eq!(total_size(&[delete("/a", Some(5)), run("/b", "make clean")]), (5, true));
    assert_eq!(total_size(&[run("/b", "make clean")]), (0, true));
}

#[test]
fn a_total_that_does_not_fit_is_the_largest_number() {
    assert_eq!(
        total_size(&[delete("/a", Some(u64::MAX)), delete("/b", Some(1)), delete("/c", Some(5))]),
        (u64::MAX, false)
    );
    assert_eq!(
        total_size(&[delete("/a", Some(u64::MAX - 1)), delete("/b", Some(1))]),
        (u64::MAX, false)
    );
}

#[test]
fn sizes_are_shown_in_steps_of_1024() {
    assert_eq!(format_file_size(0), "0B");
    assert_eq!(format_file_size(42), "42B");
    assert_eq!(format_file_size(1023), "1023B");
    assert_eq!(format_file_size(1024), "1.00KiB");
    assert_eq!(format_file_size(1536), "1.50KiB");
    assert_eq!(format_file_size(5 * 1024 * 1024), "5.00MiB");
    assert_eq!(format_file_size(3 * 1024 * 1024 * 1024), "3.00GiB");
}

#[test]
fn an_unknown_size_is_a_question_mark() {
    assert_eq!(format_opt_file_size(Some(2048)), "2.00KiB");
    assert_eq!(format_opt_file_size(Some(0)), "0B");
    assert_eq!(format_opt_file_size(None), "?");
}

#[test]
fn a_total_to_which_more_may_come_ends_in_a_plus() {
    assert_eq!(format_file_size_and_more(2048, false), "2.00KiB");
    assert_eq!(format_file_size_and_more(2048, true), "2.00KiB+");
    assert_eq!(format_file_size_and_more(0, true), "0B+");
}

#[test]
fn lines_say_what_happens_to_a_candidate() {
    let d = delete("/home/user/p/target", None);
    let r = run("/home/user/p", "make clean");
    assert_eq!(format_action("/home/user", &d, ActionLabel::Start), "Removing p/target");
    assert_eq!(format_action("/home/user", &d, ActionLabel::Success), "Removed p/target");
    assert_eq!(
        format_action("/home/user", &r, ActionLabel::Success),
        "Executed `make clean` in `p`"
    );
    assert_eq!(
        format_failure("/home/user", &d, "permission denied"),
        "Failed to remove p/target: permission denied"
    );
    assert_eq!(
        format_failure("/home/user", &r, "not found"),
        "Failed to execute `make clean` in `p`: not found"
    );
}

#[test]
fn lines_say_how_the_scan_goes() {
    assert_eq!(format_scanning("/home/user", "/home/user/p/src"), "Scanning p/src");
    let long = "d/".repeat(50);
    assert_eq!(
        format_scanning("/home/user", &format!("/home/user/{}x", long)),
        format!("Scanning ...{}x", "/d".repeat(39) + "/")
    );
    assert_eq!(
        format_scan_failure("/home/user", "/home/user/p", "permission denied"),
        "Failed to scan p: permission denied"
    );
}
