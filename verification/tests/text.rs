use ocy_core::command::{
    judge_exit, parse_command, CommandExecutor, ExitPolicy, MockCommandExecutor,
};
use ocy_core::filesystem::{
    removal_mode, FileSystem, FileSystemClean, MockFileSystemClean, RemovalMode,
};
use ocy_core::ignore::IgnoreSet;
use ocy_core::models::{FileInfo, SimpleFileKind};
use ocy_core::test_utils::{MockFS, MockFSNode};
use ocy_core::text::{is_cut, split, split_path, split_words, Cut};

#[test]
fn words_stand_between_blanks() {
    assert_eq!(split_words("make clean"), vec!["make", "clean"]);
    assert_eq!(split_words("  make \t clean\n"), vec!["make", "clean"]);
    assert_eq!(split_words("a\u{c}b\rc"), vec!["a", "b", "c"]);
    assert_eq!(split_words("single"), vec!["single"]);
    assert!(split_words("").is_empty());
    assert!(split_words(" \t\n").is_empty());
}

#[test]
fn quotes_and_pipes_are_nothing_special() {
    assert_eq!(
        split_words("sh -c \"rm -rf build\" | tee log"),
        vec!["sh", "-c", "\"rm", "-rf", "build\"", "|", "tee", "log"]
    );
}

#[test]
fn other_white_space_does_not_cut() {
    assert_eq!(split_words("a\u{a0}b c"), vec!["a\u{a0}b", "c"]);
    assert_eq!(split_words("gr\u{fc}n \u{e9}t\u{e9}"), vec!["gr\u{fc}n", "\u{e9}t\u{e9}"]);
}

#[test]
fn the_parts_of_a_path_stand_between_slashes() {
    assert_eq!(split_path("/home/user"), vec!["home", "user"]);
    assert_eq!(split_path("//home///user/"), vec!["home", "user"]);
    assert_eq!(split_path("a b/c"), vec!["a b", "c"]);
    assert!(split_path("/").is_empty());
    assert_eq!(split(Cut::Slashes, "x"), vec!["x"]);
    assert_eq!(split(Cut::Blanks, "a/b c"), vec!["a/b", "c"]);
}

#[test]
fn the_cuts_are_what_they_are() {
    for c in [' ', '\t', '\n', '\u{c}', '\r'] {
        assert!(is_cut(Cut::Blanks, c));
        assert!(!is_cut(Cut::Slashes, c));
    }
    assert!(is_cut(Cut::Slashes, '/'));
    assert!(!is_cut(Cut::Blanks, '/'));
    assert!(!is_cut(Cut::Blanks, '\u{b}'));
    assert!(!is_cut(Cut::Slashes, '\\'));
}

#[test]
fn a_command_line_is_a_program_and_its_arguments() {
    let line = parse_command("make clean").unwrap();
    assert_eq!(line.program, "make");
    assert_eq!(line.arguments, vec!["clean"]);
    let line = parse_command("  cargo   clean --release ").unwrap();
    assert_eq!(line.program, "cargo");
    assert_eq!(line.arguments, vec!["clean", "--release"]);
    let line = parse_command("ls").unwrap();
    assert_eq!(line.program, "ls");
    assert!(line.arguments.is_empty());
}

#[test]
fn a_command_line_without_a_word_names_no_program() {
    assert!(parse_command("").is_none());
    assert!(parse_command("   \t").is_none());
}

#[test]
fn the_mocks_always_succeed() {
    let here = FileInfo::new("/p".to_string(), "p".to_string(), SimpleFileKind::Directory);
    assert!(MockCommandExecutor.execute_command(&here, "make clean").is_ok());
    assert!(MockFileSystemClean.remove_file(&here).is_ok());
}

#[test]
fn an_ignore_set_holds_what_was_put_in() {
    let mut set = IgnoreSet::new();
    assert!(set.is_empty());
    assert!(!set.contains("/a"));
    set.insert("/a".to_string());
    assert!(set.contains("/a"));
    assert!(!set.contains("/a/"));
    assert!(!set.contains("/b"));
    assert!(!set.is_empty());
    let set = IgnoreSet::from_paths(vec!["/x".to_string(), "/y".to_string(), "/x".to_string()]);
    assert!(set.contains("/x"));
    assert!(set.contains("/y"));
    assert!(!set.contains("/z"));
    assert!(IgnoreSet::from_paths(Vec::new()).is_empty());
}

fn tree() -> MockFS {
    MockFS::new(MockFSNode::dir(
        "/",
        vec![MockFSNode::dir(
            "home",
            vec![
                MockFSNode::dir(
                    "user",
                    vec![
                        MockFSNode::file("a"),
                        MockFSNode::dir("d", vec![MockFSNode::file("b")]),
                    ],
                ),
                MockFSNode::dir("empty", Vec::new()),
            ],
        )],
    ))
}

fn at(path: &str) -> FileInfo {
    FileInfo::new(path.to_string(), String::new(), SimpleFileKind::Directory)
}

#[test]
fn the_mock_file_system_lists_what_is_below_a_path() {
    let fs = tree();
    let listed = fs.list_files(&at("/home/user")).unwrap();
    assert_eq!(listed.len(), 2);
    assert_eq!(listed[0].path, "/home/user/a");
    assert_eq!(listed[0].name, "a");
    assert_eq!(listed[0].kind, SimpleFileKind::File);
    assert_eq!(listed[1].path, "/home/user/d");
    assert_eq!(listed[1].name, "d");
    assert_eq!(listed[1].kind, SimpleFileKind::Directory);
}

#[test]
fn the_mock_file_system_joins_paths_with_one_slash() {
    let fs = tree();
    let listed = fs.list_files(&at("/")).unwrap();
    assert_eq!(listed.len(), 1);
    assert_eq!(listed[0].path, "/home");
    let listed = fs.list_files(&at("/home/")).unwrap();
    assert_eq!(listed[0].path, "/home/user");
    assert_eq!(listed[1].path, "/home/empty");
    assert_eq!(listed[1].kind, SimpleFileKind::File);
    let listed = fs.list_files(&at("")).unwrap();
    assert_eq!(listed[0].path, "home");
}

#[test]
fn the_mock_file_system_lists_nothing_below_a_file() {
    let fs = tree();
    assert!(fs.list_files(&at("/home/user/a")).unwrap().is_empty());
}

#[test]
fn the_mock_file_system_cannot_find_what_is_not_there() {
    let fs = tree();
    let failure = fs.list_files(&at("/home/nobody")).unwrap_err();
    assert_eq!(failure.message, "Cannot find node");
    assert!(fs.list_files(&at("/home/user/a/deeper")).is_err());
}

#[test]
fn the_mock_file_system_starts_at_home_and_measures_42() {
    let fs = tree();
    let start = fs.current_directory().unwrap();
    assert_eq!(start.path, "/home/user");
    assert_eq!(start.name, "user");
    assert_eq!(start.kind, SimpleFileKind::Directory);
    assert_eq!(fs.file_size(&start).unwrap(), 42);
}

#[test]
fn the_first_of_two_entries_with_one_name_is_found() {
    let fs = MockFS::new(MockFSNode::dir(
        "/",
        vec![
            MockFSNode::dir("twin", vec![MockFSNode::file("first")]),
            MockFSNode::dir("twin", vec![MockFSNode::file("second")]),
        ],
    ));
    let listed = fs.list_files(&at("/twin")).unwrap();
    assert_eq!(listed.len(), 1);
    assert_eq!(listed[0].name, "first");
}

#[test]
fn a_failure_status_counts_only_where_it_is_rejected() {
    assert!(judge_exit(ExitPolicy::Tolerate, Some(0)).is_ok());
    assert!(judge_exit(ExitPolicy::Tolerate, Some(2)).is_ok());
    assert!(judge_exit(ExitPolicy::Tolerate, None).is_ok());
    assert!(judge_exit(ExitPolicy::Reject, Some(0)).is_ok());
    assert_eq!(
        judge_exit(ExitPolicy::Reject, Some(2)).unwrap_err().message,
        "Command ended with a failure status"
    );
    assert!(judge_exit(ExitPolicy::Reject, Some(-1)).is_err());
    assert!(judge_exit(ExitPolicy::Reject, None).is_err());
}

#[test]
fn a_directory_is_deleted_with_what_is_below_it_and_a_file_alone() {
    assert_eq!(removal_mode(&at("/d")), RemovalMode::Recursive);
    let file = FileInfo::new("/f".to_string(), "f".to_string(), SimpleFileKind::File);
    assert_eq!(removal_mode(&file), RemovalMode::Single);
}
