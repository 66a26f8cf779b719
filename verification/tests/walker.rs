use std::cell::RefCell;

use ocy_core::filesystem::FileSystem;
use ocy_core::ignore::IgnoreSet;
use ocy_core::matcher::Matcher;
use ocy_core::matchers::standard_matchers;
use ocy_core::models::{Failure, FileInfo, RemovalAction, RemovalCandidate, SimpleFileKind};
use ocy_core::pattern::GlobPattern;
use ocy_core::test_utils::{MockFS, MockFSNode};
use ocy_core::walker::{WalkNotifier, Walker};

#[derive(Debug, Clone, PartialEq)]
enum Heard {
    Entered(String),
    Delete(String, String, Option<u64>),
    Run(String, String, String),
    Failed(String, String),
    Finished,
}

#[derive(Default)]
struct VecWalkNotifier {
    to_remove: RefCell<Vec<RemovalCandidate>>,
    heard: RefCell<Vec<Heard>>,
}

impl VecWalkNotifier {
    fn heard(&self) -> Vec<Heard> {
        self.heard.borrow().clone()
    }

    fn candidates(&self) -> Vec<Heard> {
        self.heard()
            .into_iter()
            .filter(|h| matches!(h, Heard::Delete(..) | Heard::Run(..)))
            .collect()
    }
}

impl WalkNotifier for &VecWalkNotifier {
    fn notify_entered_directory(&self, dir: &FileInfo) {
        self.heard.borrow_mut().push(Heard::Entered(dir.path.clone()));
    }

    fn notify_candidate_for_removal(&self, candidate: RemovalCandidate) {
        let heard = match &candidate.action {
            RemovalAction::Delete { file_info, file_size } => {
                Heard::Delete(candidate.matcher_name.clone(), file_info.path.clone(), *file_size)
            }
            RemovalAction::RunCommand { work_dir, command } => {
                Heard::Run(candidate.matcher_name.clone(), work_dir.path.clone(), command.clone())
            }
        };
        self.heard.borrow_mut().push(heard);
        self.to_remove.borrow_mut().push(candidate);
    }

    fn notify_fail_to_scan(&self, e: &FileInfo, report: Failure) {
        self.heard.borrow_mut().push(Heard::Failed(e.path.clone(), report.message));
    }

    fn notify_walk_finish(&self) {
        self.heard.borrow_mut().push(Heard::Finished);
    }
}

/// A file system that wraps another one, cannot list some directories,
/// cannot measure some entries, and may not know where it starts.
struct Flaky {
    inner: MockFS,
    unlistable: Vec<String>,
    unmeasurable: Vec<String>,
    lost: bool,
    listed: RefCell<Vec<String>>,
}

impl Flaky {
    fn new(inner: MockFS) -> Self {
        Flaky {
            inner,
            unlistable: Vec::new(),
            unmeasurable: Vec::new(),
            lost: false,
            listed: RefCell::new(Vec::new()),
        }
    }
}

impl FileSystem for &Flaky {
    fn current_directory(&self) -> Result<FileInfo, Failure> {
        if self.lost {
            Err(Failure::new("no current directory".to_string()))
        } else {
            self.inner.current_directory()
        }
    }

    fn list_files(&self, file: &FileInfo) -> Result<Vec<FileInfo>, Failure> {
        self.listed.borrow_mut().push(file.path.clone());
        if self.unlistable.contains(&file.path) {
            Err(Failure::new("permission denied".to_string()))
        } else {
            self.inner.list_files(file)
        }
    }

    fn file_size(&self, file: &FileInfo) -> Result<u64, Failure> {
        if self.unmeasurable.contains(&file.path) {
            Err(Failure::new("cannot measure".to_string()))
        } else {
            self.inner.file_size(file)
        }
    }
}

fn file(name: &str) -> MockFSNode {
    MockFSNode::file(name)
}

fn dir(name: &str, children: Vec<MockFSNode>) -> MockFSNode {
    MockFSNode::dir(name, children)
}

fn home(projects: Vec<MockFSNode>) -> MockFS {
    MockFS::new(dir("/", vec![dir("home", vec![dir("user", projects)])]))
}

fn setup_mock_fs() -> MockFS {
    home(vec![
        dir("projectA", vec![file("Cargo.toml"), file("target")]),
        dir("projectB", vec![file("target")]),
    ])
}

fn removing(name: &str, to_match: &str, to_remove: &str) -> Matcher {
    Matcher::with_remove_strategy(
        name.to_string(),
        GlobPattern::new(to_match).unwrap(),
        GlobPattern::new(to_remove).unwrap(),
    )
}

fn running(name: &str, to_match: &str, command: &str) -> Matcher {
    Matcher::with_command_strategy(
        name.to_string(),
        GlobPattern::new(to_match).unwrap(),
        command.to_string(),
    )
}

fn ignoring(paths: &[&str]) -> IgnoreSet {
    IgnoreSet::from_paths(paths.iter().map(|p| p.to_string()).collect())
}

fn start_dir() -> FileInfo {
    FileInfo::new("/home/user".to_string(), "user".to_string(), SimpleFileKind::Directory)
}

fn walk(fs: MockFS, matchers: Vec<Matcher>, ignores: IgnoreSet, walk_all: bool) -> Vec<Heard> {
    let notifier = VecWalkNotifier::default();
    let mut walker = Walker::new(fs, matchers, &notifier, ignores, walk_all);
    assert!(walker.walk_from_path(&start_dir()));
    notifier.heard()
}

fn entered(path: &str) -> Heard {
    Heard::Entered(path.to_string())
}

fn deleted(matcher: &str, path: &str) -> Heard {
    Heard::Delete(matcher.to_string(), path.to_string(), Some(42))
}

#[test]
fn test() {
    let fs = setup_mock_fs();
    let current_dir = setup_mock_fs().current_directory().unwrap();
    let notifier = VecWalkNotifier::default();
    let mut walker = Walker::new(
        fs,
        vec![Matcher::with_remove_strategy(
            "Cargo".to_string(),
            GlobPattern::new("Cargo.toml").unwrap(),
            GlobPattern::new("target").unwrap(),
        )],
        &notifier,
        IgnoreSet::new(),
        false,
    );
    walker.walk_from_path(&current_dir);

    let to_remove = notifier.to_remove.into_inner();

    assert_eq!(1, to_remove.len());
    let c = to_remove.into_iter().next().unwrap();
    assert_eq!(c.matcher_name, "Cargo");

    match c.action {
        RemovalAction::Delete { file_info, .. } => {
            assert_eq!(file_info.path, "/home/user/projectA/target")
        }
        RemovalAction::RunCommand { .. } => {
            panic!("should be delete")
        }
    }
}

#[test]
fn the_whole_walk_is_reported_in_order() {
    let heard = walk(
        setup_mock_fs(),
        vec![removing("Cargo", "Cargo.toml", "target")],
        IgnoreSet::new(),
        false,
    );
    assert_eq!(
        heard,
        vec![
            entered("/home/user"),
            entered("/home/user/projectA"),
            deleted("Cargo", "/home/user/projectA/target"),
            entered("/home/user/projectB"),
            Heard::Finished,
        ]
    );
}

#[test]
fn a_make_matcher_proposes_one_command_for_the_directory() {
    let fs = home(vec![dir(
        "project",
        vec![file("Makefile"), file("Cargo.toml"), dir("target", vec![file("debug")])],
    )]);
    let heard = walk(
        fs,
        vec![removing("Cargo", "Cargo.toml", "target"), running("Make", "Makefile", "make clean")],
        IgnoreSet::new(),
        false,
    );
    assert_eq!(
        heard,
        vec![
            entered("/home/user"),
            entered("/home/user/project"),
            deleted("Cargo", "/home/user/project/target"),
            Heard::Run(
                "Make".to_string(),
                "/home/user/project".to_string(),
                "make clean".to_string()
            ),
            Heard::Finished,
        ]
    );
}

#[test]
fn a_command_leaves_the_entries_to_be_walked_into() {
    let fs = home(vec![dir(
        "project",
        vec![file("Makefile"), dir("sub", vec![file("Makefile")])],
    )]);
    let heard = walk(fs, vec![running("Make", "Makefile", "make clean")], IgnoreSet::new(), false);
    assert_eq!(
        heard,
        vec![
            entered("/home/user"),
            entered("/home/user/project"),
            Heard::Run(
                "Make".to_string(),
                "/home/user/project".to_string(),
                "make clean".to_string()
            ),
            entered("/home/user/project/sub"),
            Heard::Run(
                "Make".to_string(),
                "/home/user/project/sub".to_string(),
                "make clean".to_string()
            ),
            Heard::Finished,
        ]
    );
}

#[test]
fn an_ignored_directory_is_neither_listed_nor_reported() {
    let fs = Flaky::new(home(vec![
        dir("kept", vec![file("Cargo.toml"), dir("target", vec![file("x")])]),
        dir("skipped", vec![file("Cargo.toml"), dir("target", vec![file("x")])]),
    ]));
    let notifier = VecWalkNotifier::default();
    let mut walker = Walker::new(
        &fs,
        vec![removing("Cargo", "Cargo.toml", "target")],
        &notifier,
        ignoring(&["/home/user/skipped"]),
        false,
    );
    assert!(walker.walk_from_path(&start_dir()));
    assert_eq!(
        notifier.heard(),
        vec![
            entered("/home/user"),
            entered("/home/user/kept"),
            deleted("Cargo", "/home/user/kept/target"),
            Heard::Finished,
        ]
    );
    assert_eq!(fs.listed.into_inner(), vec!["/home/user", "/home/user/kept"]);
}

#[test]
fn an_ignored_start_reports_only_the_end() {
    let heard = walk(
        setup_mock_fs(),
        vec![removing("Cargo", "Cargo.toml", "target")],
        ignoring(&["/home/user"]),
        false,
    );
    assert_eq!(heard, vec![Heard::Finished]);
}

#[test]
fn an_ignored_entry_is_claimed_but_not_proposed() {
    let fs = home(vec![dir(
        "project",
        vec![file("Cargo.toml"), dir("target", vec![dir("inner", vec![file("x")])])],
    )]);
    let heard = walk(
        fs,
        vec![removing("Cargo", "Cargo.toml", "target")],
        ignoring(&["/home/user/project/target"]),
        false,
    );
    assert_eq!(heard, vec![entered("/home/user"), entered("/home/user/project"), Heard::Finished]);
}

#[test]
fn hidden_directories_are_walked_into_only_on_demand() {
    let tree = || {
        home(vec![
            dir(".hidden", vec![file("Cargo.toml"), file("target")]),
            dir("shown", vec![file("a")]),
            file("plain"),
        ])
    };
    let matchers = || vec![removing("Cargo", "Cargo.toml", "target")];
    assert_eq!(
        walk(tree(), matchers(), IgnoreSet::new(), false),
        vec![entered("/home/user"), entered("/home/user/shown"), Heard::Finished]
    );
    assert_eq!(
        walk(tree(), matchers(), IgnoreSet::new(), true),
        vec![
            entered("/home/user"),
            entered("/home/user/.hidden"),
            deleted("Cargo", "/home/user/.hidden/target"),
            entered("/home/user/shown"),
            Heard::Finished,
        ]
    );
}

#[test]
fn a_claimed_directory_is_not_walked_into() {
    let fs = home(vec![dir(
        "project",
        vec![file("Cargo.toml"), dir("target", vec![file("Cargo.toml"), file("target")])],
    )]);
    let heard =
        walk(fs, vec![removing("Cargo", "Cargo.toml", "target")], IgnoreSet::new(), false);
    assert_eq!(
        heard,
        vec![
            entered("/home/user"),
            entered("/home/user/project"),
            deleted("Cargo", "/home/user/project/target"),
            Heard::Finished,
        ]
    );
}

#[test]
fn a_later_matcher_sees_only_what_earlier_ones_left() {
    let fs = home(vec![dir("project", vec![file("Cargo.toml"), file("pom.xml"), file("target")])]);
    let heard = walk(
        fs,
        vec![removing("Cargo", "Cargo.toml", "target"), removing("Maven", "pom.xml", "target")],
        IgnoreSet::new(),
        false,
    );
    assert_eq!(
        heard.into_iter().filter(|h| matches!(h, Heard::Delete(..))).collect::<Vec<_>>(),
        vec![deleted("Cargo", "/home/user/project/target")]
    );
}

#[test]
fn a_directory_that_cannot_be_listed_is_given_up_alone() {
    let mut fs = Flaky::new(home(vec![
        dir("a", vec![file("Cargo.toml"), file("target")]),
        dir("b", vec![file("Cargo.toml"), file("target")]),
        dir("c", vec![file("Cargo.toml"), file("target")]),
    ]));
    fs.unlistable.push("/home/user/b".to_string());
    let notifier = VecWalkNotifier::default();
    let mut walker = Walker::new(
        &fs,
        vec![removing("Cargo", "Cargo.toml", "target")],
        &notifier,
        IgnoreSet::new(),
        false,
    );
    assert!(walker.walk_from_path(&start_dir()));
    assert_eq!(
        notifier.heard(),
        vec![
            entered("/home/user"),
            entered("/home/user/a"),
            deleted("Cargo", "/home/user/a/target"),
            entered("/home/user/b"),
            Heard::Failed("/home/user/b".to_string(), "permission denied".to_string()),
            entered("/home/user/c"),
            deleted("Cargo", "/home/user/c/target"),
            Heard::Finished,
        ]
    );
}

#[test]
fn a_missing_start_is_reported_as_a_failed_scan() {
    let notifier = VecWalkNotifier::default();
    let mut walker = Walker::new(
        setup_mock_fs(),
        vec![removing("Cargo", "Cargo.toml", "target")],
        &notifier,
        IgnoreSet::new(),
        false,
    );
    let nowhere =
        FileInfo::new("/nowhere".to_string(), "nowhere".to_string(), SimpleFileKind::Directory);
    assert!(walker.walk_from_path(&nowhere));
    assert_eq!(
        notifier.heard(),
        vec![
            entered("/nowhere"),
            Heard::Failed("/nowhere".to_string(), "Cannot find node".to_string()),
            Heard::Finished,
        ]
    );
}

#[test]
fn a_size_that_cannot_be_found_out_is_absent() {
    let mut fs = Flaky::new(setup_mock_fs());
    fs.unmeasurable.push("/home/user/projectA/target".to_string());
    let notifier = VecWalkNotifier::default();
    let mut walker = Walker::new(
        &fs,
        vec![removing("Cargo", "Cargo.toml", "target")],
        &notifier,
        IgnoreSet::new(),
        false,
    );
    assert!(walker.walk_from_path(&start_dir()));
    assert_eq!(
        notifier.candidates(),
        vec![Heard::Delete("Cargo".to_string(), "/home/user/projectA/target".to_string(), None)]
    );
}

#[test]
fn a_lost_start_is_fatal_and_nothing_is_reported() {
    let mut fs = Flaky::new(setup_mock_fs());
    fs.lost = true;
    let notifier = VecWalkNotifier::default();
    let mut walker = Walker::new(
        &fs,
        vec![removing("Cargo", "Cargo.toml", "target")],
        &notifier,
        IgnoreSet::new(),
        false,
    );
    let result = walker.simple_walk();
    assert_eq!(result.unwrap_err().message, "no current directory");
    assert!(!walker.step());
    assert!(notifier.heard().is_empty());
    assert!(fs.listed.into_inner().is_empty());
}

#[test]
fn a_walk_can_begin_where_the_file_system_starts() {
    let notifier = VecWalkNotifier::default();
    let mut walker = Walker::new(
        setup_mock_fs(),
        vec![removing("Cargo", "Cargo.toml", "target")],
        &notifier,
        IgnoreSet::new(),
        false,
    );
    assert_eq!(walker.simple_walk().ok(), Some(true));
    assert_eq!(notifier.candidates(), vec![deleted("Cargo", "/home/user/projectA/target")]);
}

#[test]
fn scanning_again_after_the_clean_up_proposes_nothing() {
    let matchers = || {
        vec![
            removing("Cargo", "Cargo.toml", "target"),
            removing("NodeJS", "*", "node_modules"),
        ]
    };
    let before = home(vec![
        dir(
            "rust",
            vec![file("Cargo.toml"), dir("target", vec![file("x")]), dir("src", vec![file("m")])],
        ),
        dir("web", vec![file("package.json"), dir("node_modules", vec![file("y")])]),
    ]);
    let first = walk(before, matchers(), IgnoreSet::new(), false);
    assert_eq!(
        first.into_iter().filter(|h| matches!(h, Heard::Delete(..))).collect::<Vec<_>>(),
        vec![
            deleted("Cargo", "/home/user/rust/target"),
            deleted("NodeJS", "/home/user/web/node_modules"),
        ]
    );
    let after = home(vec![
        dir("rust", vec![file("Cargo.toml"), dir("src", vec![file("m")])]),
        dir("web", vec![file("package.json")]),
    ]);
    let second = walk(after, matchers(), IgnoreSet::new(), false);
    assert_eq!(
        second,
        vec![
            entered("/home/user"),
            entered("/home/user/rust"),
            entered("/home/user/rust/src"),
            entered("/home/user/web"),
            Heard::Finished,
        ]
    );
}

#[test]
fn the_standard_matchers_find_the_usual_leftovers() {
    let fs = home(vec![
        dir("rust", vec![file("Cargo.toml"), dir("target", vec![file("x")])]),
        dir("gradle", vec![file("build.gradle"), dir("build", vec![file("x")])]),
        dir("kts", vec![file("build.gradle.kts"), dir("build", vec![file("x")])]),
        dir("maven", vec![file("pom.xml"), dir("target", vec![file("x")])]),
        dir("node", vec![file("index.js"), dir("node_modules", vec![file("x")])]),
        dir("xcode", vec![file("App.xcodeproj"), dir("DerivedData", vec![file("x")])]),
        dir("sbt", vec![file("build.sbt"), dir("target", vec![file("x")])]),
        dir("plugins", vec![file("plugins.sbt"), dir("target", vec![file("x")])]),
        dir("make", vec![file("Makefile")]),
        dir("nothing", vec![dir("target", vec![file("x")])]),
    ]);
    let heard = walk(fs, standard_matchers(), IgnoreSet::new(), false);
    let candidates: Vec<Heard> =
        heard.into_iter().filter(|h| matches!(h, Heard::Delete(..) | Heard::Run(..))).collect();
    assert_eq!(
        candidates,
        vec![
            deleted("Cargo", "/home/user/rust/target"),
            deleted("Gradle", "/home/user/gradle/build"),
            deleted("GradleKTS", "/home/user/kts/build"),
            deleted("Maven", "/home/user/maven/target"),
            deleted("NodeJS", "/home/user/node/node_modules"),
            deleted("XCode", "/home/user/xcode/DerivedData"),
            deleted("SBT", "/home/user/sbt/target"),
            deleted("SBT", "/home/user/plugins/target"),
            Heard::Run("Make".to_string(), "/home/user/make".to_string(), "make clean".to_string()),
        ]
    );
}

#[test]
fn a_walk_can_be_taken_step_by_step() {
    let notifier = VecWalkNotifier::default();
    let mut walker = Walker::new(
        setup_mock_fs(),
        vec![removing("Cargo", "Cargo.toml", "target")],
        &notifier,
        IgnoreSet::new(),
        false,
    );
    assert!(!walker.step());
    assert!(notifier.heard().is_empty());
    walker.begin(&start_dir());
    assert_eq!(notifier.heard(), vec![entered("/home/user")]);
    assert!(walker.step());
    assert_eq!(notifier.heard(), vec![entered("/home/user"), entered("/home/user/projectA")]);
    assert!(walker.step());
    assert_eq!(notifier.heard().len(), 2);
    assert!(walker.step());
    assert_eq!(
        notifier.heard()[2..],
        [deleted("Cargo", "/home/user/projectA/target"), entered("/home/user/projectB")]
    );
    assert!(!walker.step());
    assert_eq!(notifier.heard().last(), Some(&Heard::Finished));
    assert!(!walker.step());
    assert_eq!(notifier.heard().len(), 5);
    let (fs, _) = walker.into_parts();
    assert_eq!(fs.current_directory().unwrap().path, "/home/user");
}

#[test]
fn a_command_matcher_whose_trigger_was_claimed_before_stays_silent() {
    let fs = home(vec![dir("project", vec![file("Makefile"), file("main.c")])]);
    let heard = walk(
        fs,
        vec![removing("All", "*", "Makefile"), running("Make", "Makefile", "make clean")],
        IgnoreSet::new(),
        false,
    );
    assert_eq!(
        heard,
        vec![
            entered("/home/user"),
            entered("/home/user/project"),
            deleted("All", "/home/user/project/Makefile"),
            Heard::Finished,
        ]
    );
}

#[test]
fn a_command_is_proposed_between_what_the_matchers_around_it_propose() {
    let tree = || {
        home(vec![dir(
            "project",
            vec![file("Cargo.toml"), file("target"), file("Makefile"), file("node_modules")],
        )])
    };
    let with = walk(
        tree(),
        vec![
            removing("Cargo", "Cargo.toml", "target"),
            running("Make", "Makefile", "make clean"),
            removing("NodeJS", "*", "node_modules"),
        ],
        IgnoreSet::new(),
        false,
    );
    let without = walk(
        tree(),
        vec![removing("Cargo", "Cargo.toml", "target"), removing("NodeJS", "*", "node_modules")],
        IgnoreSet::new(),
        false,
    );
    let command = Heard::Run(
        "Make".to_string(),
        "/home/user/project".to_string(),
        "make clean".to_string(),
    );
    assert_eq!(with.iter().filter(|h| **h == command).count(), 1);
    assert_eq!(with[3], command);
    let mut rest = with.clone();
    rest.remove(3);
    assert_eq!(rest, without);
}

#[test]
fn the_finishing_note_comes_once_and_last() {
    let cases = vec![
        walk(setup_mock_fs(), Vec::new(), IgnoreSet::new(), false),
        walk(setup_mock_fs(), standard_matchers(), IgnoreSet::new(), true),
        walk(setup_mock_fs(), standard_matchers(), ignoring(&["/home/user"]), false),
        walk(home(Vec::new()), standard_matchers(), IgnoreSet::new(), false),
    ];
    for heard in cases {
        assert_eq!(heard.last(), Some(&Heard::Finished));
        assert_eq!(heard.iter().filter(|h| **h == Heard::Finished).count(), 1);
    }
}

#[test]
fn nothing_below_an_ignored_path_is_touched_but_its_neighbours_are() {
    let fs = Flaky::new(home(vec![
        dir("projectA", vec![file("Cargo.toml"), dir("target", vec![file("x")])]),
        dir("projectAB", vec![file("Cargo.toml"), dir("target", vec![file("x")])]),
    ]));
    let notifier = VecWalkNotifier::default();
    let mut walker = Walker::new(
        &fs,
        vec![removing("Cargo", "Cargo.toml", "target")],
        &notifier,
        ignoring(&["/home/user/projectA"]),
        false,
    );
    assert!(walker.walk_from_path(&start_dir()));
    assert_eq!(
        notifier.heard(),
        vec![
            entered("/home/user"),
            entered("/home/user/projectAB"),
            deleted("Cargo", "/home/user/projectAB/target"),
            Heard::Finished,
        ]
    );
    assert_eq!(fs.listed.into_inner(), vec!["/home/user", "/home/user/projectAB"]);
}
