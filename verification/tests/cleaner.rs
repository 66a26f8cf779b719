use ocy_core::cleaner::{clean_candidate, report, CleanNote, CleanRun, Cleaner, CleanerNotifier};
use ocy_core::command::{CommandExecutor, MockCommandExecutor};
use ocy_core::filesystem::{FileSystemClean, MockFileSystemClean};
use ocy_core::models::{Failure, FileInfo, RemovalAction, RemovalCandidate, SimpleFileKind};

#[derive(Debug, PartialEq)]
enum Heard {
    Started(String),
    Succeeded(String),
    Failed(String, String),
    Finished,
}

fn subject(candidate: &RemovalCandidate) -> String {
    match &candidate.action {
        RemovalAction::Delete { file_info, .. } => file_info.path.clone(),
        RemovalAction::RunCommand { work_dir, command } => {
            format!("{} in {}", command, work_dir.path)
        }
    }
}

use std::cell::RefCell;

#[derive(Default)]
struct Recorder {
    heard: RefCell<Vec<Heard>>,
}

impl CleanerNotifier for &Recorder {
    fn notify_removal_started(&self, candidate: &RemovalCandidate) {
        self.heard.borrow_mut().push(Heard::Started(subject(candidate)));
    }

    fn notify_removal_success(&self, candidate: RemovalCandidate) {
        self.heard.borrow_mut().push(Heard::Succeeded(subject(&candidate)));
    }

    fn notify_removal_failed(&self, candidate: RemovalCandidate, report: Failure) {
        self.heard.borrow_mut().push(Heard::Failed(subject(&candidate), report.message));
    }

    fn notify_removal_finish(&self) {
        self.heard.borrow_mut().push(Heard::Finished);
    }
}

/// Refuses to delete one path, and deletes nothing else either.
struct Stubborn {
    refused: String,
    asked: RefCell<Vec<String>>,
}

impl FileSystemClean for &Stubborn {
    fn remove_file(&self, file: &FileInfo) -> Result<(), Failure> {
        self.asked.borrow_mut().push(file.path.clone());
        if file.path == self.refused {
            Err(Failure::new("permission denied".to_string()))
        } else {
            Ok(())
        }
    }
}

fn dir(path: &str, name: &str) -> FileInfo {
    FileInfo::new(path.to_string(), name.to_string(), SimpleFileKind::Directory)
}

fn delete(path: &str) -> RemovalCandidate {
    RemovalCandidate::new("Cargo".to_string(), dir(path, "target"), Some(42))
}

/// Keeps what it was asked to run, and always reports success.
#[derive(Default)]
struct Shell {
    ran: RefCell<Vec<(String, String)>>,
}

impl CommandExecutor for &Shell {
    fn execute_command(&self, work_dir: &FileInfo, command: &str) -> Result<(), Failure> {
        self.ran.borrow_mut().push((work_dir.path.clone(), command.to_string()));
        Ok(())
    }
}

#[test]
fn one_failure_does_not_stop_the_run() {
    let fs = Stubborn { refused: "/b/target".to_string(), asked: RefCell::new(Vec::new()) };
    let shell = Shell::default();
    let recorder = Recorder::default();
    let candidates = vec![delete("/a/target"), delete("/b/target"), delete("/c/target")];
    Cleaner::new(candidates, &fs, &shell, &recorder).clean();
    assert_eq!(
        recorder.heard.into_inner(),
        vec![
            Heard::Started("/a/target".to_string()),
            Heard::Succeeded("/a/target".to_string()),
            Heard::Started("/b/target".to_string()),
            Heard::Failed("/b/target".to_string(), "permission denied".to_string()),
            Heard::Started("/c/target".to_string()),
            Heard::Succeeded("/c/target".to_string()),
            Heard::Finished,
        ]
    );
    assert_eq!(fs.asked.into_inner(), vec!["/a/target", "/b/target", "/c/target"]);
    assert!(shell.ran.into_inner().is_empty());
}

#[test]
fn commands_go_to_the_executor_and_deletions_to_the_file_system() {
    let fs = Stubborn { refused: String::new(), asked: RefCell::new(Vec::new()) };
    let shell = Shell::default();
    let recorder = Recorder::default();
    let candidates = vec![
        RemovalCandidate::new_cmd("Make".to_string(), dir("/p", "p"), "make clean".to_string()),
        delete("/p/target"),
    ];
    Cleaner::new(candidates, &fs, &shell, &recorder).clean();
    assert_eq!(
        recorder.heard.into_inner(),
        vec![
            Heard::Started("make clean in /p".to_string()),
            Heard::Succeeded("make clean in /p".to_string()),
            Heard::Started("/p/target".to_string()),
            Heard::Succeeded("/p/target".to_string()),
            Heard::Finished,
        ]
    );
    assert_eq!(fs.asked.into_inner(), vec!["/p/target"]);
    assert_eq!(shell.ran.into_inner(), vec![("/p".to_string(), "make clean".to_string())]);
}

#[test]
fn an_empty_run_only_finishes() {
    let recorder = Recorder::default();
    Cleaner::new(Vec::new(), MockFileSystemClean, MockCommandExecutor, &recorder).clean();
    assert_eq!(recorder.heard.into_inner(), vec![Heard::Finished]);
}

fn told(notes: &[CleanNote]) -> Vec<Heard> {
    notes
        .iter()
        .map(|note| match note {
            CleanNote::Started(c) => Heard::Started(subject(c)),
            CleanNote::Succeeded(c) => Heard::Succeeded(subject(c)),
            CleanNote::Failed(c, f) => Heard::Failed(subject(c), f.message.clone()),
            CleanNote::Finished => Heard::Finished,
        })
        .collect()
}

#[test]
fn a_run_names_one_candidate_after_the_other() {
    let mut run = CleanRun::new(vec![delete("/a/target"), delete("/b/target")]);
    assert!(run.current().is_none());
    assert_eq!(told(&run.start()), vec![Heard::Started("/a/target".to_string())]);
    assert_eq!(subject(run.current().unwrap()), "/a/target");
    assert!(run.start().is_empty());
    assert_eq!(
        told(&run.resume(Err(Failure::new("busy".to_string())))),
        vec![
            Heard::Failed("/a/target".to_string(), "busy".to_string()),
            Heard::Started("/b/target".to_string()),
        ]
    );
    assert_eq!(subject(run.current().unwrap()), "/b/target");
    assert_eq!(
        told(&run.resume(Ok(()))),
        vec![Heard::Succeeded("/b/target".to_string()), Heard::Finished]
    );
    assert!(run.current().is_none());
    assert!(run.resume(Ok(())).is_empty());
}

#[test]
fn a_run_of_nothing_is_finished_at_once() {
    let mut run = CleanRun::new(Vec::new());
    assert_eq!(told(&run.start()), vec![Heard::Finished]);
    assert!(run.current().is_none());
}

#[test]
fn one_candidate_is_one_call() {
    let fs = Stubborn { refused: "/no".to_string(), asked: RefCell::new(Vec::new()) };
    let shell = Shell::default();
    assert!(clean_candidate(&&fs, &&shell, &delete("/yes")).is_ok());
    let failure = clean_candidate(&&fs, &&shell, &delete("/no")).unwrap_err();
    assert_eq!(failure.message, "permission denied");
    let make =
        RemovalCandidate::new_cmd("Make".to_string(), dir("/p", "p"), "make clean".to_string());
    assert!(clean_candidate(&&fs, &&shell, &make).is_ok());
    assert_eq!(fs.asked.into_inner(), vec!["/yes", "/no"]);
    assert_eq!(shell.ran.into_inner(), vec![("/p".to_string(), "make clean".to_string())]);
}

#[test]
fn notes_reach_the_notifier_in_order() {
    let recorder = Recorder::default();
    report(
        &&recorder,
        vec![
            CleanNote::Succeeded(delete("/a")),
            CleanNote::Started(delete("/b")),
            CleanNote::Failed(delete("/b"), Failure::new("why".to_string())),
            CleanNote::Finished,
        ],
    );
    assert_eq!(
        recorder.heard.into_inner(),
        vec![
            Heard::Succeeded("/a".to_string()),
            Heard::Started("/b".to_string()),
            Heard::Failed("/b".to_string(), "why".to_string()),
            Heard::Finished,
        ]
    );
}

#[test]
fn a_clean_up_can_be_taken_step_by_step() {
    let fs = Stubborn { refused: "/b".to_string(), asked: RefCell::new(Vec::new()) };
    let shell = Shell::default();
    let recorder = Recorder::default();
    let mut cleaner = Cleaner::new(vec![delete("/a"), delete("/b")], &fs, &shell, &recorder);
    assert!(!cleaner.step());
    assert!(recorder.heard.borrow().is_empty());
    cleaner.begin();
    assert_eq!(*recorder.heard.borrow(), vec![Heard::Started("/a".to_string())]);
    assert!(fs.asked.borrow().is_empty());
    cleaner.begin();
    assert_eq!(recorder.heard.borrow().len(), 1);
    assert!(cleaner.step());
    assert_eq!(*fs.asked.borrow(), vec!["/a"]);
    assert_eq!(
        recorder.heard.borrow()[1..],
        [Heard::Succeeded("/a".to_string()), Heard::Started("/b".to_string())]
    );
    assert!(!cleaner.step());
    assert_eq!(
        recorder.heard.borrow()[3..],
        [Heard::Failed("/b".to_string(), "permission denied".to_string()), Heard::Finished]
    );
    assert!(!cleaner.step());
    let done = cleaner.clean();
    assert_eq!(recorder.heard.borrow().last(), Some(&Heard::Finished));
    assert_eq!(recorder.heard.borrow().len(), 6);
    drop(done);
    assert_eq!(fs.asked.into_inner(), vec!["/a", "/b"]);
}
