use ocy_core::matcher::{CleanStrategy, Matcher};
use ocy_core::matchers::standard_matchers;
use ocy_core::models::{FileInfo, SimpleFileKind};
use ocy_core::pattern::GlobPattern;

fn entry(name: &str) -> FileInfo {
    FileInfo::new(format!("/dir/{}", name), name.to_string(), SimpleFileKind::File)
}

fn names(entries: &[FileInfo]) -> Vec<&str> {
    entries.iter().map(|e| e.name.as_str()).collect()
}

fn pattern(text: &str) -> GlobPattern {
    GlobPattern::new(text).unwrap()
}

#[test]
fn a_plain_pattern_matches_the_same_name_only() {
    let p = pattern("Cargo.toml");
    assert!(p.matches("Cargo.toml"));
    assert!(!p.matches("Cargo.toml.bak"));
    assert!(!p.matches("cargo.toml"));
    assert!(!p.matches("target"));
    assert_eq!(p.as_str(), "Cargo.toml");
}

#[test]
fn wildcards_match_as_in_a_shell() {
    assert!(pattern("*").matches("anything"));
    assert!(pattern("*").matches(""));
    assert!(pattern("*.toml").matches("Cargo.toml"));
    assert!(!pattern("*.toml").matches("Cargo.lock"));
    assert!(pattern("c?t").matches("cat"));
    assert!(!pattern("c?t").matches("cart"));
    assert!(pattern("k[!e]tteh").matches("kitteh"));
    assert!(!pattern("k[!e]tteh").matches("ketteh"));
    assert!(pattern("[0-9]x").matches("7x"));
}

#[test]
fn three_stars_are_no_pattern() {
    let error = GlobPattern::new("a***b").unwrap_err();
    assert_eq!(error.position, 3);
    assert_eq!(error.message, "wildcards are either regular `*` or recursive `**`");
}

#[test]
fn two_stars_inside_a_name_are_no_pattern() {
    let error = GlobPattern::new("a**").unwrap_err();
    assert_eq!(error.position, 0);
    assert_eq!(error.message, "recursive wildcards must form a single path component");
    let error = GlobPattern::new("**a").unwrap_err();
    assert_eq!(error.position, 2);
    assert_eq!(error.message, "recursive wildcards must form a single path component");
}

#[test]
fn an_open_bracket_is_no_pattern() {
    let error = GlobPattern::new("abc[def").unwrap_err();
    assert_eq!(error.position, 3);
    assert_eq!(error.message, "invalid range pattern");
}

#[test]
fn a_clone_matches_as_the_pattern_does() {
    let p = pattern("*.rs");
    let q = p.clone();
    assert_eq!(q.as_str(), "*.rs");
    assert!(q.matches("main.rs"));
    assert!(!q.matches("main.c"));
}

#[test]
fn a_matcher_fires_where_some_name_matches_the_trigger() {
    let matcher =
        Matcher::new("Cargo".to_string(), pattern("Cargo.toml"), pattern("target"));
    assert!(matcher.any_entry_match(&[entry("src"), entry("Cargo.toml")]));
    assert!(!matcher.any_entry_match(&[entry("src"), entry("target")]));
    assert!(!matcher.any_entry_match(&[]));
}

#[test]
fn the_trigger_and_the_removal_pattern_are_independent() {
    let matcher = Matcher::new("Any".to_string(), pattern("*"), pattern("node_modules"));
    assert_eq!(matcher.name, "Any");
    assert_eq!(matcher.to_match.as_str(), "*");
    assert!(matcher.any_entry_match(&[entry("whatever")]));
    match &matcher.clean_strategy {
        CleanStrategy::Remove(to_remove) => {
            let (claimed, left) = to_remove.find_files_to_remove(vec![
                entry("whatever"),
                entry("node_modules"),
            ]);
            assert_eq!(names(&claimed), vec!["node_modules"]);
            assert_eq!(names(&left), vec!["whatever"]);
        }
        CleanStrategy::RunCommand(_) => panic!("should remove"),
    }
}

#[test]
fn splitting_puts_every_entry_in_exactly_one_group_and_keeps_the_order() {
    let matcher = Matcher::with_remove_strategy("T".to_string(), pattern("*"), pattern("t*"));
    let entries = vec![
        entry("target"),
        entry("src"),
        entry("tmp"),
        entry("Cargo.toml"),
        entry("target"),
        entry("tests"),
    ];
    let CleanStrategy::Remove(to_remove) = &matcher.clean_strategy else { panic!("should remove") };
    let (claimed, left) = to_remove.find_files_to_remove(entries);
    assert_eq!(names(&claimed), vec!["target", "tmp", "target", "tests"]);
    assert_eq!(names(&left), vec!["src", "Cargo.toml"]);
    assert_eq!(claimed.len() + left.len(), 6);
    assert!(claimed.iter().all(|e| e.name.starts_with('t')));
    assert!(left.iter().all(|e| !e.name.starts_with('t')));
    assert_eq!(claimed[0].path, "/dir/target");
    assert_eq!(claimed[0].kind, SimpleFileKind::File);
}

#[test]
fn splitting_nothing_gives_two_empty_groups() {
    let matcher = Matcher::with_remove_strategy("T".to_string(), pattern("*"), pattern("t*"));
    let CleanStrategy::Remove(to_remove) = &matcher.clean_strategy else { panic!("should remove") };
    let (claimed, left) = to_remove.find_files_to_remove(Vec::new());
    assert!(claimed.is_empty());
    assert!(left.is_empty());
}

#[test]
fn a_command_matcher_keeps_its_command() {
    let matcher = Matcher::with_command_strategy(
        "Make".to_string(),
        pattern("Makefile"),
        "make clean".to_string(),
    );
    assert_eq!(matcher.name, "Make");
    assert!(matcher.any_entry_match(&[entry("Makefile")]));
    match &matcher.clean_strategy {
        CleanStrategy::RunCommand(command) => assert_eq!(command, "make clean"),
        CleanStrategy::Remove(_) => panic!("should run a command"),
    }
}

#[test]
fn the_standard_matchers_are_the_nine_known_ones() {
    let found: Vec<(String, String, String)> = standard_matchers()
        .into_iter()
        .map(|m| {
            let what = match &m.clean_strategy {
                CleanStrategy::Remove(_) => "remove".to_string(),
                CleanStrategy::RunCommand(command) => format!("run {}", command),
            };
            (m.name.clone(), m.to_match.as_str().to_string(), what)
        })
        .collect();
    let expected = vec![
        ("Cargo", "Cargo.toml", "remove"),
        ("Gradle", "build.gradle", "remove"),
        ("GradleKTS", "build.gradle.kts", "remove"),
        ("Maven", "pom.xml", "remove"),
        ("NodeJS", "*", "remove"),
        ("XCode", "*", "remove"),
        ("SBT", "build.sbt", "remove"),
        ("SBT", "plugins.sbt", "remove"),
        ("Make", "Makefile", "run make clean"),
    ];
    assert_eq!(found.len(), 9);
    for (f, e) in found.iter().zip(expected.iter()) {
        assert_eq!((f.0.as_str(), f.1.as_str(), f.2.as_str()), *e);
    }
}

#[test]
fn the_standard_removal_patterns_pick_the_known_directories() {
    let all = vec!["target", "build", "node_modules", "DerivedData", "src"];
    let expected = vec![
        vec!["target"],
        vec!["build"],
        vec!["build"],
        vec!["target"],
        vec!["node_modules"],
        vec!["DerivedData"],
        vec!["target"],
        vec!["target"],
    ];
    let matchers = standard_matchers();
    for (matcher, want) in matchers.iter().zip(expected.iter()) {
        let CleanStrategy::Remove(to_remove) = &matcher.clean_strategy else {
            panic!("should remove")
        };
        let (claimed, left) =
            to_remove.find_files_to_remove(all.iter().map(|n| entry(n)).collect());
        assert_eq!(&names(&claimed), want);
        assert_eq!(left.len(), 4);
    }
}
