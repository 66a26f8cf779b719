//! The matchers for the build tools that the library knows.

use vstd::prelude::*;
use vstd::string::StringExecFns;
use crate::matcher::{matcher_views, CleanStrategyView, Matcher, MatcherView};
use crate::pattern::{is_simple_pattern, GlobPattern};

verus! {

/// The matcher that removes what `to_remove` picks where `to_match` finds
/// something.
pub open spec fn removing(
    name: Seq<char>,
    to_match: Seq<char>,
    to_remove: Seq<char>,
) -> MatcherView {
    MatcherView { name, trigger: to_match, strategy: CleanStrategyView::Remove(to_remove) }
}

/// The matcher that runs `command` where `to_match` finds something.
pub open spec fn running(name: Seq<char>, to_match: Seq<char>, command: Seq<char>) -> MatcherView {
    MatcherView { name, trigger: to_match, strategy: CleanStrategyView::RunCommand(command) }
}

/// The matchers of [`standard_matchers`], in their order.
pub open spec fn standard_rules() -> Seq<MatcherView> {
    seq![
        removing("Cargo"@, "Cargo.toml"@, "target"@),
        removing("Gradle"@, "build.gradle"@, "build"@),
        removing("GradleKTS"@, "build.gradle.kts"@, "build"@),
        removing("Maven"@, "pom.xml"@, "target"@),
        removing("NodeJS"@, "*"@, "node_modules"@),
        removing("XCode"@, "*"@, "DerivedData"@),
        removing("SBT"@, "build.sbt"@, "target"@),
        removing("SBT"@, "plugins.sbt"@, "target"@),
        running("Make"@, "Makefile"@, "make clean"@),
    ]
}

/// A pattern that is known to be simple, and so to compile.
fn simple(text: &str) -> (pattern: GlobPattern)
    requires
        is_simple_pattern(text@),
    ensures
        pattern@ == text@,
{
    GlobPattern::new(text).unwrap()
}

fn matcher(name: &str, to_match: &str, to_remove: &str) -> (matcher: Matcher)
    requires
        is_simple_pattern(to_match@),
        is_simple_pattern(to_remove@),
    ensures
        matcher@ == removing(name@, to_match@, to_remove@),
{
    Matcher::with_remove_strategy(String::from_str(name), simple(to_match), simple(to_remove))
}

fn matcher_cmd(name: &str, to_match: &str, command: &str) -> (matcher: Matcher)
    requires
        is_simple_pattern(to_match@),
    ensures
        matcher@ == running(name@, to_match@, command@),
{
    Matcher::with_command_strategy(
        String::from_str(name),
        simple(to_match),
        String::from_str(command),
    )
}

/// The matchers for Cargo, Gradle, Maven, NodeJS, XCode, SBT and Make.
pub fn standard_matchers() -> (matchers: Vec<Matcher>)
    ensures
        matcher_views(matchers@) == standard_rules(),
{
    proof {
        reveal_strlit("Cargo.toml");
        reveal_strlit("target");
        reveal_strlit("build.gradle");
        reveal_strlit("build");
        reveal_strlit("build.gradle.kts");
        reveal_strlit("pom.xml");
        reveal_strlit("*");
        reveal_strlit("node_modules");
        reveal_strlit("DerivedData");
        reveal_strlit("build.sbt");
        reveal_strlit("plugins.sbt");
        reveal_strlit("Makefile");
    }
    let mut matchers: Vec<Matcher> = Vec::new();
    matchers.push(matcher("Cargo", "Cargo.toml", "target"));
    matchers.push(matcher("Gradle", "build.gradle", "build"));
    matchers.push(matcher("GradleKTS", "build.gradle.kts", "build"));
    matchers.push(matcher("Maven", "pom.xml", "target"));
    matchers.push(matcher("NodeJS", "*", "node_modules"));
    matchers.push(matcher("XCode", "*", "DerivedData"));
    matchers.push(matcher("SBT", "build.sbt", "target"));
    matchers.push(matcher("SBT", "plugins.sbt", "target"));
    matchers.push(matcher_cmd("Make", "Makefile", "make clean"));
    assert(matcher_views(matchers@) =~= standard_rules());
    matchers
}

} // verus!
