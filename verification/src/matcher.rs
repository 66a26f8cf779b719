//! Rules that say which directories hold something to clean up, and what.

use vstd::prelude::*;
use crate::models::{views_of, FileInfo, FileInfoView};
use crate::pattern::{glob_matches, GlobPattern};

verus! {

/// The predicate "the entry's name matches `pattern`".
pub open spec fn name_matches(pattern: Seq<char>) -> spec_fn(FileInfoView) -> bool {
    |e: FileInfoView| glob_matches(pattern, e.name)
}

/// The predicate "the entry's name does not match `pattern`".
pub open spec fn name_differs(pattern: Seq<char>) -> spec_fn(FileInfoView) -> bool {
    |e: FileInfoView| !glob_matches(pattern, e.name)
}

/// Whether the name of at least one entry matches `pattern`.
pub open spec fn any_name_matches(pattern: Seq<char>, entries: Seq<FileInfoView>) -> bool {
    exists|i: int| 0 <= i < entries.len() && glob_matches(pattern, (#[trigger] entries[i]).name)
}

/// The entries whose names match `pattern`, in their order.
pub open spec fn claimed(pattern: Seq<char>, entries: Seq<FileInfoView>) -> Seq<FileInfoView> {
    entries.filter(name_matches(pattern))
}

/// The entries whose names do not match `pattern`, in their order.
pub open spec fn unclaimed(pattern: Seq<char>, entries: Seq<FileInfoView>) -> Seq<FileInfoView> {
    entries.filter(name_differs(pattern))
}

/// The pattern that picks, among the entries of one directory, those to
/// delete.
#[derive(Debug)]
pub struct RemovalPattern(GlobPattern);

impl View for RemovalPattern {
    type V = Seq<char>;

    closed spec fn view(&self) -> Seq<char> {
        self.0@
    }
}

/// What a matcher asks for in a directory where it fires.
#[derive(Debug)]
pub enum CleanStrategy {
    /// Delete the entries of the directory that the pattern picks.
    Remove(RemovalPattern),
    /// Run the command in the directory itself.
    RunCommand(String),
}

/// A [`CleanStrategy`] as a mathematical value.
pub enum CleanStrategyView {
    Remove(Seq<char>),
    RunCommand(Seq<char>),
}

impl View for CleanStrategy {
    type V = CleanStrategyView;

    open spec fn view(&self) -> CleanStrategyView {
        match *self {
            CleanStrategy::Remove(pattern) => CleanStrategyView::Remove(pattern@),
            CleanStrategy::RunCommand(command) => CleanStrategyView::RunCommand(command@),
        }
    }
}

/// A rule: in a directory that holds an entry whose name matches `to_match`,
/// do what `clean_strategy` says.
#[derive(Debug)]
pub struct Matcher {
    pub name: String,
    pub to_match: GlobPattern,
    pub clean_strategy: CleanStrategy,
}

/// A [`Matcher`] as a mathematical value.
pub struct MatcherView {
    pub name: Seq<char>,
    pub trigger: Seq<char>,
    pub strategy: CleanStrategyView,
}

impl View for Matcher {
    type V = MatcherView;

    open spec fn view(&self) -> MatcherView {
        MatcherView { name: self.name@, trigger: self.to_match@, strategy: self.clean_strategy@ }
    }
}

/// The views of a sequence of matchers, in the same order.
pub open spec fn matcher_views(matchers: Seq<Matcher>) -> Seq<MatcherView> {
    matchers.map_values(|m: Matcher| m@)
}

impl Matcher {
    /// A matcher that deletes what `to_remove` picks.
    pub fn with_remove_strategy(
        name: String,
        to_match: GlobPattern,
        to_remove: GlobPattern,
    ) -> (matcher: Self)
        ensures
            matcher@ == (MatcherView {
                name: name@,
                trigger: to_match@,
                strategy: CleanStrategyView::Remove(to_remove@),
            }),
    {
        let clean_strategy = CleanStrategy::Remove(RemovalPattern(to_remove));
        Self { name, to_match, clean_strategy }
    }

    /// A matcher that runs `command`.
    pub fn with_command_strategy(
        name: String,
        to_match: GlobPattern,
        command: String,
    ) -> (matcher: Self)
        ensures
            matcher@ == (MatcherView {
                name: name@,
                trigger: to_match@,
                strategy: CleanStrategyView::RunCommand(command@),
            }),
    {
        let clean_strategy = CleanStrategy::RunCommand(command);
        Self { name, to_match, clean_strategy }
    }

    /// A matcher that deletes what `to_remove` picks.
    pub fn new(name: String, to_match: GlobPattern, to_remove: GlobPattern) -> (matcher: Self)
        ensures
            matcher@ == (MatcherView {
                name: name@,
                trigger: to_match@,
                strategy: CleanStrategyView::Remove(to_remove@),
            }),
    {
        Self::with_remove_strategy(name, to_match, to_remove)
    }

    /// Whether the matcher fires for a directory with these entries: whether
    /// the name of at least one of them matches the trigger.
    pub fn any_entry_match(&self, entries: &[FileInfo]) -> (fires: bool)
        ensures
            fires == any_name_matches(self@.trigger, views_of(entries@)),
    {
        let mut i: usize = 0;
        while i < entries.len()
            invariant
                i <= entries.len(),
                forall|j: int| 0 <= j < i ==> !glob_matches(self@.trigger, entries@[j]@.name),
            decreases entries.len() - i,
        {
            if self.to_match.matches(entries[i].name.as_str()) {
                assert(glob_matches(self@.trigger, views_of(entries@)[i as int].name));
                return true;
            }
            i += 1;
        }
        false
    }
}

impl RemovalPattern {
    /// Splits the entries of a directory in two: those whose names match the
    /// pattern, and the others. Each group keeps the order of the entries.
    pub fn find_files_to_remove(&self, entries: Vec<FileInfo>) -> (groups: (
        Vec<FileInfo>,
        Vec<FileInfo>,
    ))
        ensures
            views_of(groups.0@) == claimed(self@, views_of(entries@)),
            views_of(groups.1@) == unclaimed(self@, views_of(entries@)),
    {
        let ghost all = views_of(entries@);
        let mut to_remove: Vec<FileInfo> = Vec::new();
        let mut remaining: Vec<FileInfo> = Vec::new();
        let mut i: usize = 0;
        proof {
            reveal(Seq::filter);
            assert(all.take(0) =~= Seq::<FileInfoView>::empty());
        }
        while i < entries.len()
            invariant
                i <= entries.len(),
                all == views_of(entries@),
                views_of(to_remove@) =~= claimed(self@, all.take(i as int)),
                views_of(remaining@) =~= unclaimed(self@, all.take(i as int)),
            decreases entries.len() - i,
        {
            let entry = entries[i].clone();
            proof {
                lemma_filter_step(all.take(i as int + 1), name_matches(self@));
                lemma_filter_step(all.take(i as int + 1), name_differs(self@));
                assert(all.take(i as int + 1).drop_last() =~= all.take(i as int));
            }
            if self.0.matches(entry.name.as_str()) {
                to_remove.push(entry);
            } else {
                remaining.push(entry);
            }
            i += 1;
        }
        proof {
            assert(all.take(i as int) =~= all);
        }
        (to_remove, remaining)
    }
}

/// What filtering does to the last element of a sequence.
pub proof fn lemma_filter_step<A>(s: Seq<A>, pred: spec_fn(A) -> bool)
    requires
        s.len() > 0,
    ensures
        s.filter(pred) == if pred(s.last()) {
            s.drop_last().filter(pred).push(s.last())
        } else {
            s.drop_last().filter(pred)
        },
{
    reveal(Seq::filter);
}

} // verus!
