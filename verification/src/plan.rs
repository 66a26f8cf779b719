//! What the matchers make of the entries of one directory: which candidates
//! they propose, and which entries are left to walk into.

use std::collections::VecDeque;
use vstd::prelude::*;
use crate::ignore::IgnoreSet;
use crate::matcher::{
    any_name_matches, claimed, lemma_filter_step, matcher_views, unclaimed, CleanStrategy,
    CleanStrategyView, Matcher, MatcherView,
};
use crate::models::{
    candidate_views, views_of, FileInfo, FileInfoView, RemovalCandidate, RemovalCandidateView,
    SimpleFileKind,
};

verus! {

/// The predicate "the entry's path is not in `ignores`".
pub open spec fn not_ignored(ignores: Set<Seq<char>>) -> spec_fn(FileInfoView) -> bool {
    |e: FileInfoView| !ignores.contains(e.path)
}

/// The function that turns an entry into the candidate for deleting it, with
/// no size known yet.
pub open spec fn delete_unsized(matcher_name: Seq<char>) -> spec_fn(FileInfoView) ->
    RemovalCandidateView {
    |e: FileInfoView| RemovalCandidateView::delete(matcher_name, e, None)
}

/// Whether a name marks a hidden entry: whether it starts with a dot.
pub open spec fn is_hidden(name: Seq<char>) -> bool {
    name.len() > 0 && name[0] == '.'
}

/// Whether a scan walks into an entry: it must be a directory, and a hidden
/// one only where `walk_all` is set.
pub open spec fn is_walkable_entry(walk_all: bool, entry: FileInfoView) -> bool {
    entry.kind == SimpleFileKind::Directory && (walk_all || !is_hidden(entry.name))
}

/// [`is_walkable_entry`] as a predicate on entries.
pub open spec fn walkable(walk_all: bool) -> spec_fn(FileInfoView) -> bool {
    |e: FileInfoView| is_walkable_entry(walk_all, e)
}

/// The outcome of applying matchers to the entries of a directory.
pub struct Pass {
    /// The candidates that were proposed, in order; sizes are not known yet.
    pub candidates: Seq<RemovalCandidateView>,
    /// The entries that no matcher has claimed, in their order.
    pub remaining: Seq<FileInfoView>,
}

/// What one matcher makes of the entries of `dir`.
///
/// A matcher fires where the name of some entry matches its trigger. One
/// that removes claims every entry whose name matches its removal pattern
/// and proposes those of them that are not ignored; one that runs a command
/// proposes the directory itself and claims nothing. A matcher that does not
/// fire changes nothing.
pub open spec fn matcher_pass(
    ignores: Set<Seq<char>>,
    dir: FileInfoView,
    matcher: MatcherView,
    entries: Seq<FileInfoView>,
) -> Pass {
    if any_name_matches(matcher.trigger, entries) {
        match matcher.strategy {
            CleanStrategyView::Remove(pattern) => Pass {
                candidates: claimed(pattern, entries).filter(not_ignored(ignores)).map_values(
                    delete_unsized(matcher.name),
                ),
                remaining: unclaimed(pattern, entries),
            },
            CleanStrategyView::RunCommand(command) => Pass {
                candidates: seq![RemovalCandidateView::run_command(matcher.name, dir, command)],
                remaining: entries,
            },
        }
    } else {
        Pass { candidates: Seq::empty(), remaining: entries }
    }
}

/// What the matchers make of the entries of `dir`, one after the other: each
/// sees what those before it have left.
pub open spec fn matchers_pass(
    ignores: Set<Seq<char>>,
    dir: FileInfoView,
    matchers: Seq<MatcherView>,
    entries: Seq<FileInfoView>,
) -> Pass
    decreases matchers.len(),
{
    if matchers.len() == 0 {
        Pass { candidates: Seq::empty(), remaining: entries }
    } else {
        let earlier = matchers_pass(ignores, dir, matchers.drop_last(), entries);
        let last = matcher_pass(ignores, dir, matchers.last(), earlier.remaining);
        Pass { candidates: earlier.candidates + last.candidates, remaining: last.remaining }
    }
}

/// The entries of `dir` that a scan walks into, in their order: those that
/// the matchers have left and that are walkable.
pub open spec fn children_to_walk(
    ignores: Set<Seq<char>>,
    walk_all: bool,
    dir: FileInfoView,
    matchers: Seq<MatcherView>,
    entries: Seq<FileInfoView>,
) -> Seq<FileInfoView> {
    matchers_pass(ignores, dir, matchers, entries).remaining.filter(walkable(walk_all))
}

/// What the matchers leave is among the entries that they were given.
pub proof fn lemma_remaining_is_listed(
    ignores: Set<Seq<char>>,
    dir: FileInfoView,
    matchers: Seq<MatcherView>,
    entries: Seq<FileInfoView>,
    entry: FileInfoView,
)
    requires
        matchers_pass(ignores, dir, matchers, entries).remaining.contains(entry),
    ensures
        entries.contains(entry),
    decreases matchers.len(),
{
    if matchers.len() > 0 {
        let earlier = matchers_pass(ignores, dir, matchers.drop_last(), entries);
        if any_name_matches(matchers.last().trigger, earlier.remaining) {
            match matchers.last().strategy {
                CleanStrategyView::Remove(pattern) => {
                    earlier.remaining.lemma_filter_contains_rev(
                        crate::matcher::name_differs(pattern),
                        entry,
                    );
                },
                CleanStrategyView::RunCommand(_) => {},
            }
        }
        lemma_remaining_is_listed(ignores, dir, matchers.drop_last(), entries, entry);
    }
}

/// What a scan walks into is among the entries that were listed.
pub proof fn lemma_children_are_listed(
    ignores: Set<Seq<char>>,
    walk_all: bool,
    dir: FileInfoView,
    matchers: Seq<MatcherView>,
    entries: Seq<FileInfoView>,
    entry: FileInfoView,
)
    requires
        children_to_walk(ignores, walk_all, dir, matchers, entries).contains(entry),
    ensures
        entries.contains(entry),
        matchers_pass(ignores, dir, matchers, entries).remaining.contains(entry),
        is_walkable_entry(walk_all, entry),
{
    let left = matchers_pass(ignores, dir, matchers, entries).remaining;
    left.lemma_filter_contains_rev(walkable(walk_all), entry);
    lemma_remaining_is_listed(ignores, dir, matchers, entries, entry);
    let kept = left.filter(walkable(walk_all));
    let i = choose|i: int| 0 <= i < kept.len() && kept[i] == entry;
    left.lemma_filter_pred(walkable(walk_all), i);
}

/// The views of a queue of candidates, in the same order.
pub open spec fn queue_views(queue: VecDeque<RemovalCandidate>) -> Seq<RemovalCandidateView> {
    candidate_views(queue@)
}

/// Whether a scan walks into `file`.
pub fn is_walkable(walk_all: bool, file: &FileInfo) -> (walk: bool)
    ensures
        walk == is_walkable_entry(walk_all, file@),
{
    match file.kind {
        SimpleFileKind::Directory => {
            if walk_all {
                true
            } else {
                let name = file.name.as_str();
                name.is_empty() || name.get_char(0) != '.'
            }
        },
        SimpleFileKind::File => false,
    }
}

/// Proposes the deletion of each entry of `to_remove` that is not ignored,
/// in order, at the end of `plan`.
pub fn plan_removals(
    ignores: &IgnoreSet,
    matcher: &Matcher,
    to_remove: Vec<FileInfo>,
    plan: &mut VecDeque<RemovalCandidate>,
)
    ensures
        queue_views(*final(plan)) == queue_views(*old(plan)) + views_of(to_remove@).filter(
            not_ignored(ignores@),
        ).map_values(delete_unsized(matcher@.name)),
{
    let ghost all = views_of(to_remove@);
    let ghost keep = not_ignored(ignores@);
    let ghost make = delete_unsized(matcher@.name);
    let ghost before = queue_views(*plan);
    proof {
        reveal(Seq::filter);
        assert(all.take(0) =~= Seq::<FileInfoView>::empty());
        assert(queue_views(*plan) =~= before + all.take(0).filter(keep).map_values(make));
    }
    let mut i: usize = 0;
    while i < to_remove.len()
        invariant
            i <= to_remove.len(),
            all == views_of(to_remove@),
            keep == not_ignored(ignores@),
            make == delete_unsized(matcher@.name),
            queue_views(*plan) == before + all.take(i as int).filter(keep).map_values(make),
        decreases to_remove.len() - i,
    {
        let file = to_remove[i].clone();
        proof {
            lemma_filter_step(all.take(i as int + 1), keep);
            assert(all.take(i as int + 1).drop_last() =~= all.take(i as int));
        }
        if !ignores.contains(file.path.as_str()) {
            let ghost queued = queue_views(*plan);
            let candidate = RemovalCandidate::new(matcher.name.clone(), file, None);
            plan.push_back(candidate);
            assert(queue_views(*plan) =~= queued.push(make(all[i as int])));
            assert(queue_views(*plan) =~= before + all.take(i as int + 1).filter(keep).map_values(
                make,
            ));
        }
        i += 1;
    }
    proof {
        assert(all.take(i as int) =~= all);
    }
}

/// Applies one matcher to the entries of `work_dir`: adds what it proposes
/// at the end of `plan`, and hands back the entries that it leaves.
pub fn process_matcher(
    ignores: &IgnoreSet,
    work_dir: &FileInfo,
    matcher: &Matcher,
    entries: Vec<FileInfo>,
    plan: &mut VecDeque<RemovalCandidate>,
) -> (remaining: Vec<FileInfo>)
    ensures
        queue_views(*final(plan)) == queue_views(*old(plan)) + matcher_pass(
            ignores@,
            work_dir@,
            matcher@,
            views_of(entries@),
        ).candidates,
        views_of(remaining@) == matcher_pass(
            ignores@,
            work_dir@,
            matcher@,
            views_of(entries@),
        ).remaining,
{
    if matcher.any_entry_match(entries.as_slice()) {
        match &matcher.clean_strategy {
            CleanStrategy::Remove(pattern) => {
                let (to_remove, remaining) = pattern.find_files_to_remove(entries);
                plan_removals(ignores, matcher, to_remove, plan);
                remaining
            },
            CleanStrategy::RunCommand(command) => {
                let ghost queued = queue_views(*plan);
                let candidate = RemovalCandidate::new_cmd(
                    matcher.name.clone(),
                    work_dir.clone(),
                    command.clone(),
                );
                plan.push_back(candidate);
                assert(queue_views(*plan) =~= queued + seq![
                    RemovalCandidateView::run_command(matcher@.name, work_dir@, command@),
                ]);
                entries
            },
        }
    } else {
        assert(queue_views(*plan) =~= queue_views(*plan) + Seq::<RemovalCandidateView>::empty());
        entries
    }
}

/// Applies every matcher, in order, to the entries of `dir`, and keeps of
/// what they leave the entries to walk into.
pub fn process_entries(
    matchers: &Vec<Matcher>,
    ignores: &IgnoreSet,
    walk_all: bool,
    dir: &FileInfo,
    entries: Vec<FileInfo>,
) -> (outcome: (VecDeque<RemovalCandidate>, Vec<FileInfo>))
    ensures
        queue_views(outcome.0) == matchers_pass(
            ignores@,
            dir@,
            matcher_views(matchers@),
            views_of(entries@),
        ).candidates,
        views_of(outcome.1@) == children_to_walk(
            ignores@,
            walk_all,
            dir@,
            matcher_views(matchers@),
            views_of(entries@),
        ),
{
    let ghost all = matcher_views(matchers@);
    let ghost listed = views_of(entries@);
    let mut plan: VecDeque<RemovalCandidate> = VecDeque::new();
    let mut entries = entries;
    let mut k: usize = 0;
    proof {
        assert(all.take(0) =~= Seq::<MatcherView>::empty());
        assert(queue_views(plan) =~= Seq::<RemovalCandidateView>::empty());
    }
    while k < matchers.len()
        invariant
            k <= matchers.len(),
            all == matcher_views(matchers@),
            queue_views(plan) == matchers_pass(
                ignores@,
                dir@,
                all.take(k as int),
                listed,
            ).candidates,
            views_of(entries@) == matchers_pass(
                ignores@,
                dir@,
                all.take(k as int),
                listed,
            ).remaining,
        decreases matchers.len() - k,
    {
        proof {
            assert(all.take(k as int + 1).drop_last() =~= all.take(k as int));
            assert(all.take(k as int + 1).last() == matchers@[k as int]@);
        }
        entries = process_matcher(ignores, dir, &matchers[k], entries, &mut plan);
        k += 1;
    }
    proof {
        assert(all.take(k as int) =~= all);
    }
    let ghost left = views_of(entries@);
    let ghost walk = walkable(walk_all);
    let mut children: Vec<FileInfo> = Vec::new();
    let mut i: usize = 0;
    proof {
        reveal(Seq::filter);
        assert(left.take(0) =~= Seq::<FileInfoView>::empty());
        assert(views_of(children@) =~= left.take(0).filter(walk));
    }
    while i < entries.len()
        invariant
            i <= entries.len(),
            left == views_of(entries@),
            walk == walkable(walk_all),
            views_of(children@) == left.take(i as int).filter(walk),
        decreases entries.len() - i,
    {
        proof {
            lemma_filter_step(left.take(i as int + 1), walk);
            assert(left.take(i as int + 1).drop_last() =~= left.take(i as int));
        }
        if is_walkable(walk_all, &entries[i]) {
            let ghost kept = views_of(children@);
            children.push(entries[i].clone());
            assert(views_of(children@) =~= kept.push(left[i as int]));
        }
        i += 1;
    }
    proof {
        assert(left.take(i as int) =~= left);
    }
    (plan, children)
}

} // verus!
