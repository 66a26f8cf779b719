//! What holds of every scan, whatever the tree, the matchers and the paths
//! to ignore.

use vstd::prelude::*;
use crate::cleaner::{clean_events, CleanRunView};
use crate::matcher::{
    any_name_matches, claimed, lemma_filter_step, name_differs, name_matches, unclaimed,
    CleanStrategyView, MatcherView,
};
use crate::models::{FileInfoView, RemovalActionView, RemovalCandidateView, SimpleFileKind};
use crate::pattern::glob_matches;
use crate::plan::{
    children_to_walk, delete_unsized, is_hidden, is_walkable_entry, lemma_children_are_listed,
    lemma_remaining_is_listed, matcher_pass, matchers_pass, not_ignored, walkable,
};
use crate::scan::{settle, PhaseView, ScanView, WalkAnswerView, WalkEvent, WalkRequestView};
use crate::text::path_parts;
use crate::tree::{
    lemma_walk_children_is_walk_each, proposal, proposals, walk_dir, walk_each, walk_events,
    walk_listed, Tree, WalkConfig,
};

verus! {

/// Splitting the entries of a directory by a removal pattern is exhaustive
/// and disjoint: every entry lands in exactly one of the two groups, so that
/// the sizes of the groups add up to the number of entries; every entry of
/// the first group matches the pattern, and none of the second does.
pub proof fn lemma_partition(pattern: Seq<char>, entries: Seq<FileInfoView>)
    ensures
        claimed(pattern, entries).len() + unclaimed(pattern, entries).len() == entries.len(),
        claimed(pattern, entries).to_multiset().add(unclaimed(pattern, entries).to_multiset())
            == entries.to_multiset(),
        forall|i: int|
            0 <= i < claimed(pattern, entries).len() ==> glob_matches(
                pattern,
                (#[trigger] claimed(pattern, entries)[i]).name,
            ),
        forall|i: int|
            0 <= i < unclaimed(pattern, entries).len() ==> !glob_matches(
                pattern,
                (#[trigger] unclaimed(pattern, entries)[i]).name,
            ),
    decreases entries.len(),
{
    broadcast use vstd::seq_lib::group_to_multiset_ensures;

    let taken = claimed(pattern, entries);
    let left = unclaimed(pattern, entries);
    assert forall|i: int| 0 <= i < taken.len() implies glob_matches(
        pattern,
        (#[trigger] taken[i]).name,
    ) by {
        entries.lemma_filter_pred(name_matches(pattern), i);
    }
    assert forall|i: int| 0 <= i < left.len() implies !glob_matches(
        pattern,
        (#[trigger] left[i]).name,
    ) by {
        entries.lemma_filter_pred(name_differs(pattern), i);
    }
    if entries.len() == 0 {
        reveal(Seq::filter);
        assert(taken.to_multiset().add(left.to_multiset()) =~= entries.to_multiset());
    } else {
        let before = entries.drop_last();
        lemma_partition(pattern, before);
        lemma_filter_step(entries, name_matches(pattern));
        lemma_filter_step(entries, name_differs(pattern));
        assert(entries =~= before.push(entries.last()));
        assert(taken.to_multiset().add(left.to_multiset()) =~= entries.to_multiset());
    }
}

/// Where the candidates that matchers propose for the entries of a directory
/// come from: one that deletes is about an entry of the directory which is
/// not ignored, and has no size yet; one that runs a command is about the
/// directory itself.
pub proof fn lemma_candidate_origin(
    ignores: Set<Seq<char>>,
    dir: FileInfoView,
    matchers: Seq<MatcherView>,
    entries: Seq<FileInfoView>,
    j: int,
)
    requires
        0 <= j < matchers_pass(ignores, dir, matchers, entries).candidates.len(),
    ensures
        match matchers_pass(ignores, dir, matchers, entries).candidates[j].action {
            RemovalActionView::Delete { file_info, file_size } => entries.contains(file_info)
                && !ignores.contains(file_info.path) && file_size is None,
            RemovalActionView::RunCommand { work_dir, .. } => work_dir == dir,
        },
    decreases matchers.len(),
{
    if matchers.len() > 0 {
        let earlier = matchers_pass(ignores, dir, matchers.drop_last(), entries);
        let last = matchers.last();
        if j < earlier.candidates.len() {
            lemma_candidate_origin(ignores, dir, matchers.drop_last(), entries, j);
        } else {
            let k = j - earlier.candidates.len();
            if any_name_matches(last.trigger, earlier.remaining) {
                match last.strategy {
                    CleanStrategyView::Remove(pattern) => {
                        let taken = claimed(pattern, earlier.remaining);
                        let kept = taken.filter(not_ignored(ignores));
                        assert(matcher_pass(ignores, dir, last, earlier.remaining).candidates[k]
                            == delete_unsized(last.name)(kept[k]));
                        taken.lemma_filter_pred(not_ignored(ignores), k);
                        assert(kept.contains(kept[k]));
                        taken.lemma_filter_contains_rev(not_ignored(ignores), kept[k]);
                        earlier.remaining.lemma_filter_contains_rev(
                            name_matches(pattern),
                            kept[k],
                        );
                        lemma_remaining_is_listed(
                            ignores,
                            dir,
                            matchers.drop_last(),
                            entries,
                            kept[k],
                        );
                    },
                    CleanStrategyView::RunCommand(_) => {},
                }
            }
        }
    }
}

/// Matchers that are applied one group after the other propose what the
/// first group proposes and then what the second proposes for what the first
/// has left.
pub proof fn lemma_pass_add(
    ignores: Set<Seq<char>>,
    dir: FileInfoView,
    first: Seq<MatcherView>,
    second: Seq<MatcherView>,
    entries: Seq<FileInfoView>,
)
    ensures
        matchers_pass(ignores, dir, first + second, entries).candidates == matchers_pass(
            ignores,
            dir,
            first,
            entries,
        ).candidates + matchers_pass(
            ignores,
            dir,
            second,
            matchers_pass(ignores, dir, first, entries).remaining,
        ).candidates,
        matchers_pass(ignores, dir, first + second, entries).remaining == matchers_pass(
            ignores,
            dir,
            second,
            matchers_pass(ignores, dir, first, entries).remaining,
        ).remaining,
    decreases second.len(),
{
    let left = matchers_pass(ignores, dir, first, entries);
    if second.len() == 0 {
        assert(first + second =~= first);
        assert(left.candidates + Seq::<RemovalCandidateView>::empty() =~= left.candidates);
    } else {
        lemma_pass_add(ignores, dir, first, second.drop_last(), entries);
        assert((first + second).drop_last() =~= first + second.drop_last());
        assert((first + second).last() == second.last());
        let earlier = matchers_pass(ignores, dir, second.drop_last(), left.remaining);
        let last = matcher_pass(ignores, dir, second.last(), earlier.remaining);
        assert(left.candidates + earlier.candidates + last.candidates =~= left.candidates + (
        earlier.candidates + last.candidates));
    }
}

/// A matcher that runs a command and finds its trigger among what the
/// matchers before it have left proposes exactly one candidate, for the
/// directory itself, and changes nothing else: the other matchers propose
/// and leave what they would without it. One that does not find its trigger
/// there changes nothing at all.
pub proof fn lemma_command_proposes_once(
    ignores: Set<Seq<char>>,
    dir: FileInfoView,
    before: Seq<MatcherView>,
    command: MatcherView,
    later: Seq<MatcherView>,
    entries: Seq<FileInfoView>,
)
    requires
        command.strategy is RunCommand,
    ensures
        ({
            let with = matchers_pass(ignores, dir, before + seq![command] + later, entries);
            let without = matchers_pass(ignores, dir, before + later, entries);
            let left = matchers_pass(ignores, dir, before, entries);
            &&& with.remaining == without.remaining
            &&& left.candidates.len() <= without.candidates.len()
            &&& with.candidates == if any_name_matches(command.trigger, left.remaining) {
                without.candidates.insert(
                    left.candidates.len() as int,
                    RemovalCandidateView::run_command(
                        command.name,
                        dir,
                        command.strategy->RunCommand_0,
                    ),
                )
            } else {
                without.candidates
            }
        }),
{
    let left = matchers_pass(ignores, dir, before, entries);
    let one = seq![command];
    lemma_pass_add(ignores, dir, before, one, entries);
    lemma_pass_add(ignores, dir, before + one, later, entries);
    lemma_pass_add(ignores, dir, before, later, entries);
    assert(one.drop_last() =~= Seq::<MatcherView>::empty());
    assert(one.last() == command);
    let alone = matchers_pass(ignores, dir, one, left.remaining);
    assert(alone.remaining == left.remaining) by {
        reveal_with_fuel(matchers_pass, 2);
    }
    let rest = matchers_pass(ignores, dir, later, left.remaining);
    let with = matchers_pass(ignores, dir, before + one + later, entries);
    let without = matchers_pass(ignores, dir, before + later, entries);
    if any_name_matches(command.trigger, left.remaining) {
        let run = RemovalCandidateView::run_command(
            command.name,
            dir,
            command.strategy->RunCommand_0,
        );
        assert(alone.candidates =~= seq![run]) by {
            reveal_with_fuel(matchers_pass, 2);
        }
        assert(with.candidates =~= without.candidates.insert(left.candidates.len() as int, run));
    } else {
        assert(alone.candidates =~= Seq::<RemovalCandidateView>::empty()) by {
            reveal_with_fuel(matchers_pass, 2);
        }
        assert(with.candidates =~= without.candidates);
    }
}

/// What the scan of a directory that is listed and not ignored reports: that
/// it is entered, what the matchers propose for its entries, and then what
/// is reported of each entry that is walked into. An entry is walked into if
/// and only if the matchers have left it, it is a directory, and it is not
/// hidden unless hidden directories are walked into.
pub proof fn lemma_walked_into(
    tree: Tree,
    config: WalkConfig,
    dir: FileInfoView,
    entries: Seq<FileInfoView>,
)
    requires
        tree.well_founded(),
        !config.ignores.contains(dir.path),
        (tree.listing)(dir) == Ok::<Seq<FileInfoView>, Seq<char>>(entries),
    ensures
        walk_dir(tree, config, dir) == seq![WalkEvent::EnteredDirectory(dir)] + proposals(
            tree,
            matchers_pass(config.ignores, dir, config.matchers, entries).candidates,
        ) + walk_each(
            tree,
            config,
            children_to_walk(config.ignores, config.walk_all, dir, config.matchers, entries),
        ),
        forall|entry: FileInfoView|
            #[trigger] children_to_walk(
                config.ignores,
                config.walk_all,
                dir,
                config.matchers,
                entries,
            ).contains(entry) <==> {
                &&& matchers_pass(
                    config.ignores,
                    dir,
                    config.matchers,
                    entries,
                ).remaining.contains(entry)
                &&& entry.kind == SimpleFileKind::Directory
                &&& is_hidden(entry.name) ==> config.walk_all
            },
{
    let left = matchers_pass(config.ignores, dir, config.matchers, entries).remaining;
    let kids = children_to_walk(config.ignores, config.walk_all, dir, config.matchers, entries);
    assert forall|i: int| 0 <= i < kids.len() implies (tree.depth)(#[trigger] kids[i]) < (
    tree.depth)(dir) by {
        assert(kids.contains(kids[i]));
        lemma_children_are_listed(
            config.ignores,
            config.walk_all,
            dir,
            config.matchers,
            entries,
            kids[i],
        );
        assert(tree.lists(dir, kids[i]));
    }
    lemma_walk_children_is_walk_each(tree, config, kids, (tree.depth)(dir));
    assert(walk_dir(tree, config, dir) =~= seq![WalkEvent::EnteredDirectory(dir)] + proposals(
        tree,
        matchers_pass(config.ignores, dir, config.matchers, entries).candidates,
    ) + walk_each(tree, config, kids));
    assert forall|entry: FileInfoView| #[trigger]
        kids.contains(entry) <==> {
            &&& left.contains(entry)
            &&& entry.kind == SimpleFileKind::Directory
            &&& is_hidden(entry.name) ==> config.walk_all
        } by {
        if kids.contains(entry) {
            lemma_children_are_listed(
                config.ignores,
                config.walk_all,
                dir,
                config.matchers,
                entries,
                entry,
            );
        }
        if left.contains(entry) && is_walkable_entry(config.walk_all, entry) {
            let i = choose|i: int| 0 <= i < left.len() && left[i] == entry;
            left.lemma_filter_contains(walkable(config.walk_all), i);
        }
    }
}

/// The entry that a report is about: the directory that is entered or that
/// cannot be listed, the entry that a candidate deletes, or the directory in
/// which it runs its command.
pub open spec fn subject(event: WalkEvent) -> Option<FileInfoView> {
    match event {
        WalkEvent::EnteredDirectory(dir) => Some(dir),
        WalkEvent::CandidateForRemoval(candidate) => Some(candidate.subject()),
        WalkEvent::FailedToScan(dir, _) => Some(dir),
        WalkEvent::WalkFinished => None,
    }
}

/// A way down the tree: each entry but the last is a directory that lists
/// the next.
pub open spec fn is_way(tree: Tree, way: Seq<FileInfoView>) -> bool {
    &&& way.len() > 0
    &&& forall|j: int| 0 <= j < way.len() - 1 ==> tree.lists(#[trigger] way[j], way[j + 1])
}

/// A way down the tree on which nothing is ignored: the path of none of its
/// entries is in `ignores`.
pub open spec fn open_way(tree: Tree, ignores: Set<Seq<char>>, way: Seq<FileInfoView>) -> bool {
    &&& is_way(tree, way)
    &&& forall|j: int| 0 <= j < way.len() ==> !ignores.contains((#[trigger] way[j]).path)
}

/// A way that is open stays open when a directory that is not ignored and
/// that lists its first entry is put before it.
proof fn lemma_way_from_above(
    tree: Tree,
    ignores: Set<Seq<char>>,
    dir: FileInfoView,
    way: Seq<FileInfoView>,
)
    requires
        open_way(tree, ignores, way),
        !ignores.contains(dir.path),
        tree.lists(dir, way[0]),
    ensures
        open_way(tree, ignores, seq![dir] + way),
        (seq![dir] + way)[0] == dir,
        (seq![dir] + way).last() == way.last(),
{
    let longer = seq![dir] + way;
    assert forall|j: int| 0 <= j < longer.len() implies !ignores.contains(
        (#[trigger] longer[j]).path,
    ) by {
        if j > 0 {
            assert(longer[j] == way[j - 1]);
        }
    }
    assert forall|j: int| 0 <= j < longer.len() - 1 implies tree.lists(
        #[trigger] longer[j],
        longer[j + 1],
    ) by {
        if j > 0 {
            assert(longer[j] == way[j - 1]);
            assert(longer[j + 1] == way[j]);
        } else {
            assert(longer[1] == way[0]);
        }
    }
}

/// Whatever is reported of a directory and everything below it is reached
/// from that directory by an open way.
proof fn lemma_way_below(tree: Tree, config: WalkConfig, dir: FileInfoView, i: int) -> (way: Seq<
    FileInfoView,
>)
    requires
        tree.well_founded(),
        0 <= i < walk_dir(tree, config, dir).len(),
    ensures
        subject(walk_dir(tree, config, dir)[i]) == Some(way.last()),
        open_way(tree, config.ignores, way),
        way[0] == dir,
    decreases (tree.depth)(dir), 1nat, 0nat,
{
    let here = seq![dir];
    assert(open_way(tree, config.ignores, here));
    if i == 0 {
        here
    } else {
        match (tree.listing)(dir) {
            Err(_) => here,
            Ok(entries) => {
                let plan = matchers_pass(config.ignores, dir, config.matchers, entries).candidates;
                let kids = children_to_walk(
                    config.ignores,
                    config.walk_all,
                    dir,
                    config.matchers,
                    entries,
                );
                let j = i - 1;
                assert(walk_dir(tree, config, dir)[i] == walk_listed(tree, config, dir)[j]);
                if j < plan.len() {
                    assert(walk_listed(tree, config, dir)[j] == proposal(tree)(plan[j]));
                    lemma_candidate_origin(config.ignores, dir, config.matchers, entries, j);
                    match plan[j].action {
                        RemovalActionView::Delete { file_info, .. } => {
                            let below = seq![file_info];
                            assert(open_way(tree, config.ignores, below));
                            assert(tree.lists(dir, file_info));
                            lemma_way_from_above(tree, config.ignores, dir, below);
                            here + below
                        },
                        RemovalActionView::RunCommand { .. } => here,
                    }
                } else {
                    assert forall|k: int| 0 <= k < kids.len() implies (tree.depth)(
                        #[trigger] kids[k],
                    ) < (tree.depth)(dir) by {
                        assert(kids.contains(kids[k]));
                        lemma_children_are_listed(
                            config.ignores,
                            config.walk_all,
                            dir,
                            config.matchers,
                            entries,
                            kids[k],
                        );
                        assert(tree.lists(dir, kids[k]));
                    }
                    lemma_walk_children_is_walk_each(tree, config, kids, (tree.depth)(dir));
                    let found = lemma_way_among(
                        tree,
                        config,
                        kids,
                        (tree.depth)(dir),
                        j - plan.len(),
                    );
                    assert(kids.contains(kids[found.0]));
                    lemma_children_are_listed(
                        config.ignores,
                        config.walk_all,
                        dir,
                        config.matchers,
                        entries,
                        kids[found.0],
                    );
                    assert(tree.lists(dir, kids[found.0]));
                    lemma_way_from_above(tree, config.ignores, dir, found.1);
                    here + found.1
                }
            },
        }
    }
}

/// Whatever is reported of directories that are walked one after the other
/// is reached from one of them by an open way.
proof fn lemma_way_among(
    tree: Tree,
    config: WalkConfig,
    dirs: Seq<FileInfoView>,
    bound: nat,
    i: int,
) -> (found: (int, Seq<FileInfoView>))
    requires
        tree.well_founded(),
        forall|k: int| 0 <= k < dirs.len() ==> (tree.depth)(#[trigger] dirs[k]) < bound,
        0 <= i < walk_each(tree, config, dirs).len(),
    ensures
        0 <= found.0 < dirs.len(),
        subject(walk_each(tree, config, dirs)[i]) == Some(found.1.last()),
        open_way(tree, config.ignores, found.1),
        found.1[0] == dirs[found.0],
    decreases bound, 0nat, dirs.len(),
{
    let first = walk_dir(tree, config, dirs[0]);
    assert(dirs[0] == dirs[0]);
    if i < first.len() {
        (0, lemma_way_below(tree, config, dirs[0], i))
    } else {
        assert forall|k: int| 0 <= k < dirs.skip(1).len() implies (tree.depth)(
            #[trigger] dirs.skip(1)[k],
        ) < bound by {
            assert(dirs.skip(1)[k] == dirs[k + 1]);
        }
        let later = lemma_way_among(tree, config, dirs.skip(1), bound, i - first.len());
        assert(dirs.skip(1)[later.0] == dirs[later.0 + 1]);
        (later.0 + 1, later.1)
    }
}

/// Nothing in or below an ignored path is ever entered, matched or reported:
/// whatever a scan of a tree from `root` reports (that a directory is
/// entered or cannot be listed, or a candidate) is about an entry that is
/// reached from `root` by a way on which every entry but the last is a
/// directory that was listed, and on which no entry, the last included, is
/// ignored.
pub proof fn lemma_ignored_is_left_alone(
    tree: Tree,
    config: WalkConfig,
    root: FileInfoView,
    i: int,
) -> (way: Seq<FileInfoView>)
    requires
        tree.well_founded(),
        0 <= i < walk_dir(tree, config, root).len(),
    ensures
        subject(walk_dir(tree, config, root)[i]) == Some(way.last()),
        open_way(tree, config.ignores, way),
        way[0] == root,
        !config.ignores.contains(way.last().path),
{
    lemma_way_below(tree, config, root, i)
}

/// Every entry has one place in the tree: no two directories list the same
/// entry.
pub open spec fn has_single_parents(tree: Tree) -> bool {
    forall|a: FileInfoView, b: FileInfoView, entry: FileInfoView|
        #![trigger tree.lists(a, entry), tree.lists(b, entry)]
        tree.lists(a, entry) && tree.lists(b, entry) ==> a == b
}

/// Down a way, the entries lie less and less deep.
proof fn lemma_way_goes_down(tree: Tree, way: Seq<FileInfoView>, a: int, b: int)
    requires
        tree.well_founded(),
        is_way(tree, way),
        0 <= a < b < way.len(),
    ensures
        (tree.depth)(way[b]) < (tree.depth)(way[a]),
    decreases b - a,
{
    assert(tree.lists(way[b - 1], way[b]));
    if a < b - 1 {
        lemma_way_goes_down(tree, way, a, b - 1);
    }
}

/// Two ways that end at the same entry agree, counted from the end, as far
/// as both go.
proof fn lemma_ways_agree_from_the_end(
    tree: Tree,
    first: Seq<FileInfoView>,
    second: Seq<FileInfoView>,
    k: int,
)
    requires
        has_single_parents(tree),
        is_way(tree, first),
        is_way(tree, second),
        first.last() == second.last(),
        0 <= k < first.len(),
        k < second.len(),
    ensures
        first[first.len() - 1 - k] == second[second.len() - 1 - k],
    decreases k,
{
    if k > 0 {
        lemma_ways_agree_from_the_end(tree, first, second, k - 1);
        let a = first.len() - 1 - k;
        let b = second.len() - 1 - k;
        assert(tree.lists(first[a], first[a + 1]));
        assert(tree.lists(second[b], second[b + 1]));
    }
}

/// In a tree where every entry has one place, there is one way only from
/// one entry down to another.
proof fn lemma_one_way(tree: Tree, first: Seq<FileInfoView>, second: Seq<FileInfoView>)
    requires
        tree.well_founded(),
        has_single_parents(tree),
        is_way(tree, first),
        is_way(tree, second),
        first[0] == second[0],
        first.last() == second.last(),
    ensures
        first == second,
{
    if first.len() < second.len() {
        lemma_ways_agree_from_the_end(tree, first, second, first.len() - 1);
        lemma_way_goes_down(tree, second, 0, second.len() - first.len());
    } else if second.len() < first.len() {
        lemma_ways_agree_from_the_end(tree, first, second, second.len() - 1);
        lemma_way_goes_down(tree, first, 0, first.len() - second.len());
    } else {
        assert forall|j: int| 0 <= j < first.len() implies first[j] == second[j] by {
            lemma_ways_agree_from_the_end(tree, first, second, first.len() - 1 - j);
        }
        assert(first =~= second);
    }
}

/// In a tree where every entry has one place, nothing that lies in or below
/// an ignored directory is ever entered, matched or reported: on the way
/// from `root` down to whatever a scan reports, no entry is ignored, the
/// last included.
pub proof fn lemma_inside_ignored_is_left_alone(
    tree: Tree,
    config: WalkConfig,
    root: FileInfoView,
    i: int,
    way: Seq<FileInfoView>,
    j: int,
)
    requires
        tree.well_founded(),
        has_single_parents(tree),
        0 <= i < walk_dir(tree, config, root).len(),
        is_way(tree, way),
        way[0] == root,
        subject(walk_dir(tree, config, root)[i]) == Some(way.last()),
        0 <= j < way.len(),
    ensures
        !config.ignores.contains(way[j].path),
{
    let found = lemma_ignored_is_left_alone(tree, config, root, i);
    lemma_one_way(tree, way, found);
}

/// Whether the path `below` lies in or below the path `above`: whether the
/// parts of `above` are the first parts of `below`.
pub open spec fn lies_in(above: Seq<char>, below: Seq<char>) -> bool {
    &&& path_parts(above).len() <= path_parts(below).len()
    &&& path_parts(below).take(path_parts(above).len() as int) == path_parts(above)
}

/// The paths of the tree grow with it: the path of an entry has the parts of
/// the path of the directory that lists it, and one part more.
pub open spec fn paths_grow(tree: Tree) -> bool {
    forall|dir: FileInfoView, child: FileInfoView| #[trigger]
        tree.lists(dir, child) ==> path_parts(child.path).len() > 0 && path_parts(
            child.path,
        ).drop_last() == path_parts(dir.path)
}

/// Whether `path` is written as the ignored paths are: an ignored path with
/// the same parts is the same text.
pub open spec fn written_alike(ignores: Set<Seq<char>>, path: Seq<char>) -> bool {
    forall|ignored: Seq<char>| #[trigger]
        ignores.contains(ignored) && path_parts(ignored) == path_parts(path) ==> ignored == path
}

/// Whether the paths of the tree, and that of `root`, are written as the
/// ignored paths are.
pub open spec fn paths_written_alike(
    tree: Tree,
    ignores: Set<Seq<char>>,
    root: FileInfoView,
) -> bool {
    &&& written_alike(ignores, root.path)
    &&& forall|dir: FileInfoView, child: FileInfoView| #[trigger]
        tree.lists(dir, child) ==> written_alike(ignores, child.path)
}

/// Down a way in a tree whose paths grow, each path has the parts of the
/// paths before it, and one part more with each step.
proof fn lemma_way_grows(tree: Tree, way: Seq<FileInfoView>, a: int, b: int)
    requires
        paths_grow(tree),
        is_way(tree, way),
        0 <= a <= b < way.len(),
    ensures
        path_parts(way[b].path).len() == path_parts(way[a].path).len() + (b - a),
        path_parts(way[b].path).take(path_parts(way[a].path).len() as int) == path_parts(
            way[a].path,
        ),
    decreases b - a,
{
    if a == b {
        assert(path_parts(way[b].path).take(path_parts(way[a].path).len() as int) =~= path_parts(
            way[a].path,
        ));
    } else {
        lemma_way_grows(tree, way, a, b - 1);
        assert(tree.lists(way[b - 1], way[b]));
        let longer = path_parts(way[b].path);
        let shorter = path_parts(way[b - 1].path);
        assert(longer.drop_last() == shorter);
        assert(longer.take(path_parts(way[a].path).len() as int) =~= shorter.take(
            path_parts(way[a].path).len() as int,
        ));
    }
}

/// In a tree whose paths grow, nothing that lies in or below an ignored path
/// is ever entered, matched or reported: whatever a scan from `root`
/// reports is about an entry whose path does not lie in or below `ignored`.
/// The paths must be written as the ignored paths are, and the scan must
/// not itself begin below an ignored path.
pub proof fn lemma_below_ignored_is_left_alone(
    tree: Tree,
    config: WalkConfig,
    root: FileInfoView,
    i: int,
    ignored: Seq<char>,
) -> (about: FileInfoView)
    requires
        tree.well_founded(),
        paths_grow(tree),
        paths_written_alike(tree, config.ignores, root),
        forall|above: Seq<char>| #[trigger]
            config.ignores.contains(above) && lies_in(above, root.path) ==> path_parts(above)
                == path_parts(root.path),
        0 <= i < walk_dir(tree, config, root).len(),
        config.ignores.contains(ignored),
    ensures
        subject(walk_dir(tree, config, root)[i]) == Some(about),
        !lies_in(ignored, about.path),
{
    let way = lemma_ignored_is_left_alone(tree, config, root, i);
    let about = way.last();
    let last = way.len() - 1;
    if lies_in(ignored, about.path) {
        let parts = path_parts(ignored);
        let whole = path_parts(about.path);
        let first = path_parts(root.path);
        lemma_way_grows(tree, way, 0, last);
        if parts.len() < first.len() {
            assert(first.take(parts.len() as int) =~= whole.take(parts.len() as int));
            assert(lies_in(ignored, root.path));
        } else {
            let j = parts.len() - first.len();
            lemma_way_grows(tree, way, 0, j);
            lemma_way_grows(tree, way, j, last);
            assert(path_parts(way[j].path) == parts);
            if j > 0 {
                assert(tree.lists(way[j - 1], way[j]));
            }
            assert(written_alike(config.ignores, way[j].path));
            assert(way[j].path == ignored);
            assert(false);
        }
    }
    about
}

/// A scan asks for the listing of a directory only when it has just
/// reported that it enters it, and never of one that is ignored; and it
/// finishes only when it has nothing left to ask.
pub proof fn lemma_listed_is_entered(
    ignores: Set<Seq<char>>,
    pending: Seq<FileInfoView>,
    plan: Seq<RemovalCandidateView>,
)
    ensures
        match settle(ignores, pending, plan).phase {
            PhaseView::Listing(dir) => !ignores.contains(dir.path) && settle(
                ignores,
                pending,
                plan,
            ).notes.last() == WalkEvent::EnteredDirectory(dir),
            PhaseView::Measuring { .. } => true,
            PhaseView::Idle => settle(ignores, pending, plan).notes.last()
                == WalkEvent::WalkFinished,
        },
        settle(ignores, pending, plan).phase is Measuring || settle(
            ignores,
            pending,
            plan,
        ).notes.len() > 0,
    decreases plan.len() + pending.len(),
{
    if plan.len() > 0 {
        if plan[0].action is RunCommand {
            lemma_listed_is_entered(ignores, pending, plan.skip(1));
        }
    } else if pending.len() > 0 {
        if ignores.contains(pending[0].path) {
            lemma_listed_is_entered(ignores, pending.skip(1), plan);
        }
    }
}

/// Whether none of `notes` says that the walk is finished.
pub open spec fn unfinished(notes: Seq<WalkEvent>) -> bool {
    forall|j: int| 0 <= j < notes.len() ==> !(#[trigger] notes[j] is WalkFinished)
}

/// Whether `notes` say that the walk is finished once, and at the end.
pub open spec fn finished_at_the_end(notes: Seq<WalkEvent>) -> bool {
    &&& notes.len() > 0
    &&& notes.last() is WalkFinished
    &&& unfinished(notes.drop_last())
}

/// A scan that comes to rest says that the walk is finished exactly when it
/// has nothing left to ask, and then once, and at the end.
pub proof fn lemma_settle_finishes(
    ignores: Set<Seq<char>>,
    pending: Seq<FileInfoView>,
    plan: Seq<RemovalCandidateView>,
)
    ensures
        if settle(ignores, pending, plan).phase is Idle {
            finished_at_the_end(settle(ignores, pending, plan).notes)
        } else {
            unfinished(settle(ignores, pending, plan).notes)
        },
    decreases plan.len() + pending.len(),
{
    let settled = settle(ignores, pending, plan);
    if plan.len() > 0 {
        if plan[0].action is RunCommand {
            lemma_settle_finishes(ignores, pending, plan.skip(1));
            let rest = settle(ignores, pending, plan.skip(1));
            let first = seq![WalkEvent::CandidateForRemoval(plan[0])];
            assert(settled.notes == first + rest.notes);
            if settled.phase is Idle {
                assert(settled.notes.drop_last() =~= first + rest.notes.drop_last());
                assert forall|j: int| 0 <= j < settled.notes.drop_last().len() implies !(
                #[trigger] settled.notes.drop_last()[j] is WalkFinished) by {
                    if j > 0 {
                        assert(settled.notes.drop_last()[j] == rest.notes.drop_last()[j - 1]);
                    }
                }
            } else {
                assert forall|j: int| 0 <= j < settled.notes.len() implies !(
                #[trigger] settled.notes[j] is WalkFinished) by {
                    if j > 0 {
                        assert(settled.notes[j] == rest.notes[j - 1]);
                    }
                }
            }
        }
    } else if pending.len() > 0 {
        if ignores.contains(pending[0].path) {
            lemma_settle_finishes(ignores, pending.skip(1), plan);
        }
    } else {
        assert(settled.notes.drop_last() =~= Seq::<WalkEvent>::empty());
    }
}

/// Notes that do not say that the walk is finished, followed by others, say
/// so when and where the others do.
proof fn lemma_unfinished_before(first: Seq<WalkEvent>, next: Seq<WalkEvent>)
    requires
        unfinished(first),
    ensures
        unfinished(next) ==> unfinished(first + next),
        finished_at_the_end(next) ==> finished_at_the_end(first + next),
{
    let all = first + next;
    if unfinished(next) {
        assert forall|j: int| 0 <= j < all.len() implies !(#[trigger] all[j] is WalkFinished) by {
            if j < first.len() {
                assert(all[j] == first[j]);
            } else {
                assert(all[j] == next[j - first.len()]);
            }
        }
    }
    if finished_at_the_end(next) {
        assert(all.drop_last() =~= first + next.drop_last());
        assert forall|j: int| 0 <= j < all.drop_last().len() implies !(
        #[trigger] all.drop_last()[j] is WalkFinished) by {
            if j < first.len() {
                assert(all.drop_last()[j] == first[j]);
            } else {
                assert(all.drop_last()[j] == next.drop_last()[j - first.len()]);
            }
        }
    }
}

/// A scan that goes on with an answer says that the walk is finished
/// exactly when it has nothing left to ask after that, and then once, and at
/// the end.
pub proof fn lemma_resume_finishes(scan: ScanView, answer: WalkAnswerView)
    requires
        !(scan.request() is Done),
    ensures
        if scan.resume(answer).scan.request() is Done {
            finished_at_the_end(scan.resume(answer).notes)
        } else {
            unfinished(scan.resume(answer).notes)
        },
{
    let none = Seq::<RemovalCandidateView>::empty();
    match (scan.phase, answer) {
        (PhaseView::Listing(dir), WalkAnswerView::Listing(Err(failure))) => {
            lemma_settle_finishes(scan.ignores, scan.pending, none);
            let first = seq![WalkEvent::FailedToScan(dir, failure)];
            lemma_unfinished_before(first, settle(scan.ignores, scan.pending, none).notes);
        },
        (PhaseView::Listing(dir), WalkAnswerView::Listing(Ok(entries))) => {
            let kids = children_to_walk(scan.ignores, scan.walk_all, dir, scan.matchers, entries);
            let plan = matchers_pass(scan.ignores, dir, scan.matchers, entries).candidates;
            lemma_settle_finishes(scan.ignores, kids + scan.pending, plan);
            lemma_unfinished_before(
                Seq::empty(),
                settle(scan.ignores, kids + scan.pending, plan).notes,
            );
        },
        (PhaseView::Measuring { matcher_name, file_info, plan }, WalkAnswerView::Size(size)) => {
            lemma_settle_finishes(scan.ignores, scan.pending, plan);
            let first = seq![
                WalkEvent::CandidateForRemoval(
                    RemovalCandidateView::delete(matcher_name, file_info, size),
                ),
            ];
            lemma_unfinished_before(first, settle(scan.ignores, scan.pending, plan).notes);
        },
        _ => {},
    }
}

/// Whether something was left to ask each time that one of `given` came.
pub open spec fn asked_throughout(scan: ScanView, given: Seq<WalkAnswerView>) -> bool {
    forall|i: int|
        0 <= i < given.len() ==> !((#[trigger] scan.after(given.take(i))).request() is Done)
}

/// A walk says that it is finished exactly when nothing is left to ask, and
/// then once, and at the end: as long as something is left to ask, nothing
/// that was reported from the beginning says so.
pub proof fn lemma_walk_finishes_once(
    scan: ScanView,
    root: FileInfoView,
    given: Seq<WalkAnswerView>,
)
    requires
        asked_throughout(scan.start(root).scan, given),
    ensures
        if scan.start(root).scan.after(given).request() is Done {
            finished_at_the_end(scan.start(root).notes + scan.start(root).scan.notes_after(given))
        } else {
            unfinished(scan.start(root).notes + scan.start(root).scan.notes_after(given))
        },
    decreases given.len(),
{
    let begun = scan.start(root);
    let none = Seq::<RemovalCandidateView>::empty();
    if given.len() == 0 {
        lemma_settle_finishes(scan.ignores, seq![root], none);
        lemma_unfinished_before(Seq::empty(), settle(scan.ignores, seq![root], none).notes);
        assert(begun.notes + begun.scan.notes_after(given) =~= begun.notes);
    } else {
        let earlier = given.drop_last();
        assert forall|i: int| 0 <= i < earlier.len() implies !((#[trigger] begun.scan.after(
            earlier.take(i),
        )).request() is Done) by {
            assert(earlier.take(i) =~= given.take(i));
        }
        lemma_walk_finishes_once(scan, root, earlier);
        assert(given.take(given.len() - 1) =~= earlier);
        let there = begun.scan.after(earlier);
        assert(!(there.request() is Done));
        lemma_resume_finishes(there, given.last());
        let sofar = begun.notes + begun.scan.notes_after(earlier);
        let next = there.resume(given.last()).notes;
        lemma_unfinished_before(sofar, next);
        assert(begun.notes + begun.scan.notes_after(given) =~= sofar + next);
    }
}

/// Whether an answer is of the kind that a request asks for.
pub open spec fn fits(request: WalkRequestView, answer: WalkAnswerView) -> bool {
    match request {
        WalkRequestView::List(_) => answer is Listing,
        WalkRequestView::Measure(_) => answer is Size,
        WalkRequestView::Done => false,
    }
}

/// Whether each of `given` is of the kind that the scan asks for when its
/// turn comes.
pub open spec fn fitting_throughout(scan: ScanView, given: Seq<WalkAnswerView>) -> bool {
    forall|i: int|
        0 <= i < given.len() ==> fits(
            (#[trigger] scan.after(given.take(i))).request(),
            given[i],
        )
}

/// The number of notes that answer for a question that is still open: one
/// where a directory was entered and is not listed yet.
pub open spec fn open_notes(scan: ScanView) -> nat {
    if scan.phase is Listing {
        1
    } else {
        0
    }
}

/// A walk reports at least one note for each answer that it is given: that
/// a directory is entered before it is listed, and a candidate after its
/// size has come.
pub proof fn lemma_answers_are_counted(
    scan: ScanView,
    root: FileInfoView,
    given: Seq<WalkAnswerView>,
)
    requires
        fitting_throughout(scan.start(root).scan, given),
    ensures
        given.len() + open_notes(scan.start(root).scan.after(given)) <= (scan.start(root).notes
            + scan.start(root).scan.notes_after(given)).len(),
    decreases given.len(),
{
    let begun = scan.start(root);
    let none = Seq::<RemovalCandidateView>::empty();
    if given.len() == 0 {
        lemma_listed_is_entered(scan.ignores, seq![root], none);
    } else {
        let earlier = given.drop_last();
        assert forall|i: int| 0 <= i < earlier.len() implies fits(
            (#[trigger] begun.scan.after(earlier.take(i))).request(),
            earlier[i],
        ) by {
            assert(earlier.take(i) =~= given.take(i));
        }
        lemma_answers_are_counted(scan, root, earlier);
        assert(given.take(given.len() - 1) =~= earlier);
        let there = begun.scan.after(earlier);
        assert(fits(there.request(), given.last()));
        match (there.phase, given.last()) {
            (PhaseView::Listing(dir), WalkAnswerView::Listing(Err(failure))) => {
                lemma_listed_is_entered(there.ignores, there.pending, none);
            },
            (PhaseView::Listing(dir), WalkAnswerView::Listing(Ok(entries))) => {
                lemma_listed_is_entered(
                    there.ignores,
                    children_to_walk(there.ignores, there.walk_all, dir, there.matchers, entries)
                        + there.pending,
                    matchers_pass(there.ignores, dir, there.matchers, entries).candidates,
                );
            },
            (PhaseView::Measuring { plan, .. }, WalkAnswerView::Size(_)) => {
                lemma_listed_is_entered(there.ignores, there.pending, plan);
            },
            _ => {},
        }
    }
}

/// No matcher that runs a command fires: the name of no entry matches the
/// trigger of one.
pub open spec fn commands_stay_silent(
    matchers: Seq<MatcherView>,
    entries: Seq<FileInfoView>,
) -> bool {
    forall|k: int, entry: FileInfoView|
        #![trigger matchers[k], entries.contains(entry)]
        0 <= k < matchers.len() && entries.contains(entry) && matchers[k].strategy is RunCommand
            ==> !glob_matches(matchers[k].trigger, entry.name)
}

/// No entry whose name matches the removal pattern of a matcher is ignored.
pub open spec fn claims_nothing_ignored(
    ignores: Set<Seq<char>>,
    matchers: Seq<MatcherView>,
    entries: Seq<FileInfoView>,
) -> bool {
    forall|k: int, entry: FileInfoView|
        #![trigger matchers[k], entries.contains(entry)]
        0 <= k < matchers.len() && entries.contains(entry) && matchers[k].strategy is Remove
            && glob_matches(matchers[k].strategy->Remove_0, entry.name) ==> !ignores.contains(
            entry.path,
        )
}

/// The entries that the candidates of a plan delete.
pub open spec fn deleted(plan: Seq<RemovalCandidateView>) -> Set<FileInfoView> {
    Set::new(
        |entry: FileInfoView|
            exists|j: int|
                0 <= j < plan.len() && (#[trigger] plan[j]).action is Delete
                    && plan[j].subject() == entry,
    )
}

/// The matchers propose nothing for the entries of a directory from which
/// everything that they proposed to delete before is gone, where among the
/// entries that are left no command matcher finds its trigger and no ignored
/// entry is claimed.
///
/// Here `before` are the entries of the directory at first and `after` those
/// that are left of them; `gone` holds at least what was to be deleted of
/// `before`.
pub proof fn lemma_nothing_left_to_propose(
    ignores: Set<Seq<char>>,
    dir: FileInfoView,
    matchers: Seq<MatcherView>,
    before: Seq<FileInfoView>,
    after: Seq<FileInfoView>,
    gone: Set<FileInfoView>,
)
    requires
        commands_stay_silent(matchers, after),
        claims_nothing_ignored(ignores, matchers, after),
        forall|entry: FileInfoView| #[trigger]
            after.contains(entry) ==> before.contains(entry) && !gone.contains(entry),
        forall|j: int|
            0 <= j < matchers_pass(ignores, dir, matchers, before).candidates.len() && (
            #[trigger] matchers_pass(ignores, dir, matchers, before).candidates[j]).action is Delete
                ==> gone.contains(
                matchers_pass(ignores, dir, matchers, before).candidates[j].subject(),
            ),
    ensures
        matchers_pass(ignores, dir, matchers, after).candidates.len() == 0,
        forall|entry: FileInfoView| #[trigger]
            matchers_pass(ignores, dir, matchers, after).remaining.contains(entry)
                ==> matchers_pass(ignores, dir, matchers, before).remaining.contains(entry)
                && !gone.contains(entry),
    decreases matchers.len(),
{
    if matchers.len() > 0 {
        let earlier = matchers.drop_last();
        let last = matchers.last();
        let all1 = matchers_pass(ignores, dir, matchers, before);
        let e1 = matchers_pass(ignores, dir, earlier, before);
        let e2 = matchers_pass(ignores, dir, earlier, after);
        let last1 = matcher_pass(ignores, dir, last, e1.remaining);
        let last2 = matcher_pass(ignores, dir, last, e2.remaining);
        assert(commands_stay_silent(earlier, after)) by {
            assert forall|k: int, entry: FileInfoView|
                #![trigger earlier[k], after.contains(entry)]
                0 <= k < earlier.len() && after.contains(entry)
                    && earlier[k].strategy is RunCommand implies !glob_matches(
                earlier[k].trigger,
                entry.name,
            ) by {
                assert(earlier[k] == matchers[k]);
            }
        }
        assert(claims_nothing_ignored(ignores, earlier, after)) by {
            assert forall|k: int, entry: FileInfoView|
                #![trigger earlier[k], after.contains(entry)]
                0 <= k < earlier.len() && after.contains(entry) && earlier[k].strategy is Remove
                    && glob_matches(
                    earlier[k].strategy->Remove_0,
                    entry.name,
                ) implies !ignores.contains(entry.path) by {
                assert(earlier[k] == matchers[k]);
            }
        }
        assert forall|j: int|
            0 <= j < e1.candidates.len() && (
            #[trigger] e1.candidates[j]).action is Delete implies gone.contains(
            e1.candidates[j].subject(),
        ) by {
            assert(all1.candidates[j] == e1.candidates[j]);
        }
        lemma_nothing_left_to_propose(ignores, dir, earlier, before, after, gone);
        assert(matchers[matchers.len() - 1] == last);
        let fires1 = any_name_matches(last.trigger, e1.remaining);
        let fires2 = any_name_matches(last.trigger, e2.remaining);
        if last.strategy is RunCommand {
            if fires2 {
                let w = choose|w: int|
                    0 <= w < e2.remaining.len() && glob_matches(
                        last.trigger,
                        (#[trigger] e2.remaining[w]).name,
                    );
                assert(e2.remaining.contains(e2.remaining[w]));
                lemma_remaining_is_listed(ignores, dir, earlier, after, e2.remaining[w]);
                assert(after.contains(e2.remaining[w]));
                assert(false);
            }
        } else {
            let pattern = last.strategy->Remove_0;
            assert(last.strategy == CleanStrategyView::Remove(pattern));
            // Whatever the last matcher claims of what was left at both times is
            // gone.
            assert forall|x: FileInfoView|
                fires1 && e1.remaining.contains(x) && e2.remaining.contains(x) && glob_matches(
                    pattern,
                    x.name,
                ) implies #[trigger] gone.contains(x) by {
                lemma_remaining_is_listed(ignores, dir, earlier, after, x);
                assert(after.contains(x));
                assert(!ignores.contains(x.path));
                let taken = claimed(pattern, e1.remaining);
                let kept = taken.filter(not_ignored(ignores));
                let a = choose|a: int| 0 <= a < e1.remaining.len() && e1.remaining[a] == x;
                e1.remaining.lemma_filter_contains(name_matches(pattern), a);
                let b = choose|b: int| 0 <= b < taken.len() && taken[b] == x;
                taken.lemma_filter_contains(not_ignored(ignores), b);
                let q = choose|q: int| 0 <= q < kept.len() && kept[q] == x;
                assert(last1.candidates[q] == delete_unsized(last.name)(x));
                assert(all1.candidates[e1.candidates.len() + q] == last1.candidates[q]);
                assert(all1.candidates[e1.candidates.len() + q].action is Delete);
                assert(all1.candidates[e1.candidates.len() + q].subject() == x);
            }
            if fires2 {
                let w = choose|w: int|
                    0 <= w < e2.remaining.len() && glob_matches(
                        last.trigger,
                        (#[trigger] e2.remaining[w]).name,
                    );
                assert(e2.remaining.contains(e2.remaining[w]));
                let v = choose|v: int|
                    0 <= v < e1.remaining.len() && e1.remaining[v] == e2.remaining[w];
                assert(glob_matches(last.trigger, e1.remaining[v].name));
                assert(fires1);
                let taken2 = claimed(pattern, e2.remaining);
                if taken2.len() > 0 {
                    let x = taken2[0];
                    assert(taken2.contains(x));
                    e2.remaining.lemma_filter_contains_rev(name_matches(pattern), x);
                    e2.remaining.lemma_filter_pred(name_matches(pattern), 0);
                    assert(gone.contains(x));
                    assert(false);
                }
                taken2.lemma_filter_len(not_ignored(ignores));
                assert(last2.candidates.len() == 0);
                assert forall|entry: FileInfoView| #[trigger]
                    last2.remaining.contains(entry) implies last1.remaining.contains(entry)
                    && !gone.contains(entry) by {
                    let left2 = unclaimed(pattern, e2.remaining);
                    e2.remaining.lemma_filter_contains_rev(name_differs(pattern), entry);
                    let c = choose|c: int| 0 <= c < left2.len() && left2[c] == entry;
                    e2.remaining.lemma_filter_pred(name_differs(pattern), c);
                    let a = choose|a: int| 0 <= a < e1.remaining.len() && e1.remaining[a] == entry;
                    e1.remaining.lemma_filter_contains(name_differs(pattern), a);
                }
            } else {
                assert forall|entry: FileInfoView| #[trigger]
                    last2.remaining.contains(entry) implies last1.remaining.contains(entry)
                    && !gone.contains(entry) by {
                    assert(e2.remaining.contains(entry));
                    if fires1 {
                        if glob_matches(pattern, entry.name) {
                            assert(gone.contains(entry));
                        }
                        let a = choose|a: int|
                            0 <= a < e1.remaining.len() && e1.remaining[a] == entry;
                        e1.remaining.lemma_filter_contains(name_differs(pattern), a);
                    }
                }
            }
        }
        assert(matchers_pass(ignores, dir, matchers, after).candidates =~= e2.candidates
            + last2.candidates);
    }
}

/// What the later tree is to the earlier one after everything that a scan
/// proposed to delete has been deleted: a directory that can be listed later
/// could be listed before, and whatever it lists later it listed before, and
/// that was not to be deleted.
pub open spec fn cleaned(before: Tree, after: Tree, config: WalkConfig) -> bool {
    &&& forall|dir: FileInfoView| #[trigger]
        (after.listing)(dir) is Ok ==> (before.listing)(dir) is Ok
    &&& forall|dir: FileInfoView, entry: FileInfoView| #[trigger]
        after.lists(dir, entry) ==> before.lists(dir, entry) && !deleted(
            matchers_pass(
                config.ignores,
                dir,
                config.matchers,
                (before.listing)(dir)->Ok_0,
            ).candidates,
        ).contains(entry)
}

/// In the tree, no matcher that runs a command finds its trigger in any
/// directory, and no entry whose name matches the removal pattern of a
/// matcher is ignored.
pub open spec fn quiet_rules(tree: Tree, config: WalkConfig) -> bool {
    forall|dir: FileInfoView| #[trigger]
        (tree.listing)(dir) is Ok ==> commands_stay_silent(
            config.matchers,
            (tree.listing)(dir)->Ok_0,
        ) && claims_nothing_ignored(config.ignores, config.matchers, (tree.listing)(dir)->Ok_0)
}

/// In a cleaned tree, the matchers propose nothing for the entries of a
/// directory.
proof fn lemma_quiet_directory(before: Tree, after: Tree, config: WalkConfig, dir: FileInfoView)
    requires
        cleaned(before, after, config),
        quiet_rules(after, config),
        (after.listing)(dir) is Ok,
    ensures
        matchers_pass(
            config.ignores,
            dir,
            config.matchers,
            (after.listing)(dir)->Ok_0,
        ).candidates.len() == 0,
{
    let listed1 = (before.listing)(dir)->Ok_0;
    let listed2 = (after.listing)(dir)->Ok_0;
    let plan = matchers_pass(config.ignores, dir, config.matchers, listed1).candidates;
    let gone = deleted(plan);
    assert((before.listing)(dir) is Ok);
    assert forall|entry: FileInfoView| #[trigger] listed2.contains(entry) implies listed1.contains(
        entry,
    ) && !gone.contains(entry) by {
        assert(after.lists(dir, entry));
    }
    assert forall|j: int|
        0 <= j < plan.len() && (#[trigger] plan[j]).action is Delete implies gone.contains(
        plan[j].subject(),
    ) by {}
    lemma_nothing_left_to_propose(config.ignores, dir, config.matchers, listed1, listed2, gone);
}

/// A scan of a cleaned tree reports no candidate in or below a directory.
proof fn lemma_quiet_below(
    before: Tree,
    after: Tree,
    config: WalkConfig,
    dir: FileInfoView,
    i: int,
)
    requires
        after.well_founded(),
        cleaned(before, after, config),
        quiet_rules(after, config),
        0 <= i < walk_dir(after, config, dir).len(),
    ensures
        !(walk_dir(after, config, dir)[i] is CandidateForRemoval),
    decreases (after.depth)(dir), 1nat, 0nat,
{
    if i > 0 {
        match (after.listing)(dir) {
            Err(_) => {},
            Ok(entries) => {
                lemma_quiet_directory(before, after, config, dir);
                let kids = children_to_walk(
                    config.ignores,
                    config.walk_all,
                    dir,
                    config.matchers,
                    entries,
                );
                assert forall|k: int| 0 <= k < kids.len() implies (after.depth)(
                    #[trigger] kids[k],
                ) < (after.depth)(dir) by {
                    assert(kids.contains(kids[k]));
                    lemma_children_are_listed(
                        config.ignores,
                        config.walk_all,
                        dir,
                        config.matchers,
                        entries,
                        kids[k],
                    );
                    assert(after.lists(dir, kids[k]));
                }
                lemma_walk_children_is_walk_each(after, config, kids, (after.depth)(dir));
                assert(walk_dir(after, config, dir)[i] == walk_each(after, config, kids)[i - 1]);
                lemma_quiet_among(before, after, config, kids, (after.depth)(dir), i - 1);
            },
        }
    }
}

/// A scan of a cleaned tree reports no candidate in or below directories
/// that are walked one after the other.
proof fn lemma_quiet_among(
    before: Tree,
    after: Tree,
    config: WalkConfig,
    dirs: Seq<FileInfoView>,
    bound: nat,
    i: int,
)
    requires
        after.well_founded(),
        cleaned(before, after, config),
        quiet_rules(after, config),
        forall|k: int| 0 <= k < dirs.len() ==> (after.depth)(#[trigger] dirs[k]) < bound,
        0 <= i < walk_each(after, config, dirs).len(),
    ensures
        !(walk_each(after, config, dirs)[i] is CandidateForRemoval),
    decreases bound, 0nat, dirs.len(),
{
    let first = walk_dir(after, config, dirs[0]);
    assert(dirs[0] == dirs[0]);
    if i < first.len() {
        lemma_quiet_below(before, after, config, dirs[0], i);
    } else {
        assert forall|k: int| 0 <= k < dirs.skip(1).len() implies (after.depth)(
            #[trigger] dirs.skip(1)[k],
        ) < bound by {
            assert(dirs.skip(1)[k] == dirs[k + 1]);
        }
        lemma_quiet_among(before, after, config, dirs.skip(1), bound, i - first.len());
    }
}

/// Scanning again proposes nothing: a scan of the tree from which
/// everything that an earlier scan proposed to delete has been deleted
/// reports no candidate at all, provided that in the tree that is left no
/// matcher that runs a command finds its trigger and no ignored entry is
/// claimed by a removal pattern. (A command is proposed again as long as its
/// trigger is there, and an entry that was claimed but ignored can wake a
/// later matcher once the entries that it was claimed with are gone.)
pub proof fn lemma_rescan_proposes_nothing(
    before: Tree,
    after: Tree,
    config: WalkConfig,
    root: FileInfoView,
)
    requires
        after.well_founded(),
        cleaned(before, after, config),
        quiet_rules(after, config),
    ensures
        forall|i: int|
            0 <= i < walk_events(after, config, root).len() ==> !(#[trigger] walk_events(
                after,
                config,
                root,
            )[i] is CandidateForRemoval),
{
    assert forall|i: int| 0 <= i < walk_events(after, config, root).len() implies !(
    #[trigger] walk_events(after, config, root)[i] is CandidateForRemoval) by {
        if i < walk_dir(after, config, root).len() {
            lemma_quiet_below(before, after, config, root, i);
        }
    }
}

/// A clean-up that begins reports, then and later, everything that a
/// clean-up of its candidates reports, whatever their outcomes will be.
pub proof fn lemma_clean_start(run: CleanRunView, failures: Seq<Option<Seq<char>>>)
    requires
        run.current is None,
        failures.len() == run.waiting.len(),
    ensures
        run.start().notes + run.start().run.remaining(failures) == clean_events(
            run.waiting,
            failures,
        ),
{
    assert(run.start().notes + run.start().run.remaining(failures) =~= clean_events(
        run.waiting,
        failures,
    ));
}

/// A clean-up that goes on with the outcome of the candidate in work
/// reports, then and later, what it had still to report before: a failure
/// is reported like a success, and the candidates that wait are carried out
/// all the same.
pub proof fn lemma_clean_resume(run: CleanRunView, failures: Seq<Option<Seq<char>>>)
    requires
        run.current is Some,
        failures.len() == run.waiting.len() + 1,
    ensures
        run.resume(failures[0]).notes + run.resume(failures[0]).run.remaining(failures.skip(1))
            == run.remaining(failures),
{
    let next = run.resume(failures[0]);
    if run.waiting.len() > 0 {
        assert(failures.skip(1).skip(1) =~= failures.skip(2));
        assert(failures.skip(1)[0] == failures[1]);
    }
    assert(next.notes + next.run.remaining(failures.skip(1)) =~= run.remaining(failures));
}

/// Whether a candidate is in work each time that a clean-up goes on with one
/// of `failures`.
pub open spec fn in_work_throughout(run: CleanRunView, failures: Seq<Option<Seq<char>>>) -> bool {
    forall|i: int|
        0 <= i < failures.len() ==> (#[trigger] run.after(failures.take(i))).current is Some
}

/// Each outcome ends one candidate.
pub proof fn lemma_clean_run_counts(run: CleanRunView, failures: Seq<Option<Seq<char>>>)
    requires
        in_work_throughout(run, failures),
    ensures
        run.after(failures).unfinished() + failures.len() == run.unfinished(),
    decreases failures.len(),
{
    if failures.len() > 0 {
        let earlier = failures.drop_last();
        assert forall|i: int| 0 <= i < earlier.len() implies (#[trigger] run.after(
            earlier.take(i),
        )).current is Some by {
            assert(earlier.take(i) =~= failures.take(i));
        }
        lemma_clean_run_counts(run, earlier);
        assert(failures.take(failures.len() - 1) =~= earlier);
        assert(run.after(failures.take(failures.len() - 1)).current is Some);
    }
}

/// A clean-up that goes on with one outcome after the other reports, on the
/// way and later, what it had still to report before.
pub proof fn lemma_clean_run(
    run: CleanRunView,
    failures: Seq<Option<Seq<char>>>,
    later: Seq<Option<Seq<char>>>,
)
    requires
        in_work_throughout(run, failures),
        failures.len() + later.len() == run.unfinished(),
    ensures
        run.notes_after(failures) + run.after(failures).remaining(later) == run.remaining(
            failures + later,
        ),
    decreases failures.len(),
{
    if failures.len() == 0 {
        assert(failures + later =~= later);
        assert(run.notes_after(failures) + run.after(failures).remaining(later) =~= run.remaining(
            failures + later,
        ));
    } else {
        let earlier = failures.drop_last();
        let rest = seq![failures.last()] + later;
        assert forall|i: int| 0 <= i < earlier.len() implies (#[trigger] run.after(
            earlier.take(i),
        )).current is Some by {
            assert(earlier.take(i) =~= failures.take(i));
        }
        lemma_clean_run_counts(run, earlier);
        lemma_clean_run(run, earlier, rest);
        let there = run.after(earlier);
        assert(failures.take(failures.len() - 1) =~= earlier);
        assert(there.current is Some);
        lemma_clean_resume(there, rest);
        assert(rest.skip(1) =~= later);
        assert(earlier + rest =~= failures + later);
        let step = there.resume(failures.last());
        assert(run.notes_after(failures) + run.after(failures).remaining(later)
            =~= run.notes_after(earlier) + (step.notes + step.run.remaining(later)));
    }
}

/// In a clean-up that has just begun, the candidates come into work in
/// their order, one with each outcome.
pub proof fn lemma_clean_order(run: CleanRunView, failures: Seq<Option<Seq<char>>>, k: int)
    requires
        run.current is None,
        in_work_throughout(run.start().run, failures),
        0 <= k <= failures.len(),
    ensures
        k <= run.waiting.len(),
        run.start().run.after(failures.take(k)) == (CleanRunView {
            current: if k < run.waiting.len() {
                Some(run.waiting[k])
            } else {
                None
            },
            waiting: if k < run.waiting.len() {
                run.waiting.skip(k + 1)
            } else {
                run.waiting.skip(k)
            },
        }),
    decreases k,
{
    let begun = run.start().run;
    if k == 0 {
        assert(failures.take(0) =~= Seq::<Option<Seq<char>>>::empty());
        if run.waiting.len() == 0 {
            assert(run.waiting.skip(0) =~= run.waiting);
        }
    } else {
        lemma_clean_order(run, failures, k - 1);
        assert(failures.take(k).drop_last() =~= failures.take(k - 1));
        assert(begun.after(failures.take(k - 1)).current is Some);
        let there = begun.after(failures.take(k - 1));
        if k < run.waiting.len() {
            assert(run.waiting.skip(k).skip(1) =~= run.waiting.skip(k + 1));
            assert(run.waiting.skip(k)[0] == run.waiting[k]);
        }
    }
}

/// A clean-up that is driven from its beginning until no candidate is left
/// has seen one outcome for each candidate, has had each candidate in work
/// when its outcome came, and has reported exactly what a clean-up of its
/// candidates reports: for each candidate in turn that work on it begins and
/// how it ended, and at the end, once, that the clean-up is finished.
pub proof fn lemma_clean_to_the_end(run: CleanRunView, failures: Seq<Option<Seq<char>>>)
    requires
        run.current is None,
        in_work_throughout(run.start().run, failures),
        run.start().run.after(failures).unfinished() == 0,
    ensures
        failures.len() == run.waiting.len(),
        forall|i: int|
            0 <= i < failures.len() ==> (#[trigger] run.start().run.after(
                failures.take(i),
            )).current == Some(run.waiting[i]),
        run.start().notes + run.start().run.notes_after(failures) == clean_events(
            run.waiting,
            failures,
        ),
{
    let begun = run.start();
    lemma_clean_run_counts(begun.run, failures);
    assert(failures.len() == run.waiting.len());
    assert forall|i: int| 0 <= i < failures.len() implies (#[trigger] begun.run.after(
        failures.take(i),
    )).current == Some(run.waiting[i]) by {
        lemma_clean_order(run, failures, i);
    }
    lemma_clean_start(run, failures);
    let none = Seq::<Option<Seq<char>>>::empty();
    lemma_clean_run(begun.run, failures, none);
    assert(failures + none =~= failures);
    assert(begun.notes + begun.run.notes_after(failures) =~= begun.notes + (
    begun.run.notes_after(failures) + begun.run.after(failures).remaining(none)));
}

} // verus!
