//! What a scan of a whole tree reports, stated over a tree as a mathematical
//! value, and how the steps of a [`crate::scan::Scan`] add up to it.

use vstd::prelude::*;
use crate::matcher::MatcherView;
use crate::models::{FileInfoView, RemovalActionView, RemovalCandidateView};
use crate::plan::{children_to_walk, lemma_children_are_listed, matchers_pass};
use crate::scan::{settle, PhaseView, ScanView, WalkAnswerView, WalkEvent, WalkRequestView};

verus! {

/// A tree of files as a mathematical value.
pub struct Tree {
    /// The children of a directory in the order in which they are listed, or
    /// why they cannot be listed.
    pub listing: spec_fn(FileInfoView) -> Result<Seq<FileInfoView>, Seq<char>>,
    /// The size of an entry, where it can be found out.
    pub size: spec_fn(FileInfoView) -> Option<u64>,
    /// A bound on how deep the tree is nested below an entry.
    pub depth: spec_fn(FileInfoView) -> nat,
}

impl Tree {
    /// Whether `child` is listed in `dir`.
    pub open spec fn lists(self, dir: FileInfoView, child: FileInfoView) -> bool {
        (self.listing)(dir) is Ok && (self.listing)(dir)->Ok_0.contains(child)
    }

    /// The tree is finite: a child lies less deep than the directory that
    /// lists it.
    pub open spec fn well_founded(self) -> bool {
        forall|dir: FileInfoView, child: FileInfoView| #[trigger]
            self.lists(dir, child) ==> (self.depth)(child) < (self.depth)(dir)
    }

    /// What the tree answers to a request.
    pub open spec fn answer(self, request: WalkRequestView) -> WalkAnswerView {
        match request {
            WalkRequestView::List(dir) => WalkAnswerView::Listing((self.listing)(dir)),
            WalkRequestView::Measure(file) => WalkAnswerView::Size((self.size)(file)),
            WalkRequestView::Done => WalkAnswerView::Size(None),
        }
    }
}

/// What a scan goes by: the matchers in their order, the paths to leave
/// alone, and whether hidden directories are walked into.
pub struct WalkConfig {
    pub matchers: Seq<MatcherView>,
    pub ignores: Set<Seq<char>>,
    pub walk_all: bool,
}

impl ScanView {
    /// What the scan goes by.
    pub open spec fn config(self) -> WalkConfig {
        WalkConfig { matchers: self.matchers, ignores: self.ignores, walk_all: self.walk_all }
    }
}

/// A planned candidate with the size that the tree gives for what it
/// deletes.
pub open spec fn sized(tree: Tree, candidate: RemovalCandidateView) -> RemovalCandidateView {
    match candidate.action {
        RemovalActionView::Delete { file_info, .. } => RemovalCandidateView::delete(
            candidate.matcher_name,
            file_info,
            (tree.size)(file_info),
        ),
        RemovalActionView::RunCommand { .. } => candidate,
    }
}

/// The function that turns a planned candidate into the report of it.
pub open spec fn proposal(tree: Tree) -> spec_fn(RemovalCandidateView) -> WalkEvent {
    |c: RemovalCandidateView| WalkEvent::CandidateForRemoval(sized(tree, c))
}

/// The reports of planned candidates, in their order.
pub open spec fn proposals(tree: Tree, plan: Seq<RemovalCandidateView>) -> Seq<WalkEvent> {
    plan.map_values(proposal(tree))
}

/// What is reported of `dir` once it is entered: that it cannot be listed;
/// or what the matchers propose for its entries, and then everything that is
/// reported of each entry that is walked into, in their order.
pub open spec fn walk_listed(tree: Tree, config: WalkConfig, dir: FileInfoView) -> Seq<WalkEvent>
    decreases (tree.depth)(dir), 1nat, 0nat,
{
    match (tree.listing)(dir) {
        Err(failure) => seq![WalkEvent::FailedToScan(dir, failure)],
        Ok(entries) => proposals(
            tree,
            matchers_pass(config.ignores, dir, config.matchers, entries).candidates,
        ) + walk_children(
            tree,
            config,
            children_to_walk(config.ignores, config.walk_all, dir, config.matchers, entries),
            (tree.depth)(dir),
        ),
    }
}

/// What is reported of `dir` and everything below it: nothing where it is
/// ignored; else that it is entered, and what follows.
pub open spec fn walk_dir(tree: Tree, config: WalkConfig, dir: FileInfoView) -> Seq<WalkEvent>
    decreases (tree.depth)(dir), 2nat, 0nat,
{
    if config.ignores.contains(dir.path) {
        Seq::empty()
    } else {
        seq![WalkEvent::EnteredDirectory(dir)] + walk_listed(tree, config, dir)
    }
}

/// What is reported of each of `dirs` in turn, all of which lie less deep
/// than `bound`.
pub open spec fn walk_children(
    tree: Tree,
    config: WalkConfig,
    dirs: Seq<FileInfoView>,
    bound: nat,
) -> Seq<WalkEvent>
    decreases bound, 0nat, dirs.len(),
{
    if dirs.len() == 0 {
        Seq::empty()
    } else {
        (if (tree.depth)(dirs[0]) < bound {
            walk_dir(tree, config, dirs[0])
        } else {
            Seq::empty()
        }) + walk_children(tree, config, dirs.skip(1), bound)
    }
}

/// What is reported of each of `dirs` in turn.
pub open spec fn walk_each(tree: Tree, config: WalkConfig, dirs: Seq<FileInfoView>) -> Seq<
    WalkEvent,
>
    decreases dirs.len(),
{
    if dirs.len() == 0 {
        Seq::empty()
    } else {
        walk_dir(tree, config, dirs[0]) + walk_each(tree, config, dirs.skip(1))
    }
}

/// Everything that a scan of the tree from `root` reports: what is reported
/// of `root` and everything below it, and at the end, once, that the walk is
/// finished.
pub open spec fn walk_events(tree: Tree, config: WalkConfig, root: FileInfoView) -> Seq<
    WalkEvent,
> {
    walk_dir(tree, config, root).push(WalkEvent::WalkFinished)
}

/// Everything that a scan in this state has still to report where the
/// answers come from `tree`.
pub open spec fn remaining(tree: Tree, scan: ScanView) -> Seq<WalkEvent> {
    match scan.phase {
        PhaseView::Idle => Seq::empty(),
        PhaseView::Listing(dir) => walk_listed(tree, scan.config(), dir) + walk_each(
            tree,
            scan.config(),
            scan.pending,
        ).push(WalkEvent::WalkFinished),
        PhaseView::Measuring { matcher_name, file_info, plan } => seq![
            WalkEvent::CandidateForRemoval(
                RemovalCandidateView::delete(matcher_name, file_info, (tree.size)(file_info)),
            ),
        ] + proposals(tree, plan) + walk_each(tree, scan.config(), scan.pending).push(
            WalkEvent::WalkFinished,
        ),
    }
}

/// Walking directories one after the other reports what walking the first
/// ones reports, then what walking the others reports.
pub proof fn lemma_walk_each_add(
    tree: Tree,
    config: WalkConfig,
    first: Seq<FileInfoView>,
    second: Seq<FileInfoView>,
)
    ensures
        walk_each(tree, config, first + second) == walk_each(tree, config, first) + walk_each(
            tree,
            config,
            second,
        ),
    decreases first.len(),
{
    if first.len() == 0 {
        assert(first + second =~= second);
    } else {
        lemma_walk_each_add(tree, config, first.skip(1), second);
        assert((first + second).skip(1) =~= first.skip(1) + second);
        assert((first + second)[0] == first[0]);
    }
}

/// Where every directory lies less deep than the bound, the bound makes no
/// difference.
pub proof fn lemma_walk_children_is_walk_each(
    tree: Tree,
    config: WalkConfig,
    dirs: Seq<FileInfoView>,
    bound: nat,
)
    requires
        forall|i: int| 0 <= i < dirs.len() ==> (tree.depth)(#[trigger] dirs[i]) < bound,
    ensures
        walk_children(tree, config, dirs, bound) == walk_each(tree, config, dirs),
    decreases dirs.len(),
{
    if dirs.len() > 0 {
        assert(dirs[0] == dirs[0]);
        assert forall|i: int| 0 <= i < dirs.skip(1).len() implies (tree.depth)(
            #[trigger] dirs.skip(1)[i],
        ) < bound by {
            assert(dirs.skip(1)[i] == dirs[i + 1]);
        }
        lemma_walk_children_is_walk_each(tree, config, dirs.skip(1), bound);
    }
}

/// A scan that comes to rest reports, then and later, what is planned and
/// then what walking the pending directories reports.
pub proof fn lemma_settle_follows_tree(
    tree: Tree,
    scan: ScanView,
    pending: Seq<FileInfoView>,
    plan: Seq<RemovalCandidateView>,
)
    ensures
        ({
            let settled = settle(scan.ignores, pending, plan);
            settled.notes + remaining(
                tree,
                ScanView { pending: settled.pending, phase: settled.phase, ..scan },
            ) == proposals(tree, plan) + walk_each(tree, scan.config(), pending).push(
                WalkEvent::WalkFinished,
            )
        }),
    decreases plan.len() + pending.len(),
{
    let settled = settle(scan.ignores, pending, plan);
    let rest = ScanView { pending: settled.pending, phase: settled.phase, ..scan };
    let config = scan.config();
    assert(rest.config() == config);
    let goal = proposals(tree, plan) + walk_each(tree, config, pending).push(
        WalkEvent::WalkFinished,
    );
    if plan.len() > 0 {
        assert(proposals(tree, plan) =~= seq![proposal(tree)(plan[0])] + proposals(
            tree,
            plan.skip(1),
        ));
        match plan[0].action {
            RemovalActionView::Delete { file_info, .. } => {
                assert(settled.notes + remaining(tree, rest) =~= goal);
            },
            RemovalActionView::RunCommand { .. } => {
                lemma_settle_follows_tree(tree, scan, pending, plan.skip(1));
                let later = settle(scan.ignores, pending, plan.skip(1));
                let first = seq![WalkEvent::CandidateForRemoval(plan[0])];
                assert(proposal(tree)(plan[0]) == WalkEvent::CandidateForRemoval(plan[0]));
                assert(settled.notes == first + later.notes);
                assert(first + later.notes + remaining(tree, rest) =~= first + (later.notes
                    + remaining(tree, rest)));
                assert(first + (proposals(tree, plan.skip(1)) + walk_each(
                    tree,
                    config,
                    pending,
                ).push(WalkEvent::WalkFinished)) =~= goal);
            },
        }
    } else if pending.len() > 0 {
        assert(proposals(tree, plan) =~= Seq::<WalkEvent>::empty());
        if scan.ignores.contains(pending[0].path) {
            lemma_settle_follows_tree(tree, scan, pending.skip(1), plan);
            assert(walk_dir(tree, config, pending[0]) =~= Seq::<WalkEvent>::empty());
            assert(settled.notes + remaining(tree, rest) =~= goal);
        } else {
            assert(settled.notes + remaining(tree, rest) =~= goal);
        }
    } else {
        assert(settled.notes + remaining(tree, rest) =~= goal);
    }
}

/// A scan that begins at `root` reports, then and later, everything that a
/// scan of the tree from `root` reports.
pub proof fn lemma_start_follows_tree(tree: Tree, scan: ScanView, root: FileInfoView)
    ensures
        scan.start(root).notes + remaining(tree, scan.start(root).scan) == walk_events(
            tree,
            scan.config(),
            root,
        ),
{
    lemma_settle_follows_tree(tree, scan, seq![root], Seq::empty());
    let config = scan.config();
    assert(proposals(tree, Seq::empty()) =~= Seq::<WalkEvent>::empty());
    assert(seq![root].skip(1) =~= Seq::<FileInfoView>::empty());
    assert(walk_each(tree, config, seq![root]) =~= walk_dir(tree, config, root)) by {
        reveal_with_fuel(walk_each, 2);
    }
    assert(scan.start(root).notes + remaining(tree, scan.start(root).scan) =~= walk_events(
        tree,
        config,
        root,
    ));
}

/// A scan that goes on with the answer of the tree reports, then and
/// later, what it had still to report before.
pub proof fn lemma_resume_follows_tree(tree: Tree, scan: ScanView)
    requires
        tree.well_founded(),
    ensures
        ({
            let next = scan.resume(tree.answer(scan.request()));
            next.notes + remaining(tree, next.scan) == remaining(tree, scan)
        }),
{
    let next = scan.resume(tree.answer(scan.request()));
    let config = scan.config();
    let later = walk_each(tree, config, scan.pending).push(WalkEvent::WalkFinished);
    match scan.phase {
        PhaseView::Idle => {
            assert(next.notes + remaining(tree, next.scan) =~= remaining(tree, scan));
        },
        PhaseView::Listing(dir) => {
            match (tree.listing)(dir) {
                Err(failure) => {
                    lemma_settle_follows_tree(tree, scan, scan.pending, Seq::empty());
                    let settled = settle(scan.ignores, scan.pending, Seq::empty());
                    let first = seq![WalkEvent::FailedToScan(dir, failure)];
                    assert(proposals(tree, Seq::empty()) =~= Seq::<WalkEvent>::empty());
                    assert(next.notes == first + settled.notes);
                    assert(first + settled.notes + remaining(tree, next.scan) =~= first + (
                    settled.notes + remaining(tree, next.scan)));
                    assert(first + (Seq::<WalkEvent>::empty() + later) =~= remaining(tree, scan));
                },
                Ok(entries) => {
                    let plan = matchers_pass(scan.ignores, dir, scan.matchers, entries).candidates;
                    let kids = children_to_walk(
                        scan.ignores,
                        scan.walk_all,
                        dir,
                        scan.matchers,
                        entries,
                    );
                    lemma_settle_follows_tree(tree, scan, kids + scan.pending, plan);
                    lemma_walk_each_add(tree, config, kids, scan.pending);
                    assert forall|i: int| 0 <= i < kids.len() implies (tree.depth)(
                        #[trigger] kids[i],
                    ) < (tree.depth)(dir) by {
                        assert(kids.contains(kids[i]));
                        lemma_children_are_listed(
                            scan.ignores,
                            scan.walk_all,
                            dir,
                            scan.matchers,
                            entries,
                            kids[i],
                        );
                        assert(tree.lists(dir, kids[i]));
                    }
                    lemma_walk_children_is_walk_each(tree, config, kids, (tree.depth)(dir));
                    let settled = settle(scan.ignores, kids + scan.pending, plan);
                    assert(next.notes =~= settled.notes);
                    assert(proposals(tree, plan) + (walk_each(tree, config, kids) + walk_each(
                        tree,
                        config,
                        scan.pending,
                    )).push(WalkEvent::WalkFinished) =~= remaining(tree, scan));
                },
            }
        },
        PhaseView::Measuring { matcher_name, file_info, plan } => {
            lemma_settle_follows_tree(tree, scan, scan.pending, plan);
            let settled = settle(scan.ignores, scan.pending, plan);
            let first = seq![
                WalkEvent::CandidateForRemoval(
                    RemovalCandidateView::delete(matcher_name, file_info, (tree.size)(file_info)),
                ),
            ];
            assert(next.notes == first + settled.notes);
            assert(first + settled.notes + remaining(tree, next.scan) =~= first + (settled.notes
                + remaining(tree, next.scan)));
            assert(first + (proposals(tree, plan) + later) =~= remaining(tree, scan));
        },
    }
}

/// Whether each of `given` is what the tree answers when its turn comes.
pub open spec fn answered_by_tree(tree: Tree, scan: ScanView, given: Seq<WalkAnswerView>) -> bool {
    forall|i: int|
        0 <= i < given.len() ==> #[trigger] given[i] == tree.answer(
            scan.after(given.take(i)).request(),
        )
}

/// A scan that goes on with one answer of the tree after the other reports,
/// on the way and later, what it had still to report before.
pub proof fn lemma_run_follows_tree(tree: Tree, scan: ScanView, given: Seq<WalkAnswerView>)
    requires
        tree.well_founded(),
        answered_by_tree(tree, scan, given),
    ensures
        scan.notes_after(given) + remaining(tree, scan.after(given)) == remaining(tree, scan),
    decreases given.len(),
{
    if given.len() == 0 {
        assert(scan.notes_after(given) + remaining(tree, scan.after(given)) =~= remaining(
            tree,
            scan,
        ));
    } else {
        let earlier = given.drop_last();
        assert forall|i: int| 0 <= i < earlier.len() implies #[trigger] earlier[i] == tree.answer(
            scan.after(earlier.take(i)).request(),
        ) by {
            assert(earlier.take(i) =~= given.take(i));
            assert(earlier[i] == given[i]);
        }
        lemma_run_follows_tree(tree, scan, earlier);
        let there = scan.after(earlier);
        assert(given.take(given.len() - 1) =~= earlier);
        assert(given.last() == tree.answer(there.request()));
        lemma_resume_follows_tree(tree, there);
        let step = there.resume(given.last());
        assert(scan.notes_after(given) + remaining(tree, scan.after(given)) =~= scan.notes_after(
            earlier,
        ) + (step.notes + remaining(tree, step.scan)));
    }
}

/// A walk that is driven by the answers of a tree until nothing is left to
/// ask reports exactly what a scan of the tree reports: no more, no less,
/// and in the same order.
pub proof fn lemma_walk_follows_tree(
    tree: Tree,
    scan: ScanView,
    root: FileInfoView,
    given: Seq<WalkAnswerView>,
)
    requires
        tree.well_founded(),
        answered_by_tree(tree, scan.start(root).scan, given),
        scan.start(root).scan.after(given).request() is Done,
    ensures
        scan.start(root).notes + scan.start(root).scan.notes_after(given) == walk_events(
            tree,
            scan.config(),
            root,
        ),
{
    let begun = scan.start(root);
    lemma_start_follows_tree(tree, scan, root);
    lemma_run_follows_tree(tree, begun.scan, given);
    assert(begun.notes + begun.scan.notes_after(given) =~= begun.notes + (begun.scan.notes_after(
        given,
    ) + remaining(tree, begun.scan.after(given))));
}

} // verus!
