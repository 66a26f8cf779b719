//! Walks a tree: puts the questions of a [`Scan`] to a file system and hands
//! its notes to a notifier.

use vstd::prelude::*;
use crate::filesystem::FileSystem;
use crate::ignore::IgnoreSet;
use crate::matcher::{matcher_views, Matcher};
use crate::models::{Failure, FileInfo, FileInfoView, RemovalCandidate};
use crate::scan::{
    note_views, PhaseView, Progress, Scan, ScanView, WalkAnswer, WalkAnswerView, WalkEvent,
    WalkNote, WalkRequest, WalkRequestView,
};
use crate::laws::{
    finished_at_the_end, fits, lemma_answers_are_counted, lemma_walk_finishes_once, unfinished,
};
use crate::tree::{
    answered_by_tree, lemma_run_follows_tree, lemma_start_follows_tree, lemma_walk_follows_tree,
    remaining, walk_events, Tree,
};

verus! {

/// Hears how the walk goes.
pub trait WalkNotifier {
    fn notify_entered_directory(&self, dir: &FileInfo);

    fn notify_candidate_for_removal(&self, candidate: RemovalCandidate);

    fn notify_fail_to_scan(&self, e: &FileInfo, report: Failure);

    fn notify_walk_finish(&self);
}

/// Whether the notifier has been handed `note`: whether its method for this
/// kind of note has been called with what the note holds.
pub open spec fn told<N: WalkNotifier>(notifier: N, note: WalkNote) -> bool {
    match note {
        WalkNote::EnteredDirectory(dir) => call_ensures(
            N::notify_entered_directory,
            (&notifier, &dir),
            (),
        ),
        WalkNote::CandidateForRemoval(candidate) => call_ensures(
            N::notify_candidate_for_removal,
            (&notifier, candidate),
            (),
        ),
        WalkNote::FailedToScan(dir, failure) => call_ensures(
            N::notify_fail_to_scan,
            (&notifier, &dir, failure),
            (),
        ),
        WalkNote::WalkFinished => call_ensures(N::notify_walk_finish, (&notifier,), ()),
    }
}

/// Whether the notifier has been handed each of `notes`.
pub open spec fn all_told<N: WalkNotifier>(notifier: N, notes: Seq<WalkNote>) -> bool {
    forall|i: int| 0 <= i < notes.len() ==> told(notifier, #[trigger] notes[i])
}

/// Whether the notifier has been handed notes that say `events`, one note
/// for each event.
pub open spec fn reported<N: WalkNotifier>(notifier: N, events: Seq<WalkEvent>) -> bool {
    exists|notes: Seq<WalkNote>| #[trigger] note_views(notes) == events && all_told(notifier, notes)
}

/// What was reported first and what was reported next was reported.
pub proof fn lemma_reported_add<N: WalkNotifier>(
    notifier: N,
    first: Seq<WalkEvent>,
    next: Seq<WalkEvent>,
)
    requires
        reported(notifier, first),
        reported(notifier, next),
    ensures
        reported(notifier, first + next),
{
    let a = choose|notes: Seq<WalkNote>| #[trigger]
        note_views(notes) == first && all_told(notifier, notes);
    let b = choose|notes: Seq<WalkNote>| #[trigger]
        note_views(notes) == next && all_told(notifier, notes);
    assert(note_views(a + b) =~= first + next);
    assert forall|i: int| 0 <= i < (a + b).len() implies told(notifier, #[trigger] (a + b)[i]) by {
        if i < a.len() {
            assert((a + b)[i] == a[i]);
        } else {
            assert((a + b)[i] == b[i - a.len()]);
        }
    }
}

/// Hands each note to the notifier, in order.
pub fn report<N: WalkNotifier>(notifier: &N, notes: Vec<WalkNote>)
    ensures
        all_told(*notifier, notes@),
{
    let ghost all = notes@;
    for note in iter: notes
        invariant
            all == iter.seq(),
            forall|i: int| 0 <= i < iter.index() ==> told(*notifier, #[trigger] all[i]),
    {
        match note {
            WalkNote::EnteredDirectory(dir) => notifier.notify_entered_directory(&dir),
            WalkNote::CandidateForRemoval(candidate) => notifier.notify_candidate_for_removal(
                candidate,
            ),
            WalkNote::FailedToScan(dir, failure) => notifier.notify_fail_to_scan(&dir, failure),
            WalkNote::WalkFinished => notifier.notify_walk_finish(),
        }
    }
}

/// Whether `answer` is what the file system gave when it was asked what
/// `request` asks: to list the directory, or to measure the entry.
pub open spec fn asked<FS: FileSystem>(
    fs: FS,
    request: WalkRequestView,
    answer: WalkAnswer,
) -> bool {
    match request {
        WalkRequestView::List(listed) => answer is Listing && exists|dir: FileInfo|
            dir@ == listed && #[trigger] call_ensures(
                FS::list_files,
                (&fs, &dir),
                answer->Listing_0,
            ),
        WalkRequestView::Measure(measured) => answer is Size && exists|file: FileInfo|
            file@ == measured && #[trigger] call_ensures(
                FS::file_size,
                (&fs, &file),
                answer->Size_0,
            ),
        WalkRequestView::Done => false,
    }
}

/// Puts a request to the file system: has the directory listed, or the entry
/// measured. Where nothing is asked, nothing is done.
pub fn ask<FS: FileSystem>(fs: &FS, request: &WalkRequest) -> (answer: Option<WalkAnswer>)
    ensures
        match answer {
            Some(found) => asked(*fs, request@, found),
            None => request@ is Done,
        },
{
    match request {
        WalkRequest::List(dir) => Some(WalkAnswer::Listing(fs.list_files(dir))),
        WalkRequest::Measure(file) => Some(WalkAnswer::Size(fs.file_size(file))),
        WalkRequest::Done => None,
    }
}

/// The views of a sequence of answers, in the same order.
pub open spec fn answer_views(given: Seq<WalkAnswer>) -> Seq<WalkAnswerView> {
    given.map_values(|a: WalkAnswer| a@)
}

/// Whether one step has taken a scan from `before` to `after`: the file
/// system was asked what the scan asked, the scan went on with the answer,
/// and the notifier was handed what the scan reported.
pub open spec fn stepped<FS: FileSystem, N: WalkNotifier>(
    fs: FS,
    notifier: N,
    before: ScanView,
    after: ScanView,
    answer: WalkAnswer,
) -> bool {
    &&& asked(fs, before.request(), answer)
    &&& after == before.resume(answer@).scan
    &&& reported(notifier, before.resume(answer@).notes)
}

/// Whether a walk has taken a scan from where it began to `after`: the
/// file system was asked, time after time, what the scan asked then, the
/// scan went on with each answer, and the notifier was handed everything
/// that the scan reported, from the beginning.
pub open spec fn walked<FS: FileSystem, N: WalkNotifier>(
    fs: FS,
    notifier: N,
    begun: Progress,
    after: ScanView,
    given: Seq<WalkAnswer>,
) -> bool {
    &&& forall|i: int|
        0 <= i < given.len() ==> asked(
            fs,
            begun.scan.after(answer_views(given).take(i)).request(),
            #[trigger] given[i],
        )
    &&& after == begun.scan.after(answer_views(given))
    &&& reported(notifier, walk_notes(begun, given))
}

/// Everything that a walk has reported from where it began.
pub open spec fn walk_notes(begun: Progress, given: Seq<WalkAnswer>) -> Seq<WalkEvent> {
    begun.notes + begun.scan.notes_after(answer_views(given))
}

/// Whether a walk has gone as far as it goes: it has taken the scan from
/// where it began to `after`, and it has stopped only because nothing is
/// left to ask (then it is `finished`) or because it has asked as many
/// questions as a `usize` can count. A walk that is finished has said so
/// once, and at the end; one that is not has not said so at all.
pub open spec fn walked_out<FS: FileSystem, N: WalkNotifier>(
    fs: FS,
    notifier: N,
    begun: Progress,
    after: ScanView,
    given: Seq<WalkAnswer>,
    finished: bool,
) -> bool {
    &&& walked(fs, notifier, begun, after, given)
    &&& finished == after.request() is Done
    &&& finished || given.len() == usize::MAX
    &&& if finished {
        finished_at_the_end(walk_notes(begun, given))
    } else {
        unfinished(walk_notes(begun, given))
    }
}

/// A walk says that it is finished exactly when nothing is left to ask, and
/// then once, and at the end.
pub proof fn lemma_walked_finishes_once<FS: FileSystem, N: WalkNotifier>(
    fs: FS,
    notifier: N,
    scan: ScanView,
    root: FileInfoView,
    after: ScanView,
    given: Seq<WalkAnswer>,
)
    requires
        walked(fs, notifier, scan.start(root), after, given),
    ensures
        if after.request() is Done {
            finished_at_the_end(walk_notes(scan.start(root), given))
        } else {
            unfinished(walk_notes(scan.start(root), given))
        },
{
    let begun = scan.start(root);
    let views = answer_views(given);
    assert forall|i: int| 0 <= i < views.len() implies !((#[trigger] begun.scan.after(
        views.take(i),
    )).request() is Done) by {
        assert(asked(fs, begun.scan.after(views.take(i)).request(), given[i]));
    }
    lemma_walk_finishes_once(scan, root, views);
}

/// A walk that is taken one step further is a walk still.
pub proof fn lemma_walked_on<FS: FileSystem, N: WalkNotifier>(
    fs: FS,
    notifier: N,
    begun: Progress,
    before: ScanView,
    after: ScanView,
    given: Seq<WalkAnswer>,
    answer: WalkAnswer,
)
    requires
        walked(fs, notifier, begun, before, given),
        stepped(fs, notifier, before, after, answer),
    ensures
        walked(fs, notifier, begun, after, given.push(answer)),
{
    let longer = given.push(answer);
    let views = answer_views(longer);
    assert(views =~= answer_views(given).push(answer@));
    assert(views.drop_last() =~= answer_views(given));
    assert forall|i: int| 0 <= i < longer.len() implies asked(
        fs,
        begun.scan.after(views.take(i)).request(),
        #[trigger] longer[i],
    ) by {
        if i < given.len() {
            assert(views.take(i) =~= answer_views(given).take(i));
            assert(longer[i] == given[i]);
        } else {
            assert(views.take(i) =~= answer_views(given));
        }
    }
    lemma_reported_add(
        notifier,
        begun.notes + begun.scan.notes_after(answer_views(given)),
        before.resume(answer@).notes,
    );
    assert(begun.notes + begun.scan.notes_after(views) =~= begun.notes
        + begun.scan.notes_after(answer_views(given)) + before.resume(answer@).notes);
}

/// Whether the file system behaves like `tree`: whatever listing it gives of
/// a directory is the one that the tree has for it, and whatever size it
/// gives of an entry, or fails to give, is the one that the tree has.
pub open spec fn behaves_like<FS: FileSystem>(fs: FS, tree: Tree) -> bool {
    &&& forall|dir: FileInfo, listing: Result<Vec<FileInfo>, Failure>| #[trigger]
        call_ensures(FS::list_files, (&fs, &dir), listing) ==> WalkAnswer::Listing(listing)@
            == WalkAnswerView::Listing((tree.listing)(dir@))
    &&& forall|file: FileInfo, size: Result<u64, Failure>| #[trigger]
        call_ensures(FS::file_size, (&fs, &file), size) ==> WalkAnswer::Size(size)@
            == WalkAnswerView::Size((tree.size)(file@))
}

/// A walk to the end over a file system that behaves like a tree tells the
/// notifier what a scan of that tree reports, note for note.
pub proof fn lemma_walk_reports_tree<FS: FileSystem, N: WalkNotifier>(
    fs: FS,
    notifier: N,
    tree: Tree,
    scan: ScanView,
    root: FileInfoView,
    after: ScanView,
    given: Seq<WalkAnswer>,
)
    requires
        tree.well_founded(),
        behaves_like(fs, tree),
        walked(fs, notifier, scan.start(root), after, given),
        after.request() is Done,
    ensures
        reported(notifier, walk_events(tree, scan.config(), root)),
{
    let begun = scan.start(root);
    let views = answer_views(given);
    assert forall|i: int| 0 <= i < views.len() implies #[trigger] views[i] == tree.answer(
        begun.scan.after(views.take(i)).request(),
    ) by {
        assert(asked(fs, begun.scan.after(views.take(i)).request(), given[i]));
    }
    assert(answered_by_tree(tree, begun.scan, views));
    lemma_walk_follows_tree(tree, scan, root, views);
}

/// A walk over a file system that behaves like a tree comes to its end, and
/// tells the notifier what a scan of that tree reports, note for note,
/// provided that those are fewer notes than a `usize` can count.
pub proof fn lemma_walk_out_reports_tree<FS: FileSystem, N: WalkNotifier>(
    fs: FS,
    notifier: N,
    tree: Tree,
    scan: ScanView,
    root: FileInfoView,
    after: ScanView,
    given: Seq<WalkAnswer>,
    finished: bool,
)
    requires
        tree.well_founded(),
        behaves_like(fs, tree),
        walked_out(fs, notifier, scan.start(root), after, given, finished),
        walk_events(tree, scan.config(), root).len() < usize::MAX,
    ensures
        finished,
        reported(notifier, walk_events(tree, scan.config(), root)),
{
    let begun = scan.start(root);
    let views = answer_views(given);
    assert forall|i: int| 0 <= i < views.len() implies #[trigger] views[i] == tree.answer(
        begun.scan.after(views.take(i)).request(),
    ) by {
        assert(asked(fs, begun.scan.after(views.take(i)).request(), given[i]));
    }
    assert forall|i: int| 0 <= i < views.len() implies fits(
        (#[trigger] begun.scan.after(views.take(i))).request(),
        views[i],
    ) by {
        assert(asked(fs, begun.scan.after(views.take(i)).request(), given[i]));
    }
    lemma_answers_are_counted(scan, root, views);
    lemma_start_follows_tree(tree, scan, root);
    lemma_run_follows_tree(tree, begun.scan, views);
    assert(walk_events(tree, scan.config(), root) =~= walk_notes(begun, given) + remaining(
        tree,
        after,
    ));
    assert(finished);
    lemma_walk_reports_tree(fs, notifier, tree, scan, root, after, given);
}

/// Whether a walk has gone as far as it goes that began at `root`, the
/// directory that the file system said it starts in.
pub open spec fn walked_from_start<FS: FileSystem, N: WalkNotifier>(
    fs: FS,
    notifier: N,
    before: ScanView,
    after: ScanView,
    root: FileInfo,
    given: Seq<WalkAnswer>,
    finished: bool,
) -> bool {
    &&& call_ensures(FS::current_directory, (&fs,), Ok::<FileInfo, Failure>(root))
    &&& walked_out(fs, notifier, before.start(root@), after, given, finished)
}

/// A scan together with the file system that it reads and the notifier that
/// it reports to.
pub struct Walker<FS: FileSystem, N: WalkNotifier> {
    fs: FS,
    notifier: N,
    scan: Scan,
}

impl<FS: FileSystem, N: WalkNotifier> Walker<FS, N> {
    /// The scan that the walker drives.
    pub closed spec fn scan(&self) -> ScanView {
        self.scan@
    }

    /// The file system that the walker reads.
    pub closed spec fn fs(&self) -> FS {
        self.fs
    }

    /// The notifier that the walker reports to.
    pub closed spec fn notifier(&self) -> N {
        self.notifier
    }

    pub fn new(
        fs: FS,
        matchers: Vec<Matcher>,
        notifier: N,
        ignores: IgnoreSet,
        walk_all: bool,
    ) -> (walker: Self)
        ensures
            walker.fs() == fs,
            walker.notifier() == notifier,
            walker.scan() == (ScanView {
                matchers: matcher_views(matchers@),
                ignores: ignores@,
                walk_all,
                pending: Seq::empty(),
                phase: PhaseView::Idle,
            }),
    {
        Self { fs, notifier, scan: Scan::new(matchers, ignores, walk_all) }
    }

    /// Begins a walk at `path`, and reports what the scan reports at once.
    pub fn begin(&mut self, path: &FileInfo)
        ensures
            final(self).fs() == old(self).fs(),
            final(self).notifier() == old(self).notifier(),
            final(self).scan() == old(self).scan().start(path@).scan,
            reported(old(self).notifier(), old(self).scan().start(path@).notes),
    {
        let step = self.scan.start(path.clone());
        report(&self.notifier, step.notes);
    }

    /// Takes the walk one question further: puts the question of the scan to
    /// the file system, hands the answer to the scan, and reports what the
    /// scan reports. Says whether a question is left after that; where none
    /// was left before, nothing is done.
    pub fn step(&mut self) -> (more: bool)
        ensures
            final(self).fs() == old(self).fs(),
            final(self).notifier() == old(self).notifier(),
            more == !(final(self).scan().request() is Done),
            old(self).scan().request() is Done ==> final(self).scan() == old(self).scan(),
            !(old(self).scan().request() is Done) ==> exists|answer: WalkAnswer| #[trigger]
                stepped(
                    old(self).fs(),
                    old(self).notifier(),
                    old(self).scan(),
                    final(self).scan(),
                    answer,
                ),
    {
        let request = self.scan.request();
        match ask(&self.fs, &request) {
            Some(answer) => {
                let step = self.scan.resume(answer);
                let ghost notes = step.notes@;
                report(&self.notifier, step.notes);
                proof {
                    assert(note_views(notes) == old(self).scan().resume(answer@).notes);
                    assert(all_told(self.notifier(), notes));
                    assert(reported(self.notifier(), old(self).scan().resume(answer@).notes));
                    assert(asked(self.fs(), old(self).scan().request(), answer));
                    assert(stepped(
                        old(self).fs(),
                        old(self).notifier(),
                        old(self).scan(),
                        self.scan(),
                        answer,
                    ));
                }
                match step.request {
                    WalkRequest::Done => false,
                    _ => true,
                }
            },
            None => false,
        }
    }

    /// Walks the tree below `path`: begins there, and takes the walk
    /// further question by question until none is left. Says whether none is
    /// left: the walk stops before that only when it has asked as many
    /// questions as a `usize` can count, which is more than a tree on any
    /// disk needs.
    pub fn walk_from_path(&mut self, path: &FileInfo) -> (finished: bool)
        ensures
            final(self).fs() == old(self).fs(),
            final(self).notifier() == old(self).notifier(),
            finished == final(self).scan().request() is Done,
            exists|given: Seq<WalkAnswer>| #[trigger]
                walked_out(
                    old(self).fs(),
                    old(self).notifier(),
                    old(self).scan().start(path@),
                    final(self).scan(),
                    given,
                    finished,
                ),
    {
        self.begin(path);
        let ghost begun = old(self).scan().start(path@);
        let ghost mut given: Seq<WalkAnswer> = Seq::empty();
        let mut budget: usize = usize::MAX;
        let mut more = match self.scan.request() {
            WalkRequest::Done => false,
            _ => true,
        };
        proof {
            assert(answer_views(given) =~= Seq::<WalkAnswerView>::empty());
            assert(begun.notes + begun.scan.notes_after(answer_views(given)) =~= begun.notes);
        }
        while more && budget > 0
            invariant
                self.fs() == old(self).fs(),
                self.notifier() == old(self).notifier(),
                more == !(self.scan().request() is Done),
                walked(self.fs(), self.notifier(), begun, self.scan(), given),
                given.len() + budget == usize::MAX,
            decreases budget,
        {
            let ghost before = self.scan();
            let ghost sofar = given;
            more = self.step();
            budget -= 1;
            proof {
                let answer = choose|answer: WalkAnswer| #[trigger]
                    stepped(self.fs(), self.notifier(), before, self.scan(), answer);
                lemma_walked_on(
                    self.fs(),
                    self.notifier(),
                    begun,
                    before,
                    self.scan(),
                    sofar,
                    answer,
                );
                given = sofar.push(answer);
            }
        }
        proof {
            lemma_walked_finishes_once(
                old(self).fs(),
                old(self).notifier(),
                old(self).scan(),
                path@,
                self.scan(),
                given,
            );
            assert(walked_out(
                old(self).fs(),
                old(self).notifier(),
                begun,
                self.scan(),
                given,
                !more,
            ));
        }
        !more
    }

    /// Walks the tree below the directory that the file system starts in.
    /// Where that directory cannot be found out, the failure is handed back,
    /// and nothing is begun or reported.
    pub fn simple_walk(&mut self) -> (result: Result<bool, Failure>)
        ensures
            final(self).fs() == old(self).fs(),
            final(self).notifier() == old(self).notifier(),
            match result {
                Ok(finished) => finished == final(self).scan().request() is Done && exists|
                    root: FileInfo,
                    given: Seq<WalkAnswer>,
                | #[trigger]
                    walked_from_start(
                        old(self).fs(),
                        old(self).notifier(),
                        old(self).scan(),
                        final(self).scan(),
                        root,
                        given,
                        finished,
                    ),
                Err(failure) => final(self).scan() == old(self).scan() && call_ensures(
                    FS::current_directory,
                    (&old(self).fs(),),
                    Err::<FileInfo, Failure>(failure),
                ),
            },
    {
        match self.fs.current_directory() {
            Ok(root) => {
                let finished = self.walk_from_path(&root);
                proof {
                    let given = choose|given: Seq<WalkAnswer>| #[trigger]
                        walked_out(
                            old(self).fs(),
                            old(self).notifier(),
                            old(self).scan().start(root@),
                            self.scan(),
                            given,
                            finished,
                        );
                    assert(walked_from_start(
                        old(self).fs(),
                        old(self).notifier(),
                        old(self).scan(),
                        self.scan(),
                        root,
                        given,
                        finished,
                    ));
                }
                Ok(finished)
            },
            Err(failure) => Err(failure),
        }
    }

    /// Hands back the file system and the notifier.
    pub fn into_parts(self) -> (parts: (FS, N))
        ensures
            parts.0 == self.fs(),
            parts.1 == self.notifier(),
    {
        (self.fs, self.notifier)
    }
}

} // verus!
