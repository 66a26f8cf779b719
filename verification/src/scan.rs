//! The scan as a machine that never touches the outside world itself: it
//! says what it needs to know next, is handed the answer, and says what is
//! to be reported.

use std::collections::VecDeque;
use vstd::prelude::*;
use crate::ignore::IgnoreSet;
use crate::matcher::{matcher_views, Matcher, MatcherView};
use crate::models::{
    views_of, Failure, FileInfo, FileInfoView, RemovalAction, RemovalActionView, RemovalCandidate,
    RemovalCandidateView,
};
use crate::plan::{children_to_walk, matchers_pass, process_entries, queue_views};

verus! {

/// One thing that a scan reports.
#[derive(Debug)]
pub enum WalkNote {
    /// The scan is about to list the directory.
    EnteredDirectory(FileInfo),
    /// A matcher proposes the candidate.
    CandidateForRemoval(RemovalCandidate),
    /// The directory could not be listed, and why; nothing below it is
    /// visited.
    FailedToScan(FileInfo, Failure),
    /// The whole tree has been dealt with.
    WalkFinished,
}

/// A [`WalkNote`] as a mathematical value.
pub enum WalkEvent {
    EnteredDirectory(FileInfoView),
    CandidateForRemoval(RemovalCandidateView),
    FailedToScan(FileInfoView, Seq<char>),
    WalkFinished,
}

impl View for WalkNote {
    type V = WalkEvent;

    open spec fn view(&self) -> WalkEvent {
        match *self {
            WalkNote::EnteredDirectory(dir) => WalkEvent::EnteredDirectory(dir@),
            WalkNote::CandidateForRemoval(candidate) => WalkEvent::CandidateForRemoval(
                candidate@,
            ),
            WalkNote::FailedToScan(dir, failure) => WalkEvent::FailedToScan(dir@, failure@),
            WalkNote::WalkFinished => WalkEvent::WalkFinished,
        }
    }
}

/// The views of a sequence of notes, in the same order.
pub open spec fn note_views(notes: Seq<WalkNote>) -> Seq<WalkEvent> {
    notes.map_values(|n: WalkNote| n@)
}

/// What a scan needs to know before it can go on.
#[derive(Debug)]
pub enum WalkRequest {
    /// The children of the directory.
    List(FileInfo),
    /// The size of the entry.
    Measure(FileInfo),
    /// Nothing: the scan has not begun, or it is over.
    Done,
}

/// A [`WalkRequest`] as a mathematical value.
pub enum WalkRequestView {
    List(FileInfoView),
    Measure(FileInfoView),
    Done,
}

impl View for WalkRequest {
    type V = WalkRequestView;

    open spec fn view(&self) -> WalkRequestView {
        match *self {
            WalkRequest::List(dir) => WalkRequestView::List(dir@),
            WalkRequest::Measure(file) => WalkRequestView::Measure(file@),
            WalkRequest::Done => WalkRequestView::Done,
        }
    }
}

/// What the file system made of a [`WalkRequest`].
#[derive(Debug)]
pub enum WalkAnswer {
    /// The children of the directory, or why they cannot be listed.
    Listing(Result<Vec<FileInfo>, Failure>),
    /// The size of the entry, or why it cannot be found out.
    Size(Result<u64, Failure>),
}

/// A [`WalkAnswer`] as a mathematical value. Of a size that cannot be found
/// out, only that it is absent counts.
pub enum WalkAnswerView {
    Listing(Result<Seq<FileInfoView>, Seq<char>>),
    Size(Option<u64>),
}

impl View for WalkAnswer {
    type V = WalkAnswerView;

    open spec fn view(&self) -> WalkAnswerView {
        match *self {
            WalkAnswer::Listing(Ok(children)) => WalkAnswerView::Listing(
                Ok(views_of(children@)),
            ),
            WalkAnswer::Listing(Err(failure)) => WalkAnswerView::Listing(Err(failure@)),
            WalkAnswer::Size(Ok(size)) => WalkAnswerView::Size(Some(size)),
            WalkAnswer::Size(Err(_)) => WalkAnswerView::Size(None),
        }
    }
}

/// What a scan hands back when it has gone as far as it can: what is to be
/// reported, in order, and what it needs to know next.
#[derive(Debug)]
pub struct WalkStep {
    pub notes: Vec<WalkNote>,
    pub request: WalkRequest,
}

/// What a scan is waiting for.
enum Phase {
    /// Nothing.
    Idle,
    /// The listing of the directory.
    Listing(FileInfo),
    /// The size of `file_info`, which `matcher_name` proposes to delete;
    /// `plan` holds the candidates of the same directory that come after it.
    Measuring { matcher_name: String, file_info: FileInfo, plan: VecDeque<RemovalCandidate> },
}

/// What a scan is waiting for, as a mathematical value.
pub enum PhaseView {
    Idle,
    Listing(FileInfoView),
    Measuring { matcher_name: Seq<char>, file_info: FileInfoView, plan: Seq<RemovalCandidateView> },
}

impl View for Phase {
    type V = PhaseView;

    closed spec fn view(&self) -> PhaseView {
        match *self {
            Phase::Idle => PhaseView::Idle,
            Phase::Listing(dir) => PhaseView::Listing(dir@),
            Phase::Measuring { matcher_name, file_info, plan } => PhaseView::Measuring {
                matcher_name: matcher_name@,
                file_info: file_info@,
                plan: queue_views(plan),
            },
        }
    }
}

/// A scan as a mathematical value.
pub struct ScanView {
    pub matchers: Seq<MatcherView>,
    pub ignores: Set<Seq<char>>,
    pub walk_all: bool,
    /// The directories that are still to be visited, the next one first.
    pub pending: Seq<FileInfoView>,
    pub phase: PhaseView,
}

/// Where a scan comes to rest.
pub struct Settled {
    pub notes: Seq<WalkEvent>,
    pub pending: Seq<FileInfoView>,
    pub phase: PhaseView,
}

/// Goes on until something must be asked: reports the planned candidates up
/// to the first deletion, whose size is wanted; with no candidate left,
/// enters the next pending directory that is not ignored; with no directory
/// left, finishes.
pub open spec fn settle(
    ignores: Set<Seq<char>>,
    pending: Seq<FileInfoView>,
    plan: Seq<RemovalCandidateView>,
) -> Settled
    decreases plan.len() + pending.len(),
{
    if plan.len() > 0 {
        match plan[0].action {
            RemovalActionView::Delete { file_info, .. } => Settled {
                notes: Seq::empty(),
                pending,
                phase: PhaseView::Measuring {
                    matcher_name: plan[0].matcher_name,
                    file_info,
                    plan: plan.skip(1),
                },
            },
            RemovalActionView::RunCommand { .. } => {
                let rest = settle(ignores, pending, plan.skip(1));
                Settled {
                    notes: seq![WalkEvent::CandidateForRemoval(plan[0])] + rest.notes,
                    pending: rest.pending,
                    phase: rest.phase,
                }
            },
        }
    } else if pending.len() > 0 {
        if ignores.contains(pending[0].path) {
            settle(ignores, pending.skip(1), plan)
        } else {
            Settled {
                notes: seq![WalkEvent::EnteredDirectory(pending[0])],
                pending: pending.skip(1),
                phase: PhaseView::Listing(pending[0]),
            }
        }
    } else {
        Settled { notes: seq![WalkEvent::WalkFinished], pending, phase: PhaseView::Idle }
    }
}

/// A scan and what it reports on the way to it.
pub struct Progress {
    pub scan: ScanView,
    pub notes: Seq<WalkEvent>,
}

impl ScanView {
    /// What the scan needs to know next.
    pub open spec fn request(self) -> WalkRequestView {
        match self.phase {
            PhaseView::Idle => WalkRequestView::Done,
            PhaseView::Listing(dir) => WalkRequestView::List(dir),
            PhaseView::Measuring { file_info, .. } => WalkRequestView::Measure(file_info),
        }
    }

    /// The scan after it has come to rest with these notes before.
    pub open spec fn rest(self, before: Seq<WalkEvent>, settled: Settled) -> Progress {
        Progress {
            scan: ScanView { pending: settled.pending, phase: settled.phase, ..self },
            notes: before + settled.notes,
        }
    }

    /// Begins a scan at `root`, whatever went before.
    pub open spec fn start(self, root: FileInfoView) -> Progress {
        self.rest(Seq::empty(), settle(self.ignores, seq![root], Seq::empty()))
    }

    /// Goes on with the answer to the request.
    ///
    /// A listing that failed is reported, and the directory is given up. A
    /// listing is handed to the matchers: what they propose is planned, and
    /// the entries to walk into come before the directories that are already
    /// pending. A size completes the deletion that was waiting for it, which
    /// is reported. An answer of the wrong kind changes nothing.
    pub open spec fn resume(self, answer: WalkAnswerView) -> Progress {
        match (self.phase, answer) {
            (PhaseView::Listing(dir), WalkAnswerView::Listing(Err(failure))) => self.rest(
                seq![WalkEvent::FailedToScan(dir, failure)],
                settle(self.ignores, self.pending, Seq::empty()),
            ),
            (PhaseView::Listing(dir), WalkAnswerView::Listing(Ok(entries))) => self.rest(
                Seq::empty(),
                settle(
                    self.ignores,
                    children_to_walk(self.ignores, self.walk_all, dir, self.matchers, entries)
                        + self.pending,
                    matchers_pass(self.ignores, dir, self.matchers, entries).candidates,
                ),
            ),
            (
                PhaseView::Measuring { matcher_name, file_info, plan },
                WalkAnswerView::Size(size),
            ) => self.rest(
                seq![
                    WalkEvent::CandidateForRemoval(
                        RemovalCandidateView::delete(matcher_name, file_info, size),
                    ),
                ],
                settle(self.ignores, self.pending, plan),
            ),
            _ => Progress { scan: self, notes: Seq::empty() },
        }
    }

    /// The scan after it has gone on with each of `given` in turn.
    pub open spec fn after(self, given: Seq<WalkAnswerView>) -> ScanView
        decreases given.len(),
    {
        if given.len() == 0 {
            self
        } else {
            self.after(given.drop_last()).resume(given.last()).scan
        }
    }

    /// What the scan reports while it goes on with each of `given` in
    /// turn.
    pub open spec fn notes_after(self, given: Seq<WalkAnswerView>) -> Seq<WalkEvent>
        decreases given.len(),
    {
        if given.len() == 0 {
            Seq::empty()
        } else {
            self.notes_after(given.drop_last()) + self.after(given.drop_last()).resume(
                given.last(),
            ).notes
        }
    }
}

/// A scan of a tree: the matchers, what to ignore, and how far it has come.
pub struct Scan {
    matchers: Vec<Matcher>,
    ignores: IgnoreSet,
    walk_all: bool,
    pending: VecDeque<FileInfo>,
    phase: Phase,
}

impl View for Scan {
    type V = ScanView;

    closed spec fn view(&self) -> ScanView {
        ScanView {
            matchers: matcher_views(self.matchers@),
            ignores: self.ignores@,
            walk_all: self.walk_all,
            pending: views_of(self.pending@),
            phase: self.phase@,
        }
    }
}

/// Splits a candidate that deletes into the matcher's name and the entry;
/// hands any other back.
fn deletion_of(candidate: RemovalCandidate) -> (parts: Result<(String, FileInfo), RemovalCandidate>)
    ensures
        match parts {
            Ok((matcher_name, file_info)) => candidate@.action is Delete && matcher_name@
                == candidate@.matcher_name && file_info@ == candidate@.action->Delete_file_info,
            Err(other) => candidate@.action is RunCommand && other == candidate,
        },
{
    match candidate {
        RemovalCandidate { matcher_name, action: RemovalAction::Delete { file_info, .. } } => Ok(
            (matcher_name, file_info),
        ),
        other => Err(other),
    }
}

/// Goes on until something must be asked, as [`settle`] says.
fn come_to_rest(
    ignores: &IgnoreSet,
    pending: &mut VecDeque<FileInfo>,
    plan: VecDeque<RemovalCandidate>,
    notes: &mut Vec<WalkNote>,
) -> (phase: Phase)
    ensures
        ({
            let settled = settle(ignores@, views_of(old(pending)@), queue_views(plan));
            &&& note_views(final(notes)@) == note_views(old(notes)@) + settled.notes
            &&& views_of(final(pending)@) == settled.pending
            &&& phase@ == settled.phase
        }),
{
    let ghost planned = queue_views(plan);
    let ghost goal = settle(ignores@, views_of(pending@), planned);
    let ghost told = note_views(notes@);
    let mut queue = plan;
    let ghost mut sofar: Seq<WalkEvent> = Seq::empty();
    proof {
        assert(note_views(notes@) =~= told + sofar);
        assert(goal.notes =~= sofar + goal.notes);
    }
    loop
        invariant
            planned == queue_views(plan),
            goal == settle(ignores@, views_of(old(pending)@), planned),
            told == note_views(old(notes)@),
            views_of(pending@) == views_of(old(pending)@),
            note_views(notes@) == told + sofar,
            ({
                let settled = settle(ignores@, views_of(pending@), queue_views(queue));
                &&& goal.notes == sofar + settled.notes
                &&& goal.pending == settled.pending
                &&& goal.phase == settled.phase
            }),
        ensures
            queue@.len() == 0,
        decreases queue@.len(),
    {
        let ghost queued = queue_views(queue);
        match queue.pop_front() {
            None => {
                break ;
            },
            Some(candidate) => {
                proof {
                    assert(queue_views(queue) =~= queued.skip(1));
                    assert(queued[0] == candidate@);
                }
                match deletion_of(candidate) {
                    Ok((matcher_name, file_info)) => {
                        proof {
                            assert(note_views(notes@) =~= told + goal.notes);
                        }
                        return Phase::Measuring { matcher_name, file_info, plan: queue };
                    },
                    Err(command) => {
                        let ghost heard = note_views(notes@);
                        notes.push(WalkNote::CandidateForRemoval(command));
                        proof {
                            let event = WalkEvent::CandidateForRemoval(queued[0]);
                            let next = sofar.push(event);
                            let settled = settle(
                                ignores@,
                                views_of(pending@),
                                queue_views(queue),
                            );
                            assert(note_views(notes@) =~= heard.push(event));
                            assert(note_views(notes@) =~= told + next);
                            assert(goal.notes =~= next + settled.notes);
                            sofar = next;
                        }
                    },
                }
            },
        }
    }
    proof {
        assert(queue_views(queue) =~= Seq::<RemovalCandidateView>::empty());
    }
    loop
        invariant
            planned == queue_views(plan),
            goal == settle(ignores@, views_of(old(pending)@), planned),
            told == note_views(old(notes)@),
            note_views(notes@) == told + sofar,
            ({
                let settled = settle(ignores@, views_of(pending@), Seq::empty());
                &&& goal.notes == sofar + settled.notes
                &&& goal.pending == settled.pending
                &&& goal.phase == settled.phase
            }),
        ensures
            pending@.len() == 0,
        decreases pending@.len(),
    {
        let ghost waiting = views_of(pending@);
        match pending.pop_front() {
            None => {
                break ;
            },
            Some(dir) => {
                proof {
                    assert(views_of(pending@) =~= waiting.skip(1));
                    assert(waiting[0] == dir@);
                }
                if !ignores.contains(dir.path.as_str()) {
                    let ghost heard = note_views(notes@);
                    notes.push(WalkNote::EnteredDirectory(dir.clone()));
                    proof {
                        assert(note_views(notes@) =~= heard.push(
                            WalkEvent::EnteredDirectory(dir@),
                        ));
                        assert(note_views(notes@) =~= told + goal.notes);
                    }
                    return Phase::Listing(dir);
                }
            },
        }
    }
    let ghost heard = note_views(notes@);
    notes.push(WalkNote::WalkFinished);
    proof {
        assert(note_views(notes@) =~= heard.push(WalkEvent::WalkFinished));
        assert(note_views(notes@) =~= told + goal.notes);
    }
    Phase::Idle
}

/// Puts `children` before the directories that are pending, in their order.
fn put_first(pending: &mut VecDeque<FileInfo>, children: Vec<FileInfo>)
    ensures
        final(pending)@ == children@ + old(pending)@,
{
    let mut left = children;
    proof {
        assert(pending@ =~= children@.skip(left@.len() as int) + old(pending)@);
    }
    loop
        invariant
            left@ == children@.take(left@.len() as int),
            left@.len() <= children@.len(),
            pending@ == children@.skip(left@.len() as int) + old(pending)@,
        ensures
            left@.len() == 0,
        decreases left@.len(),
    {
        let ghost n = left@.len() as int;
        match left.pop() {
            None => {
                break ;
            },
            Some(child) => {
                pending.push_front(child);
                proof {
                    assert(left@ =~= children@.take(n - 1));
                    assert(pending@ =~= children@.skip(n - 1) + old(pending)@);
                }
            },
        }
    }
    proof {
        assert(children@.skip(0) =~= children@);
    }
}

impl Scan {
    /// A scan that has not begun.
    pub fn new(matchers: Vec<Matcher>, ignores: IgnoreSet, walk_all: bool) -> (scan: Self)
        ensures
            scan@ == (ScanView {
                matchers: matcher_views(matchers@),
                ignores: ignores@,
                walk_all,
                pending: Seq::empty(),
                phase: PhaseView::Idle,
            }),
    {
        let scan = Scan {
            matchers,
            ignores,
            walk_all,
            pending: VecDeque::new(),
            phase: Phase::Idle,
        };
        assert(views_of(scan.pending@) =~= Seq::<FileInfoView>::empty());
        scan
    }

    /// What the scan needs to know next.
    pub fn request(&self) -> (request: WalkRequest)
        ensures
            request@ == self@.request(),
    {
        match &self.phase {
            Phase::Idle => WalkRequest::Done,
            Phase::Listing(dir) => WalkRequest::List(dir.clone()),
            Phase::Measuring { file_info, .. } => WalkRequest::Measure(file_info.clone()),
        }
    }

    /// Begins a scan at `root`, whatever went before.
    pub fn start(&mut self, root: FileInfo) -> (step: WalkStep)
        ensures
            final(self)@ == old(self)@.start(root@).scan,
            note_views(step.notes@) == old(self)@.start(root@).notes,
            step.request@ == final(self)@.request(),
    {
        let mut notes: Vec<WalkNote> = Vec::new();
        self.pending.clear();
        self.pending.push_back(root);
        let plan: VecDeque<RemovalCandidate> = VecDeque::new();
        proof {
            assert(views_of(self.pending@) =~= seq![root@]);
            assert(queue_views(plan) =~= Seq::<RemovalCandidateView>::empty());
            assert(note_views(notes@) =~= Seq::<WalkEvent>::empty());
        }
        let phase = come_to_rest(&self.ignores, &mut self.pending, plan, &mut notes);
        self.phase = phase;
        let request = self.request();
        WalkStep { notes, request }
    }

    /// Goes on with the answer to the request that the scan made last.
    pub fn resume(&mut self, answer: WalkAnswer) -> (step: WalkStep)
        ensures
            final(self)@ == old(self)@.resume(answer@).scan,
            note_views(step.notes@) == old(self)@.resume(answer@).notes,
            step.request@ == final(self)@.request(),
    {
        let mut notes: Vec<WalkNote> = Vec::new();
        let mut phase = Phase::Idle;
        core::mem::swap(&mut self.phase, &mut phase);
        proof {
            assert(note_views(notes@) =~= Seq::<WalkEvent>::empty());
        }
        match (phase, answer) {
            (Phase::Listing(dir), WalkAnswer::Listing(Err(failure))) => {
                notes.push(WalkNote::FailedToScan(dir, failure));
                let plan: VecDeque<RemovalCandidate> = VecDeque::new();
                proof {
                    assert(note_views(notes@) =~= seq![WalkEvent::FailedToScan(dir@, failure@)]);
                    assert(queue_views(plan) =~= Seq::<RemovalCandidateView>::empty());
                }
                let phase = come_to_rest(&self.ignores, &mut self.pending, plan, &mut notes);
                self.phase = phase;
            },
            (Phase::Listing(dir), WalkAnswer::Listing(Ok(entries))) => {
                let ghost waiting = views_of(self.pending@);
                let (plan, children) = process_entries(
                    &self.matchers,
                    &self.ignores,
                    self.walk_all,
                    &dir,
                    entries,
                );
                put_first(&mut self.pending, children);
                proof {
                    assert(views_of(self.pending@) =~= views_of(children@) + waiting);
                }
                let phase = come_to_rest(&self.ignores, &mut self.pending, plan, &mut notes);
                self.phase = phase;
            },
            (Phase::Measuring { matcher_name, file_info, plan }, WalkAnswer::Size(found)) => {
                let size = match found {
                    Ok(size) => Some(size),
                    Err(_) => None,
                };
                notes.push(
                    WalkNote::CandidateForRemoval(
                        RemovalCandidate::new(matcher_name, file_info, size),
                    ),
                );
                proof {
                    assert(note_views(notes@) =~= seq![
                        WalkEvent::CandidateForRemoval(
                            RemovalCandidateView::delete(matcher_name@, file_info@, size),
                        ),
                    ]);
                }
                let phase = come_to_rest(&self.ignores, &mut self.pending, plan, &mut notes);
                self.phase = phase;
            },
            (other, _) => {
                self.phase = other;
            },
        }
        let request = self.request();
        WalkStep { notes, request }
    }
}

} // verus!
