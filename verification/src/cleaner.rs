//! Carries out the candidates that a scan has found, one after the other.

use std::collections::VecDeque;
use vstd::prelude::*;
use crate::command::CommandExecutor;
use crate::filesystem::FileSystemClean;
use crate::models::{
    candidate_views, Failure, RemovalAction, RemovalCandidate, RemovalCandidateView,
};

verus! {

/// One thing that a clean-up reports.
#[derive(Debug)]
pub enum CleanNote {
    /// Work on the candidate begins.
    Started(RemovalCandidate),
    /// The candidate was carried out.
    Succeeded(RemovalCandidate),
    /// The candidate could not be carried out, and why.
    Failed(RemovalCandidate, Failure),
    /// Every candidate has been dealt with.
    Finished,
}

/// A [`CleanNote`] as a mathematical value.
pub enum CleanEvent {
    Started(RemovalCandidateView),
    Succeeded(RemovalCandidateView),
    Failed(RemovalCandidateView, Seq<char>),
    Finished,
}

impl View for CleanNote {
    type V = CleanEvent;

    open spec fn view(&self) -> CleanEvent {
        match *self {
            CleanNote::Started(candidate) => CleanEvent::Started(candidate@),
            CleanNote::Succeeded(candidate) => CleanEvent::Succeeded(candidate@),
            CleanNote::Failed(candidate, failure) => CleanEvent::Failed(candidate@, failure@),
            CleanNote::Finished => CleanEvent::Finished,
        }
    }
}

/// The views of a sequence of notes, in the same order.
pub open spec fn clean_note_views(notes: Seq<CleanNote>) -> Seq<CleanEvent> {
    notes.map_values(|n: CleanNote| n@)
}

/// The failure in a result, if there is one.
pub open spec fn failure_of(result: Result<(), Failure>) -> Option<Seq<char>> {
    match result {
        Ok(_) => None,
        Err(failure) => Some(failure@),
    }
}

/// How a candidate ended: well, or with the failure.
pub open spec fn outcome_event(
    candidate: RemovalCandidateView,
    failure: Option<Seq<char>>,
) -> CleanEvent {
    match failure {
        None => CleanEvent::Succeeded(candidate),
        Some(report) => CleanEvent::Failed(candidate, report),
    }
}

/// Everything that a clean-up of `candidates` reports where their outcomes
/// are `failures`, one for each candidate: of each candidate in turn that
/// work on it begins and how it ended, and at the end that the clean-up is
/// finished.
pub open spec fn clean_events(
    candidates: Seq<RemovalCandidateView>,
    failures: Seq<Option<Seq<char>>>,
) -> Seq<CleanEvent>
    decreases candidates.len(),
{
    if candidates.len() == 0 {
        seq![CleanEvent::Finished]
    } else {
        seq![CleanEvent::Started(candidates[0]), outcome_event(candidates[0], failures[0])]
            + clean_events(candidates.skip(1), failures.skip(1))
    }
}

/// A clean-up as a mathematical value.
pub struct CleanRunView {
    /// The candidate on which work has begun and whose outcome is awaited.
    pub current: Option<RemovalCandidateView>,
    /// The candidates that come after it, the next one first.
    pub waiting: Seq<RemovalCandidateView>,
}

/// A clean-up and what it reports on the way to it.
pub struct CleanProgress {
    pub run: CleanRunView,
    pub notes: Seq<CleanEvent>,
}

impl CleanRunView {
    /// Turns to the next candidate that is waiting, with these notes before.
    pub open spec fn turn(self, before: Seq<CleanEvent>) -> CleanProgress {
        if self.waiting.len() > 0 {
            CleanProgress {
                run: CleanRunView { current: Some(self.waiting[0]), waiting: self.waiting.skip(1) },
                notes: before.push(CleanEvent::Started(self.waiting[0])),
            }
        } else {
            CleanProgress {
                run: CleanRunView { current: None, waiting: self.waiting },
                notes: before.push(CleanEvent::Finished),
            }
        }
    }

    /// Begins the clean-up: work on the first candidate begins, or, with no
    /// candidate, the clean-up is finished. Where a candidate is in work
    /// already, nothing changes.
    pub open spec fn start(self) -> CleanProgress {
        if self.current is Some {
            CleanProgress { run: self, notes: Seq::empty() }
        } else {
            self.turn(Seq::empty())
        }
    }

    /// Goes on with the outcome of the candidate that is in work: the
    /// outcome is reported, and the clean-up turns to the next candidate
    /// whatever the outcome was. Where no candidate is in work, nothing
    /// changes.
    pub open spec fn resume(self, failure: Option<Seq<char>>) -> CleanProgress {
        match self.current {
            Some(candidate) => self.turn(seq![outcome_event(candidate, failure)]),
            None => CleanProgress { run: self, notes: Seq::empty() },
        }
    }

    /// The clean-up after it has gone on with each of `failures` in turn.
    pub open spec fn after(self, failures: Seq<Option<Seq<char>>>) -> CleanRunView
        decreases failures.len(),
    {
        if failures.len() == 0 {
            self
        } else {
            self.after(failures.drop_last()).resume(failures.last()).run
        }
    }

    /// What the clean-up reports while it goes on with each of `failures` in
    /// turn.
    pub open spec fn notes_after(self, failures: Seq<Option<Seq<char>>>) -> Seq<CleanEvent>
        decreases failures.len(),
    {
        if failures.len() == 0 {
            Seq::empty()
        } else {
            self.notes_after(failures.drop_last()) + self.after(failures.drop_last()).resume(
                failures.last(),
            ).notes
        }
    }

    /// The number of candidates that have not ended yet.
    pub open spec fn unfinished(self) -> nat {
        self.waiting.len() + if self.current is Some {
            1nat
        } else {
            0nat
        }
    }

    /// Everything that is still to be reported where the outcomes of the
    /// candidate in work and of those waiting will be `failures`.
    pub open spec fn remaining(self, failures: Seq<Option<Seq<char>>>) -> Seq<CleanEvent> {
        match self.current {
            Some(candidate) => seq![outcome_event(candidate, failures[0])] + clean_events(
                self.waiting,
                failures.skip(1),
            ),
            None => Seq::empty(),
        }
    }
}

/// The candidates of one clean-up, and how far it has come. It carries
/// nothing out itself: it says which candidate is to be carried out, is
/// handed the outcome, and says what is to be reported.
pub struct CleanRun {
    current: Option<RemovalCandidate>,
    waiting: VecDeque<RemovalCandidate>,
}

impl View for CleanRun {
    type V = CleanRunView;

    closed spec fn view(&self) -> CleanRunView {
        CleanRunView {
            current: match self.current {
                Some(candidate) => Some(candidate@),
                None => None,
            },
            waiting: candidate_views(self.waiting@),
        }
    }
}

impl CleanRun {
    /// A clean-up of `candidates`, in their order, that has not begun.
    pub fn new(candidates: Vec<RemovalCandidate>) -> (run: Self)
        ensures
            run@ == (CleanRunView { current: None, waiting: candidate_views(candidates@) }),
    {
        let mut waiting: VecDeque<RemovalCandidate> = VecDeque::new();
        let ghost all = candidates@;
        for candidate in iter: candidates
            invariant
                all == iter.seq(),
                waiting@ == all.take(iter.index() as int),
        {
            waiting.push_back(candidate);
            assert(waiting@ =~= all.take(iter.index() + 1));
        }
        assert(waiting@ =~= all);
        CleanRun { current: None, waiting }
    }

    /// The candidate that is to be carried out now.
    pub fn current(&self) -> (current: Option<&RemovalCandidate>)
        ensures
            match current {
                Some(candidate) => self@.current == Some(candidate@),
                None => self@.current is None,
            },
    {
        self.current.as_ref()
    }

    fn turn(&mut self, notes: &mut Vec<CleanNote>)
        ensures
            final(self)@ == old(self)@.turn(clean_note_views(old(notes)@)).run,
            clean_note_views(final(notes)@) == old(self)@.turn(clean_note_views(old(notes)@)).notes,
    {
        let ghost waiting = candidate_views(self.waiting@);
        let ghost told = clean_note_views(notes@);
        match self.waiting.pop_front() {
            Some(candidate) => {
                notes.push(CleanNote::Started(candidate.clone()));
                self.current = Some(candidate);
                proof {
                    assert(candidate_views(self.waiting@) =~= waiting.skip(1));
                    assert(clean_note_views(notes@) =~= told.push(CleanEvent::Started(waiting[0])));
                }
            },
            None => {
                notes.push(CleanNote::Finished);
                self.current = None;
                proof {
                    assert(clean_note_views(notes@) =~= told.push(CleanEvent::Finished));
                }
            },
        }
    }

    /// Begins the clean-up.
    pub fn start(&mut self) -> (notes: Vec<CleanNote>)
        ensures
            final(self)@ == old(self)@.start().run,
            clean_note_views(notes@) == old(self)@.start().notes,
    {
        let mut notes: Vec<CleanNote> = Vec::new();
        proof {
            assert(clean_note_views(notes@) =~= Seq::<CleanEvent>::empty());
        }
        if self.current.is_none() {
            self.turn(&mut notes);
        }
        notes
    }

    /// Goes on with the outcome of the candidate that is in work.
    pub fn resume(&mut self, outcome: Result<(), Failure>) -> (notes: Vec<CleanNote>)
        ensures
            final(self)@ == old(self)@.resume(failure_of(outcome)).run,
            clean_note_views(notes@) == old(self)@.resume(failure_of(outcome)).notes,
    {
        let mut notes: Vec<CleanNote> = Vec::new();
        proof {
            assert(clean_note_views(notes@) =~= Seq::<CleanEvent>::empty());
        }
        match self.current.take() {
            Some(candidate) => {
                match outcome {
                    Ok(_) => {
                        notes.push(CleanNote::Succeeded(candidate));
                    },
                    Err(report) => {
                        notes.push(CleanNote::Failed(candidate, report));
                    },
                }
                proof {
                    assert(clean_note_views(notes@) =~= seq![
                        outcome_event(candidate@, failure_of(outcome)),
                    ]);
                }
                self.turn(&mut notes);
            },
            None => {},
        }
        notes
    }
}

/// Hears how the clean-up goes.
pub trait CleanerNotifier {
    fn notify_removal_started(&self, candidate: &RemovalCandidate);

    fn notify_removal_success(&self, candidate: RemovalCandidate);

    fn notify_removal_failed(&self, candidate: RemovalCandidate, report: Failure);

    fn notify_removal_finish(&self);
}

/// Whether the notifier has been handed `note`: whether its method for this
/// kind of note has been called with what the note holds.
pub open spec fn told<N: CleanerNotifier>(notifier: N, note: CleanNote) -> bool {
    match note {
        CleanNote::Started(candidate) => call_ensures(
            N::notify_removal_started,
            (&notifier, &candidate),
            (),
        ),
        CleanNote::Succeeded(candidate) => call_ensures(
            N::notify_removal_success,
            (&notifier, candidate),
            (),
        ),
        CleanNote::Failed(candidate, failure) => call_ensures(
            N::notify_removal_failed,
            (&notifier, candidate, failure),
            (),
        ),
        CleanNote::Finished => call_ensures(N::notify_removal_finish, (&notifier,), ()),
    }
}

/// Whether the notifier has been handed each of `notes`.
pub open spec fn all_told<N: CleanerNotifier>(notifier: N, notes: Seq<CleanNote>) -> bool {
    forall|i: int| 0 <= i < notes.len() ==> told(notifier, #[trigger] notes[i])
}

/// Whether the notifier has been handed notes that say `events`, one note
/// for each event.
pub open spec fn reported<N: CleanerNotifier>(notifier: N, events: Seq<CleanEvent>) -> bool {
    exists|notes: Seq<CleanNote>| #[trigger]
        clean_note_views(notes) == events && all_told(notifier, notes)
}

/// What was reported first and what was reported next was reported.
pub proof fn lemma_reported_add<N: CleanerNotifier>(
    notifier: N,
    first: Seq<CleanEvent>,
    next: Seq<CleanEvent>,
)
    requires
        reported(notifier, first),
        reported(notifier, next),
    ensures
        reported(notifier, first + next),
{
    let a = choose|notes: Seq<CleanNote>| #[trigger]
        clean_note_views(notes) == first && all_told(notifier, notes);
    let b = choose|notes: Seq<CleanNote>| #[trigger]
        clean_note_views(notes) == next && all_told(notifier, notes);
    assert(clean_note_views(a + b) =~= first + next);
    assert forall|i: int| 0 <= i < (a + b).len() implies told(notifier, #[trigger] (a + b)[i]) by {
        if i < a.len() {
            assert((a + b)[i] == a[i]);
        } else {
            assert((a + b)[i] == b[i - a.len()]);
        }
    }
}

/// Hands each note to the notifier, in order.
pub fn report<N: CleanerNotifier>(notifier: &N, notes: Vec<CleanNote>)
    ensures
        all_told(*notifier, notes@),
{
    let ghost all = notes@;
    for note in iter: notes
        invariant
            all == iter.seq(),
            forall|i: int| 0 <= i < iter.index() ==> told(*notifier, #[trigger] all[i]),
    {
        match note {
            CleanNote::Started(candidate) => notifier.notify_removal_started(&candidate),
            CleanNote::Succeeded(candidate) => notifier.notify_removal_success(candidate),
            CleanNote::Failed(candidate, failure) => notifier.notify_removal_failed(
                candidate,
                failure,
            ),
            CleanNote::Finished => notifier.notify_removal_finish(),
        }
    }
}

/// Whether `result` is what came of carrying out `candidate`: of asking the
/// file system to delete its entry, or the executor to run its command in
/// its directory.
pub open spec fn carried_out_by<FS: FileSystemClean, CE: CommandExecutor>(
    fs: FS,
    command_executor: CE,
    candidate: RemovalCandidate,
    result: Result<(), Failure>,
) -> bool {
    match candidate.action {
        RemovalAction::Delete { file_info, .. } => call_ensures(
            FS::remove_file,
            (&fs, &file_info),
            result,
        ),
        RemovalAction::RunCommand { work_dir, command } => exists|text: &str|
            text@ == command@ && #[trigger] call_ensures(
                CE::execute_command,
                (&command_executor, &work_dir, text),
                result,
            ),
    }
}

/// Whether `result` is what came of carrying out a candidate that looks
/// like `candidate`.
pub open spec fn carried_out<FS: FileSystemClean, CE: CommandExecutor>(
    fs: FS,
    command_executor: CE,
    candidate: RemovalCandidateView,
    result: Result<(), Failure>,
) -> bool {
    exists|found: RemovalCandidate|
        found@ == candidate && #[trigger] carried_out_by(fs, command_executor, found, result)
}

/// Carries out one candidate: has its entry deleted, or its command run in
/// its directory, and hands back what came of it.
pub fn clean_candidate<FS: FileSystemClean, CE: CommandExecutor>(
    fs: &FS,
    command_executor: &CE,
    candidate: &RemovalCandidate,
) -> (result: Result<(), Failure>)
    ensures
        carried_out_by(*fs, *command_executor, *candidate, result),
        carried_out(*fs, *command_executor, candidate@, result),
{
    match &candidate.action {
        RemovalAction::Delete { file_info, .. } => fs.remove_file(file_info),
        RemovalAction::RunCommand { work_dir, command } => command_executor.execute_command(
            work_dir,
            command.as_str(),
        ),
    }
}

/// The failures in a sequence of results, in the same order.
pub open spec fn failures_of(outcomes: Seq<Result<(), Failure>>) -> Seq<Option<Seq<char>>> {
    outcomes.map_values(|outcome: Result<(), Failure>| failure_of(outcome))
}

/// Whether one step has taken a clean-up from `before` to `after`: the
/// candidate in work was carried out, the clean-up went on with the outcome,
/// and the notifier was handed what the clean-up reported.
pub open spec fn stepped<FS: FileSystemClean, CE: CommandExecutor, N: CleanerNotifier>(
    fs: FS,
    command_executor: CE,
    notifier: N,
    before: CleanRunView,
    after: CleanRunView,
    outcome: Result<(), Failure>,
) -> bool {
    &&& before.current is Some
    &&& carried_out(fs, command_executor, before.current->0, outcome)
    &&& after == before.resume(failure_of(outcome)).run
    &&& reported(notifier, before.resume(failure_of(outcome)).notes)
}

/// Whether steps have taken a clean-up from where it began to `after`: time
/// after time the candidate in work was carried out and the clean-up went on
/// with the outcome, and the notifier was handed everything that the
/// clean-up reported, from the beginning.
pub open spec fn ran<FS: FileSystemClean, CE: CommandExecutor, N: CleanerNotifier>(
    fs: FS,
    command_executor: CE,
    notifier: N,
    begun: CleanProgress,
    after: CleanRunView,
    outcomes: Seq<Result<(), Failure>>,
) -> bool {
    &&& all_carried_out(fs, command_executor, begun.run, outcomes)
    &&& after == begun.run.after(failures_of(outcomes))
    &&& reported(notifier, begun.notes + begun.run.notes_after(failures_of(outcomes)))
}

/// Whether each of `outcomes` is what came of carrying out the candidate
/// that was in work when its turn came.
pub open spec fn all_carried_out<FS: FileSystemClean, CE: CommandExecutor>(
    fs: FS,
    command_executor: CE,
    begun: CleanRunView,
    outcomes: Seq<Result<(), Failure>>,
) -> bool {
    forall|i: int|
        0 <= i < outcomes.len() ==> carried_out_in_turn(
            fs,
            command_executor,
            begun.after(failures_of(outcomes).take(i)),
            #[trigger] outcomes[i],
        )
}

/// Whether `outcome` is what came of carrying out the candidate that is in
/// work.
pub open spec fn carried_out_in_turn<FS: FileSystemClean, CE: CommandExecutor>(
    fs: FS,
    command_executor: CE,
    run: CleanRunView,
    outcome: Result<(), Failure>,
) -> bool {
    run.current is Some && carried_out(fs, command_executor, run.current->0, outcome)
}

/// Carrying out one candidate more leaves what the others came to as it is.
proof fn lemma_all_carried_out_on<FS: FileSystemClean, CE: CommandExecutor>(
    fs: FS,
    command_executor: CE,
    begun: CleanRunView,
    outcomes: Seq<Result<(), Failure>>,
    outcome: Result<(), Failure>,
)
    requires
        all_carried_out(fs, command_executor, begun, outcomes),
        carried_out_in_turn(fs, command_executor, begun.after(failures_of(outcomes)), outcome),
    ensures
        all_carried_out(fs, command_executor, begun, outcomes.push(outcome)),
{
    let longer = outcomes.push(outcome);
    let earlier = failures_of(outcomes);
    let failures = failures_of(longer);
    assert(failures =~= earlier.push(failure_of(outcome)));
    assert forall|i: int| 0 <= i < longer.len() implies carried_out_in_turn(
        fs,
        command_executor,
        begun.after(failures.take(i)),
        #[trigger] longer[i],
    ) by {
        if i < outcomes.len() {
            assert(failures.take(i) =~= earlier.take(i));
            assert(longer[i] == outcomes[i]);
        } else {
            assert(failures.take(i) =~= earlier);
            assert(longer[i] == outcome);
        }
    }
}

/// A clean-up that is taken one step further is the same clean-up still.
pub proof fn lemma_ran_on<FS: FileSystemClean, CE: CommandExecutor, N: CleanerNotifier>(
    fs: FS,
    command_executor: CE,
    notifier: N,
    begun: CleanProgress,
    before: CleanRunView,
    after: CleanRunView,
    outcomes: Seq<Result<(), Failure>>,
    outcome: Result<(), Failure>,
)
    requires
        ran(fs, command_executor, notifier, begun, before, outcomes),
        stepped(fs, command_executor, notifier, before, after, outcome),
    ensures
        ran(fs, command_executor, notifier, begun, after, outcomes.push(outcome)),
{
    let longer = outcomes.push(outcome);
    let earlier = failures_of(outcomes);
    let failures = failures_of(longer);
    lemma_all_carried_out_on(fs, command_executor, begun.run, outcomes, outcome);
    assert(failures =~= earlier.push(failure_of(outcome)));
    assert(failures.drop_last() =~= earlier);
    assert(failures.last() == failure_of(outcome));
    let sofar = begun.notes + begun.run.notes_after(earlier);
    let next = before.resume(failure_of(outcome)).notes;
    lemma_reported_add(notifier, sofar, next);
    assert(begun.notes + begun.run.notes_after(failures) =~= sofar + next);
}

/// Whether all of `candidates` have been carried out and reported: each
/// outcome is what came of carrying out the candidate in its place, and the
/// notifier was handed everything that a clean-up with these outcomes
/// reports.
pub open spec fn carried_out_all<FS: FileSystemClean, CE: CommandExecutor, N: CleanerNotifier>(
    fs: FS,
    command_executor: CE,
    notifier: N,
    candidates: Seq<RemovalCandidateView>,
    outcomes: Seq<Result<(), Failure>>,
) -> bool {
    &&& outcomes.len() == candidates.len()
    &&& forall|i: int|
        0 <= i < outcomes.len() ==> carried_out(
            fs,
            command_executor,
            candidates[i],
            #[trigger] outcomes[i],
        )
    &&& reported(notifier, clean_events(candidates, failures_of(outcomes)))
}

/// A clean-up that has run from its beginning to its end has carried out
/// and reported all of its candidates.
pub proof fn lemma_ran_to_the_end<FS: FileSystemClean, CE: CommandExecutor, N: CleanerNotifier>(
    fs: FS,
    command_executor: CE,
    notifier: N,
    run: CleanRunView,
    after: CleanRunView,
    outcomes: Seq<Result<(), Failure>>,
)
    requires
        run.current is None,
        ran(fs, command_executor, notifier, run.start(), after, outcomes),
        after.unfinished() == 0,
    ensures
        carried_out_all(fs, command_executor, notifier, run.waiting, outcomes),
{
    let failures = failures_of(outcomes);
    let begun = run.start().run;
    assert forall|i: int| 0 <= i < failures.len() implies (#[trigger] begun.after(
        failures.take(i),
    )).current is Some by {
        assert(carried_out_in_turn(
            fs,
            command_executor,
            begun.after(failures.take(i)),
            outcomes[i],
        ));
    }
    crate::laws::lemma_clean_to_the_end(run, failures);
    assert forall|i: int| 0 <= i < outcomes.len() implies carried_out(
        fs,
        command_executor,
        run.waiting[i],
        #[trigger] outcomes[i],
    ) by {
        assert(carried_out_in_turn(
            fs,
            command_executor,
            begun.after(failures.take(i)),
            outcomes[i],
        ));
        assert(begun.after(failures.take(i)).current == Some(run.waiting[i]));
    }
}

/// A clean-up together with what carries its candidates out and the
/// notifier that it reports to.
pub struct Cleaner<CE: CommandExecutor, FS: FileSystemClean, N: CleanerNotifier> {
    run: CleanRun,
    fs: FS,
    command_executor: CE,
    notifier: N,
}

impl<CE: CommandExecutor, FS: FileSystemClean, N: CleanerNotifier> Cleaner<CE, FS, N> {
    /// The clean-up that the cleaner drives.
    pub closed spec fn run(&self) -> CleanRunView {
        self.run@
    }

    /// The file system that deletes.
    pub closed spec fn fs(&self) -> FS {
        self.fs
    }

    /// What runs the commands.
    pub closed spec fn command_executor(&self) -> CE {
        self.command_executor
    }

    /// The notifier that the cleaner reports to.
    pub closed spec fn notifier(&self) -> N {
        self.notifier
    }

    /// Whether the cleaner is `other` but for how far the clean-up has come.
    pub open spec fn same_parts(&self, other: &Self) -> bool {
        &&& self.fs() == other.fs()
        &&& self.command_executor() == other.command_executor()
        &&& self.notifier() == other.notifier()
    }

    pub fn new(
        candidates: Vec<RemovalCandidate>,
        fs: FS,
        command_executor: CE,
        notifier: N,
    ) -> (cleaner: Self)
        ensures
            cleaner.fs() == fs,
            cleaner.command_executor() == command_executor,
            cleaner.notifier() == notifier,
            cleaner.run() == (CleanRunView {
                current: None,
                waiting: candidate_views(candidates@),
            }),
    {
        Self { run: CleanRun::new(candidates), fs, command_executor, notifier }
    }

    /// Begins the clean-up, and reports what the run reports at once.
    pub fn begin(&mut self)
        ensures
            final(self).same_parts(old(self)),
            final(self).run() == old(self).run().start().run,
            reported(old(self).notifier(), old(self).run().start().notes),
    {
        let notes = self.run.start();
        report(&self.notifier, notes);
    }

    /// Takes the clean-up one candidate further: carries out the candidate
    /// that is in work with [`clean_candidate`], hands the outcome to the
    /// run, and reports what the run reports. Says whether a candidate is in
    /// work after that; where none was in work before, nothing is done.
    pub fn step(&mut self) -> (more: bool)
        ensures
            final(self).same_parts(old(self)),
            more == final(self).run().current is Some,
            old(self).run().current is None ==> final(self).run() == old(self).run(),
            old(self).run().current is Some ==> exists|outcome: Result<(), Failure>| #[trigger]
                stepped(
                    old(self).fs(),
                    old(self).command_executor(),
                    old(self).notifier(),
                    old(self).run(),
                    final(self).run(),
                    outcome,
                ),
    {
        let outcome = match self.run.current() {
            Some(candidate) => clean_candidate(&self.fs, &self.command_executor, candidate),
            None => {
                return false;
            },
        };
        let notes = self.run.resume(outcome);
        let ghost told = notes@;
        report(&self.notifier, notes);
        proof {
            assert(clean_note_views(told) == old(self).run().resume(failure_of(outcome)).notes);
            assert(all_told(self.notifier(), told));
            assert(reported(
                old(self).notifier(),
                old(self).run().resume(failure_of(outcome)).notes,
            ));
            assert(stepped(
                old(self).fs(),
                old(self).command_executor(),
                old(self).notifier(),
                old(self).run(),
                self.run(),
                outcome,
            ));
        }
        self.run.current().is_some()
    }

    /// Carries out every candidate, in order, and hands back the cleaner
    /// with nothing left to do: begins the clean-up, and takes it further
    /// step by step until no candidate is in work.
    ///
    /// For a cleaner that has not begun, that is: each candidate is carried
    /// out by one call, of the file system or of the executor, and the
    /// notifier is told of each candidate in turn that work on it begins and
    /// how it ended, whatever came of the others, and at the end, once, that
    /// the clean-up is finished.
    pub fn clean(self) -> (done: Self)
        ensures
            done.same_parts(&self),
            done.run().unfinished() == 0,
            exists|outcomes: Seq<Result<(), Failure>>| #[trigger]
                ran(
                    self.fs(),
                    self.command_executor(),
                    self.notifier(),
                    self.run().start(),
                    done.run(),
                    outcomes,
                ),
            self.run().current is None ==> exists|outcomes: Seq<Result<(), Failure>>| #[trigger]
                carried_out_all(
                    self.fs(),
                    self.command_executor(),
                    self.notifier(),
                    self.run().waiting,
                    outcomes,
                ),
    {
        let mut cleaner = self;
        cleaner.begin();
        let ghost begun = self.run().start();
        let ghost mut outcomes: Seq<Result<(), Failure>> = Seq::empty();
        proof {
            assert(failures_of(outcomes) =~= Seq::<Option<Seq<char>>>::empty());
            assert(begun.notes + begun.run.notes_after(failures_of(outcomes)) =~= begun.notes);
        }
        loop
            invariant
                cleaner.same_parts(&self),
                cleaner.run().current is None ==> cleaner.run().waiting.len() == 0,
                ran(
                    self.fs(),
                    self.command_executor(),
                    self.notifier(),
                    begun,
                    cleaner.run(),
                    outcomes,
                ),
            ensures
                cleaner.run().current is None,
            decreases cleaner.run().unfinished(),
        {
            let ghost before = cleaner.run();
            let ghost sofar = outcomes;
            let more = cleaner.step();
            proof {
                if before.current is Some {
                    let outcome = choose|outcome: Result<(), Failure>| #[trigger]
                        stepped(
                            self.fs(),
                            self.command_executor(),
                            self.notifier(),
                            before,
                            cleaner.run(),
                            outcome,
                        );
                    lemma_ran_on(
                        self.fs(),
                        self.command_executor(),
                        self.notifier(),
                        begun,
                        before,
                        cleaner.run(),
                        sofar,
                        outcome,
                    );
                    outcomes = sofar.push(outcome);
                }
            }
            if !more {
                break ;
            }
        }
        proof {
            if self.run().current is None {
                lemma_ran_to_the_end(
                    self.fs(),
                    self.command_executor(),
                    self.notifier(),
                    self.run(),
                    cleaner.run(),
                    outcomes,
                );
            }
        }
        cleaner
    }
}

} // verus!
