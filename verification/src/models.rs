//! The values that travel between the scan and the clean-up.

use vstd::prelude::*;

verus! {

/// Whether an entry is a plain file or a directory.
#[derive(Debug, Clone, Copy, PartialEq, Eq, Structural)]
pub enum SimpleFileKind {
    File,
    Directory,
}

/// One entry of a file system: where it is, what it is called and what it is.
#[derive(Debug)]
pub struct FileInfo {
    pub path: String,
    pub name: String,
    pub kind: SimpleFileKind,
}

/// A [`FileInfo`] as a mathematical value.
pub struct FileInfoView {
    pub path: Seq<char>,
    pub name: Seq<char>,
    pub kind: SimpleFileKind,
}

impl View for FileInfo {
    type V = FileInfoView;

    open spec fn view(&self) -> FileInfoView {
        FileInfoView { path: self.path@, name: self.name@, kind: self.kind }
    }
}

impl Clone for FileInfo {
    fn clone(&self) -> (res: Self)
        ensures
            res == *self,
    {
        FileInfo { path: self.path.clone(), name: self.name.clone(), kind: self.kind }
    }
}

impl FileInfo {
    pub fn new(path: String, name: String, kind: SimpleFileKind) -> (info: Self)
        ensures
            info.path == path,
            info.name == name,
            info.kind == kind,
    {
        Self { path, name, kind }
    }
}

/// The views of a sequence of entries, in the same order.
pub open spec fn views_of(entries: Seq<FileInfo>) -> Seq<FileInfoView> {
    entries.map_values(|e: FileInfo| e@)
}

/// Why an operation on the outside world did not succeed.
#[derive(Debug)]
pub struct Failure {
    pub message: String,
}

impl View for Failure {
    type V = Seq<char>;

    open spec fn view(&self) -> Seq<char> {
        self.message@
    }
}

impl Failure {
    pub fn new(message: String) -> (failure: Self)
        ensures
            failure@ == message@,
    {
        Self { message }
    }
}

/// What is to be done about a candidate.
#[derive(Debug)]
pub enum RemovalAction {
    /// Delete the entry; `file_size` is absent where it could not be found out.
    Delete { file_info: FileInfo, file_size: Option<u64> },
    /// Run `command` with `work_dir` as the working directory.
    RunCommand { work_dir: FileInfo, command: String },
}

/// A [`RemovalAction`] as a mathematical value.
pub enum RemovalActionView {
    Delete { file_info: FileInfoView, file_size: Option<u64> },
    RunCommand { work_dir: FileInfoView, command: Seq<char> },
}

impl View for RemovalAction {
    type V = RemovalActionView;

    open spec fn view(&self) -> RemovalActionView {
        match *self {
            RemovalAction::Delete { file_info, file_size } => RemovalActionView::Delete {
                file_info: file_info@,
                file_size,
            },
            RemovalAction::RunCommand { work_dir, command } => RemovalActionView::RunCommand {
                work_dir: work_dir@,
                command: command@,
            },
        }
    }
}

/// A pending destructive action that a scan has found, with the name of the
/// matcher that asked for it.
#[derive(Debug)]
pub struct RemovalCandidate {
    pub matcher_name: String,
    pub action: RemovalAction,
}

/// A [`RemovalCandidate`] as a mathematical value.
pub struct RemovalCandidateView {
    pub matcher_name: Seq<char>,
    pub action: RemovalActionView,
}

impl View for RemovalCandidate {
    type V = RemovalCandidateView;

    open spec fn view(&self) -> RemovalCandidateView {
        RemovalCandidateView { matcher_name: self.matcher_name@, action: self.action@ }
    }
}

impl RemovalCandidateView {
    /// The candidate that deletes `file_info`.
    pub open spec fn delete(
        matcher_name: Seq<char>,
        file_info: FileInfoView,
        file_size: Option<u64>,
    ) -> RemovalCandidateView {
        RemovalCandidateView {
            matcher_name,
            action: RemovalActionView::Delete { file_info, file_size },
        }
    }

    /// The candidate that runs `command` in `work_dir`.
    pub open spec fn run_command(
        matcher_name: Seq<char>,
        work_dir: FileInfoView,
        command: Seq<char>,
    ) -> RemovalCandidateView {
        RemovalCandidateView {
            matcher_name,
            action: RemovalActionView::RunCommand { work_dir, command },
        }
    }

    /// The entry that the candidate is about: the one to delete, or the
    /// directory in which the command runs.
    pub open spec fn subject(self) -> FileInfoView {
        match self.action {
            RemovalActionView::Delete { file_info, .. } => file_info,
            RemovalActionView::RunCommand { work_dir, .. } => work_dir,
        }
    }

    /// The size that is known of what the candidate deletes.
    pub open spec fn file_size(self) -> Option<u64> {
        match self.action {
            RemovalActionView::Delete { file_size, .. } => file_size,
            RemovalActionView::RunCommand { .. } => None,
        }
    }

    /// The known size, or 0 where none is known.
    pub open spec fn estimate_file_size(self) -> u64 {
        match self.file_size() {
            Some(size) => size,
            None => 0,
        }
    }
}

impl Clone for Failure {
    fn clone(&self) -> (res: Self)
        ensures
            res == *self,
    {
        Failure { message: self.message.clone() }
    }
}

impl Clone for RemovalAction {
    fn clone(&self) -> (res: Self)
        ensures
            res == *self,
    {
        match self {
            RemovalAction::Delete { file_info, file_size } => RemovalAction::Delete {
                file_info: file_info.clone(),
                file_size: *file_size,
            },
            RemovalAction::RunCommand { work_dir, command } => RemovalAction::RunCommand {
                work_dir: work_dir.clone(),
                command: command.clone(),
            },
        }
    }
}

impl Clone for RemovalCandidate {
    fn clone(&self) -> (res: Self)
        ensures
            res == *self,
    {
        RemovalCandidate { matcher_name: self.matcher_name.clone(), action: self.action.clone() }
    }
}

impl RemovalCandidate {
    /// A candidate for deleting `file_info`.
    pub fn new(
        matcher_name: String,
        file_info: FileInfo,
        file_size: Option<u64>,
    ) -> (candidate: Self)
        ensures
            candidate@ == RemovalCandidateView::delete(matcher_name@, file_info@, file_size),
    {
        let action = RemovalAction::Delete { file_info, file_size };
        Self { matcher_name, action }
    }

    /// A candidate for running `command` in `work_dir`.
    pub fn new_cmd(matcher_name: String, work_dir: FileInfo, command: String) -> (candidate: Self)
        ensures
            candidate@ == RemovalCandidateView::run_command(matcher_name@, work_dir@, command@),
    {
        let action = RemovalAction::RunCommand { work_dir, command };
        Self { matcher_name, action }
    }

    /// The number of bytes that carrying out the candidate is expected to
    /// free: the known size of a deletion, 0 otherwise.
    pub fn estimate_file_size(&self) -> (size: u64)
        ensures
            size == self@.estimate_file_size(),
    {
        match &self.action {
            RemovalAction::Delete { file_size, .. } => match file_size {
                Some(size) => *size,
                None => 0,
            },
            RemovalAction::RunCommand { .. } => 0,
        }
    }

    /// The size of what the candidate deletes, where it is known.
    pub fn file_size(&self) -> (size: Option<u64>)
        ensures
            size == self@.file_size(),
    {
        match &self.action {
            RemovalAction::Delete { file_size, .. } => *file_size,
            RemovalAction::RunCommand { .. } => None,
        }
    }
}

/// The views of a sequence of candidates, in the same order.
pub open spec fn candidate_views(candidates: Seq<RemovalCandidate>) -> Seq<RemovalCandidateView> {
    candidates.map_values(|c: RemovalCandidate| c@)
}

/// The sum of what the candidates are expected to free.
pub open spec fn estimate_sum(candidates: Seq<RemovalCandidateView>) -> nat
    decreases candidates.len(),
{
    if candidates.len() == 0 {
        0
    } else {
        estimate_sum(candidates.drop_last()) + candidates.last().estimate_file_size() as nat
    }
}

/// Whether the size of what some candidate frees is not known.
pub open spec fn some_size_unknown(candidates: Seq<RemovalCandidateView>) -> bool {
    exists|i: int| 0 <= i < candidates.len() && (#[trigger] candidates[i]).file_size() is None
}

/// The number of bytes that carrying out all the candidates is expected to
/// free, and whether more may be freed because some size is not known. A sum
/// that does not fit is given as the largest number there is.
pub fn total_size(files: &[RemovalCandidate]) -> (total: (u64, bool))
    ensures
        total.0 == if estimate_sum(candidate_views(files@)) <= u64::MAX {
            estimate_sum(candidate_views(files@))
        } else {
            u64::MAX as nat
        },
        total.1 == some_size_unknown(candidate_views(files@)),
{
    let ghost all = candidate_views(files@);
    let mut estimate: u64 = 0;
    let mut has_more = false;
    let mut i: usize = 0;
    proof {
        assert(all.take(0) =~= Seq::<RemovalCandidateView>::empty());
    }
    while i < files.len()
        invariant
            i <= files.len(),
            all == candidate_views(files@),
            estimate == if estimate_sum(all.take(i as int)) <= u64::MAX {
                estimate_sum(all.take(i as int))
            } else {
                u64::MAX as nat
            },
            has_more == some_size_unknown(all.take(i as int)),
        decreases files.len() - i,
    {
        proof {
            assert(all.take(i + 1).drop_last() =~= all.take(i as int));
            assert(all.take(i + 1).last() == files@[i as int]@);
        }
        let ghost seen = has_more;
        estimate = estimate.saturating_add(files[i].estimate_file_size());
        if files[i].file_size().is_none() {
            has_more = true;
            assert(all.take(i + 1)[i as int].file_size() is None);
        } else {
            proof {
                if some_size_unknown(all.take(i + 1)) {
                    let k = choose|k: int|
                        0 <= k < i + 1 && (#[trigger] all.take(i + 1)[k]).file_size() is None;
                    assert(all.take(i as int)[k].file_size() is None);
                }
            }
        }
        proof {
            if seen {
                let k = choose|k: int|
                    0 <= k < i && (#[trigger] all.take(i as int)[k]).file_size() is None;
                assert(all.take(i + 1)[k].file_size() is None);
            }
        }
        i += 1;
    }
    proof {
        assert(all.take(i as int) =~= all);
    }
    (estimate, has_more)
}

} // verus!
