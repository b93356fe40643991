//! The tree walker: the order in which a run looks at the file system and
//! renames what it finds.
//!
//! The walker never touches the file system. It is a state machine: it holds
//! one request at a time, the caller carries the request out and hands back
//! the reply, and the walker answers with the next request. A directory is
//! renamed after everything in it, since renaming it first would change the
//! paths of what it holds.

use vstd::prelude::*;
use crate::cli::Config;
use crate::compose::{sanitized_filename, sanitized_path};
use crate::rename::{
    decided,
    path_after,
    rename_path,
    report,
    report_line,
    RenameAction,
};
use crate::sanitize::SanitizeMode;
use crate::text::texts;

verus! {

/// What the walker asks of its caller.
#[derive(Debug, Clone)]
pub enum Request {
    /// Does the path exist, links followed? Answered by `Reply::Flag`.
    Exists(String),
    /// Is the path itself a directory, and no link to one? Answered by
    /// `Reply::Flag`.
    IsRealDir(String),
    /// Which paths does the directory hold? Answered by `Reply::Entries`.
    List(String),
    /// Is the path a directory, links followed? Answered by `Reply::Flag`.
    IsDir(String),
    /// Are the two the same path, and do they exist, links followed? Answered
    /// by `Reply::Probed`.
    Probe { old: String, new: String },
    /// Print the line; nothing is renamed and `outcome` is the path that
    /// stands. Answered by `Reply::Done`.
    Report { line: String, outcome: String },
    /// Print the line, then rename `old` to `new`. Answered by `Reply::Done`.
    Rename { old: String, new: String, line: String },
    /// Nothing is left to do.
    Finished,
}

/// The mathematical value of a [`Request`].
pub enum RequestView {
    Exists(Seq<char>),
    IsRealDir(Seq<char>),
    List(Seq<char>),
    IsDir(Seq<char>),
    Probe { old: Seq<char>, new: Seq<char> },
    Report { line: Seq<char>, outcome: Seq<char> },
    Rename { old: Seq<char>, new: Seq<char>, line: Seq<char> },
    Finished,
}

impl View for Request {
    type V = RequestView;

    open spec fn view(&self) -> RequestView {
        match self {
            Request::Exists(path) => RequestView::Exists(path@),
            Request::IsRealDir(path) => RequestView::IsRealDir(path@),
            Request::List(path) => RequestView::List(path@),
            Request::IsDir(path) => RequestView::IsDir(path@),
            Request::Probe { old, new } => RequestView::Probe { old: old@, new: new@ },
            Request::Report { line, outcome } => RequestView::Report {
                line: line@,
                outcome: outcome@,
            },
            Request::Rename { old, new, line } => RequestView::Rename {
                old: old@,
                new: new@,
                line: line@,
            },
            Request::Finished => RequestView::Finished,
        }
    }
}

/// What the caller found when it carried a request out.
#[derive(Debug, Clone)]
pub enum Reply {
    /// The answer to a yes-or-no request.
    Flag(bool),
    /// Whether the old and the new path of a probe are the same path, and
    /// whether each of them exists.
    Probed { same: bool, old_exists: bool, new_exists: bool },
    /// The paths that a directory holds, in the order in which they are to
    /// be visited.
    Entries(Vec<String>),
    /// The report was printed and the rename, if one was asked for, was
    /// carried out.
    Done,
}

/// The mathematical value of a [`Reply`].
pub enum ReplyView {
    Flag(bool),
    Probed { same: bool, old_exists: bool, new_exists: bool },
    Entries(Seq<Seq<char>>),
    Done,
}

impl View for Reply {
    type V = ReplyView;

    open spec fn view(&self) -> ReplyView {
        match self {
            Reply::Flag(flag) => ReplyView::Flag(*flag),
            Reply::Probed { same, old_exists, new_exists } => ReplyView::Probed {
                same: *same,
                old_exists: *old_exists,
                new_exists: *new_exists,
            },
            Reply::Entries(entries) => ReplyView::Entries(texts(entries@)),
            Reply::Done => ReplyView::Done,
        }
    }
}

/// A directory that the walker is inside of.
#[derive(Debug, Clone)]
struct Frame {
    path: String,
    entries: Vec<String>,
    next: usize,
}

/// The mathematical value of a [`Frame`]: the directory, what it holds, and
/// how many of its entries have been taken up.
pub struct FrameView {
    pub path: Seq<char>,
    pub entries: Seq<Seq<char>>,
    pub next: int,
}

impl View for Frame {
    type V = FrameView;

    closed spec fn view(&self) -> FrameView {
        FrameView { path: self.path@, entries: texts(self.entries@), next: self.next as int }
    }
}

/// The values of a stack of frames.
spec fn frames(stack: Seq<Frame>) -> Seq<FrameView> {
    Seq::new(stack.len(), |i: int| stack[i]@)
}

/// A run in progress.
#[derive(Debug, Clone)]
pub struct Runner {
    dry_run: bool,
    replacement: char,
    mode: SanitizeMode,
    recursive: bool,
    targets: Vec<String>,
    next_target: usize,
    stack: Vec<Frame>,
    pending: Request,
    outcome: Option<String>,
}

/// The mathematical value of a [`Runner`].
pub struct RunnerView {
    /// Nothing is renamed, only reported.
    pub dry_run: bool,
    /// The replacement character.
    pub replacement: char,
    /// The sanitize mode.
    pub mode: SanitizeMode,
    /// Directories among the targets are walked.
    pub recursive: bool,
    /// The targets, in the order given.
    pub targets: Seq<Seq<char>>,
    /// How many targets have been taken up.
    pub next_target: int,
    /// The directories that the walker is inside of, outermost first.
    pub stack: Seq<FrameView>,
    /// The request that waits for its reply.
    pub pending: RequestView,
    /// The path that stands for the target that was finished last.
    pub outcome: Option<Seq<char>>,
}

impl View for Runner {
    type V = RunnerView;

    closed spec fn view(&self) -> RunnerView {
        RunnerView {
            dry_run: self.dry_run,
            replacement: self.replacement,
            mode: self.mode,
            recursive: self.recursive,
            targets: texts(self.targets@),
            next_target: self.next_target as int,
            stack: frames(self.stack@),
            pending: self.pending@,
            outcome: match self.outcome {
                Some(path) => Some(path@),
                None => None,
            },
        }
    }
}

/// The run takes up its next target: it asks whether the target exists where
/// directories are walked, and goes straight to its rename where they are
/// not. With no target left the run is finished.
pub open spec fn begun(s: RunnerView) -> RunnerView {
    if 0 <= s.next_target < s.targets.len() {
        let path = s.targets[s.next_target];
        RunnerView {
            next_target: s.next_target + 1,
            pending: if s.recursive {
                RequestView::Exists(path)
            } else {
                RequestView::IsDir(path)
            },
            ..s
        }
    } else {
        RunnerView { pending: RequestView::Finished, ..s }
    }
}

/// The walker goes on inside the innermost directory: it takes up the next
/// entry, or, with no entry left, leaves the directory and turns to the
/// rename of the directory itself.
pub open spec fn advanced(s: RunnerView) -> RunnerView {
    if s.stack.len() == 0 {
        s
    } else {
        let top = s.stack.last();
        if 0 <= top.next < top.entries.len() {
            RunnerView {
                stack: s.stack.drop_last().push(FrameView { next: top.next + 1, ..top }),
                pending: RequestView::IsRealDir(top.entries[top.next]),
                ..s
            }
        } else {
            RunnerView { stack: s.stack.drop_last(), pending: RequestView::IsDir(top.path), ..s }
        }
    }
}

/// One path is done and `outcome` stands in its place: inside a directory the
/// walker goes on there; at a target the outcome is kept and the next target
/// taken up.
pub open spec fn settled(s: RunnerView, outcome: Seq<char>) -> RunnerView {
    if s.stack.len() == 0 {
        begun(RunnerView { outcome: Some(outcome), ..s })
    } else {
        advanced(s)
    }
}

/// The request that settles a probed rename: a rename where the decision is
/// to change, a report of the decision where it is not.
pub open spec fn probed(
    old: Seq<char>,
    new: Seq<char>,
    same: bool,
    old_exists: bool,
    new_exists: bool,
    dry_run: bool,
) -> RequestView {
    let action = decided(same, old_exists, new_exists, dry_run);
    if action == RenameAction::Change {
        RequestView::Rename { old, new, line: report_line(action, old, new) }
    } else {
        RequestView::Report {
            line: report_line(action, old, new),
            outcome: path_after(action, old, new),
        }
    }
}

/// The state after `reply` has come in for the pending request. A reply that
/// does not answer the pending request changes nothing: the request stands.
pub open spec fn stepped(s: RunnerView, reply: ReplyView) -> RunnerView {
    match (s.pending, reply) {
        (RequestView::Exists(path), ReplyView::Flag(exists)) => RunnerView {
            pending: if exists {
                RequestView::IsRealDir(path)
            } else {
                RequestView::Report {
                    line: report_line(RenameAction::Missing, path, path),
                    outcome: path,
                }
            },
            ..s
        },
        (RequestView::IsRealDir(path), ReplyView::Flag(real_dir)) => RunnerView {
            pending: if real_dir {
                RequestView::List(path)
            } else {
                RequestView::IsDir(path)
            },
            ..s
        },
        (RequestView::List(path), ReplyView::Entries(entries)) => advanced(
            RunnerView { stack: s.stack.push(FrameView { path, entries, next: 0 }), ..s },
        ),
        (RequestView::IsDir(path), ReplyView::Flag(is_dir)) => RunnerView {
            pending: RequestView::Probe {
                old: path,
                new: sanitized_path(path, is_dir, s.replacement, s.mode),
            },
            ..s
        },
        (
            RequestView::Probe { old, new },
            ReplyView::Probed { same, old_exists, new_exists },
        ) => RunnerView { pending: probed(old, new, same, old_exists, new_exists, s.dry_run), ..s },
        (RequestView::Report { line, outcome }, ReplyView::Done) => settled(s, outcome),
        (RequestView::Rename { old, new, line }, ReplyView::Done) => settled(s, new),
        _ => s,
    }
}

/// The state in which a run starts: no target taken up, no directory entered.
pub open spec fn started(
    targets: Seq<Seq<char>>,
    recursive: bool,
    dry_run: bool,
    replacement: char,
    mode: SanitizeMode,
) -> RunnerView {
    begun(
        RunnerView {
            dry_run,
            replacement,
            mode,
            recursive,
            targets,
            next_target: 0,
            stack: Seq::empty(),
            pending: RequestView::Finished,
            outcome: None,
        },
    )
}

/// The mode that a configuration asks for.
pub open spec fn mode_of(full_sanitize: bool) -> SanitizeMode {
    if full_sanitize {
        SanitizeMode::Full
    } else {
        SanitizeMode::Legacy
    }
}

impl Runner {
    /// Takes up the next target.
    fn begin(self) -> (next: Runner)
        ensures
            next@ == begun(self@),
    {
        let mut runner = self;
        if runner.next_target < runner.targets.len() {
            let path = runner.targets[runner.next_target].clone();
            runner.next_target = runner.next_target + 1;
            runner.pending = if runner.recursive {
                Request::Exists(path)
            } else {
                Request::IsDir(path)
            };
        } else {
            runner.pending = Request::Finished;
        }
        runner
    }

    /// Goes on inside the innermost directory.
    fn advance(self) -> (next: Runner)
        ensures
            next@ == advanced(self@),
    {
        let mut runner = self;
        let ghost before = runner.stack@;
        match runner.stack.pop() {
            None => runner,
            Some(top) => {
                assert(frames(runner.stack@) =~= frames(before).drop_last());
                assert(frames(before).last() == top@);
                let mut frame = top;
                if frame.next < frame.entries.len() {
                    let child = frame.entries[frame.next].clone();
                    frame.next = frame.next + 1;
                    let ghost below = runner.stack@;
                    runner.stack.push(frame);
                    assert(frames(runner.stack@) =~= frames(below).push(frame@));
                    runner.pending = Request::IsRealDir(child);
                } else {
                    runner.pending = Request::IsDir(frame.path);
                }
                runner
            },
        }
    }

    /// Notes that one path is done.
    fn settle(self, outcome: String) -> (next: Runner)
        ensures
            next@ == settled(self@, outcome@),
    {
        if self.stack.len() == 0 {
            let mut runner = self;
            runner.outcome = Some(outcome);
            runner.begin()
        } else {
            self.advance()
        }
    }

    /// The request that waits for its reply.
    pub fn request(&self) -> (request: &Request)
        ensures
            request@ == self@.pending,
    {
        &self.pending
    }

    /// Whether nothing is left to do.
    pub fn is_finished(&self) -> (b: bool)
        ensures
            b == (self@.pending is Finished),
    {
        match self.pending {
            Request::Finished => true,
            _ => false,
        }
    }

    /// The path that stands for the target that was finished last.
    pub fn outcome(&self) -> (outcome: Option<String>)
        ensures
            crate::compose::text_of(outcome) == self@.outcome,
    {
        match &self.outcome {
            Some(path) => Some(path.clone()),
            None => None,
        }
    }

    /// Takes the reply to the pending request and moves on to the next one.
    /// A reply that does not answer the pending request changes nothing.
    pub fn step(self, reply: Reply) -> (next: Runner)
        ensures
            next@ == stepped(self@, reply@),
    {
        let Runner {
            dry_run,
            replacement,
            mode,
            recursive,
            targets,
            next_target,
            stack,
            pending,
            outcome,
        } = self;
        let mut runner = Runner {
            dry_run,
            replacement,
            mode,
            recursive,
            targets,
            next_target,
            stack,
            pending: Request::Finished,
            outcome,
        };
        match (pending, reply) {
            (Request::Exists(path), Reply::Flag(exists)) => {
                runner.pending = if exists {
                    Request::IsRealDir(path)
                } else {
                    Request::Report {
                        line: report(RenameAction::Missing, path.as_str(), path.as_str()),
                        outcome: path,
                    }
                };
                runner
            },
            (Request::IsRealDir(path), Reply::Flag(real_dir)) => {
                runner.pending = if real_dir {
                    Request::List(path)
                } else {
                    Request::IsDir(path)
                };
                runner
            },
            (Request::List(path), Reply::Entries(entries)) => {
                let ghost below = runner.stack@;
                let frame = Frame { path, entries, next: 0 };
                runner.stack.push(frame);
                assert(frames(runner.stack@) =~= frames(below).push(frame@));
                runner.advance()
            },
            (Request::IsDir(path), Reply::Flag(is_dir)) => {
                let new = sanitized_filename(path.as_str(), is_dir, replacement, mode);
                runner.pending = Request::Probe { old: path, new };
                runner
            },
            (Request::Probe { old, new }, Reply::Probed { same, old_exists, new_exists }) => {
                let decision = rename_path(
                    old.as_str(),
                    new.as_str(),
                    same,
                    old_exists,
                    new_exists,
                    dry_run,
                );
                runner.pending = match decision.action {
                    RenameAction::Change => Request::Rename { old, new, line: decision.report },
                    _ => Request::Report { line: decision.report, outcome: decision.path },
                };
                runner
            },
            (Request::Report { line, outcome }, Reply::Done) => runner.settle(outcome),
            (Request::Rename { old, new, line }, Reply::Done) => runner.settle(new),
            (pending, _) => {
                runner.pending = pending;
                runner
            },
        }
    }
}

/// Starts the walk of one tree: `path` and, where it is a directory,
/// everything below it are sanitized, the children of a directory before the
/// directory itself. The runner returned holds the first request.
pub fn sanitize_directory_tree(path: &str, dry_run: bool, replacement: char, mode: SanitizeMode) -> (runner:
    Runner)
    ensures
        runner@ == started(seq![path@], true, dry_run, replacement, mode),
        runner@.pending == RequestView::Exists(path@),
{
    let mut targets: Vec<String> = Vec::new();
    targets.push(path.to_owned());
    let runner = Runner {
        dry_run,
        replacement,
        mode,
        recursive: true,
        targets,
        next_target: 0,
        stack: Vec::new(),
        pending: Request::Finished,
        outcome: None,
    };
    assert(runner@.targets =~= seq![path@]);
    assert(runner@.stack =~= Seq::<FrameView>::empty());
    runner.begin()
}

/// Starts a run over the targets of `config`, in the order given. Each target
/// is sanitized, and walked first where the configuration is recursive. The
/// runner returned holds the first request.
pub fn run(config: Config) -> (runner: Runner)
    ensures
        runner@ == started(
            config@.targets,
            config@.recursive,
            config@.dry_run,
            config@.replacement,
            mode_of(config@.full_sanitize),
        ),
{
    let mode = if config.full_sanitize {
        SanitizeMode::Full
    } else {
        SanitizeMode::Legacy
    };
    let runner = Runner {
        dry_run: config.dry_run,
        replacement: config.replacement,
        mode,
        recursive: config.recursive,
        targets: config.targets,
        next_target: 0,
        stack: Vec::new(),
        pending: Request::Finished,
        outcome: None,
    };
    assert(runner@.stack =~= Seq::<FrameView>::empty());
    runner.begin()
}

/// The state after the replies have come in, one after the other.
pub open spec fn replayed(s: RunnerView, replies: Seq<ReplyView>) -> RunnerView
    decreases replies.len(),
{
    if replies.len() == 0 {
        s
    } else {
        stepped(replayed(s, replies.drop_last()), replies.last())
    }
}

/// A dry run never asks for a rename, whatever the caller replies.
pub proof fn lemma_dry_run_renames_nothing(
    targets: Seq<Seq<char>>,
    recursive: bool,
    replacement: char,
    mode: SanitizeMode,
    replies: Seq<ReplyView>,
)
    ensures
        replayed(started(targets, recursive, true, replacement, mode), replies).dry_run,
        !(replayed(started(targets, recursive, true, replacement, mode), replies).pending is Rename),
    decreases replies.len(),
{
    if replies.len() > 0 {
        lemma_dry_run_renames_nothing(targets, recursive, replacement, mode, replies.drop_last());
    }
}

/// A rename is asked for only in answer to a probe that found the old path
/// there and the new path free, of two paths that differ, and in no dry run.
/// Where a step ends in a request to rename, either it is this step that
/// answered such a probe, or the request stood before and stands unanswered.
pub proof fn lemma_rename_follows_clear_probe(s: RunnerView, reply: ReplyView)
    requires
        stepped(s, reply).pending is Rename,
    ensures
        stepped(s, reply) == s || (s.pending matches RequestView::Probe { old, new } && reply
            == (ReplyView::Probed { same: false, old_exists: true, new_exists: false })
            && !s.dry_run && stepped(s, reply).pending == (RequestView::Rename {
            old,
            new,
            line: report_line(RenameAction::Change, old, new),
        })),
{
}

/// A collision is skipped: where the new path exists and is not the old
/// one, the walker asks for the report of the collision and for no rename, and
/// the old path stands.
pub proof fn lemma_collision_is_skipped(s: RunnerView, old: Seq<char>, new: Seq<char>)
    requires
        s.pending == (RequestView::Probe { old, new }),
    ensures
        stepped(
            s,
            ReplyView::Probed { same: false, old_exists: true, new_exists: true },
        ).pending == (
        RequestView::Report {
            line: report_line(RenameAction::Collision, old, new),
            outcome: old,
        }),
{
}

} // verus!
