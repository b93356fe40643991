//! What a command line leads to: a run, or an early exit with its texts.

use vstd::prelude::*;
use crate::cli::{parse_args, parsed, CliError, CliErrorView, USAGE};
use crate::text::texts;
use crate::walk::{mode_of, run, started, Runner, RunnerView};

verus! {

/// What the program does with its command line.
#[derive(Debug)]
pub enum Startup {
    /// The program ends at once, with this exit code and these texts for the
    /// standard output and the standard error.
    Exit { code: i32, out: String, err: String },
    /// The program runs; the runner holds the first request.
    Run(Runner),
}

/// The mathematical value of a [`Startup`].
pub enum StartupView {
    Exit { code: int, out: Seq<char>, err: Seq<char> },
    Run(RunnerView),
}

impl View for Startup {
    type V = StartupView;

    open spec fn view(&self) -> StartupView {
        match self {
            Startup::Exit { code, out, err } => StartupView::Exit {
                code: *code as int,
                out: out@,
                err: err@,
            },
            Startup::Run(runner) => StartupView::Run(runner@),
        }
    }
}

/// What the command line leads to. A request for help prints the usage text
/// and succeeds. A wrong command line, and one without a target, fail with a
/// message and the usage text on the standard error. Any other starts a run.
pub open spec fn startup_of(args: Seq<Seq<char>>) -> StartupView {
    match parsed(args) {
        Err(CliErrorView::Help) => StartupView::Exit { code: 0, out: USAGE@, err: Seq::empty() },
        Err(CliErrorView::Message(message)) => StartupView::Exit {
            code: 1,
            out: Seq::empty(),
            err: message + seq!['\n'] + USAGE@,
        },
        Ok(config) => if config.targets.len() == 0 {
            StartupView::Exit {
                code: 1,
                out: Seq::empty(),
                err: "No files or directories specified"@ + seq!['\n'] + USAGE@,
            }
        } else {
            StartupView::Run(
                started(
                    config.targets,
                    config.recursive,
                    config.dry_run,
                    config.replacement,
                    mode_of(config.full_sanitize),
                ),
            )
        },
    }
}

/// Reads the command line, without the program's name, and says what the
/// program does: end at once, with an exit code and what to print, or run.
pub fn run_with_args(args: &[String]) -> (startup: Startup)
    ensures
        startup@ == startup_of(texts(args@)),
        startup@ matches StartupView::Exit { code, .. } ==> code == 0 || code == 1,
{
    match parse_args(args) {
        Err(CliError::Help) => Startup::Exit {
            code: 0,
            out: USAGE.to_owned(),
            err: String::new(),
        },
        Err(CliError::Message(message)) => {
            let mut err = message;
            err.push('\n');
            err.append(USAGE);
            assert(err@ =~= message@ + seq!['\n'] + USAGE@);
            Startup::Exit { code: 1, out: String::new(), err }
        },
        Ok(config) => {
            if config.targets.len() == 0 {
                let mut err = "No files or directories specified".to_owned();
                err.push('\n');
                err.append(USAGE);
                assert(err@ =~= "No files or directories specified"@ + seq!['\n'] + USAGE@);
                Startup::Exit { code: 1, out: String::new(), err }
            } else {
                Startup::Run(run(config))
            }
        },
    }
}

} // verus!
