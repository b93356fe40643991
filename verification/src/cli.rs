//! The command line: the configuration, its parser and the usage text.

use vstd::prelude::*;
use crate::text::{has_prefix, is_text, texts, to_chars, to_string};

verus! {

/// What one run is asked to do.
#[derive(Debug, Clone)]
pub struct Config {
    /// Walk into directories and sanitize what they hold.
    pub recursive: bool,
    /// Report what would be renamed, and rename nothing.
    pub dry_run: bool,
    /// The character that takes the place of every replaced one.
    pub replacement: char,
    /// The paths to sanitize, in the order given.
    pub targets: Vec<String>,
    /// Use the full mode in place of the legacy mode.
    pub full_sanitize: bool,
}

/// The mathematical value of a [`Config`].
pub struct ConfigView {
    pub recursive: bool,
    pub dry_run: bool,
    pub replacement: char,
    pub targets: Seq<Seq<char>>,
    pub full_sanitize: bool,
}

impl View for Config {
    type V = ConfigView;

    open spec fn view(&self) -> ConfigView {
        ConfigView {
            recursive: self.recursive,
            dry_run: self.dry_run,
            replacement: self.replacement,
            targets: texts(self.targets@),
            full_sanitize: self.full_sanitize,
        }
    }
}

/// Why the command line gave no configuration.
#[derive(Debug)]
pub enum CliError {
    /// The command line is wrong; the text says how.
    Message(String),
    /// The usage text was asked for.
    Help,
}

/// The mathematical value of a [`CliError`].
pub enum CliErrorView {
    Message(Seq<char>),
    Help,
}

impl View for CliError {
    type V = CliErrorView;

    open spec fn view(&self) -> CliErrorView {
        match self {
            CliError::Message(m) => CliErrorView::Message(m@),
            CliError::Help => CliErrorView::Help,
        }
    }
}

/// The replacement character that `s` names, or why it names none: `s` must
/// be one character, and not the path separator.
pub open spec fn validated(s: Seq<char>) -> Result<char, Seq<char>> {
    if s.len() == 0 {
        Err("Replacement character cannot be empty"@)
    } else if s.len() > 1 {
        Err("Replacement character must be a single character"@)
    } else if s[0] == '/' {
        Err("Replacement character '/' is not allowed"@)
    } else {
        Ok(s[0])
    }
}

/// Checks the text given for the replacement character.
pub fn validate_replacement(s: &str) -> (result: Result<char, String>)
    ensures
        match result {
            Ok(c) => validated(s@) == Ok::<char, Seq<char>>(c),
            Err(m) => validated(s@) == Err::<char, Seq<char>>(m@),
        },
{
    let chars = to_chars(s);
    if chars.len() == 0 {
        Err("Replacement character cannot be empty".to_owned())
    } else if chars.len() > 1 {
        Err("Replacement character must be a single character".to_owned())
    } else if chars[0] == '/' {
        Err("Replacement character '/' is not allowed".to_owned())
    } else {
        Ok(chars[0])
    }
}

/// The configuration before any argument is read.
pub open spec fn initial_config() -> ConfigView {
    ConfigView {
        recursive: false,
        dry_run: false,
        replacement: '_',
        targets: Seq::empty(),
        full_sanitize: false,
    }
}

/// The argument reads as an option: it starts with `-` and is more than `-`.
pub open spec fn is_option(arg: Seq<char>) -> bool {
    arg.len() > 0 && arg[0] == '-' && arg != "-"@
}

/// The configuration with one more target. The current directory and its
/// parent, `.` and `..`, are never targets.
pub open spec fn with_target(config: ConfigView, arg: Seq<char>) -> ConfigView {
    if arg == "."@ || arg == ".."@ {
        config
    } else {
        ConfigView { targets: config.targets.push(arg), ..config }
    }
}

/// The configuration with the replacement character that `value` names, or
/// the message that says why it names none.
pub open spec fn with_replacement(config: ConfigView, value: Seq<char>) -> Result<
    ConfigView,
    CliErrorView,
> {
    match validated(value) {
        Ok(c) => Ok(ConfigView { replacement: c, ..config }),
        Err(m) => Err(CliErrorView::Message(m)),
    }
}

/// What the arguments from `args[i]` on make of `config`. Once
/// `end_of_options` holds, every argument is a target.
pub open spec fn parsed_from(
    args: Seq<Seq<char>>,
    i: int,
    end_of_options: bool,
    config: ConfigView,
) -> Result<ConfigView, CliErrorView>
    decreases args.len() - i,
{
    if i < 0 || i >= args.len() {
        Ok(config)
    } else {
        let arg = args[i];
        if end_of_options || !is_option(arg) {
            parsed_from(args, i + 1, end_of_options, with_target(config, arg))
        } else if arg == "--"@ {
            parsed_from(args, i + 1, true, config)
        } else if arg == "-h"@ || arg == "--help"@ {
            Err(CliErrorView::Help)
        } else if arg == "-r"@ || arg == "--recursive"@ {
            parsed_from(args, i + 1, false, ConfigView { recursive: true, ..config })
        } else if arg == "-n"@ || arg == "--dry-run"@ {
            parsed_from(args, i + 1, false, ConfigView { dry_run: true, ..config })
        } else if arg == "-F"@ || arg == "--full-sanitize"@ {
            parsed_from(args, i + 1, false, ConfigView { full_sanitize: true, ..config })
        } else if arg == "-c"@ || arg == "--replacement"@ {
            if i + 1 >= args.len() {
                Err(
                    CliErrorView::Message(
                        if arg == "-c"@ {
                            "Option '-c' requires an argument"@
                        } else {
                            "Option '--replacement' requires an argument"@
                        },
                    ),
                )
            } else {
                match with_replacement(config, args[i + 1]) {
                    Ok(next) => parsed_from(args, i + 2, false, next),
                    Err(e) => Err(e),
                }
            }
        } else if "-c"@.is_prefix_of(arg) {
            match with_replacement(config, arg.skip("-c"@.len() as int)) {
                Ok(next) => parsed_from(args, i + 1, false, next),
                Err(e) => Err(e),
            }
        } else if "--replacement="@.is_prefix_of(arg) {
            if arg.len() == "--replacement="@.len() {
                Err(CliErrorView::Message("Option '--replacement' requires an argument"@))
            } else {
                match with_replacement(config, arg.skip("--replacement="@.len() as int)) {
                    Ok(next) => parsed_from(args, i + 1, false, next),
                    Err(e) => Err(e),
                }
            }
        } else {
            Err(CliErrorView::Message("Unknown option: "@ + arg))
        }
    }
}

/// What the command line gives: the configuration, a request for the usage
/// text, or the message that says what is wrong with it.
pub open spec fn parsed(args: Seq<Seq<char>>) -> Result<ConfigView, CliErrorView> {
    parsed_from(args, 0, false, initial_config())
}

/// The current directory and its parent are no targets of the configuration.
pub open spec fn has_no_dot_target(config: ConfigView) -> bool {
    forall|k: int|
        0 <= k < config.targets.len() ==> #[trigger] config.targets[k] != "."@
            && config.targets[k] != ".."@
}

/// Parsing adds no `.` and no `..` to the targets, and never makes the path
/// separator the replacement character.
pub proof fn lemma_parsed_from_keeps_valid(
    args: Seq<Seq<char>>,
    i: int,
    end_of_options: bool,
    config: ConfigView,
)
    requires
        has_no_dot_target(config),
        config.replacement != '/',
    ensures
        parsed_from(args, i, end_of_options, config) matches Ok(parsed) ==> has_no_dot_target(
            parsed,
        ) && parsed.replacement != '/',
    decreases args.len() - i,
{
    if 0 <= i < args.len() {
        let arg = args[i];
        if end_of_options || !is_option(arg) {
            lemma_parsed_from_keeps_valid(args, i + 1, end_of_options, with_target(config, arg));
        } else if arg == "--"@ {
            lemma_parsed_from_keeps_valid(args, i + 1, true, config);
        } else if arg == "-h"@ || arg == "--help"@ {
        } else if arg == "-r"@ || arg == "--recursive"@ {
            lemma_parsed_from_keeps_valid(
                args,
                i + 1,
                false,
                ConfigView { recursive: true, ..config },
            );
        } else if arg == "-n"@ || arg == "--dry-run"@ {
            lemma_parsed_from_keeps_valid(
                args,
                i + 1,
                false,
                ConfigView { dry_run: true, ..config },
            );
        } else if arg == "-F"@ || arg == "--full-sanitize"@ {
            lemma_parsed_from_keeps_valid(
                args,
                i + 1,
                false,
                ConfigView { full_sanitize: true, ..config },
            );
        } else if arg == "-c"@ || arg == "--replacement"@ {
            if i + 1 < args.len() {
                match with_replacement(config, args[i + 1]) {
                    Ok(changed) => {
                        lemma_parsed_from_keeps_valid(args, i + 2, false, changed);
                    },
                    Err(_) => {},
                }
            }
        } else {
            let value = if "-c"@.is_prefix_of(arg) {
                arg.skip("-c"@.len() as int)
            } else {
                arg.skip("--replacement="@.len() as int)
            };
            match with_replacement(config, value) {
                Ok(changed) => {
                    lemma_parsed_from_keeps_valid(args, i + 1, false, changed);
                },
                Err(_) => {},
            }
        }
    }
}

/// The targets of a configuration read from a command line hold no `.` and no
/// `..`, and the replacement character is never the path separator.
pub proof fn lemma_parsed_config(args: Seq<Seq<char>>)
    ensures
        parsed(args) matches Ok(config) ==> has_no_dot_target(config) && config.replacement != '/',
{
    lemma_parsed_from_keeps_valid(args, 0, false, initial_config());
}

/// What follows the first `skip` characters of `arg`, checked as the text for
/// the replacement character.
fn inline_replacement(arg: &Vec<char>, skip: usize) -> (result: Result<char, CliError>)
    requires
        skip <= arg@.len(),
    ensures
        match result {
            Ok(c) => validated(arg@.skip(skip as int)) == Ok::<char, Seq<char>>(c),
            Err(e) => e@ is Message && validated(arg@.skip(skip as int)) == Err::<
                char,
                Seq<char>,
            >(e@->Message_0),
        },
{
    let rest = to_string(arg, skip, arg.len());
    match validate_replacement(rest.as_str()) {
        Ok(c) => Ok(c),
        Err(m) => Err(CliError::Message(m)),
    }
}

/// Reads the command line, without the program's name. Arguments are read in
/// order: options set flags or the replacement character, `--` ends the
/// options, and every other argument is a target.
pub fn parse_args(args: &[String]) -> (result: Result<Config, CliError>)
    ensures
        match result {
            Ok(config) => parsed(texts(args@)) == Ok::<ConfigView, CliErrorView>(config@),
            Err(e) => parsed(texts(args@)) == Err::<ConfigView, CliErrorView>(e@),
        },
        result matches Ok(config) ==> has_no_dot_target(config@) && config@.replacement != '/',
{
    proof {
        lemma_parsed_config(texts(args@));
    }
    let mut config = Config {
        recursive: false,
        dry_run: false,
        replacement: '_',
        targets: Vec::new(),
        full_sanitize: false,
    };
    let mut i: usize = 0;
    let mut end_of_options = false;
    let ghost all = texts(args@);
    assert(config@.targets =~= Seq::<Seq<char>>::empty());

    while i < args.len()
        invariant
            i <= args@.len(),
            all == texts(args@),
            parsed_from(all, i as int, end_of_options, config@) == parsed(all),
        decreases args@.len() - i,
    {
        let arg = to_chars(args[i].as_str());
        assert(arg@ == all[i as int]);
        let ghost before = config@;

        if end_of_options || arg.len() == 0 || arg[0] != '-' || is_text(&arg, "-") {
            if !is_text(&arg, ".") && !is_text(&arg, "..") {
                config.targets.push(args[i].clone());
                assert(config@.targets =~= before.targets.push(arg@));
            }
            assert(config@ == with_target(before, arg@));
            i += 1;
        } else if is_text(&arg, "--") {
            end_of_options = true;
            i += 1;
        } else if is_text(&arg, "-h") || is_text(&arg, "--help") {
            return Err(CliError::Help);
        } else if is_text(&arg, "-r") || is_text(&arg, "--recursive") {
            config.recursive = true;
            i += 1;
        } else if is_text(&arg, "-n") || is_text(&arg, "--dry-run") {
            config.dry_run = true;
            i += 1;
        } else if is_text(&arg, "-F") || is_text(&arg, "--full-sanitize") {
            config.full_sanitize = true;
            i += 1;
        } else if is_text(&arg, "-c") || is_text(&arg, "--replacement") {
            if i + 1 >= args.len() {
                let message = if is_text(&arg, "-c") {
                    "Option '-c' requires an argument".to_owned()
                } else {
                    "Option '--replacement' requires an argument".to_owned()
                };
                return Err(CliError::Message(message));
            }
            assert(args@[i + 1]@ == all[i + 1]);
            match validate_replacement(args[i + 1].as_str()) {
                Ok(c) => {
                    config.replacement = c;
                },
                Err(m) => {
                    return Err(CliError::Message(m));
                },
            }
            i += 2;
        } else if has_prefix(&arg, "-c") {
            proof {
                reveal_strlit("-c");
            }
            match inline_replacement(&arg, 2) {
                Ok(c) => {
                    config.replacement = c;
                },
                Err(e) => {
                    return Err(e);
                },
            }
            i += 1;
        } else if has_prefix(&arg, "--replacement=") {
            proof {
                reveal_strlit("--replacement=");
            }
            if arg.len() == 14 {
                return Err(
                    CliError::Message("Option '--replacement' requires an argument".to_owned()),
                );
            }
            match inline_replacement(&arg, 14) {
                Ok(c) => {
                    config.replacement = c;
                },
                Err(e) => {
                    return Err(e);
                },
            }
            i += 1;
        } else {
            let mut message = "Unknown option: ".to_owned();
            message.append(args[i].as_str());
            return Err(CliError::Message(message));
        }
    }
    Ok(config)
}

/// The usage text.
pub const USAGE: &'static str =
    "Usage: sanitize_filenames [options] [FILES...]\n\
\n\
Options:\n\
\x20 -r, --recursive        Recursively sanitize directories and their contents\n\
\x20 -n, --dry-run          Show actions without renaming files\n\
\x20 -c, --replacement CHAR Replacement character to use (default: _)\n\
\x20 -F, --full-sanitize    Replace all non-alphanumeric characters (except '_' and '-')\n\
\x20                         with the replacement character\n\
\x20 -h, --help             Show this help message and exit\n\
\n\
Provide one or more files or directories to sanitize their names in-place.\n\
Use '--' to stop option parsing when filenames begin with '-'.\n\
\n\
Examples:\n\
\x20 # sanitize a single file in the current directory\n\
\x20 sanitize_filenames \"My File.txt\"\n\
\n\
\x20 # preview changes without renaming\n\
\x20 sanitize_filenames --dry-run \"My File.txt\"\n\
\n\
\x20 # sanitize recursively and use '-' as the separator\n\
\x20 sanitize_filenames --recursive --replacement - ~/Downloads\n\
\n\
\x20 # sanitize a file whose name starts with a dash\n\
\x20 sanitize_filenames -- --weird name.mp3\n";

/// Appends the usage text to `w`.
pub fn print_usage(w: &mut String)
    ensures
        final(w)@ == old(w)@ + USAGE@,
{
    w.append(USAGE);
}

} // verus!
