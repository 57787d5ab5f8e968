//! The session's decisions: how the shell was invoked, which mode it runs
//! in, what each read and each command does to the session, and how
//! startup files are worked through.
use vstd::prelude::*;

use crate::parser::{commands_view, error_message, words_view, CommandView, ParseError, ParsedCommand};
use crate::shell::{builtin_named, option_text, status_to_u8, Builtin, CommandOutcome};
use crate::text::{chars_of, is_whitespace, natural_numeral, push_natural, spec_is_whitespace, text_equals};

verus! {

/// How the shell was started.
#[derive(Debug, PartialEq, Eq)]
pub struct Invocation {
    /// The command given with `-c`, if any.
    pub command: Option<String>,
    /// Whether the program name marks a login shell.
    pub login_shell: bool,
}

/// Where the last component of a path starts: just after its last `/`.
pub open spec fn component_start(path: Seq<u8>) -> int
    decreases path.len(),
{
    if path.len() == 0 {
        0
    } else if path.last() == 0x2f {
        path.len() as int
    } else {
        component_start(path.drop_last())
    }
}

/// Whether the program name marks a login shell: the last component of the
/// path, not counting empty and `.` components, begins with `-`.
pub open spec fn marks_login(path: Seq<u8>) -> bool
    decreases path.len(),
{
    if path.len() == 0 {
        false
    } else if path.last() == 0x2f {
        marks_login(path.drop_last())
    } else if path.last() == 0x2e && (path.len() == 1 || path[path.len() - 2] == 0x2f) {
        marks_login(path.drop_last())
    } else {
        path[component_start(path)] == 0x2d
    }
}

proof fn lemma_component_start_bounds(path: Seq<u8>)
    ensures
        0 <= component_start(path) <= path.len(),
        path.len() > 0 && path.last() != 0x2f ==> component_start(path) < path.len(),
    decreases path.len(),
{
    if path.len() > 0 && path.last() != 0x2f {
        lemma_component_start_bounds(path.drop_last());
    }
}

/// Whether a shell started under this program name is a login shell.
pub fn is_login_program(program: &[u8]) -> (login: bool)
    ensures
        login == marks_login(program@),
{
    let ghost p = program@;
    let mut end: usize = program.len();
    proof {
        assert(p.take(end as int) =~= p);
    }
    loop
        invariant
            end <= p.len(),
            p == program@,
            marks_login(p) == marks_login(p.take(end as int)),
        ensures
            0 < end <= p.len(),
            p == program@,
            marks_login(p) == marks_login(p.take(end as int)),
            p[end - 1] != 0x2f,
            !(p[end - 1] == 0x2e && (end == 1 || p[end - 2] == 0x2f)),
        decreases end,
    {
        if end == 0 {
            return false;
        }
        let ghost q = p.take(end as int);
        proof {
            assert(q.drop_last() =~= p.take(end - 1));
        }
        if program[end - 1] == 0x2f {
            end = end - 1;
        } else if program[end - 1] == 0x2e && (end == 1 || program[end - 2] == 0x2f) {
            end = end - 1;
        } else {
            break;
        }
    }
    let ghost q = p.take(end as int);
    let mut start: usize = end;
    proof {
        lemma_component_start_bounds(q);
        assert(q.take(start as int) =~= q);
    }
    while start > 0 && program[start - 1] != 0x2f
        invariant
            start <= end <= p.len(),
            p == program@,
            q == p.take(end as int),
            component_start(q) == component_start(q.take(start as int)),
        decreases start,
    {
        proof {
            assert(q.take(start as int).drop_last() =~= q.take(start - 1));
        }
        start = start - 1;
    }
    proof {
        lemma_component_start_bounds(q);
        if start > 0 {
            assert(q.take(start as int).last() == 0x2f);
        } else {
            assert(q.take(0) =~= Seq::<u8>::empty());
        }
        assert(q.last() == p[end - 1]);
        assert(q.len() == end);
        assert(q[start as int] == p[start as int]);
    }
    program[start] == 0x2d
}

/// The invocation of the command-line arguments (after the program name),
/// each given as its text (with invalid UTF-8 replaced) and whether it was
/// valid UTF-8: no arguments, or exactly `-c COMMAND`.
pub open spec fn invocation_spec(login_shell: bool, arguments: Seq<(String, bool)>) -> Result<
    (Option<Seq<char>>, bool),
    Seq<char>,
> {
    if arguments.len() == 0 {
        Ok((None, login_shell))
    } else if arguments.len() == 2 && arguments[0].0@ == "-c"@ {
        if arguments[1].1 {
            Ok((Some(arguments[1].0@), login_shell))
        } else {
            Err("command is not valid UTF-8"@)
        }
    } else if arguments.len() == 1 && arguments[0].0@ == "-c"@ {
        Err("option `-c` requires a command"@)
    } else {
        Err("unsupported argument `"@ + arguments[0].0@ + "`"@)
    }
}

/// An accepted invocation keeps the login flag it was given, whatever the
/// arguments; it has no command exactly when there are no arguments, and
/// otherwise its command is the argument after `-c`. No arguments are always
/// accepted.
pub proof fn law_invocation_keeps_the_login_flag(login_shell: bool, arguments: Seq<(String, bool)>)
    ensures
        invocation_spec(login_shell, arguments) matches Ok((command, login)) ==> {
            &&& login == login_shell
            &&& command is None <==> arguments.len() == 0
            &&& command matches Some(text) ==> arguments.len() == 2 && arguments[0].0@ == "-c"@
                && text == arguments[1].0@
        },
        arguments.len() == 0 ==> invocation_spec(login_shell, arguments) == Ok::<
            (Option<Seq<char>>, bool),
            Seq<char>,
        >((None, login_shell)),
{
}

pub open spec fn invocation_view(result: Result<Invocation, String>) -> Result<
    (Option<Seq<char>>, bool),
    Seq<char>,
> {
    match result {
        Ok(inv) => Ok((option_text(inv.command), inv.login_shell)),
        Err(e) => Err(e@),
    }
}

/// Reads the command-line arguments.
pub fn invocation_from_arguments(login_shell: bool, arguments: &[(String, bool)]) -> (result:
    Result<Invocation, String>)
    ensures
        invocation_view(result) == invocation_spec(login_shell, arguments@),
{
    if arguments.len() == 0 {
        return Ok(Invocation { command: None, login_shell });
    }
    let first_is_flag = text_equals(arguments[0].0.as_str(), "-c");
    if arguments.len() == 2 && first_is_flag {
        if arguments[1].1 {
            return Ok(Invocation { command: Some(arguments[1].0.clone()), login_shell });
        }
        return Err("command is not valid UTF-8".to_owned());
    }
    if arguments.len() == 1 && first_is_flag {
        return Err("option `-c` requires a command".to_owned());
    }
    let mut text = "unsupported argument `".to_owned();
    text.append(arguments[0].0.as_str());
    text.append("`");
    Err(text)
}

/// The shell is interactive when it has no `-c` command and its input is a
/// terminal; it reads startup files when interactive or a login shell.
pub fn session_mode(has_command: bool, input_is_terminal: bool, login_shell: bool) -> (result: (
    bool,
    bool,
))
    ensures
        result.0 == (!has_command && input_is_terminal),
        result.1 == ((!has_command && input_is_terminal) || login_shell),
{
    let interactive = !has_command && input_is_terminal;
    (interactive, interactive || login_shell)
}

/// What a parsed command line runs.
#[derive(Debug, Clone, Copy, PartialEq, Eq)]
pub enum CommandKind {
    /// No words: nothing runs and `$?` keeps its value.
    Empty,
    Builtin(Builtin),
    External,
}

pub open spec fn command_kind_spec(words: Seq<String>) -> CommandKind {
    if words.len() == 0 {
        CommandKind::Empty
    } else {
        match builtin_named(words[0]@) {
            Some(b) => CommandKind::Builtin(b),
            None => CommandKind::External,
        }
    }
}

/// What the words of a command line run.
pub fn command_kind(words: &[String]) -> (kind: CommandKind)
    ensures
        kind == command_kind_spec(words@),
{
    if words.len() == 0 {
        return CommandKind::Empty;
    }
    match crate::shell::builtin_of(words[0].as_str()) {
        Some(b) => CommandKind::Builtin(b),
        None => CommandKind::External,
    }
}

/// The report of a parse error, prefixed by the startup file and line it
/// came from, if any.
pub open spec fn parse_report_spec(error: ParseError, source: Option<(Seq<char>, usize)>) -> Seq<
    char,
> {
    match source {
        Some((path, line)) => path + ":"@ + natural_numeral(line as nat) + ": "@ + error_message(
            error,
        ),
        None => error_message(error),
    }
}

/// The report of a parse error.
pub fn parse_report(error: &ParseError, source: Option<(&str, usize)>) -> (report: String)
    ensures
        report@ == parse_report_spec(
            *error,
            match source {
                Some((path, line)) => Some((path@, line)),
                None => None,
            },
        ),
{
    match source {
        Some((path, line)) => {
            let mut text = path.to_owned();
            text.append(":");
            push_natural(&mut text, line as u64);
            text.append(": ");
            let message = error.message();
            text.append(message.as_str());
            proof {
                assert(text@ =~= path@ + ":"@ + natural_numeral(line as nat) + ": "@
                    + error_message(*error));
            }
            text
        },
        None => error.message(),
    }
}

/// The status a command line leaves when it cannot be parsed.
pub fn parse_failure_status() -> (status: i32)
    ensures
        status == 2,
{
    2
}

/// Whether a line holds only whitespace (such lines stay out of history).
pub fn is_blank_line(line: &str) -> (result: bool)
    ensures
        result == (forall|k: int| 0 <= k < line@.len() ==> spec_is_whitespace(#[trigger] line@[k])),
{
    let chars = chars_of(line);
    let mut i: usize = 0;
    while i < chars.len()
        invariant
            chars@ == line@,
            i <= chars@.len(),
            forall|k: int| 0 <= k < i ==> spec_is_whitespace(#[trigger] line@[k]),
        decreases chars.len() - i,
    {
        if !is_whitespace(chars[i]) {
            return false;
        }
        i = i + 1;
    }
    true
}

/// What reading one line of input gave.
#[derive(Debug, Clone, Copy, PartialEq, Eq)]
pub enum ReadEvent {
    Line,
    /// Ctrl-C at the prompt.
    Interrupted,
    EndOfInput,
    Failed,
}

/// What the session does next.
#[derive(Debug, Clone, Copy, PartialEq, Eq)]
pub enum SessionStep {
    /// Run the line that was read.
    Execute,
    /// Read another line, with `$?` set to this status.
    Read(i32),
    /// Leave the shell with this exit status.
    Finish(u8),
}

/// The exit status of a shell that was hung up.
pub open spec fn hangup_status() -> u8 {
    129
}

/// The exit status of a shell that was hung up.
pub fn hangup_exit_status() -> (status: u8)
    ensures
        status == hangup_status(),
{
    129
}

/// What an interactive session does after a read: a requested hangup ends
/// it with 129, whatever the read gave; otherwise Ctrl-C reads again with
/// status 130, end of input leaves with the last status, and a failed read
/// leaves with 1.
pub open spec fn interactive_step_spec(event: ReadEvent, hangup: bool, last_status: i32) -> SessionStep {
    if hangup {
        SessionStep::Finish(hangup_status())
    } else {
        match event {
            ReadEvent::Line => SessionStep::Execute,
            ReadEvent::Interrupted => SessionStep::Read(130),
            ReadEvent::EndOfInput => SessionStep::Finish(((last_status as int) % 256) as u8),
            ReadEvent::Failed => SessionStep::Finish(1),
        }
    }
}

/// Decides what an interactive session does after a read.
pub fn interactive_step(event: ReadEvent, hangup: bool, last_status: i32) -> (step: SessionStep)
    ensures
        step == interactive_step_spec(event, hangup, last_status),
        hangup ==> step == SessionStep::Finish(129),
{
    if hangup {
        return SessionStep::Finish(hangup_exit_status());
    }
    match event {
        ReadEvent::Line => SessionStep::Execute,
        ReadEvent::Interrupted => SessionStep::Read(130),
        ReadEvent::EndOfInput => SessionStep::Finish(status_to_u8(last_status)),
        ReadEvent::Failed => SessionStep::Finish(1),
    }
}

/// What a batch session (lines from a file or pipe) does after a read.
pub open spec fn batch_step_spec(event: ReadEvent, last_status: i32) -> SessionStep {
    match event {
        ReadEvent::Line => SessionStep::Execute,
        ReadEvent::Interrupted => SessionStep::Read(last_status),
        ReadEvent::EndOfInput => SessionStep::Finish(((last_status as int) % 256) as u8),
        ReadEvent::Failed => SessionStep::Finish(1),
    }
}

/// Decides what a batch session does after a read.
pub fn batch_step(event: ReadEvent, last_status: i32) -> (step: SessionStep)
    ensures
        step == batch_step_spec(event, last_status),
{
    match event {
        ReadEvent::Line => SessionStep::Execute,
        ReadEvent::Interrupted => SessionStep::Read(last_status),
        ReadEvent::EndOfInput => SessionStep::Finish(status_to_u8(last_status)),
        ReadEvent::Failed => SessionStep::Finish(1),
    }
}

/// What a session does after running a line: carry on with its status, or
/// leave when the line was `exit`.
pub fn after_command(outcome: CommandOutcome) -> (step: SessionStep)
    ensures
        step == match outcome {
            CommandOutcome::Status(s) => SessionStep::Read(s),
            CommandOutcome::Exit(code) => SessionStep::Finish(code),
        },
{
    match outcome {
        CommandOutcome::Status(s) => SessionStep::Read(s),
        CommandOutcome::Exit(code) => SessionStep::Finish(code),
    }
}

/// What happened while working through the startup files.
#[derive(Debug, Clone, Copy, PartialEq, Eq)]
pub enum StartupEvent {
    /// The file does not exist.
    Missing,
    /// The file exists but cannot be opened.
    Unreadable,
    /// Reading a line of the file failed.
    ReadFailed,
    /// A line ran with this outcome.
    Ran(CommandOutcome),
}

/// What startup processing does next.
#[derive(Debug, Clone, Copy, PartialEq, Eq)]
pub enum StartupStep {
    /// Go on to the next file, with `$?` at this status.
    NextFile(i32),
    /// Go on to the next line, with `$?` at this status.
    NextLine(i32),
    /// Leave the shell with this exit status.
    Exit(u8),
}

/// Missing files are skipped silently; unreadable files and read failures
/// set status 1 and move on to the next file; each line's status becomes
/// `$?`; `exit` ends startup and the shell.
pub open spec fn startup_step_spec(event: StartupEvent, last_status: i32) -> StartupStep {
    match event {
        StartupEvent::Missing => StartupStep::NextFile(last_status),
        StartupEvent::Unreadable => StartupStep::NextFile(1),
        StartupEvent::ReadFailed => StartupStep::NextFile(1),
        StartupEvent::Ran(CommandOutcome::Status(s)) => StartupStep::NextLine(s),
        StartupEvent::Ran(CommandOutcome::Exit(code)) => StartupStep::Exit(code),
    }
}

/// Decides what startup processing does next.
pub fn startup_step(event: StartupEvent, last_status: i32) -> (step: StartupStep)
    ensures
        step == startup_step_spec(event, last_status),
{
    match event {
        StartupEvent::Missing => StartupStep::NextFile(last_status),
        StartupEvent::Unreadable => StartupStep::NextFile(1),
        StartupEvent::ReadFailed => StartupStep::NextFile(1),
        StartupEvent::Ran(CommandOutcome::Status(s)) => StartupStep::NextLine(s),
        StartupEvent::Ran(CommandOutcome::Exit(code)) => StartupStep::Exit(code),
    }
}

/// The words of a command joined by single spaces, as shown for jobs.
pub open spec fn command_text_spec(program: Seq<char>, arguments: Seq<String>) -> Seq<char>
    decreases arguments.len(),
{
    if arguments.len() == 0 {
        program
    } else {
        command_text_spec(program, arguments.drop_last()) + " "@ + arguments.last()@
    }
}

/// The text of a command, as shown for jobs.
pub fn command_text(program: &str, arguments: &[String]) -> (text: String)
    ensures
        text@ == command_text_spec(program@, arguments@),
{
    let mut text = program.to_owned();
    let mut k: usize = 0;
    while k < arguments.len()
        invariant
            k <= arguments@.len(),
            text@ == command_text_spec(program@, arguments@.take(k as int)),
        decreases arguments.len() - k,
    {
        proof {
            assert(arguments@.take(k + 1).drop_last() =~= arguments@.take(k as int));
        }
        text.append(" ");
        text.append(arguments[k].as_str());
        k = k + 1;
    }
    proof {
        assert(arguments@.take(arguments@.len() as int) =~= arguments@);
    }
    text
}

/// Words joined by single spaces.
pub open spec fn joined_words(words: Seq<Seq<char>>) -> Seq<char>
    decreases words.len(),
{
    if words.len() == 0 {
        Seq::empty()
    } else if words.len() == 1 {
        words[0]
    } else {
        joined_words(words.drop_last()) + " "@ + words.last()
    }
}

/// The stages of a pipeline, each as its words joined by spaces, joined by
/// ` | `: how the pipeline is shown as a job.
pub open spec fn pipeline_text_spec(stages: Seq<CommandView>) -> Seq<char>
    decreases stages.len(),
{
    if stages.len() == 0 {
        Seq::empty()
    } else if stages.len() == 1 {
        joined_words(stages[0].words)
    } else {
        pipeline_text_spec(stages.drop_last()) + " | "@ + joined_words(stages.last().words)
    }
}

fn push_words(text: &mut String, words: &Vec<String>)
    ensures
        final(text)@ == old(text)@ + joined_words(words_view(words@)),
{
    let ghost start = text@;
    let mut k: usize = 0;
    proof {
        assert(words_view(words@.take(0)) =~= Seq::<Seq<char>>::empty());
        assert(start + Seq::<char>::empty() =~= start);
    }
    while k < words.len()
        invariant
            k <= words@.len(),
            text@ == start + joined_words(words_view(words@.take(k as int))),
        decreases words.len() - k,
    {
        let ghost before = joined_words(words_view(words@.take(k as int)));
        let ghost now = words_view(words@.take(k + 1));
        proof {
            assert(now.drop_last() =~= words_view(words@.take(k as int)));
            assert(now.last() == words@[k as int]@);
        }
        if k > 0 {
            text.append(" ");
        }
        text.append(words[k].as_str());
        proof {
            if k == 0 {
                assert(now.len() == 1);
                assert(text@ =~= start + now[0]);
            } else {
                assert(text@ =~= start + (before + " "@ + now.last()));
            }
        }
        k = k + 1;
    }
    proof {
        assert(words@.take(words@.len() as int) =~= words@);
    }
}

/// How a pipeline is shown as a job: each stage's words joined by spaces,
/// the stages joined by ` | `.
pub fn pipeline_text(commands: &[ParsedCommand]) -> (text: String)
    ensures
        text@ == pipeline_text_spec(commands_view(commands@)),
{
    let mut text = String::new();
    let mut k: usize = 0;
    proof {
        assert(commands_view(commands@.take(0)) =~= Seq::<CommandView>::empty());
    }
    while k < commands.len()
        invariant
            k <= commands@.len(),
            text@ == pipeline_text_spec(commands_view(commands@.take(k as int))),
        decreases commands.len() - k,
    {
        let ghost before = pipeline_text_spec(commands_view(commands@.take(k as int)));
        let ghost now = commands_view(commands@.take(k + 1));
        proof {
            assert(now.drop_last() =~= commands_view(commands@.take(k as int)));
            assert(now.last() == commands@[k as int]@);
        }
        if k > 0 {
            text.append(" | ");
        }
        push_words(&mut text, &commands[k].words);
        proof {
            if k == 0 {
                assert(now.len() == 1);
                assert(text@ =~= joined_words(now[0].words));
            } else {
                assert(text@ =~= before + " | "@ + joined_words(now.last().words));
            }
        }
        k = k + 1;
    }
    proof {
        assert(commands@.take(commands@.len() as int) =~= commands@);
    }
    text
}

/// The job-control signals, as the shell names them to the system.
#[derive(Debug, Clone, Copy, PartialEq, Eq)]
pub enum ShellSignal {
    SigInt,
    SigQuit,
    SigTstp,
    SigTtin,
    SigTtou,
    SigHup,
}

/// The signals an interactive shell ignores while it owns the terminal.
pub fn foreground_signals() -> (signals: [ShellSignal; 5])
    ensures
        signals@ == seq![
            ShellSignal::SigInt,
            ShellSignal::SigQuit,
            ShellSignal::SigTstp,
            ShellSignal::SigTtin,
            ShellSignal::SigTtou,
        ],
{
    let signals = [
        ShellSignal::SigInt,
        ShellSignal::SigQuit,
        ShellSignal::SigTstp,
        ShellSignal::SigTtin,
        ShellSignal::SigTtou,
    ];
    proof {
        assert(signals@ =~= seq![
            ShellSignal::SigInt,
            ShellSignal::SigQuit,
            ShellSignal::SigTstp,
            ShellSignal::SigTtin,
            ShellSignal::SigTtou,
        ]);
    }
    signals
}

/// The signals whose default disposition a child restores before it runs a
/// program: the ones the shell ignores, and the hangup the shell handles.
pub fn child_signals() -> (signals: [ShellSignal; 6])
    ensures
        signals@ == seq![
            ShellSignal::SigInt,
            ShellSignal::SigQuit,
            ShellSignal::SigTstp,
            ShellSignal::SigTtin,
            ShellSignal::SigTtou,
            ShellSignal::SigHup,
        ],
{
    let signals = [
        ShellSignal::SigInt,
        ShellSignal::SigQuit,
        ShellSignal::SigTstp,
        ShellSignal::SigTtin,
        ShellSignal::SigTtou,
        ShellSignal::SigHup,
    ];
    proof {
        assert(signals@ =~= seq![
            ShellSignal::SigInt,
            ShellSignal::SigQuit,
            ShellSignal::SigTstp,
            ShellSignal::SigTtin,
            ShellSignal::SigTtou,
            ShellSignal::SigHup,
        ]);
    }
    signals
}

/// Where a pipeline stage's standard input or output goes.
#[derive(Debug, Clone, Copy, PartialEq, Eq)]
pub enum StageStream {
    /// The shell's own stream.
    Inherited,
    /// The file its redirection names.
    Redirected,
    /// The pipe to the neighbouring stage.
    Pipe,
}

/// The streams of stage `stage` of `stages`: an explicit redirection takes
/// that end's place; otherwise a stage reads from the stage before it and
/// writes to the stage after it, and the ends of the pipeline keep the
/// shell's streams.
pub fn stage_streams(stage: usize, stages: usize, redirects_input: bool, redirects_output: bool) -> (streams: (StageStream, StageStream))
    requires
        stage < stages,
    ensures
        streams.0 == if redirects_input {
            StageStream::Redirected
        } else if stage > 0 {
            StageStream::Pipe
        } else {
            StageStream::Inherited
        },
        streams.1 == if redirects_output {
            StageStream::Redirected
        } else if stage + 1 < stages {
            StageStream::Pipe
        } else {
            StageStream::Inherited
        },
{
    let input = if redirects_input {
        StageStream::Redirected
    } else if stage > 0 {
        StageStream::Pipe
    } else {
        StageStream::Inherited
    };
    let output = if redirects_output {
        StageStream::Redirected
    } else if stage < stages - 1 {
        StageStream::Pipe
    } else {
        StageStream::Inherited
    };
    (input, output)
}

/// What a parsed line runs.
#[derive(Debug, Clone, Copy, PartialEq, Eq)]
pub enum LinePlan {
    /// Nothing runs (a blank or comment-only line); `$?` keeps this status.
    Nothing(i32),
    /// One command, which the shell runs itself when it is a built-in.
    Command,
    /// Several stages, each in a process of its own.
    Pipeline,
}

/// Decides what a parsed line runs: a line of several stages is a pipeline;
/// a single command with words runs as itself; a line without words runs
/// nothing and keeps the previous status.
pub fn line_plan(commands: &[ParsedCommand], last_status: i32) -> (plan: LinePlan)
    ensures
        plan == if commands@.len() > 1 {
            LinePlan::Pipeline
        } else if commands@.len() == 1 && commands@[0].words@.len() > 0 {
            LinePlan::Command
        } else {
            LinePlan::Nothing(last_status)
        },
{
    if commands.len() > 1 {
        LinePlan::Pipeline
    } else if commands.len() == 1 && commands[0].words.len() > 0 {
        LinePlan::Command
    } else {
        LinePlan::Nothing(last_status)
    }
}

/// Where part `k` starts when the parts are written one after another with
/// `sep` characters between two of them.
pub open spec fn part_start(parts: Seq<Seq<char>>, sep: nat, k: int) -> int
    decreases k,
{
    if k <= 0 {
        0
    } else {
        part_start(parts, sep, k - 1) + parts[k - 1].len() + sep
    }
}

/// The parts written one after another with `sep` between two of them.
spec fn join_parts(parts: Seq<Seq<char>>, sep: Seq<char>) -> Seq<char>
    decreases parts.len(),
{
    if parts.len() == 0 {
        Seq::empty()
    } else if parts.len() == 1 {
        parts[0]
    } else {
        join_parts(parts.drop_last(), sep) + sep + parts.last()
    }
}

proof fn lemma_part_start_prefix(parts: Seq<Seq<char>>, sep: nat, k: int)
    requires
        0 <= k < parts.len(),
    ensures
        part_start(parts, sep, k) == part_start(parts.drop_last(), sep, k),
    decreases k,
{
    if k > 0 {
        lemma_part_start_prefix(parts, sep, k - 1);
    }
}

/// Where each part and each separator stands in the joined text.
proof fn lemma_join_positions(parts: Seq<Seq<char>>, sep: Seq<char>)
    requires
        parts.len() > 0,
    ensures
        join_parts(parts, sep).len() == part_start(parts, sep.len(), parts.len() as int)
            - sep.len(),
        forall|k: int|
            #![trigger part_start(parts, sep.len(), k)]
            0 <= k < parts.len() ==> join_parts(parts, sep).subrange(
                part_start(parts, sep.len(), k),
                part_start(parts, sep.len(), k) + parts[k].len(),
            ) == parts[k],
        forall|k: int|
            #![trigger part_start(parts, sep.len(), k)]
            1 <= k < parts.len() ==> join_parts(parts, sep).subrange(
                part_start(parts, sep.len(), k) - sep.len(),
                part_start(parts, sep.len(), k),
            ) == sep,
    decreases parts.len(),
{
    let n = parts.len() as int;
    let m = sep.len();
    let text = join_parts(parts, sep);
    if n == 1 {
        assert(part_start(parts, m, 0) == 0);
        assert(part_start(parts, m, 1) == parts[0].len() + m);
        assert(text.subrange(0, parts[0].len() as int) =~= parts[0]);
    } else {
        let prefix = parts.drop_last();
        let before = join_parts(prefix, sep);
        let last = parts.last();
        lemma_join_positions(prefix, sep);
        assert(text == before + sep + last);
        assert forall|k: int| 0 <= k <= n - 1 implies part_start(parts, m, k) == part_start(
            prefix,
            m,
            k,
        ) by {
            if k < n - 1 {
                lemma_part_start_prefix(parts, m, k);
            } else {
                lemma_part_start_prefix(parts, m, k - 1);
            }
        }
        let b = before.len() as int;
        assert(part_start(parts, m, n - 1) == b + m);
        assert(part_start(parts, m, n) == b + m + last.len() + m);
        assert(text.len() == b + m + last.len());
        assert forall|k: int|
            #![trigger part_start(parts, sep.len(), k)]
            0 <= k < n implies text.subrange(
                part_start(parts, m, k),
                part_start(parts, m, k) + parts[k].len(),
            ) == parts[k] by {
            if k < n - 1 {
                let a = part_start(prefix, m, k);
                lemma_part_start_grows(prefix, m, 0, k);
                assert(prefix[k] == parts[k]);
                assert(before.subrange(a, a + parts[k].len()) == parts[k]);
                assert(a + parts[k].len() <= b) by {
                    lemma_part_start_grows(prefix, m, k + 1, n - 1);
                }
                assert(text.subrange(a, a + parts[k].len()) =~= before.subrange(
                    a,
                    a + parts[k].len(),
                ));
            } else {
                assert(text.subrange(b + m, b + m + last.len()) =~= last);
            }
        }
        assert forall|k: int|
            #![trigger part_start(parts, sep.len(), k)]
            1 <= k < n implies text.subrange(
                part_start(parts, m, k) - m,
                part_start(parts, m, k),
            ) == sep by {
            if k < n - 1 {
                let a = part_start(prefix, m, k);
                lemma_part_start_grows(prefix, m, 0, k);
                assert(before.subrange(a - m, a) == sep);
                assert(a <= b) by {
                    lemma_part_start_grows(prefix, m, k, n - 1);
                }
                assert(text.subrange(a - m, a) =~= before.subrange(a - m, a));
            } else {
                assert(text.subrange(b, b + m) =~= sep);
            }
        }
    }
}

proof fn lemma_part_start_grows(parts: Seq<Seq<char>>, sep: nat, i: int, j: int)
    requires
        0 <= i <= j <= parts.len(),
    ensures
        part_start(parts, sep, i) + sep <= part_start(parts, sep, j) + sep,
        i < j ==> part_start(parts, sep, i) + parts[i].len() + sep <= part_start(parts, sep, j),
    decreases j - i,
{
    if i < j {
        lemma_part_start_grows(parts, sep, i + 1, j);
    }
}

proof fn lemma_joined_words_join(words: Seq<Seq<char>>)
    ensures
        joined_words(words) == join_parts(words, " "@),
    decreases words.len(),
{
    if words.len() > 1 {
        lemma_joined_words_join(words.drop_last());
    }
}

/// A stage is shown as its words joined by single spaces: each word stands
/// at its place, one space after the word before it, and nothing else is
/// added.
pub proof fn law_words_are_joined_by_single_spaces(words: Seq<Seq<char>>)
    requires
        words.len() > 0,
    ensures
        joined_words(words).len() == part_start(words, 1, words.len() as int) - 1,
        forall|k: int|
            #![trigger part_start(words, 1, k)]
            0 <= k < words.len() ==> joined_words(words).subrange(
                part_start(words, 1, k),
                part_start(words, 1, k) + words[k].len(),
            ) == words[k],
        forall|k: int|
            #![trigger part_start(words, 1, k)]
            1 <= k < words.len() ==> joined_words(words)[part_start(words, 1, k) - 1] == ' ',
{
    reveal_strlit(" ");
    lemma_joined_words_join(words);
    lemma_join_positions(words, " "@);
    assert forall|k: int|
        #![trigger part_start(words, 1, k)]
        1 <= k < words.len() implies joined_words(words)[part_start(words, 1, k) - 1] == ' ' by {
        let a = part_start(words, 1, k);
        lemma_part_start_grows(words, 1, 0, k);
        lemma_part_start_grows(words, 1, k, words.len() as int);
        assert(joined_words(words).subrange(a - 1, a) == " "@);
        assert(joined_words(words).subrange(a - 1, a)[0] == ' ');
    }
}

/// The texts of a command's parts: the program, then each argument.
pub open spec fn command_parts(program: Seq<char>, arguments: Seq<String>) -> Seq<Seq<char>> {
    seq![program] + arguments.map_values(|a: String| a@)
}

proof fn lemma_command_text_joins(program: Seq<char>, arguments: Seq<String>)
    ensures
        command_text_spec(program, arguments) == joined_words(command_parts(program, arguments)),
    decreases arguments.len(),
{
    let parts = command_parts(program, arguments);
    if arguments.len() == 0 {
        assert(parts =~= seq![program]);
    } else {
        lemma_command_text_joins(program, arguments.drop_last());
        assert(parts.drop_last() =~= command_parts(program, arguments.drop_last()));
        assert(parts.last() == arguments.last()@);
    }
}

/// A job's command is shown as its program and arguments joined by single
/// spaces: the program first, then each argument at its place, one space
/// after what comes before it, and nothing else.
pub proof fn law_command_text_is_spaced_words(program: Seq<char>, arguments: Seq<String>)
    ensures
        command_text_spec(program, arguments).len() == part_start(
            command_parts(program, arguments),
            1,
            arguments.len() + 1int,
        ) - 1,
        forall|k: int|
            #![trigger part_start(command_parts(program, arguments), 1, k)]
            0 <= k <= arguments.len() ==> command_text_spec(program, arguments).subrange(
                part_start(command_parts(program, arguments), 1, k),
                part_start(command_parts(program, arguments), 1, k) + command_parts(
                    program,
                    arguments,
                )[k].len(),
            ) == command_parts(program, arguments)[k],
        forall|k: int|
            #![trigger part_start(command_parts(program, arguments), 1, k)]
            1 <= k <= arguments.len() ==> command_text_spec(program, arguments)[part_start(
                command_parts(program, arguments),
                1,
                k,
            ) - 1] == ' ',
{
    lemma_command_text_joins(program, arguments);
    law_words_are_joined_by_single_spaces(command_parts(program, arguments));
}

/// The shown texts of a pipeline's stages.
pub open spec fn stage_texts(stages: Seq<CommandView>) -> Seq<Seq<char>> {
    stages.map_values(|c: CommandView| joined_words(c.words))
}

proof fn lemma_pipeline_text_joins(stages: Seq<CommandView>)
    ensures
        pipeline_text_spec(stages) == join_parts(stage_texts(stages), " | "@),
    decreases stages.len(),
{
    if stages.len() > 1 {
        lemma_pipeline_text_joins(stages.drop_last());
        assert(stage_texts(stages).drop_last() =~= stage_texts(stages.drop_last()));
    }
}

/// A pipeline is shown as one job: each stage's text at its place, with
/// ` | ` between two stages and nothing else.
pub proof fn law_pipeline_text_separates_stages(stages: Seq<CommandView>)
    requires
        stages.len() > 0,
    ensures
        pipeline_text_spec(stages).len() == part_start(stage_texts(stages), 3, stages.len() as int)
            - 3,
        forall|k: int|
            #![trigger part_start(stage_texts(stages), 3, k)]
            0 <= k < stages.len() ==> pipeline_text_spec(stages).subrange(
                part_start(stage_texts(stages), 3, k),
                part_start(stage_texts(stages), 3, k) + joined_words(stages[k].words).len(),
            ) == joined_words(stages[k].words),
        forall|k: int|
            #![trigger part_start(stage_texts(stages), 3, k)]
            1 <= k < stages.len() ==> pipeline_text_spec(stages).subrange(
                part_start(stage_texts(stages), 3, k) - 3,
                part_start(stage_texts(stages), 3, k),
            ) == " | "@,
{
    reveal_strlit(" | ");
    lemma_pipeline_text_joins(stages);
    lemma_join_positions(stage_texts(stages), " | "@);
    assert forall|k: int| 0 <= k < stages.len() implies stage_texts(stages)[k] == joined_words(
        stages[k].words,
    ) by {}
}

} // verus!
