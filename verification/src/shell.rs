//! The decisions of the built-in commands and of command statuses.
use vstd::prelude::*;

use crate::parser::OutputRedirection;
use crate::text::{
    chars_of, is_valid_name, is_valid_variable_name, lemma_parse_unsigned_range, parse_unsigned,
    parse_unsigned_text, text_equals,
};

verus! {

/// The commands the shell runs itself.
#[derive(Debug, Clone, Copy, PartialEq, Eq)]
pub enum Builtin {
    Bg,
    Cd,
    Exit,
    Export,
    Fg,
    Jobs,
    Pwd,
    Which,
}

/// The built-in a command name names, if any.
pub open spec fn builtin_named(name: Seq<char>) -> Option<Builtin> {
    if name == "bg"@ {
        Some(Builtin::Bg)
    } else if name == "cd"@ {
        Some(Builtin::Cd)
    } else if name == "exit"@ {
        Some(Builtin::Exit)
    } else if name == "export"@ {
        Some(Builtin::Export)
    } else if name == "fg"@ {
        Some(Builtin::Fg)
    } else if name == "jobs"@ {
        Some(Builtin::Jobs)
    } else if name == "pwd"@ {
        Some(Builtin::Pwd)
    } else if name == "which"@ {
        Some(Builtin::Which)
    } else {
        None
    }
}

/// The name a built-in is invoked by.
pub open spec fn builtin_command_name(b: Builtin) -> Seq<char> {
    match b {
        Builtin::Bg => "bg"@,
        Builtin::Cd => "cd"@,
        Builtin::Exit => "exit"@,
        Builtin::Export => "export"@,
        Builtin::Fg => "fg"@,
        Builtin::Jobs => "jobs"@,
        Builtin::Pwd => "pwd"@,
        Builtin::Which => "which"@,
    }
}

/// Each built-in is run by its own name and no other: the name of a
/// built-in names that built-in, and a name that names a built-in is that
/// built-in's name (so `fg` runs `fg` and `bg` runs `bg`).
pub proof fn law_builtins_answer_to_their_own_names(b: Builtin, name: Seq<char>)
    ensures
        builtin_named(builtin_command_name(b)) == Some(b),
        builtin_named(name) matches Some(c) ==> name == builtin_command_name(c),
{
    reveal_strlit("bg");
    reveal_strlit("cd");
    reveal_strlit("exit");
    reveal_strlit("export");
    reveal_strlit("fg");
    reveal_strlit("jobs");
    reveal_strlit("pwd");
    reveal_strlit("which");
    let names = seq!["bg"@, "cd"@, "exit"@, "export"@, "fg"@, "jobs"@, "pwd"@, "which"@];
    assert forall|i: int, j: int| 0 <= i < j < 8 implies names[i] != names[j] by {
        if names[i].len() == names[j].len() {
            assert(names[i][0] != names[j][0]);
        }
    }
    assert(names[0] != names[4]);
    assert(names[1] != names[4]);
    assert(names[2] != names[4]);
    assert(names[3] != names[4]);
}

/// The built-in that `name` names, if any.
pub fn builtin_of(name: &str) -> (result: Option<Builtin>)
    ensures
        result == builtin_named(name@),
{
    if text_equals(name, "bg") {
        Some(Builtin::Bg)
    } else if text_equals(name, "cd") {
        Some(Builtin::Cd)
    } else if text_equals(name, "exit") {
        Some(Builtin::Exit)
    } else if text_equals(name, "export") {
        Some(Builtin::Export)
    } else if text_equals(name, "fg") {
        Some(Builtin::Fg)
    } else if text_equals(name, "jobs") {
        Some(Builtin::Jobs)
    } else if text_equals(name, "pwd") {
        Some(Builtin::Pwd)
    } else if text_equals(name, "which") {
        Some(Builtin::Which)
    } else {
        None
    }
}

/// Whether the shell runs `name` itself: exactly `bg`, `cd`, `exit`,
/// `export`, `fg`, `jobs`, `pwd` and `which`.
pub fn is_builtin(name: &str) -> (result: bool)
    ensures
        result == builtin_named(name@) is Some,
{
    builtin_of(name).is_some()
}

/// A status as a Unix exit byte: the status modulo 256.
pub fn status_to_u8(status: i32) -> (result: u8)
    ensures
        result as int == (status as int) % 256,
{
    if status >= 0 {
        (status % 256) as u8
    } else {
        let magnitude: i64 = -(status as i64);
        let rest = magnitude % 256;
        if rest == 0 {
            0
        } else {
            (256 - rest) as u8
        }
    }
}

/// What running one command line asks of the session.
#[derive(Debug, Clone, Copy, PartialEq, Eq)]
pub enum CommandOutcome {
    /// Carry on; `$?` becomes this status.
    Status(i32),
    /// Leave the shell with this exit status.
    Exit(u8),
}

/// The exit byte of a command's outcome.
pub fn outcome_status(outcome: CommandOutcome) -> (result: u8)
    ensures
        match outcome {
            CommandOutcome::Status(status) => result as int == (status as int) % 256,
            CommandOutcome::Exit(status) => result == status,
        },
{
    match outcome {
        CommandOutcome::Status(status) => status_to_u8(status),
        CommandOutcome::Exit(status) => status,
    }
}

/// The status `exit` leaves with: its argument, read as a number from 0 to
/// 255 (status 2 when it is not one), or the previous status as an exit
/// byte; with more than one argument, status 1 and no exit.
pub open spec fn exit_status_spec(arguments: Seq<String>, last_status: i32) -> Result<u8, i32> {
    if arguments.len() > 1 {
        Err(1)
    } else if arguments.len() == 1 {
        match parse_unsigned(arguments[0]@, 255) {
            Some(v) => Ok(v as u8),
            None => Ok(2),
        }
    } else {
        Ok(((last_status as int) % 256) as u8)
    }
}

/// The status `exit` leaves with, or the status of a refused `exit`.
pub fn exit_status(arguments: &[String], last_status: i32) -> (result: Result<u8, i32>)
    ensures
        result == exit_status_spec(arguments@, last_status),
{
    if arguments.len() > 1 {
        return Err(1);
    }
    if arguments.len() == 1 {
        proof {
            lemma_parse_unsigned_range(arguments@[0]@, 255);
        }
        match parse_unsigned_text(arguments[0].as_str(), 255) {
            Some(v) => Ok(v as u8),
            None => Ok(2),
        }
    } else {
        Ok(status_to_u8(last_status))
    }
}

/// The diagnostic that `exit` gives, if any.
pub open spec fn exit_message_spec(arguments: Seq<String>) -> Option<Seq<char>> {
    if arguments.len() > 1 {
        Some("exit: too many arguments"@)
    } else if arguments.len() == 1 && parse_unsigned(arguments[0]@, 255) is None {
        Some("exit: "@ + arguments[0]@ + ": numeric argument required"@)
    } else {
        None
    }
}

/// The diagnostic that `exit` gives for these arguments, if any.
pub fn exit_message(arguments: &[String]) -> (result: Option<String>)
    ensures
        option_text(result) == exit_message_spec(arguments@),
{
    if arguments.len() > 1 {
        return Some("exit: too many arguments".to_owned());
    }
    if arguments.len() == 1 && parse_unsigned_text(arguments[0].as_str(), 255).is_none() {
        let mut text = "exit: ".to_owned();
        text.append(arguments[0].as_str());
        text.append(": numeric argument required");
        return Some(text);
    }
    None
}

pub open spec fn option_text(text: Option<String>) -> Option<Seq<char>> {
    match text {
        Some(t) => Some(t@),
        None => None,
    }
}

/// The file an output redirection names; empty without one.
pub fn output_path(redirection: Option<&OutputRedirection>) -> (path: &str)
    ensures
        path@ == match redirection {
            Some(OutputRedirection::Truncate(p)) => p@,
            Some(OutputRedirection::Append(p)) => p@,
            None => Seq::<char>::empty(),
        },
{
    match redirection {
        Some(OutputRedirection::Truncate(path)) => path.as_str(),
        Some(OutputRedirection::Append(path)) => path.as_str(),
        None => {
            proof {
                reveal_strlit("");
            }
            ""
        },
    }
}

/// The index of the first `=` in `s`, if any.
pub open spec fn first_equals(s: Seq<char>) -> Option<int> {
    if exists|k: int| 0 <= k < s.len() && s[k] == '=' {
        Some(choose|k: int| 0 <= k < s.len() && s[k] == '=' && forall|m: int| 0 <= m < k ==> s[m] != '=')
    } else {
        None
    }
}

/// What `export` does with its arguments: exactly one `NAME=VALUE`
/// argument, split at its first `=`, with a valid name.
pub open spec fn export_spec(arguments: Seq<String>) -> Result<(Seq<char>, Seq<char>), Seq<char>> {
    if arguments.len() != 1 {
        Err("usage: export NAME=VALUE"@)
    } else {
        let a = arguments[0]@;
        match first_equals(a) {
            None => Err("export: expected NAME=VALUE"@),
            Some(k) => {
                let name = a.subrange(0, k);
                if is_valid_name(name) {
                    Ok((name, a.subrange(k + 1, a.len() as int)))
                } else {
                    Err("export: `"@ + name + "` is not a valid variable name"@)
                }
            },
        }
    }
}

pub open spec fn pair_result_view(result: Result<(String, String), String>) -> Result<
    (Seq<char>, Seq<char>),
    Seq<char>,
> {
    match result {
        Ok((a, b)) => Ok((a@, b@)),
        Err(e) => Err(e@),
    }
}

/// The variable that `export` sets and its value, or its diagnostic.
pub fn export_assignment(arguments: &[String]) -> (result: Result<(String, String), String>)
    ensures
        pair_result_view(result) == export_spec(arguments@),
{
    if arguments.len() != 1 {
        return Err("usage: export NAME=VALUE".to_owned());
    }
    let chars = chars_of(arguments[0].as_str());
    let ghost a = arguments@[0]@;
    let mut name = String::new();
    let mut k: usize = 0;
    while k < chars.len() && chars[k] != '='
        invariant
            chars@ == a,
            k <= a.len(),
            name@ == a.subrange(0, k as int),
            forall|m: int| 0 <= m < k ==> a[m] != '=',
        decreases chars.len() - k,
    {
        name.push(chars[k]);
        proof {
            assert(name@ =~= a.subrange(0, k + 1));
        }
        k = k + 1;
    }
    if k == chars.len() {
        proof {
            assert(!exists|j: int| 0 <= j < a.len() && a[j] == '=');
        }
        return Err("export: expected NAME=VALUE".to_owned());
    }
    proof {
        assert(a[k as int] == '=');
        let j = choose|j: int| 0 <= j < a.len() && a[j] == '=' && forall|m: int| 0 <= m < j ==> a[m] != '=';
        assert(j == k) by {
            if j < k {
                assert(a[j] != '=');
            }
            if j > k {
                assert(a[k as int] != '=');
            }
        }
        assert(first_equals(a) == Some(k as int));
    }
    if !is_valid_variable_name(name.as_str()) {
        let mut text = "export: `".to_owned();
        text.append(name.as_str());
        text.append("` is not a valid variable name");
        return Err(text);
    }
    let mut value = String::new();
    let mut m: usize = k + 1;
    while m < chars.len()
        invariant
            chars@ == a,
            k < a.len(),
            k + 1 <= m <= a.len(),
            value@ == a.subrange(k + 1, m as int),
        decreases chars.len() - m,
    {
        value.push(chars[m]);
        proof {
            assert(value@ =~= a.subrange(k + 1, m + 1));
        }
        m = m + 1;
    }
    Ok((name, value))
}

/// Where `cd` goes: its one argument, or `HOME` without one.
pub open spec fn cd_spec(arguments: Seq<String>, home: Option<Seq<char>>) -> Result<
    Seq<char>,
    Seq<Seq<char>>,
> {
    if arguments.len() > 1 {
        Err(seq!["cd: too many arguments"@, "try cd <name_of_directory>"@])
    } else if arguments.len() == 1 {
        Ok(arguments[0]@)
    } else {
        match home {
            Some(h) => Ok(h),
            None => Err(seq!["cd: HOME is not set"@]),
        }
    }
}

pub open spec fn lines_result_view(result: Result<String, Vec<String>>) -> Result<
    Seq<char>,
    Seq<Seq<char>>,
> {
    match result {
        Ok(t) => Ok(t@),
        Err(lines) => Err(lines@.map_values(|l: String| l@)),
    }
}

/// The directory `cd` changes to, or its diagnostic lines. `home` is the
/// value of `HOME`, when it is set.
pub fn cd_destination(arguments: &[String], home: Option<String>) -> (result: Result<
    String,
    Vec<String>,
>)
    ensures
        lines_result_view(result) == cd_spec(arguments@, option_text(home)),
{
    if arguments.len() > 1 {
        let mut lines: Vec<String> = Vec::new();
        lines.push("cd: too many arguments".to_owned());
        lines.push("try cd <name_of_directory>".to_owned());
        proof {
            assert(lines@.map_values(|l: String| l@) =~= seq![
                "cd: too many arguments"@,
                "try cd <name_of_directory>"@,
            ]);
        }
        return Err(lines);
    }
    if arguments.len() == 1 {
        return Ok(arguments[0].clone());
    }
    match home {
        Some(h) => Ok(h),
        None => {
            let mut lines: Vec<String> = Vec::new();
            lines.push("cd: HOME is not set".to_owned());
            proof {
                assert(lines@.map_values(|l: String| l@) =~= seq!["cd: HOME is not set"@]);
            }
            Err(lines)
        },
    }
}

/// The diagnostic of a built-in that takes no arguments (`pwd`, `jobs`)
/// when it is given some.
pub open spec fn no_arguments_spec(name: Seq<char>, arguments: Seq<String>) -> Option<Seq<char>> {
    if arguments.len() > 0 {
        Some(name + ": too many arguments"@)
    } else {
        None
    }
}

/// Checks that a built-in got no arguments; its diagnostic otherwise.
pub fn no_arguments(name: &str, arguments: &[String]) -> (result: Option<String>)
    ensures
        option_text(result) == no_arguments_spec(name@, arguments@),
{
    if arguments.len() > 0 {
        let mut text = name.to_owned();
        text.append(": too many arguments");
        Some(text)
    } else {
        None
    }
}

/// The status of a process that was terminated or stopped by `signal`.
pub fn signal_status(signal: i32) -> (status: i32)
    requires
        signal <= i32::MAX - 128,
    ensures
        status == 128 + signal,
{
    128 + signal
}

/// A finished process's status: its exit code, else 128 plus the signal
/// that ended it, else 1.
pub fn process_exit_status(code: Option<i32>, signal: Option<i32>) -> (status: i32)
    requires
        code is None ==> (signal matches Some(s) ==> s <= i32::MAX - 128),
    ensures
        status as int == match code {
            Some(c) => c as int,
            None => match signal {
                Some(s) => 128 + s,
                None => 1,
            },
        },
{
    match code {
        Some(c) => c,
        None => match signal {
            Some(s) => signal_status(s),
            None => 1,
        },
    }
}

/// The status of a command that never started: 127 when the program was not
/// found, 126 when it was found but could not be started.
pub fn start_failure_status(not_found: bool) -> (status: i32)
    ensures
        status == if not_found {
            127i32
        } else {
            126i32
        },
{
    if not_found {
        127
    } else {
        126
    }
}

} // verus!
