use carli::jobs::{
    background_check, background_line, find_job, job_control_check, job_line, reap_decision,
    stopped_job_id, stopped_line, wait_decision, ChildChange, JobState, WaitDecision, WaitEvent,
};
use carli::parser::ParseError;
use carli::paths::{default_path, join, path_candidates, startup_paths, which_plan, WhichPlan};
use carli::prompt::{build_prompt, replace};
use carli::session::{
    after_command, batch_step, child_signals, command_kind, command_text, foreground_signals,
    interactive_step, invocation_from_arguments, is_blank_line, is_login_program, line_plan,
    parse_report, session_mode, LinePlan,
    startup_step, CommandKind, Invocation, ReadEvent, SessionStep, ShellSignal, StartupEvent,
    StartupStep,
};
use carli::parse_pipeline;
use carli::shell::{Builtin, CommandOutcome};

fn strings(items: &[&str]) -> Vec<String> {
    items.iter().map(|item| item.to_string()).collect()
}

#[test]
fn job_lines_show_identifier_state_and_command() {
    assert_eq!(job_line(1, JobState::Stopped, "sleep 300"), "[1] Stopped sleep 300");
    assert_eq!(job_line(12, JobState::Running, "make"), "[12] Running make");
    assert_eq!(stopped_line(3, "vim"), "[3] Stopped vim");
    assert_eq!(background_line(4, "sleep 9"), "[4] sleep 9");
}

#[test]
fn jobs_are_selected_by_number_with_optional_percent() {
    let ids = [1usize, 3, 2];
    assert_eq!(find_job(&strings(&["%3"]), &ids, "fg"), Ok(1));
    assert_eq!(find_job(&strings(&["3"]), &ids, "fg"), Ok(1));
    assert_eq!(find_job(&[], &ids, "bg"), Ok(1));
}

#[test]
fn job_selection_reports_each_error() {
    let ids = [1usize, 2];
    assert_eq!(find_job(&strings(&["1", "2"]), &ids, "fg"), Err("fg: too many arguments".to_string()));
    assert_eq!(find_job(&[], &[], "bg"), Err("bg: no current job".to_string()));
    assert_eq!(
        find_job(&strings(&["%x"]), &ids, "fg"),
        Err("fg: %x: invalid job identifier".to_string())
    );
    assert_eq!(
        find_job(&strings(&["%%1"]), &ids, "fg"),
        Err("fg: %%1: invalid job identifier".to_string())
    );
    assert_eq!(find_job(&strings(&["7"]), &ids, "bg"), Err("bg: %7: no such job".to_string()));
}

#[test]
fn job_control_needs_a_terminal() {
    assert_eq!(job_control_check("fg", true), None);
    assert_eq!(
        job_control_check("bg", false),
        Some("bg: job control is unavailable without a terminal".to_string())
    );
    assert_eq!(background_check(2, JobState::Stopped), None);
    assert_eq!(
        background_check(2, JobState::Running),
        Some("bg: job 2 is already running".to_string())
    );
}

#[test]
fn stopped_jobs_get_the_next_identifier_once() {
    assert_eq!(stopped_job_id(0, 1), (1, 2));
    assert_eq!(stopped_job_id(0, 2), (2, 3));
    assert_eq!(stopped_job_id(5, 9), (5, 9));
}

#[test]
fn reaping_removes_finished_jobs_and_tracks_state_changes() {
    let done = reap_decision(ChildChange::Exited(3), 2, 100, JobState::Running, "make");
    assert!(!done.keep);
    assert_eq!(done.notice, Some("[2] Done (3) make".to_string()));
    assert_eq!(done.diagnostic, None);
    let killed = reap_decision(
        ChildChange::Signaled("SIGTERM".to_string()),
        1,
        100,
        JobState::Stopped,
        "sleep 5",
    );
    assert!(!killed.keep);
    assert_eq!(killed.notice, Some("[1] Terminated (SIGTERM) sleep 5".to_string()));
    let stopped = reap_decision(ChildChange::Stopped, 1, 100, JobState::Running, "x");
    assert!(stopped.keep);
    assert_eq!(stopped.state, JobState::Stopped);
    assert_eq!(stopped.notice, None);
    let resumed = reap_decision(ChildChange::Continued, 1, 100, JobState::Stopped, "x");
    assert_eq!(resumed.state, JobState::Running);
    assert!(!reap_decision(ChildChange::Gone, 1, 100, JobState::Running, "x").keep);
    let failed = reap_decision(ChildChange::Failed("EIO".to_string()), 1, 42, JobState::Running, "x");
    assert!(failed.keep);
    assert_eq!(failed.notice, None);
    assert_eq!(failed.diagnostic, Some("could not check stopped job 42: EIO".to_string()));
}

#[test]
fn foreground_waits_map_events_to_statuses() {
    assert_eq!(wait_decision(WaitEvent::Exited(23), false), WaitDecision::Finished(23));
    assert_eq!(wait_decision(WaitEvent::Signaled(2), false), WaitDecision::Finished(130));
    assert_eq!(wait_decision(WaitEvent::Stopped(20), false), WaitDecision::Suspended(148));
    assert_eq!(
        wait_decision(WaitEvent::Interrupted, true),
        WaitDecision::Continue { hang_up: true }
    );
    assert_eq!(wait_decision(WaitEvent::Other, true), WaitDecision::Continue { hang_up: false });
    assert_eq!(wait_decision(WaitEvent::Failed, false), WaitDecision::Failed);
}

#[test]
fn paths_join_like_the_standard_library() {
    let cases: [(&str, &str); 5] = [
        ("/usr/bin", "ls"),
        ("/usr/bin/", "ls"),
        ("", "ls"),
        ("/usr/bin", "/bin/ls"),
        ("dir", ""),
    ];
    for (dir, rel) in cases {
        let expected = std::path::Path::new(dir).join(rel);
        let joined = join(dir.as_bytes(), rel.as_bytes());
        assert_eq!(String::from_utf8(joined).unwrap(), expected.to_str().unwrap(), "{dir} {rel}");
    }
}

#[test]
fn path_candidates_follow_path_order_and_empty_entries() {
    let candidates = path_candidates(b"/first:/second/::rel", "tool");
    let as_text: Vec<String> = candidates
        .into_iter()
        .map(|c| String::from_utf8(c).unwrap())
        .collect();
    assert_eq!(as_text, vec!["/first/tool", "/second/tool", "tool", "rel/tool"]);
    let empty = path_candidates(b"", "tool");
    assert_eq!(empty, vec![b"tool".to_vec()]);
}

#[test]
fn which_plans_report_builtins_search_path_and_fail() {
    match which_plan(&strings(&["cd"]), None) {
        WhichPlan::Report(line) => assert_eq!(line, "cd: carli built-in"),
        _ => panic!("cd is a built-in"),
    }
    match which_plan(&strings(&["tool"]), Some(b"/a:/b")) {
        WhichPlan::Search { candidates, not_found } => {
            assert_eq!(candidates, vec![b"/a/tool".to_vec(), b"/b/tool".to_vec()]);
            assert_eq!(not_found, "which: tool not found");
        }
        _ => panic!("tool is searched for"),
    }
    for (arguments, message) in [
        (strings(&[]), "which: not enough arguments"),
        (strings(&["one", "two"]), "which: too many arguments"),
        (strings(&["external"]), "which: PATH is not set"),
    ] {
        match which_plan(&arguments, None) {
            WhichPlan::Fail(text) => assert_eq!(text, message),
            _ => panic!("which should fail"),
        }
    }
}

#[test]
fn startup_paths_prefer_override_then_xdg_then_home() {
    assert_eq!(
        startup_paths(None, None, Some(b"/home/a".to_vec())),
        vec![b"/etc/carli/config".to_vec(), b"/home/a/.config/carli/config".to_vec()]
    );
    assert_eq!(
        startup_paths(Some(b"/opt/sys".to_vec()), Some(b"/x".to_vec()), Some(b"/h".to_vec())),
        vec![b"/opt/sys".to_vec(), b"/x/carli/config".to_vec()]
    );
    assert_eq!(
        startup_paths(Some(Vec::new()), Some(Vec::new()), Some(b"/h/".to_vec())),
        vec![b"/etc/carli/config".to_vec(), b"/h/.config/carli/config".to_vec()]
    );
    assert_eq!(startup_paths(None, None, None), vec![b"/etc/carli/config".to_vec()]);
}

#[test]
fn prompt_placeholders_are_replaced() {
    assert_eq!(
        build_prompt(Some("{user}:{dir}$ "), Some("/home/a/src"), Some("src"), Some("alice")),
        "alice:src$ "
    );
    assert_eq!(
        build_prompt(Some("{shell}:{cwd}> "), Some("/tmp"), Some("tmp"), Some("bob")),
        "carli:/tmp> "
    );
    assert_eq!(build_prompt(Some("carli $ "), Some("/"), Some("/"), Some("u")), "carli $ ");
    assert_eq!(
        build_prompt(Some("{unknown} {cwd}"), Some("/x"), Some("x"), Some("u")),
        "{unknown} /x"
    );
}

#[test]
fn prompt_defaults_stand_in_for_what_cannot_be_read() {
    assert_eq!(build_prompt(None, Some("/tmp"), Some("tmp"), Some("bob")), "carli $ ");
    assert_eq!(
        build_prompt(Some("{user}@{dir} {cwd}> "), None, None, None),
        "unknown@/ ?> "
    );
}

#[test]
fn replacement_agrees_with_std() {
    for (text, pattern, replacement) in [
        ("aaa", "aa", "b"),
        ("{cwd}{cwd}", "{cwd}", "/"),
        ("no match", "{x}", "y"),
        ("", "a", "b"),
        ("ababab", "aba", "-"),
    ] {
        assert_eq!(replace(text, pattern, replacement), text.replace(pattern, replacement));
    }
}

#[test]
fn invocations_accept_nothing_or_one_command() {
    assert_eq!(
        invocation_from_arguments(false, &[]),
        Ok(Invocation { command: None, login_shell: false })
    );
    assert_eq!(
        invocation_from_arguments(true, &[("-c".to_string(), true), ("pwd".to_string(), true)]),
        Ok(Invocation { command: Some("pwd".to_string()), login_shell: true })
    );
    assert_eq!(
        invocation_from_arguments(false, &[("-c".to_string(), true)]),
        Err("option `-c` requires a command".to_string())
    );
    assert_eq!(
        invocation_from_arguments(false, &[("--unknown".to_string(), true)]),
        Err("unsupported argument `--unknown`".to_string())
    );
    assert_eq!(
        invocation_from_arguments(
            false,
            &[("-c".to_string(), true), ("pwd".to_string(), true), ("extra".to_string(), true)]
        ),
        Err("unsupported argument `-c`".to_string())
    );
    assert_eq!(
        invocation_from_arguments(false, &[("-c".to_string(), true), ("\u{fffd}".to_string(), false)]),
        Err("command is not valid UTF-8".to_string())
    );
}

#[test]
fn session_modes_follow_terminal_and_login() {
    assert_eq!(session_mode(false, true, false), (true, true));
    assert_eq!(session_mode(true, true, false), (false, false));
    assert_eq!(session_mode(true, false, true), (false, true));
    assert_eq!(session_mode(false, false, false), (false, false));
}

#[test]
fn command_kinds_distinguish_empty_builtin_and_external() {
    assert_eq!(command_kind(&[]), CommandKind::Empty);
    assert_eq!(command_kind(&strings(&["exit", "3"])), CommandKind::Builtin(Builtin::Exit));
    assert_eq!(command_kind(&strings(&["ls", "-l"])), CommandKind::External);
}

#[test]
fn parse_reports_name_their_source_line() {
    assert_eq!(
        parse_report(&ParseError::UnclosedDoubleQuote, Some(("/home/alice/.config/carli/config", 4))),
        "/home/alice/.config/carli/config:4: unclosed double quote"
    );
    assert_eq!(parse_report(&ParseError::TrailingEscape, None), "trailing backslash");
}

#[test]
fn blank_lines_are_recognized() {
    assert!(is_blank_line(""));
    assert!(is_blank_line(" \t\n"));
    assert!(!is_blank_line(" x "));
}

#[test]
fn interactive_reads_decide_the_next_step() {
    assert_eq!(interactive_step(ReadEvent::Line, false, 0), SessionStep::Execute);
    assert_eq!(interactive_step(ReadEvent::Interrupted, false, 0), SessionStep::Read(130));
    assert_eq!(interactive_step(ReadEvent::EndOfInput, false, 258), SessionStep::Finish(2));
    assert_eq!(interactive_step(ReadEvent::Failed, false, 0), SessionStep::Finish(1));
    assert_eq!(interactive_step(ReadEvent::Line, true, 0), SessionStep::Finish(129));
    assert_eq!(interactive_step(ReadEvent::Interrupted, true, 0), SessionStep::Finish(129));
    assert_eq!(interactive_step(ReadEvent::EndOfInput, true, 0), SessionStep::Finish(129));
    assert_eq!(interactive_step(ReadEvent::EndOfInput, true, 7), SessionStep::Finish(129));
    assert_eq!(interactive_step(ReadEvent::Failed, true, 0), SessionStep::Finish(129));
}

#[test]
fn batch_reads_and_commands_decide_the_next_step() {
    assert_eq!(batch_step(ReadEvent::EndOfInput, 6), SessionStep::Finish(6));
    assert_eq!(batch_step(ReadEvent::Failed, 6), SessionStep::Finish(1));
    assert_eq!(batch_step(ReadEvent::Line, 6), SessionStep::Execute);
    assert_eq!(after_command(CommandOutcome::Status(19)), SessionStep::Read(19));
    assert_eq!(after_command(CommandOutcome::Exit(31)), SessionStep::Finish(31));
}

#[test]
fn startup_steps_skip_missing_and_record_failures() {
    assert_eq!(startup_step(StartupEvent::Missing, 37), StartupStep::NextFile(37));
    assert_eq!(startup_step(StartupEvent::Unreadable, 0), StartupStep::NextFile(1));
    assert_eq!(startup_step(StartupEvent::ReadFailed, 0), StartupStep::NextFile(1));
    assert_eq!(
        startup_step(StartupEvent::Ran(CommandOutcome::Status(2)), 0),
        StartupStep::NextLine(2)
    );
    assert_eq!(
        startup_step(StartupEvent::Ran(CommandOutcome::Exit(31)), 0),
        StartupStep::Exit(31)
    );
}

#[test]
fn command_text_joins_words_with_spaces() {
    assert_eq!(command_text("sleep", &strings(&["300"])), "sleep 300");
    assert_eq!(command_text("ls", &[]), "ls");
}

#[test]
fn foreground_signal_set_is_complete() {
    assert_eq!(
        foreground_signals(),
        [
            ShellSignal::SigInt,
            ShellSignal::SigQuit,
            ShellSignal::SigTstp,
            ShellSignal::SigTtin,
            ShellSignal::SigTtou,
        ]
    );
}

#[test]
fn children_restore_hangup_alongside_terminal_signals() {
    assert_eq!(
        child_signals(),
        [
            ShellSignal::SigInt,
            ShellSignal::SigQuit,
            ShellSignal::SigTstp,
            ShellSignal::SigTtin,
            ShellSignal::SigTtou,
            ShellSignal::SigHup,
        ]
    );
}

#[test]
fn a_program_name_beginning_with_a_dash_marks_a_login_shell() {
    for name in ["-carli", "/bin/-carli", "./-carli", "-carli/", "-carli/.", "bin//-carli"] {
        assert!(is_login_program(name.as_bytes()), "{name:?}");
    }
    for name in ["carli", "/usr/bin/carli", "-bin/carli", "a-b", "", "/", ".", "-carli/..", "-/.."] {
        assert!(!is_login_program(name.as_bytes()), "{name:?}");
    }
}

#[test]
fn a_line_without_words_keeps_the_previous_status() {
    let blank = parse_pipeline("   ", &[]).unwrap();
    assert_eq!(line_plan(&blank, 7), LinePlan::Nothing(7));
    let comment = parse_pipeline("# nothing to run", &[]).unwrap();
    assert_eq!(line_plan(&comment, 0), LinePlan::Nothing(0));
    let redirection_only = parse_pipeline("> out", &[]).unwrap();
    assert_eq!(line_plan(&redirection_only, 3), LinePlan::Nothing(3));
}

#[test]
fn one_command_runs_as_itself_and_several_stages_as_a_pipeline() {
    let single = parse_pipeline("cd /tmp", &[]).unwrap();
    assert_eq!(line_plan(&single, 0), LinePlan::Command);
    let pipeline = parse_pipeline("cd /tmp | cat", &[]).unwrap();
    assert_eq!(line_plan(&pipeline, 0), LinePlan::Pipeline);
}

#[test]
fn a_shell_without_path_gets_the_default_search_path() {
    assert_eq!(default_path(None), Some(b"/usr/local/bin:/usr/bin:/bin".to_vec()));
    assert_eq!(default_path(Some(b"/opt/bin")), None);
    assert_eq!(default_path(Some(b"")), None);
}
