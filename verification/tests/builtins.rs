use carli::parser::OutputRedirection;
use carli::shell::{
    builtin_of, cd_destination, exit_message, exit_status, export_assignment, is_builtin,
    no_arguments, outcome_status, output_path, process_exit_status, start_failure_status,
    status_to_u8, Builtin, CommandOutcome,
};
use carli::text::is_valid_variable_name;

fn strings(items: &[&str]) -> Vec<String> {
    items.iter().map(|item| item.to_string()).collect()
}

#[test]
fn builtin_registry_contains_exactly_the_implemented_builtins() {
    for name in ["bg", "cd", "exit", "export", "fg", "jobs", "pwd", "which"] {
        assert!(is_builtin(name), "missing builtin: {name}");
    }
    for name in ["", "echo", "history", "BG", " cd"] {
        assert!(!is_builtin(name), "unexpected builtin: {name}");
    }
}

#[test]
fn variable_name_validation_covers_boundaries() {
    for name in ["A", "z", "_", "_NAME_2", "Name123"] {
        assert!(is_valid_variable_name(name), "valid name: {name}");
    }
    for name in ["", "2NAME", "BAD-NAME", "HAS SPACE", "NÁME", "NAME="] {
        assert!(!is_valid_variable_name(name), "invalid name: {name}");
    }
}

#[test]
fn internal_statuses_wrap_to_unix_exit_byte() {
    for (status, expected) in [
        (0, 0),
        (1, 1),
        (255, 255),
        (256, 0),
        (257, 1),
        (-1, 255),
        (-256, 0),
    ] {
        assert_eq!(status_to_u8(status), expected, "status: {status}");
    }
}

#[test]
fn status_wrapping_agrees_with_euclidean_remainder() {
    for status in [i32::MIN, i32::MIN + 1, -257, -255, -129, 128, 511, 512, i32::MAX] {
        assert_eq!(status_to_u8(status), status.rem_euclid(256) as u8, "status: {status}");
    }
}

#[test]
fn exit_status_uses_explicit_or_previous_status() {
    assert_eq!(exit_status(&[], 37), Ok(37));
    assert_eq!(exit_status(&[], 256), Ok(0));
    assert_eq!(exit_status(&["0".to_string()], 37), Ok(0));
    assert_eq!(exit_status(&["255".to_string()], 0), Ok(255));
    assert_eq!(exit_status(&["invalid".to_string()], 0), Ok(2));
    assert_eq!(exit_status(&["1".to_string(), "2".to_string()], 0), Err(1));
}

#[test]
fn exit_accepts_leading_zeroes_and_rejects_other_forms() {
    assert_eq!(exit_status(&strings(&["007"]), 0), Ok(7));
    assert_eq!(exit_status(&strings(&["+5"]), 0), Ok(5));
    for value in ["-1", "1.0", "256", "", "+", " 1", "٣"] {
        assert_eq!(exit_status(&strings(&[value]), 0), Ok(2), "value: {value}");
    }
}

#[test]
fn exit_messages_name_the_problem() {
    assert_eq!(exit_message(&strings(&["1", "2"])), Some("exit: too many arguments".to_string()));
    assert_eq!(
        exit_message(&strings(&["bad"])),
        Some("exit: bad: numeric argument required".to_string())
    );
    assert_eq!(exit_message(&strings(&["42"])), None);
    assert_eq!(exit_message(&[]), None);
}

#[test]
fn outcome_status_wraps_statuses_and_keeps_exit_codes() {
    assert_eq!(outcome_status(CommandOutcome::Status(300)), 44);
    assert_eq!(outcome_status(CommandOutcome::Exit(7)), 7);
}

#[test]
fn output_path_handles_both_redirection_modes() {
    assert_eq!(output_path(None), "");
    assert_eq!(
        output_path(Some(&OutputRedirection::Truncate("one".to_string()))),
        "one"
    );
    assert_eq!(
        output_path(Some(&OutputRedirection::Append("two".to_string()))),
        "two"
    );
}

#[test]
fn builtin_names_map_to_their_commands() {
    assert_eq!(builtin_of("cd"), Some(Builtin::Cd));
    assert_eq!(builtin_of("which"), Some(Builtin::Which));
    assert_eq!(builtin_of("ls"), None);
}

#[test]
fn export_splits_at_the_first_equals_sign() {
    assert_eq!(
        export_assignment(&strings(&["NAME=a=b c"])),
        Ok(("NAME".to_string(), "a=b c".to_string()))
    );
    assert_eq!(
        export_assignment(&strings(&["EMPTY="])),
        Ok(("EMPTY".to_string(), String::new()))
    );
}

#[test]
fn export_reports_each_kind_of_misuse() {
    assert_eq!(export_assignment(&[]), Err("usage: export NAME=VALUE".to_string()));
    assert_eq!(
        export_assignment(&strings(&["A=1", "B=2"])),
        Err("usage: export NAME=VALUE".to_string())
    );
    assert_eq!(
        export_assignment(&strings(&["NOEQUALS"])),
        Err("export: expected NAME=VALUE".to_string())
    );
    assert_eq!(
        export_assignment(&strings(&["2BAD=value"])),
        Err("export: `2BAD` is not a valid variable name".to_string())
    );
    assert_eq!(
        export_assignment(&strings(&["=value"])),
        Err("export: `` is not a valid variable name".to_string())
    );
}

#[test]
fn cd_uses_its_argument_or_home() {
    assert_eq!(cd_destination(&strings(&["/tmp"]), None), Ok("/tmp".to_string()));
    assert_eq!(cd_destination(&[], Some("/home/a".to_string())), Ok("/home/a".to_string()));
    assert_eq!(
        cd_destination(&[], None),
        Err(vec!["cd: HOME is not set".to_string()])
    );
    assert_eq!(
        cd_destination(&strings(&["/tmp", "extra"]), Some("/h".to_string())),
        Err(vec![
            "cd: too many arguments".to_string(),
            "try cd <name_of_directory>".to_string()
        ])
    );
}

#[test]
fn argument_free_builtins_reject_arguments() {
    assert_eq!(no_arguments("pwd", &[]), None);
    assert_eq!(
        no_arguments("pwd", &strings(&["extra"])),
        Some("pwd: too many arguments".to_string())
    );
    assert_eq!(
        no_arguments("jobs", &strings(&["x", "y"])),
        Some("jobs: too many arguments".to_string())
    );
}

#[test]
fn process_exit_status_maps_normal_and_signaled_children() {
    assert_eq!(process_exit_status(Some(29), None), 29);
    assert_eq!(process_exit_status(None, Some(15)), 143);
    assert_eq!(process_exit_status(None, None), 1);
}

#[test]
fn commands_that_never_start_get_126_or_127() {
    assert_eq!(start_failure_status(true), 127);
    assert_eq!(start_failure_status(false), 126);
}
