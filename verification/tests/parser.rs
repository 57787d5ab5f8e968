use carli::parser::{ParseError, ParsedCommand, OutputRedirection};
use carli::{
    parse_command_line, parse_command_line_with_status, parse_line, parse_line_with_status,
    parse_pipeline, parse_pipeline_with_status,
};

fn environment(pairs: &[(&str, &str)]) -> Vec<(String, String)> {
    pairs
        .iter()
        .map(|(name, value)| (name.to_string(), value.to_string()))
        .collect()
}

#[test]
fn splits_words_on_whitespace() {
    assert_eq!(
        parse_line("echo  hello\tworld\n", &[]).unwrap(),
        vec!["echo", "hello", "world"]
    );
}

#[test]
fn does_not_expand_names_beginning_with_a_digit() {
    assert_eq!(parse_line("echo $2VALUE", &[]).unwrap(), vec!["echo", "$2VALUE"]);
}

#[test]
fn preserves_quoted_text_and_empty_arguments() {
    assert_eq!(
        parse_line("printf '%s %s' \"hello world\" ''", &[]).unwrap(),
        vec!["printf", "%s %s", "hello world", ""]
    );
}

#[test]
fn handles_escaped_characters() {
    assert_eq!(
        parse_line("echo one\\ two \\\"three\\\"", &[]).unwrap(),
        vec!["echo", "one two", "\"three\""]
    );
}

#[test]
fn reports_unclosed_quotes() {
    assert_eq!(
        parse_line("echo 'hello", &[]),
        Err(ParseError::UnclosedSingleQuote)
    );
    assert_eq!(
        parse_line("echo \"hello", &[]),
        Err(ParseError::UnclosedDoubleQuote)
    );
}

#[test]
fn expands_unquoted_variables() {
    let env = environment(&[("CARLI_TEST_HOME", "/example/home")]);
    assert_eq!(
        parse_line("echo $CARLI_TEST_HOME/file", &env).unwrap(),
        vec!["echo", "/example/home/file"]
    );
}

#[test]
fn expands_variables_inside_double_quotes() {
    let env = environment(&[("CARLI_TEST_USER", "alice")]);
    assert_eq!(
        parse_line("echo \"hello $CARLI_TEST_USER\"", &env).unwrap(),
        vec!["echo", "hello alice"]
    );
}

#[test]
fn expands_braced_variables() {
    let env = environment(&[("CARLI_TEST_BRACED_USER", "alice")]);
    assert_eq!(
        parse_line("echo ${CARLI_TEST_BRACED_USER}_backup", &env).unwrap(),
        vec!["echo", "alice_backup"]
    );
}

#[test]
fn expands_braced_variables_inside_double_quotes() {
    let env = environment(&[("CARLI_TEST_BRACED_GREETING", "hello")]);
    assert_eq!(
        parse_line("echo \"${CARLI_TEST_BRACED_GREETING} world\"", &env).unwrap(),
        vec!["echo", "hello world"]
    );
}

#[test]
fn reports_invalid_braced_variables() {
    assert_eq!(
        parse_line("echo ${CARLI_TEST_BRACED_USER", &[]),
        Err(ParseError::UnclosedVariableBrace)
    );
    assert_eq!(
        parse_line("echo ${2USER}", &[]),
        Err(ParseError::InvalidVariableName)
    );
    assert_eq!(parse_line("echo ${}", &[]), Err(ParseError::InvalidVariableName));
}

#[test]
fn does_not_expand_variables_inside_single_quotes() {
    let env = environment(&[("CARLI_TEST_USER", "alice")]);
    assert_eq!(
        parse_line("echo '$CARLI_TEST_USER'", &env).unwrap(),
        vec!["echo", "$CARLI_TEST_USER"]
    );

    assert_eq!(
        parse_line("echo '${CARLI_TEST_BRACED_USER}'", &env).unwrap(),
        vec!["echo", "${CARLI_TEST_BRACED_USER}"]
    );
}

#[test]
fn expands_previous_command_status() {
    assert_eq!(
        parse_line_with_status("echo $? status=$?", 127, &[]).unwrap(),
        vec!["echo", "127", "status=127"]
    );
    assert_eq!(
        parse_line_with_status("echo \"status: $?\"", 2, &[]).unwrap(),
        vec!["echo", "status: 2"]
    );
}

#[test]
fn preserves_literal_previous_command_status() {
    assert_eq!(
        parse_line_with_status("echo '$?' \\$?", 1, &[]).unwrap(),
        vec!["echo", "$?", "$?"]
    );
}

#[test]
fn parses_input_and_output_redirection() {
    assert_eq!(
        parse_command_line("sort<input.txt>output.txt", &[]).unwrap(),
        ParsedCommand {
            words: vec!["sort".to_string()],
            input: Some("input.txt".to_string()),
            output: Some(OutputRedirection::Truncate("output.txt".to_string())),
        }
    );
    assert_eq!(
        parse_command_line("echo hello >> output.txt", &[]).unwrap(),
        ParsedCommand {
            words: vec!["echo".to_string(), "hello".to_string()],
            input: None,
            output: Some(OutputRedirection::Append("output.txt".to_string())),
        }
    );
}

#[test]
fn preserves_quoted_and_escaped_redirection_operators() {
    assert_eq!(
        parse_command_line("echo '>' \"<\" \\>", &[]).unwrap(),
        ParsedCommand {
            words: vec![
                "echo".to_string(),
                ">".to_string(),
                "<".to_string(),
                ">".to_string(),
            ],
            input: None,
            output: None,
        }
    );
}

#[test]
fn expands_variables_in_redirection_paths() {
    let env = environment(&[("CARLI_TEST_OUTPUT", "results.txt")]);
    assert_eq!(
        parse_command_line("echo ok > $CARLI_TEST_OUTPUT", &env).unwrap(),
        ParsedCommand {
            words: vec!["echo".to_string(), "ok".to_string()],
            input: None,
            output: Some(OutputRedirection::Truncate("results.txt".to_string())),
        }
    );
}

#[test]
fn reports_invalid_redirection() {
    assert_eq!(
        parse_command_line("echo hello >", &[]),
        Err(ParseError::MissingRedirectionTarget(">"))
    );
    assert_eq!(
        parse_command_line("cat < one.txt < two.txt", &[]),
        Err(ParseError::DuplicateInputRedirection)
    );
    assert_eq!(
        parse_command_line("echo hello > one.txt >> two.txt", &[]),
        Err(ParseError::DuplicateOutputRedirection)
    );
}

#[test]
fn comment_lines_have_no_words() {
    assert_eq!(parse_line("# comment", &[]).unwrap(), Vec::<String>::new());
    assert_eq!(parse_line("   # indented comment", &[]).unwrap(), Vec::<String>::new());
    assert_eq!(parse_line("", &[]).unwrap(), Vec::<String>::new());
    assert_eq!(parse_line("   \t ", &[]).unwrap(), Vec::<String>::new());
}

#[test]
fn comments_end_a_line_but_hash_inside_words_is_literal() {
    assert_eq!(
        parse_line("echo one # two three", &[]).unwrap(),
        vec!["echo", "one"]
    );
    assert_eq!(parse_line("echo a#b", &[]).unwrap(), vec!["echo", "a#b"]);
    assert_eq!(parse_line("echo '#x' \"#y\" \\#z", &[]).unwrap(), vec!["echo", "#x", "#y", "#z"]);
    let env = environment(&[("COLOR", "unused")]);
    assert_eq!(
        parse_line("export COLOR=\"#88c0d0\"", &env).unwrap(),
        vec!["export", "COLOR=#88c0d0"]
    );
}

#[test]
fn comments_stop_at_a_newline() {
    assert_eq!(
        parse_line("echo a # note\nb", &[]).unwrap(),
        vec!["echo", "a", "b"]
    );
}

#[test]
fn comment_after_redirection_operator_leaves_it_without_a_target() {
    assert_eq!(
        parse_command_line("echo hi > # none", &[]),
        Err(ParseError::MissingRedirectionTarget(">"))
    );
}

#[test]
fn trailing_backslash_is_an_error() {
    assert_eq!(parse_line("echo \\", &[]), Err(ParseError::TrailingEscape));
    assert_eq!(parse_line("echo \"a\\", &[]), Err(ParseError::TrailingEscape));
}

#[test]
fn missing_targets_name_their_operator() {
    assert_eq!(
        parse_command_line("cat <", &[]),
        Err(ParseError::MissingRedirectionTarget("<"))
    );
    assert_eq!(
        parse_command_line("echo >> < x", &[]),
        Err(ParseError::MissingRedirectionTarget(">>"))
    );
    assert_eq!(
        parse_command_line("cat < > x", &[]),
        Err(ParseError::MissingRedirectionTarget("<"))
    );
}

#[test]
fn unset_variables_expand_to_an_empty_argument() {
    assert_eq!(parse_line("echo $UNSET_NAME", &[]).unwrap(), vec!["echo", ""]);
    assert_eq!(parse_line("echo x${UNSET_NAME}y", &[]).unwrap(), vec!["echo", "xy"]);
}

#[test]
fn variable_values_are_not_split_or_reparsed() {
    let env = environment(&[("VALUE", "a b 'c' $d > e")]);
    assert_eq!(parse_line("echo $VALUE", &env).unwrap(), vec!["echo", "a b 'c' $d > e"]);
}

#[test]
fn first_environment_entry_wins() {
    let env = environment(&[("NAME", "first"), ("NAME", "second")]);
    assert_eq!(parse_line("echo $NAME", &env).unwrap(), vec!["echo", "first"]);
}

#[test]
fn dollar_without_a_name_is_literal() {
    assert_eq!(parse_line("echo $ $- a$", &[]).unwrap(), vec!["echo", "$", "$-", "a$"]);
}

#[test]
fn variable_names_stop_at_the_first_other_character() {
    let env = environment(&[("A_1", "x")]);
    assert_eq!(parse_line("echo $A_1.b $A_1-c", &env).unwrap(), vec!["echo", "x.b", "x-c"]);
}

#[test]
fn negative_and_extreme_statuses_expand_in_decimal() {
    assert_eq!(parse_line_with_status("$?", -1, &[]).unwrap(), vec!["-1"]);
    assert_eq!(parse_line_with_status("$?", i32::MIN, &[]).unwrap(), vec!["-2147483648"]);
    assert_eq!(parse_line_with_status("$?", i32::MAX, &[]).unwrap(), vec!["2147483647"]);
    assert_eq!(parse_line_with_status("$?", 0, &[]).unwrap(), vec!["0"]);
    assert_eq!(parse_line("$?", &[]).unwrap(), vec!["0"]);
}

#[test]
fn parse_line_gives_the_words_of_the_command() {
    for line in ["a < b c > d", "x 'y z' >> w", "plain words here"] {
        let command = parse_command_line_with_status(line, 3, &[]).unwrap();
        assert_eq!(parse_line_with_status(line, 3, &[]).unwrap(), command.words);
    }
}

#[test]
fn error_messages_match_their_errors() {
    assert_eq!(ParseError::UnclosedSingleQuote.message(), "unclosed single quote");
    assert_eq!(ParseError::UnclosedDoubleQuote.message(), "unclosed double quote");
    assert_eq!(ParseError::TrailingEscape.message(), "trailing backslash");
    assert_eq!(ParseError::UnclosedVariableBrace.message(), "unclosed variable brace");
    assert_eq!(ParseError::InvalidVariableName.message(), "invalid variable name");
    assert_eq!(
        ParseError::MissingRedirectionTarget(">>").message(),
        "missing file after `>>`"
    );
    assert_eq!(
        ParseError::DuplicateInputRedirection.message(),
        "multiple input redirections are not supported"
    );
    assert_eq!(
        ParseError::DuplicateOutputRedirection.message(),
        "multiple output redirections are not supported"
    );
}

#[test]
fn semicolons_are_ordinary_characters() {
    assert_eq!(parse_line("a;b c;d", &[]).unwrap(), vec!["a;b", "c;d"]);
}

fn words_of(command: &ParsedCommand) -> Vec<&str> {
    command.words.iter().map(|w| w.as_str()).collect()
}

#[test]
fn pipe_separates_stages_with_or_without_spaces() {
    let spaced = parse_pipeline("printf 'beta\\nalpha\\n' | sort", &[]).unwrap();
    assert_eq!(spaced.len(), 2);
    assert_eq!(words_of(&spaced[0]), vec!["printf", "beta\\nalpha\\n"]);
    assert_eq!(words_of(&spaced[1]), vec!["sort"]);

    let tight = parse_pipeline("printf hello|wc -c", &[]).unwrap();
    assert_eq!(tight.len(), 2);
    assert_eq!(words_of(&tight[0]), vec!["printf", "hello"]);
    assert_eq!(words_of(&tight[1]), vec!["wc", "-c"]);

    let three = parse_pipeline("cat access.log | grep ' 500 ' | wc -l", &[]).unwrap();
    assert_eq!(three.len(), 3);
    assert_eq!(words_of(&three[1]), vec!["grep", " 500 "]);
    assert_eq!(words_of(&three[2]), vec!["wc", "-l"]);
}

#[test]
fn single_command_is_a_pipeline_of_one_stage() {
    let commands = parse_pipeline("echo hi > out", &[]).unwrap();
    assert_eq!(
        commands,
        vec![ParsedCommand {
            words: vec!["echo".to_string(), "hi".to_string()],
            input: None,
            output: Some(OutputRedirection::Truncate("out".to_string())),
        }]
    );
    assert_eq!(parse_pipeline("", &[]).unwrap().len(), 1);
    assert!(parse_pipeline("# only a comment", &[]).unwrap()[0].words.is_empty());
}

#[test]
fn quoted_or_escaped_pipe_is_argument_text() {
    assert_eq!(parse_line("printf '%s\\n' '|'", &[]).unwrap(), vec!["printf", "%s\\n", "|"]);
    assert_eq!(parse_line("printf '%s\\n' \\|", &[]).unwrap(), vec!["printf", "%s\\n", "|"]);
    assert_eq!(parse_line("echo \"a|b\"", &[]).unwrap(), vec!["echo", "a|b"]);
    assert_eq!(parse_line("echo a#|b", &[]).unwrap_err(), ParseError::UnexpectedPipeline);
}

#[test]
fn every_pipeline_stage_needs_a_command() {
    for line in ["| cat", "cat |", "cat || sort", "cat | | sort", "|", "> out | cat"] {
        assert_eq!(
            parse_pipeline(line, &[]).unwrap_err(),
            ParseError::EmptyPipelineStage,
            "line {line:?}"
        );
    }
}

#[test]
fn redirections_belong_to_their_stage() {
    let commands = parse_pipeline("generate-data | sort > sorted.txt", &[]).unwrap();
    assert_eq!(commands[0].output, None);
    assert_eq!(commands[1].output, Some(OutputRedirection::Truncate("sorted.txt".to_string())));

    let commands = parse_pipeline("printf ignored | cat < saved-input.txt", &[]).unwrap();
    assert_eq!(commands[0].input, None);
    assert_eq!(commands[1].input, Some("saved-input.txt".to_string()));

    let commands = parse_pipeline("a > x | b > y", &[]).unwrap();
    assert_eq!(commands[0].output, Some(OutputRedirection::Truncate("x".to_string())));
    assert_eq!(commands[1].output, Some(OutputRedirection::Truncate("y".to_string())));

    assert_eq!(
        parse_pipeline("cat >| sort", &[]).unwrap_err(),
        ParseError::MissingRedirectionTarget(">")
    );
}

#[test]
fn pipeline_stages_expand_status_and_variables() {
    let env = environment(&[("WORD", "value")]);
    let commands = parse_pipeline_with_status("echo $? | grep $WORD", 7, &env).unwrap();
    assert_eq!(words_of(&commands[0]), vec!["echo", "7"]);
    assert_eq!(words_of(&commands[1]), vec!["grep", "value"]);
}

#[test]
fn a_pipeline_is_not_one_command() {
    assert_eq!(parse_command_line("a | b", &[]).unwrap_err(), ParseError::UnexpectedPipeline);
    assert_eq!(parse_line("a|b c;d", &[]).unwrap_err(), ParseError::UnexpectedPipeline);
    assert_eq!(
        ParseError::UnexpectedPipeline.message(),
        "expected one command, found a pipeline"
    );
    assert_eq!(ParseError::EmptyPipelineStage.message(), "missing command in pipeline");
}

#[test]
fn unicode_whitespace_separates_words() {
    assert_eq!(parse_line("a\u{00a0}b\u{3000}c", &[]).unwrap(), vec!["a", "b", "c"]);
}

#[test]
fn words_join_the_values_of_their_pieces() {
    let env = environment(&[("HOME", "/home/ann"), ("U", "ann")]);
    assert_eq!(
        parse_line_with_status(
            "echo status=$? \"in $HOME, \\\"$U\\\"\"'s $X'\\| pre${U}post $ $U- a$",
            3,
            &env
        )
        .unwrap(),
        vec![
            "echo",
            "status=3",
            "in /home/ann, \"ann\"s $X|",
            "preannpost",
            "$",
            "ann-",
            "a$",
        ]
    );
}

#[test]
fn pipeline_stages_hold_quoted_and_expanded_words() {
    let env = environment(&[("PATTERN", "500")]);
    let commands = parse_pipeline("printf '%s\\n' '|' | grep \"$PATTERN\"|wc -l", &env).unwrap();
    assert_eq!(commands.len(), 3);
    assert_eq!(words_of(&commands[0]), vec!["printf", "%s\\n", "|"]);
    assert_eq!(words_of(&commands[1]), vec!["grep", "500"]);
    assert_eq!(words_of(&commands[2]), vec!["wc", "-l"]);
}

#[test]
fn redirection_paths_take_the_values_of_their_words() {
    let env = environment(&[("IN", "in.txt"), ("DIR", "/tmp/out dir")]);
    let command = parse_command_line_with_status(
        "sort -r $1x <$IN >> \"$DIR/log $?\"",
        4,
        &env,
    )
    .unwrap();
    assert_eq!(command.words, vec!["sort", "-r", "$1x"]);
    assert_eq!(command.input.as_deref(), Some("in.txt"));
    assert_eq!(
        command.output,
        Some(OutputRedirection::Append("/tmp/out dir/log 4".to_string()))
    );

    let spaced = parse_command_line("cat < 'a b' > \\>x", &[]).unwrap();
    assert_eq!(spaced.words, vec!["cat"]);
    assert_eq!(spaced.input.as_deref(), Some("a b"));
    assert_eq!(spaced.output, Some(OutputRedirection::Truncate(">x".to_string())));
}

#[test]
fn every_character_escaped_is_one_literal_argument() {
    let text = " \t'\"$?<>>|#\\a";
    let line: String = text.chars().map(|c| format!("\\{c}")).collect();
    for status in [0, 5, -1] {
        assert_eq!(
            parse_command_line_with_status(&line, status, &[]).unwrap(),
            ParsedCommand { words: vec![text.to_string()], input: None, output: None }
        );
    }
}

#[test]
fn status_matters_only_through_an_expanded_status() {
    let env = environment(&[("A", "x")]);
    for line in ["echo $A '$' ? \"${A}?\"", "cat < in > out | wc", "echo $", "echo '$'?"] {
        assert_eq!(
            parse_pipeline_with_status(line, 0, &env),
            parse_pipeline_with_status(line, 99, &env),
            "{line:?}"
        );
    }
    assert_ne!(
        parse_line_with_status("echo $?", 0, &[]),
        parse_line_with_status("echo $?", 99, &[])
    );
}

#[test]
fn redirections_gather_around_the_arguments() {
    let command = parse_command_line("cat <in a >> out b", &[]).unwrap();
    assert_eq!(command.words, vec!["cat", "a", "b"]);
    assert_eq!(command.input.as_deref(), Some("in"));
    assert_eq!(command.output, Some(OutputRedirection::Append("out".to_string())));

    let only_output = parse_command_line("> out", &[]).unwrap();
    assert!(only_output.words.is_empty());
    assert_eq!(only_output.input, None);
    assert_eq!(only_output.output, Some(OutputRedirection::Truncate("out".to_string())));

    assert_eq!(
        parse_command_line("a < x < y", &[]).unwrap_err(),
        ParseError::DuplicateInputRedirection
    );
    assert_eq!(
        parse_command_line("a > x >> y", &[]).unwrap_err(),
        ParseError::DuplicateOutputRedirection
    );
    assert_eq!(
        parse_command_line("a <", &[]).unwrap_err(),
        ParseError::MissingRedirectionTarget("<")
    );
}
