//! The command-line parser: quoting, escapes, comments, `$NAME`, `${NAME}`
//! and `$?` expansion, and `<`, `>`, `>>` redirection.
use vstd::prelude::*;

use crate::parser_laws::{
    arguments, count_inputs, count_outputs, law_assembly_rule, operators_have_targets,
};
use crate::text::{
    chars_of, is_name_char, is_name_start, is_valid_name, is_valid_variable_name,
    is_variable_name_char, is_variable_name_start, is_whitespace, numeral, push_numeral,
    spec_is_whitespace,
};

verus! {

/// Why a command line could not be parsed.
#[derive(Debug, PartialEq, Eq)]
pub enum ParseError {
    UnclosedSingleQuote,
    UnclosedDoubleQuote,
    TrailingEscape,
    UnclosedVariableBrace,
    InvalidVariableName,
    MissingRedirectionTarget(&'static str),
    DuplicateInputRedirection,
    DuplicateOutputRedirection,
    EmptyPipelineStage,
    UnexpectedPipeline,
}

/// Where a command's standard output goes.
#[derive(Debug, PartialEq, Eq)]
pub enum OutputRedirection {
    Truncate(String),
    Append(String),
}

/// One parsed command: its words and its redirections.
#[derive(Debug, PartialEq, Eq)]
pub struct ParsedCommand {
    pub words: Vec<String>,
    pub input: Option<String>,
    pub output: Option<OutputRedirection>,
}

pub enum OutputView {
    Truncate(Seq<char>),
    Append(Seq<char>),
}

pub struct CommandView {
    pub words: Seq<Seq<char>>,
    pub input: Option<Seq<char>>,
    pub output: Option<OutputView>,
}

impl View for OutputRedirection {
    type V = OutputView;

    open spec fn view(&self) -> OutputView {
        match self {
            OutputRedirection::Truncate(path) => OutputView::Truncate(path@),
            OutputRedirection::Append(path) => OutputView::Append(path@),
        }
    }
}

pub open spec fn option_text_view(text: Option<String>) -> Option<Seq<char>> {
    match text {
        Some(t) => Some(t@),
        None => None,
    }
}

pub open spec fn option_output_view(output: Option<OutputRedirection>) -> Option<OutputView> {
    match output {
        Some(o) => Some(o@),
        None => None,
    }
}

pub open spec fn words_view(words: Seq<String>) -> Seq<Seq<char>> {
    words.map_values(|w: String| w@)
}

impl View for ParsedCommand {
    type V = CommandView;

    open spec fn view(&self) -> CommandView {
        CommandView {
            words: words_view(self.words@),
            input: option_text_view(self.input),
            output: option_output_view(self.output),
        }
    }
}

/// The quoting context the scanner is in.
#[derive(Clone, Copy, PartialEq, Eq)]
pub enum Quote {
    Unquoted,
    Single,
    Double,
}

/// What the scanner hands to the redirection stage.
pub enum Token {
    Word(String),
    Input,
    Output,
    Append,
    Pipe,
}

pub enum TokenView {
    Word(Seq<char>),
    Input,
    Output,
    Append,
    Pipe,
}

impl View for Token {
    type V = TokenView;

    open spec fn view(&self) -> TokenView {
        match self {
            Token::Word(w) => TokenView::Word(w@),
            Token::Input => TokenView::Input,
            Token::Output => TokenView::Output,
            Token::Append => TokenView::Append,
            Token::Pipe => TokenView::Pipe,
        }
    }
}

pub open spec fn tokens_view(tokens: Seq<Token>) -> Seq<TokenView> {
    tokens.map_values(|t: Token| t@)
}

// ---------------------------------------------------------------------------
// Environment lookup
// ---------------------------------------------------------------------------
/// The value of the first entry of `environment` named `name`; empty when
/// there is none (an unset variable expands to nothing).
pub open spec fn lookup_from(environment: Seq<(String, String)>, name: Seq<char>, k: int) -> Seq<
    char,
>
    decreases environment.len() - k,
{
    if k < 0 || k >= environment.len() {
        Seq::empty()
    } else if environment[k].0@ == name {
        environment[k].1@
    } else {
        lookup_from(environment, name, k + 1)
    }
}

pub open spec fn lookup(environment: Seq<(String, String)>, name: Seq<char>) -> Seq<char> {
    lookup_from(environment, name, 0)
}

fn append_variable(output: &mut String, environment: &[(String, String)], name: &String)
    ensures
        final(output)@ == old(output)@ + lookup(environment@, name@),
{
    let mut k: usize = 0;
    while k < environment.len()
        invariant
            k <= environment@.len(),
            lookup(environment@, name@) == lookup_from(environment@, name@, k as int),
            *output == *old(output),
        decreases environment.len() - k,
    {
        if environment[k].0 == *name {
            output.append(environment[k].1.as_str());
            return;
        }
        k = k + 1;
    }
    proof {
        assert(old(output)@ + lookup(environment@, name@) =~= old(output)@);
    }
}

// ---------------------------------------------------------------------------
// Expansion
// ---------------------------------------------------------------------------
/// The first index at or after `k` that holds `c`.
pub open spec fn find_from(s: Seq<char>, k: int, c: char) -> Option<int>
    decreases s.len() - k,
{
    if k < 0 || k >= s.len() {
        None
    } else if s[k] == c {
        Some(k)
    } else {
        find_from(s, k + 1, c)
    }
}

/// The end of the run of variable-name characters that starts at `k`.
pub open spec fn name_end(s: Seq<char>, k: int) -> int
    decreases s.len() - k,
{
    if k < 0 || k >= s.len() || !is_name_char(s[k]) {
        k
    } else {
        name_end(s, k + 1)
    }
}

/// What the text after a `$` at `i - 1` expands to: the index where scanning
/// resumes and the expanded text.
pub open spec fn expansion(s: Seq<char>, i: int, status: i32, environment: Seq<(String, String)>) -> Result<
    (int, Seq<char>),
    ParseError,
> {
    if 0 <= i < s.len() && s[i] == '?' {
        Ok((i + 1, numeral(status as int)))
    } else if 0 <= i < s.len() && s[i] == '{' {
        match find_from(s, i + 1, '}') {
            None => Err(ParseError::UnclosedVariableBrace),
            Some(j) => {
                let name = s.subrange(i + 1, j);
                if is_valid_name(name) {
                    Ok((j + 1, lookup(environment, name)))
                } else {
                    Err(ParseError::InvalidVariableName)
                }
            },
        }
    } else if 0 <= i < s.len() && is_name_start(s[i]) {
        let j = name_end(s, i);
        Ok((j, lookup(environment, s.subrange(i, j))))
    } else {
        Ok((i, seq!['$']))
    }
}

pub proof fn lemma_find_from_bounds(s: Seq<char>, k: int, c: char)
    requires
        0 <= k,
    ensures
        find_from(s, k, c) matches Some(j) ==> k <= j < s.len() && s[j] == c && (forall|m: int|
            k <= m < j ==> s[m] != c),
        find_from(s, k, c) is None ==> (forall|m: int| k <= m < s.len() ==> s[m] != c),
    decreases s.len() - k,
{
    if 0 <= k < s.len() && s[k] != c {
        lemma_find_from_bounds(s, k + 1, c);
    }
}

pub proof fn lemma_name_end_bounds(s: Seq<char>, k: int)
    requires
        0 <= k <= s.len(),
    ensures
        k <= name_end(s, k) <= s.len(),
        forall|m: int| k <= m < name_end(s, k) ==> #[trigger] is_name_char(s[m]),
        name_end(s, k) < s.len() ==> !is_name_char(s[name_end(s, k)]),
    decreases s.len() - k,
{
    if k < s.len() && is_name_char(s[k]) {
        lemma_name_end_bounds(s, k + 1);
    }
}

pub proof fn lemma_expansion_advances(
    s: Seq<char>,
    i: int,
    status: i32,
    environment: Seq<(String, String)>,
)
    requires
        0 <= i <= s.len(),
    ensures
        expansion(s, i, status, environment) matches Ok((j, t)) ==> i <= j <= s.len(),
{
    if 0 <= i < s.len() && s[i] == '{' {
        lemma_find_from_bounds(s, i + 1, '}');
    } else if 0 <= i < s.len() && is_name_start(s[i]) {
        lemma_name_end_bounds(s, i);
    }
}

/// Expands the `$` at `i - 1`: returns where scanning resumes and appends the
/// expanded text to `output`.
fn expand_variable(
    chars: &Vec<char>,
    i: usize,
    output: &mut String,
    status: i32,
    environment: &[(String, String)],
) -> (result: Result<usize, ParseError>)
    requires
        i <= chars@.len(),
    ensures
        match expansion(chars@, i as int, status, environment@) {
            Ok((j, text)) => result == Ok::<usize, ParseError>(j as usize) && final(output)@ == old(
                output,
            )@ + text,
            Err(e) => result == Err::<usize, ParseError>(e) && final(output)@ == old(output)@,
        },
{
    proof {
        lemma_expansion_advances(chars@, i as int, status, environment@);
    }
    if i < chars.len() && chars[i] == '?' {
        push_numeral(output, status as i64);
        return Ok(i + 1);
    }
    if i < chars.len() && chars[i] == '{' {
        let mut name = String::new();
        let mut j: usize = i + 1;
        proof {
            lemma_find_from_bounds(chars@, i + 1, '}');
        }
        while j < chars.len() && chars[j] != '}'
            invariant
                i + 1 <= j <= chars@.len(),
                i < chars@.len(),
                chars@[i as int] == '{',
                name@ == chars@.subrange(i + 1, j as int),
                find_from(chars@, i + 1, '}') == find_from(chars@, j as int, '}'),
                *output == *old(output),
            decreases chars.len() - j,
        {
            name.push(chars[j]);
            proof {
                assert(name@ =~= chars@.subrange(i + 1, j + 1));
            }
            j = j + 1;
        }
        if j == chars.len() {
            return Err(ParseError::UnclosedVariableBrace);
        }
        if !is_valid_variable_name(name.as_str()) {
            return Err(ParseError::InvalidVariableName);
        }
        append_variable(output, environment, &name);
        return Ok(j + 1);
    }
    if i < chars.len() && is_variable_name_start(chars[i]) {
        let mut name = String::new();
        let mut j: usize = i;
        proof {
            lemma_name_end_bounds(chars@, i as int);
        }
        while j < chars.len() && is_variable_name_char(chars[j])
            invariant
                i <= j <= chars@.len(),
                name@ == chars@.subrange(i as int, j as int),
                name_end(chars@, i as int) == name_end(chars@, j as int),
                *output == *old(output),
            decreases chars.len() - j,
        {
            name.push(chars[j]);
            proof {
                assert(name@ =~= chars@.subrange(i as int, j + 1));
            }
            j = j + 1;
        }
        append_variable(output, environment, &name);
        return Ok(j);
    }
    output.push('$');
    proof {
        assert(final(output)@ =~= old(output)@ + seq!['$']);
    }
    Ok(i)
}

// ---------------------------------------------------------------------------
// Scanning
// ---------------------------------------------------------------------------
/// The scanner's state between characters.
pub struct LexState {
    pub quote: Quote,
    pub word: Seq<char>,
    pub started: bool,
    pub tokens: Seq<TokenView>,
}

pub open spec fn initial_state() -> LexState {
    LexState { quote: Quote::Unquoted, word: Seq::empty(), started: false, tokens: Seq::empty() }
}

/// Ends the current word, if one has started.
pub open spec fn flush(st: LexState) -> LexState {
    if st.started {
        LexState {
            word: Seq::empty(),
            started: false,
            tokens: st.tokens.push(TokenView::Word(st.word)),
            ..st
        }
    } else {
        st
    }
}

/// Adds a character to the current word.
pub open spec fn add_char(st: LexState, c: char) -> LexState {
    LexState { word: st.word.push(c), started: true, ..st }
}

/// Marks the current word as started, even if it stays empty.
pub open spec fn start_word(st: LexState) -> LexState {
    LexState { started: true, ..st }
}

/// Adds expanded text to the current word.
pub open spec fn add_text(st: LexState, t: Seq<char>) -> LexState {
    LexState { word: st.word + t, started: true, ..st }
}

pub open spec fn with_quote(st: LexState, q: Quote) -> LexState {
    LexState { quote: q, ..st }
}

pub open spec fn add_token(st: LexState, t: TokenView) -> LexState {
    LexState { tokens: st.tokens.push(t), ..st }
}

/// The index of the first newline at or after `k`, or the end of `s`.
pub open spec fn line_end(s: Seq<char>, k: int) -> int
    decreases s.len() - k,
{
    if k < 0 || k >= s.len() || s[k] == '\n' {
        k
    } else {
        line_end(s, k + 1)
    }
}

pub proof fn lemma_line_end_bounds(s: Seq<char>, k: int)
    requires
        0 <= k <= s.len(),
    ensures
        k <= line_end(s, k) <= s.len(),
        forall|m: int| k <= m < line_end(s, k) ==> s[m] != '\n',
        line_end(s, k) < s.len() ==> s[line_end(s, k)] == '\n',
    decreases s.len() - k,
{
    if k < s.len() && s[k] != '\n' {
        lemma_line_end_bounds(s, k + 1);
    }
}

/// Scans `s` from index `i` in state `st`; the state at the end of the line,
/// or the first error met.
pub open spec fn lex_from(
    s: Seq<char>,
    i: int,
    st: LexState,
    status: i32,
    environment: Seq<(String, String)>,
) -> Result<LexState, ParseError>
    decreases s.len() - i,
{
    if i < 0 || i >= s.len() {
        Ok(st)
    } else {
        let c = s[i];
        match st.quote {
            Quote::Unquoted => {
                if c == '\'' {
                    lex_from(s, i + 1, with_quote(start_word(st), Quote::Single), status, environment)
                } else if c == '"' {
                    lex_from(s, i + 1, with_quote(start_word(st), Quote::Double), status, environment)
                } else if c == '\\' {
                    if i + 1 < s.len() {
                        lex_from(s, i + 2, add_char(st, s[i + 1]), status, environment)
                    } else {
                        Err(ParseError::TrailingEscape)
                    }
                } else if spec_is_whitespace(c) {
                    lex_from(s, i + 1, flush(st), status, environment)
                } else if c == '#' && !st.started {
                    proof {
                        lemma_line_end_bounds(s, i + 1);
                    }
                    lex_from(s, line_end(s, i + 1), st, status, environment)
                } else if c == '<' {
                    lex_from(s, i + 1, add_token(flush(st), TokenView::Input), status, environment)
                } else if c == '>' {
                    if i + 1 < s.len() && s[i + 1] == '>' {
                        lex_from(s, i + 2, add_token(flush(st), TokenView::Append), status, environment)
                    } else {
                        lex_from(s, i + 1, add_token(flush(st), TokenView::Output), status, environment)
                    }
                } else if c == '|' {
                    lex_from(s, i + 1, add_token(flush(st), TokenView::Pipe), status, environment)
                } else if c == '$' {
                    proof {
                        lemma_expansion_advances(s, i + 1, status, environment);
                    }
                    match expansion(s, i + 1, status, environment) {
                        Err(e) => Err(e),
                        Ok((j, t)) => lex_from(s, j, add_text(st, t), status, environment),
                    }
                } else {
                    lex_from(s, i + 1, add_char(st, c), status, environment)
                }
            },
            Quote::Single => {
                if c == '\'' {
                    lex_from(s, i + 1, with_quote(st, Quote::Unquoted), status, environment)
                } else {
                    lex_from(s, i + 1, add_char(st, c), status, environment)
                }
            },
            Quote::Double => {
                if c == '"' {
                    lex_from(s, i + 1, with_quote(st, Quote::Unquoted), status, environment)
                } else if c == '\\' {
                    if i + 1 < s.len() {
                        lex_from(s, i + 2, add_char(st, s[i + 1]), status, environment)
                    } else {
                        Err(ParseError::TrailingEscape)
                    }
                } else if c == '$' {
                    proof {
                        lemma_expansion_advances(s, i + 1, status, environment);
                    }
                    match expansion(s, i + 1, status, environment) {
                        Err(e) => Err(e),
                        Ok((j, t)) => lex_from(s, j, add_text(st, t), status, environment),
                    }
                } else {
                    lex_from(s, i + 1, add_char(st, c), status, environment)
                }
            },
        }
    }
}

/// The tokens of a whole line, or the first error met.
pub open spec fn lex(s: Seq<char>, status: i32, environment: Seq<(String, String)>) -> Result<
    Seq<TokenView>,
    ParseError,
> {
    match lex_from(s, 0, initial_state(), status, environment) {
        Err(e) => Err(e),
        Ok(st) => match st.quote {
            Quote::Single => Err(ParseError::UnclosedSingleQuote),
            Quote::Double => Err(ParseError::UnclosedDoubleQuote),
            Quote::Unquoted => Ok(flush(st).tokens),
        },
    }
}


pub open spec fn state_of(quote: Quote, word: String, started: bool, tokens: Seq<Token>) -> LexState {
    LexState { quote, word: word@, started, tokens: tokens_view(tokens) }
}

pub open spec fn tokens_result_view(result: Result<Vec<Token>, ParseError>) -> Result<
    Seq<TokenView>,
    ParseError,
> {
    match result {
        Ok(tokens) => Ok(tokens_view(tokens@)),
        Err(e) => Err(e),
    }
}

proof fn lemma_tokens_view_push(tokens: Seq<Token>, t: Token)
    ensures
        tokens_view(tokens.push(t)) == tokens_view(tokens).push(t@),
{
    assert(tokens_view(tokens.push(t)) =~= tokens_view(tokens).push(t@));
}

/// Ends the current word, if one has started.
fn flush_word(word: &mut String, started: &mut bool, tokens: &mut Vec<Token>)
    ensures
        forall|q: Quote|
            state_of(q, *final(word), *final(started), final(tokens)@) == flush(
                state_of(q, *old(word), *old(started), old(tokens)@),
            ),
{
    if *started {
        let mut finished = String::new();
        std::mem::swap(&mut finished, word);
        proof {
            lemma_tokens_view_push(tokens@, Token::Word(finished));
        }
        tokens.push(Token::Word(finished));
        *started = false;
    }
}

/// Adds a redirection operator after ending the current word.
fn push_operator(word: &mut String, started: &mut bool, tokens: &mut Vec<Token>, operator: Token)
    requires
        !(operator is Word),
    ensures
        forall|q: Quote|
            state_of(q, *final(word), *final(started), final(tokens)@) == add_token(
                flush(state_of(q, *old(word), *old(started), old(tokens)@)),
                operator@,
            ),
{
    flush_word(word, started, tokens);
    let ghost middle = tokens@;
    proof {
        lemma_tokens_view_push(middle, operator);
    }
    tokens.push(operator);
    proof {
        assert forall|q: Quote|
            state_of(q, *final(word), *final(started), final(tokens)@) == add_token(
                flush(state_of(q, *old(word), *old(started), old(tokens)@)),
                operator@,
            ) by {
            assert(state_of(q, *word, *started, middle) == flush(
                state_of(q, *old(word), *old(started), old(tokens)@),
            ));
        }
    }
}

/// Splits a line into words and redirection operators, expanding variables
/// and `$?` on the way.
fn scan(chars: &Vec<char>, status: i32, environment: &[(String, String)]) -> (result: Result<
    Vec<Token>,
    ParseError,
>)
    ensures
        tokens_result_view(result) == lex(chars@, status, environment@),
{
    let ghost s = chars@;
    let ghost env = environment@;
    let mut quote = Quote::Unquoted;
    let mut word = String::new();
    let mut started = false;
    let mut tokens: Vec<Token> = Vec::new();
    let mut i: usize = 0;
    proof {
        assert(state_of(quote, word, started, tokens@) == initial_state()) by {
            assert(tokens_view(tokens@) =~= Seq::<TokenView>::empty());
        }
    }
    while i < chars.len()
        invariant
            s == chars@,
            env == environment@,
            i <= s.len(),
            lex_from(s, 0, initial_state(), status, env) == lex_from(
                s,
                i as int,
                state_of(quote, word, started, tokens@),
                status,
                env,
            ),
        decreases s.len() - i,
    {
        let ghost before = state_of(quote, word, started, tokens@);
        let c = chars[i];
        match quote {
            Quote::Unquoted => {
                if c == '\'' {
                    quote = Quote::Single;
                    started = true;
                    i = i + 1;
                } else if c == '"' {
                    quote = Quote::Double;
                    started = true;
                    i = i + 1;
                } else if c == '\\' {
                    if i + 1 < chars.len() {
                        word.push(chars[i + 1]);
                        started = true;
                        i = i + 2;
                    } else {
                        return Err(ParseError::TrailingEscape);
                    }
                } else if is_whitespace(c) {
                    flush_word(&mut word, &mut started, &mut tokens);
                    i = i + 1;
                } else if c == '#' && !started {
                    proof {
                        lemma_line_end_bounds(s, i + 1);
                    }
                    i = i + 1;
                    let ghost start: int = i as int;
                    while i < chars.len() && chars[i] != '\n'
                        invariant
                            s == chars@,
                            start <= i <= s.len(),
                            line_end(s, i as int) == line_end(s, start),
                        decreases s.len() - i,
                    {
                        i = i + 1;
                    }
                } else if c == '<' {
                    push_operator(&mut word, &mut started, &mut tokens, Token::Input);
                    i = i + 1;
                } else if c == '>' {
                    if i + 1 < chars.len() && chars[i + 1] == '>' {
                        push_operator(&mut word, &mut started, &mut tokens, Token::Append);
                        i = i + 2;
                    } else {
                        push_operator(&mut word, &mut started, &mut tokens, Token::Output);
                        i = i + 1;
                    }
                } else if c == '|' {
                    push_operator(&mut word, &mut started, &mut tokens, Token::Pipe);
                    i = i + 1;
                } else if c == '$' {
                    proof {
                        lemma_expansion_advances(s, i + 1, status, env);
                    }
                    match expand_variable(chars, i + 1, &mut word, status, environment) {
                        Ok(j) => {
                            started = true;
                            i = j;
                        },
                        Err(e) => {
                            return Err(e);
                        },
                    }
                } else {
                    word.push(c);
                    started = true;
                    i = i + 1;
                }
            },
            Quote::Single => {
                if c == '\'' {
                    quote = Quote::Unquoted;
                } else {
                    word.push(c);
                    started = true;
                }
                i = i + 1;
            },
            Quote::Double => {
                if c == '"' {
                    quote = Quote::Unquoted;
                    i = i + 1;
                } else if c == '\\' {
                    if i + 1 < chars.len() {
                        word.push(chars[i + 1]);
                        started = true;
                        i = i + 2;
                    } else {
                        return Err(ParseError::TrailingEscape);
                    }
                } else if c == '$' {
                    proof {
                        lemma_expansion_advances(s, i + 1, status, env);
                    }
                    match expand_variable(chars, i + 1, &mut word, status, environment) {
                        Ok(j) => {
                            started = true;
                            i = j;
                        },
                        Err(e) => {
                            return Err(e);
                        },
                    }
                } else {
                    word.push(c);
                    started = true;
                    i = i + 1;
                }
            },
        }
    }
    proof {
        assert(lex_from(s, i as int, state_of(quote, word, started, tokens@), status, env) == Ok::<
            LexState,
            ParseError,
        >(state_of(quote, word, started, tokens@)));
    }
    match quote {
        Quote::Single => Err(ParseError::UnclosedSingleQuote),
        Quote::Double => Err(ParseError::UnclosedDoubleQuote),
        Quote::Unquoted => {
            let ghost last = state_of(quote, word, started, tokens@);
            flush_word(&mut word, &mut started, &mut tokens);
            proof {
                assert(state_of(quote, word, started, tokens@) == flush(last));
            }
            Ok(tokens)
        },
    }
}

// ---------------------------------------------------------------------------
// Redirections
// ---------------------------------------------------------------------------
pub open spec fn empty_command() -> CommandView {
    CommandView { words: Seq::empty(), input: None, output: None }
}

/// Gathers the tokens from index `k` into the command `acc`: words in
/// order, at most one input and one output redirection, each followed by
/// the word that names its file.
pub open spec fn assemble_from(t: Seq<TokenView>, k: int, acc: CommandView) -> Result<
    CommandView,
    ParseError,
>
    decreases t.len() - k,
{
    if k < 0 || k >= t.len() {
        Ok(acc)
    } else {
        match t[k] {
            TokenView::Word(w) => assemble_from(
                t,
                k + 1,
                CommandView { words: acc.words.push(w), ..acc },
            ),
            TokenView::Input => {
                if acc.input is Some {
                    Err(ParseError::DuplicateInputRedirection)
                } else if k + 1 < t.len() && t[k + 1] is Word {
                    assemble_from(t, k + 2, CommandView { input: Some(t[k + 1]->Word_0), ..acc })
                } else {
                    Err(ParseError::MissingRedirectionTarget("<"))
                }
            },
            TokenView::Output => {
                if acc.output is Some {
                    Err(ParseError::DuplicateOutputRedirection)
                } else if k + 1 < t.len() && t[k + 1] is Word {
                    assemble_from(
                        t,
                        k + 2,
                        CommandView { output: Some(OutputView::Truncate(t[k + 1]->Word_0)), ..acc },
                    )
                } else {
                    Err(ParseError::MissingRedirectionTarget(">"))
                }
            },
            TokenView::Append => {
                if acc.output is Some {
                    Err(ParseError::DuplicateOutputRedirection)
                } else if k + 1 < t.len() && t[k + 1] is Word {
                    assemble_from(
                        t,
                        k + 2,
                        CommandView { output: Some(OutputView::Append(t[k + 1]->Word_0)), ..acc },
                    )
                } else {
                    Err(ParseError::MissingRedirectionTarget(">>"))
                }
            },
            TokenView::Pipe => assemble_from(t, k + 1, acc),
        }
    }
}

pub open spec fn assemble(t: Seq<TokenView>) -> Result<CommandView, ParseError> {
    assemble_from(t, 0, empty_command())
}

/// The stages of a token sequence: the runs of tokens between pipe
/// operators, in order.
pub open spec fn split_stages(t: Seq<TokenView>) -> Seq<Seq<TokenView>>
    decreases t.len(),
{
    if t.len() == 0 {
        seq![Seq::empty()]
    } else {
        let rest = split_stages(t.drop_last());
        if t.last() is Pipe {
            rest.push(Seq::empty())
        } else {
            rest.update(rest.len() - 1, rest.last().push(t.last()))
        }
    }
}

/// The commands of the stages from index `k` on, or the first error met:
/// in a pipeline of two or more stages, every stage needs a command.
pub open spec fn stages_from(stages: Seq<Seq<TokenView>>, k: int) -> Result<
    Seq<CommandView>,
    ParseError,
>
    decreases stages.len() - k,
{
    if k < 0 || k >= stages.len() {
        Ok(Seq::empty())
    } else {
        match assemble(stages[k]) {
            Err(e) => Err(e),
            Ok(c) => if stages.len() > 1 && c.words.len() == 0 {
                Err(ParseError::EmptyPipelineStage)
            } else {
                prepend(seq![c], stages_from(stages, k + 1))
            },
        }
    }
}

pub open spec fn prepend(first: Seq<CommandView>, rest: Result<Seq<CommandView>, ParseError>) -> Result<
    Seq<CommandView>,
    ParseError,
> {
    match rest {
        Ok(r) => Ok(first + r),
        Err(e) => Err(e),
    }
}

/// What a line means as a pipeline: the commands of its stages, or the
/// first error met while reading it.
pub open spec fn pipeline_spec(s: Seq<char>, status: i32, environment: Seq<(String, String)>) -> Result<
    Seq<CommandView>,
    ParseError,
> {
    match lex(s, status, environment) {
        Err(e) => Err(e),
        Ok(t) => stages_from(split_stages(t), 0),
    }
}

/// What a command line means: its words and redirections, or the first
/// error met while reading it; a line of several pipeline stages is not one
/// command.
pub open spec fn parse_spec(s: Seq<char>, status: i32, environment: Seq<(String, String)>) -> Result<
    CommandView,
    ParseError,
> {
    match pipeline_spec(s, status, environment) {
        Err(e) => Err(e),
        Ok(commands) => if commands.len() == 1 {
            Ok(commands[0])
        } else {
            Err(ParseError::UnexpectedPipeline)
        },
    }
}

pub open spec fn command_result_view(result: Result<ParsedCommand, ParseError>) -> Result<
    CommandView,
    ParseError,
> {
    match result {
        Ok(command) => Ok(command@),
        Err(e) => Err(e),
    }
}

pub open spec fn command_of(words: Seq<String>, input: Option<String>, output: Option<OutputRedirection>) -> CommandView {
    CommandView {
        words: words_view(words),
        input: option_text_view(input),
        output: option_output_view(output),
    }
}

proof fn lemma_words_view_push(words: Seq<String>, w: String)
    ensures
        words_view(words.push(w)) == words_view(words).push(w@),
{
    assert(words_view(words.push(w)) =~= words_view(words).push(w@));
}

/// Builds the command from the scanned tokens: it succeeds exactly when
/// every redirection operator is followed by the word naming its file and
/// there is at most one input and one output redirection; the command then
/// holds the words that follow no operator, in order, and the file of each
/// redirection (see `law_assembly_rule`).
fn redirections_from_tokens(tokens: &Vec<Token>) -> (result: Result<ParsedCommand, ParseError>)
    ensures
        command_result_view(result) == assemble(tokens_view(tokens@)),
        result is Ok <==> {
            &&& operators_have_targets(tokens_view(tokens@), 0)
            &&& count_inputs(tokens_view(tokens@), tokens@.len() as int) <= 1
            &&& count_outputs(tokens_view(tokens@), tokens@.len() as int) <= 1
        },
        result matches Ok(c) ==> {
            &&& c@.words == arguments(tokens_view(tokens@), 0)
            &&& forall|m: int|
                0 <= m < tokens@.len() && #[trigger] tokens_view(tokens@)[m] is Input ==> c@.input
                    == Some(tokens_view(tokens@)[m + 1]->Word_0)
            &&& (forall|m: int|
                0 <= m < tokens@.len() ==> !(#[trigger] tokens_view(tokens@)[m] is Input))
                ==> c@.input is None
            &&& forall|m: int|
                0 <= m < tokens@.len() && #[trigger] tokens_view(tokens@)[m] is Output
                    ==> c@.output == Some(OutputView::Truncate(tokens_view(tokens@)[m + 1]->Word_0))
            &&& forall|m: int|
                0 <= m < tokens@.len() && #[trigger] tokens_view(tokens@)[m] is Append
                    ==> c@.output == Some(OutputView::Append(tokens_view(tokens@)[m + 1]->Word_0))
            &&& (forall|m: int|
                0 <= m < tokens@.len() ==> !(#[trigger] tokens_view(tokens@)[m] is Output) && !(
                tokens_view(tokens@)[m] is Append)) ==> c@.output is None
        },
{
    proof {
        law_assembly_rule(tokens_view(tokens@));
    }
    gather_tokens(tokens)
}

/// Gathers the tokens into a command, one token or redirection at a time.
fn gather_tokens(tokens: &Vec<Token>) -> (result: Result<ParsedCommand, ParseError>)
    ensures
        command_result_view(result) == assemble(tokens_view(tokens@)),
{
    let ghost t = tokens_view(tokens@);
    let mut words: Vec<String> = Vec::new();
    let mut input: Option<String> = None;
    let mut output: Option<OutputRedirection> = None;
    let mut k: usize = 0;
    proof {
        assert(command_of(words@, input, output) == empty_command()) by {
            assert(words_view(words@) =~= Seq::<Seq<char>>::empty());
        }
    }
    while k < tokens.len()
        invariant
            t == tokens_view(tokens@),
            k <= tokens@.len(),
            assemble(t) == assemble_from(t, k as int, command_of(words@, input, output)),
        decreases tokens.len() - k,
    {
        proof {
            assert(t[k as int] == tokens@[k as int]@);
            if k + 1 < tokens@.len() {
                assert(t[k + 1] == tokens@[k + 1]@);
            }
        }
        match &tokens[k] {
            Token::Word(w) => {
                proof {
                    lemma_words_view_push(words@, *w);
                }
                words.push(w.clone());
                k = k + 1;
            },
            Token::Input => {
                if input.is_some() {
                    return Err(ParseError::DuplicateInputRedirection);
                }
                if k + 1 < tokens.len() {
                    if let Token::Word(path) = &tokens[k + 1] {
                        input = Some(path.clone());
                        k = k + 2;
                        continue;
                    }
                }
                return Err(ParseError::MissingRedirectionTarget("<"));
            },
            Token::Output => {
                if output.is_some() {
                    return Err(ParseError::DuplicateOutputRedirection);
                }
                if k + 1 < tokens.len() {
                    if let Token::Word(path) = &tokens[k + 1] {
                        output = Some(OutputRedirection::Truncate(path.clone()));
                        k = k + 2;
                        continue;
                    }
                }
                return Err(ParseError::MissingRedirectionTarget(">"));
            },
            Token::Append => {
                if output.is_some() {
                    return Err(ParseError::DuplicateOutputRedirection);
                }
                if k + 1 < tokens.len() {
                    if let Token::Word(path) = &tokens[k + 1] {
                        output = Some(OutputRedirection::Append(path.clone()));
                        k = k + 2;
                        continue;
                    }
                }
                return Err(ParseError::MissingRedirectionTarget(">>"));
            },
            Token::Pipe => {
                k = k + 1;
            },
        }
    }
    Ok(ParsedCommand { words, input, output })
}

// ---------------------------------------------------------------------------
// Pipelines
// ---------------------------------------------------------------------------
fn copy_token(t: &Token) -> (c: Token)
    ensures
        c@ == t@,
{
    match t {
        Token::Word(w) => Token::Word(w.clone()),
        Token::Input => Token::Input,
        Token::Output => Token::Output,
        Token::Append => Token::Append,
        Token::Pipe => Token::Pipe,
    }
}

pub proof fn lemma_split_stages_nonempty(t: Seq<TokenView>)
    ensures
        split_stages(t).len() >= 1,
    decreases t.len(),
{
    if t.len() > 0 {
        lemma_split_stages_nonempty(t.drop_last());
    }
}

pub open spec fn stages_view(stages: Seq<Vec<Token>>) -> Seq<Seq<TokenView>> {
    stages.map_values(|st: Vec<Token>| tokens_view(st@))
}

/// Splits the tokens into pipeline stages.
fn split_tokens(tokens: &Vec<Token>) -> (stages: Vec<Vec<Token>>)
    ensures
        stages_view(stages@) == split_stages(tokens_view(tokens@)),
{
    let ghost t = tokens_view(tokens@);
    let mut stages: Vec<Vec<Token>> = Vec::new();
    let mut current: Vec<Token> = Vec::new();
    let mut i: usize = 0;
    proof {
        assert(t.take(0) =~= Seq::<TokenView>::empty());
        assert(tokens_view(current@) =~= Seq::<TokenView>::empty());
        assert(stages_view(stages@).push(tokens_view(current@)) =~= split_stages(t.take(0)));
    }
    while i < tokens.len()
        invariant
            t == tokens_view(tokens@),
            i <= tokens@.len(),
            stages_view(stages@).push(tokens_view(current@)) == split_stages(t.take(i as int)),
        decreases tokens.len() - i,
    {
        let ghost before = stages_view(stages@);
        let ghost cur = tokens_view(current@);
        proof {
            assert(t.take(i + 1).drop_last() =~= t.take(i as int));
            assert(t.take(i + 1).last() == t[i as int]);
            assert(t[i as int] == tokens@[i as int]@);
        }
        if let Token::Pipe = &tokens[i] {
            let finished = current;
            current = Vec::new();
            stages.push(finished);
            proof {
                assert(stages_view(stages@) =~= before.push(cur));
                assert(tokens_view(current@) =~= Seq::<TokenView>::empty());
                assert(stages_view(stages@).push(tokens_view(current@)) =~= before.push(cur).push(
                    Seq::empty(),
                ));
            }
        } else {
            let copy = copy_token(&tokens[i]);
            proof {
                lemma_tokens_view_push(current@, copy);
            }
            current.push(copy);
            proof {
                assert(stages_view(stages@).push(tokens_view(current@)) =~= before.push(cur).update(
                    before.len() as int,
                    cur.push(t[i as int]),
                ));
            }
        }
        i = i + 1;
    }
    let ghost before = stages_view(stages@);
    let ghost cur = tokens_view(current@);
    stages.push(current);
    proof {
        assert(stages_view(stages@) =~= before.push(cur));
        assert(t.take(t.len() as int) =~= t);
    }
    stages
}

pub open spec fn commands_view(commands: Seq<ParsedCommand>) -> Seq<CommandView> {
    commands.map_values(|c: ParsedCommand| c@)
}

pub open spec fn commands_result_view(result: Result<Vec<ParsedCommand>, ParseError>) -> Result<
    Seq<CommandView>,
    ParseError,
> {
    match result {
        Ok(commands) => Ok(commands_view(commands@)),
        Err(e) => Err(e),
    }
}

/// Builds the command of every stage.
fn assemble_stages(stages: &Vec<Vec<Token>>) -> (result: Result<Vec<ParsedCommand>, ParseError>)
    requires
        stages@.len() > 0,
    ensures
        commands_result_view(result) == stages_from(stages_view(stages@), 0),
{
    let ghost sv = stages_view(stages@);
    let mut commands: Vec<ParsedCommand> = Vec::new();
    let mut k: usize = 0;
    let multiple = stages.len() > 1;
    proof {
        assert(commands_view(commands@) =~= Seq::<CommandView>::empty());
        match stages_from(sv, 0) {
            Ok(r) => assert(Seq::<CommandView>::empty() + r =~= r),
            Err(e) => {},
        }
    }
    while k < stages.len()
        invariant
            sv == stages_view(stages@),
            k <= stages@.len(),
            multiple == (stages@.len() > 1),
            stages_from(sv, 0) == prepend(commands_view(commands@), stages_from(sv, k as int)),
        decreases stages.len() - k,
    {
        proof {
            assert(sv[k as int] == tokens_view(stages@[k as int]@));
        }
        let command = match redirections_from_tokens(&stages[k]) {
            Ok(command) => command,
            Err(e) => {
                return Err(e);
            },
        };
        if multiple && command.words.len() == 0 {
            proof {
                assert(command@.words.len() == 0);
            }
            return Err(ParseError::EmptyPipelineStage);
        }
        let ghost done = commands_view(commands@);
        let ghost c = command@;
        commands.push(command);
        proof {
            assert(commands_view(commands@) =~= done.push(c));
            match stages_from(sv, k + 1) {
                Ok(r) => {
                    assert(done + (seq![c] + r) =~= done.push(c) + r);
                },
                Err(e) => {},
            }
        }
        k = k + 1;
    }
    proof {
        assert(commands_view(commands@) + Seq::<CommandView>::empty() =~= commands_view(commands@));
    }
    Ok(commands)
}

// ---------------------------------------------------------------------------
// Public entry points
// ---------------------------------------------------------------------------
/// The words of a parse result, keeping its error.
pub open spec fn words_of(result: Result<CommandView, ParseError>) -> Result<
    Seq<Seq<char>>,
    ParseError,
> {
    match result {
        Ok(command) => Ok(command.words),
        Err(e) => Err(e),
    }
}

pub open spec fn words_result_view(result: Result<Vec<String>, ParseError>) -> Result<
    Seq<Seq<char>>,
    ParseError,
> {
    match result {
        Ok(words) => Ok(words_view(words@)),
        Err(e) => Err(e),
    }
}

/// Parses a line as a pipeline: the commands of its stages, in order.
/// `previous_status` is what `$?` expands to; `environment` holds the
/// variables that `$NAME` and `${NAME}` expand to.
pub fn parse_pipeline_with_status(
    line: &str,
    previous_status: i32,
    environment: &[(String, String)],
) -> (result: Result<Vec<ParsedCommand>, ParseError>)
    ensures
        commands_result_view(result) == pipeline_spec(line@, previous_status, environment@),
{
    let chars = chars_of(line);
    match scan(&chars, previous_status, environment) {
        Ok(tokens) => {
            let stages = split_tokens(&tokens);
            proof {
                lemma_split_stages_nonempty(tokens_view(tokens@));
            }
            assemble_stages(&stages)
        },
        Err(e) => Err(e),
    }
}

/// Parses a line as a pipeline, with `$?` expanding to `0`.
pub fn parse_pipeline(line: &str, environment: &[(String, String)]) -> (result: Result<
    Vec<ParsedCommand>,
    ParseError,
>)
    ensures
        commands_result_view(result) == pipeline_spec(line@, 0, environment@),
{
    parse_pipeline_with_status(line, 0, environment)
}

/// Parses one command line. `previous_status` is what `$?` expands to;
/// `environment` holds the variables that `$NAME` and `${NAME}` expand to.
pub fn parse_command_line_with_status(
    line: &str,
    previous_status: i32,
    environment: &[(String, String)],
) -> (result: Result<ParsedCommand, ParseError>)
    ensures
        command_result_view(result) == parse_spec(line@, previous_status, environment@),
{
    match parse_pipeline_with_status(line, previous_status, environment) {
        Ok(mut commands) => {
            if commands.len() == 1 {
                let ghost before = commands_view(commands@);
                let command = commands.pop().unwrap();
                proof {
                    assert(command@ == before[0]);
                }
                Ok(command)
            } else {
                Err(ParseError::UnexpectedPipeline)
            }
        },
        Err(e) => Err(e),
    }
}

/// Parses one command line, with `$?` expanding to `0`.
pub fn parse_command_line(line: &str, environment: &[(String, String)]) -> (result: Result<
    ParsedCommand,
    ParseError,
>)
    ensures
        command_result_view(result) == parse_spec(line@, 0, environment@),
{
    parse_command_line_with_status(line, 0, environment)
}

/// The words of one command line. `previous_status` is what `$?` expands to.
pub fn parse_line_with_status(
    line: &str,
    previous_status: i32,
    environment: &[(String, String)],
) -> (result: Result<Vec<String>, ParseError>)
    ensures
        words_result_view(result) == words_of(parse_spec(line@, previous_status, environment@)),
{
    match parse_command_line_with_status(line, previous_status, environment) {
        Ok(command) => Ok(command.words),
        Err(e) => Err(e),
    }
}

/// The words of one command line, with `$?` expanding to `0`.
pub fn parse_line(line: &str, environment: &[(String, String)]) -> (result: Result<
    Vec<String>,
    ParseError,
>)
    ensures
        words_result_view(result) == words_of(parse_spec(line@, 0, environment@)),
{
    parse_line_with_status(line, 0, environment)
}

// ---------------------------------------------------------------------------
// Messages
// ---------------------------------------------------------------------------
/// The diagnostic text of each error.
pub open spec fn error_message(error: ParseError) -> Seq<char> {
    match error {
        ParseError::UnclosedSingleQuote => "unclosed single quote"@,
        ParseError::UnclosedDoubleQuote => "unclosed double quote"@,
        ParseError::TrailingEscape => "trailing backslash"@,
        ParseError::UnclosedVariableBrace => "unclosed variable brace"@,
        ParseError::InvalidVariableName => "invalid variable name"@,
        ParseError::MissingRedirectionTarget(operator) => "missing file after `"@ + operator@
            + "`"@,
        ParseError::DuplicateInputRedirection => "multiple input redirections are not supported"@,
        ParseError::DuplicateOutputRedirection => "multiple output redirections are not supported"@,
        ParseError::EmptyPipelineStage => "missing command in pipeline"@,
        ParseError::UnexpectedPipeline => "expected one command, found a pipeline"@,
    }
}

impl ParseError {
    /// The diagnostic text of this error.
    pub fn message(&self) -> (text: String)
        ensures
            text@ == error_message(*self),
    {
        match self {
            ParseError::UnclosedSingleQuote => "unclosed single quote".to_owned(),
            ParseError::UnclosedDoubleQuote => "unclosed double quote".to_owned(),
            ParseError::TrailingEscape => "trailing backslash".to_owned(),
            ParseError::UnclosedVariableBrace => "unclosed variable brace".to_owned(),
            ParseError::InvalidVariableName => "invalid variable name".to_owned(),
            ParseError::MissingRedirectionTarget(operator) => {
                let mut text = "missing file after `".to_owned();
                text.append(operator);
                text.append("`");
                text
            },
            ParseError::DuplicateInputRedirection => {
                "multiple input redirections are not supported".to_owned()
            },
            ParseError::DuplicateOutputRedirection => {
                "multiple output redirections are not supported".to_owned()
            },
            ParseError::EmptyPipelineStage => "missing command in pipeline".to_owned(),
            ParseError::UnexpectedPipeline => "expected one command, found a pipeline".to_owned(),
        }
    }
}

} // verus!
