//! The vocabulary of the parser's laws (plain characters, whitespace runs,
//! lines of words) with the lemmas they share, and the laws of variable
//! lookup and of redirection counts.
use vstd::prelude::*;

use crate::parser::{
    add_char, add_text, add_token, assemble, assemble_from, empty_command, expansion, flush,
    initial_state, lemma_expansion_advances, lemma_line_end_bounds, lex, lex_from, line_end,
    lookup, lookup_from, parse_spec, pipeline_spec, split_stages, stages_from, start_word,
    with_quote, CommandView, LexState, OutputView, ParseError, Quote, TokenView,
};
use crate::text::spec_is_whitespace;

verus! {

/// A character with no special meaning outside quotes (though `#` still
/// begins a comment at the start of a word).
pub open spec fn is_plain(c: char) -> bool {
    &&& !spec_is_whitespace(c)
    &&& c != '\''
    &&& c != '"'
    &&& c != '\\'
    &&& c != '$'
    &&& c != '<'
    &&& c != '>'
    &&& c != '|'
}

/// Whitespace only (possibly empty).
pub open spec fn is_blank(t: Seq<char>) -> bool {
    forall|k: int| 0 <= k < t.len() ==> #[trigger] spec_is_whitespace(t[k])
}

/// `seps[0] + words[0] + seps[1] + ... + words[n - 1] + seps[n]`.
pub open spec fn interleave(seps: Seq<Seq<char>>, words: Seq<Seq<char>>) -> Seq<char>
    decreases words.len(),
{
    if words.len() == 0 {
        if seps.len() > 0 {
            seps[0]
        } else {
            Seq::empty()
        }
    } else {
        interleave(seps.drop_last(), words.drop_last()) + words.last() + seps.last()
    }
}

/// The separators around `words` are whitespace, and the ones between two
/// words are not empty.
pub open spec fn separates(seps: Seq<Seq<char>>, words: Seq<Seq<char>>) -> bool {
    &&& seps.len() == words.len() + 1
    &&& forall|k: int| 0 <= k < seps.len() ==> #[trigger] is_blank(seps[k])
    &&& forall|k: int| 0 < k < words.len() ==> #[trigger] seps[k].len() > 0
}

pub open spec fn word_tokens(words: Seq<Seq<char>>) -> Seq<TokenView> {
    words.map_values(|w: Seq<char>| TokenView::Word(w))
}

pub open spec fn plain_command(words: Seq<Seq<char>>) -> CommandView {
    CommandView { words, input: None, output: None }
}

/// No pipe operator among the tokens.
pub open spec fn has_no_pipe(t: Seq<TokenView>) -> bool {
    forall|k: int| 0 <= k < t.len() ==> !(#[trigger] t[k] is Pipe)
}

proof fn lemma_split_without_pipes(t: Seq<TokenView>)
    requires
        has_no_pipe(t),
    ensures
        split_stages(t) == seq![t],
    decreases t.len(),
{
    if t.len() == 0 {
        assert(t =~= Seq::<TokenView>::empty());
        assert(split_stages(t) =~= seq![t]);
    } else {
        assert(has_no_pipe(t.drop_last())) by {
            assert forall|k: int| 0 <= k < t.drop_last().len() implies !(
            #[trigger] t.drop_last()[k] is Pipe) by {
                assert(t.drop_last()[k] == t[k]);
            }
        }
        lemma_split_without_pipes(t.drop_last());
        assert(!(t[t.len() - 1] is Pipe));
        assert(t.drop_last().push(t.last()) =~= t);
        assert(split_stages(t) =~= seq![t]);
    }
}

/// A line whose tokens hold no pipe operator is a pipeline of one stage.
pub proof fn lemma_single_stage(s: Seq<char>, status: i32, env: Seq<(String, String)>, t: Seq<TokenView>)
    requires
        lex(s, status, env) == Ok::<Seq<TokenView>, ParseError>(t),
        has_no_pipe(t),
    ensures
        parse_spec(s, status, env) == assemble(t),
        pipeline_spec(s, status, env) == match assemble(t) {
            Ok(c) => Ok::<Seq<CommandView>, ParseError>(seq![c]),
            Err(e) => Err(e),
        },
{
    lemma_split_without_pipes(t);
    let stages = seq![t];
    assert(stages_from(stages, 1) == Ok::<Seq<CommandView>, ParseError>(Seq::empty()));
    match assemble(t) {
        Ok(c) => {
            assert(seq![c] + Seq::<CommandView>::empty() =~= seq![c]);
        },
        Err(e) => {},
    }
}

/// A run of whitespace ends the current word.
pub proof fn lemma_blank_run(
    s: Seq<char>,
    i: int,
    j: int,
    st: LexState,
    status: i32,
    env: Seq<(String, String)>,
)
    requires
        0 <= i <= j <= s.len(),
        st.quote == Quote::Unquoted,
        forall|k: int| i <= k < j ==> #[trigger] spec_is_whitespace(s[k]),
    ensures
        lex_from(s, i, st, status, env) == lex_from(
            s,
            j,
            if i < j {
                flush(st)
            } else {
                st
            },
            status,
            env,
        ),
    decreases j - i,
{
    if i < j {
        assert(spec_is_whitespace(s[i]));
        assert(lex_from(s, i, st, status, env) == lex_from(s, i + 1, flush(st), status, env));
        lemma_blank_run(s, i + 1, j, flush(st), status, env);
        assert(flush(flush(st)) == flush(st));
    }
}

pub proof fn lemma_word_tokens_push(words: Seq<Seq<char>>, w: Seq<char>)
    ensures
        word_tokens(words.push(w)) == word_tokens(words).push(TokenView::Word(w)),
{
    assert(word_tokens(words.push(w)) =~= word_tokens(words).push(TokenView::Word(w)));
}

/// Tokens before index `n` that are all words gather into the command's
/// words.
pub proof fn lemma_assemble_word_prefix(t: Seq<TokenView>, k: int, n: int, acc: CommandView)
    requires
        0 <= k <= n <= t.len(),
        forall|m: int| 0 <= m < n ==> #[trigger] t[m] is Word,
    ensures
        assemble_from(t, k, acc) == assemble_from(
            t,
            n,
            CommandView {
                words: acc.words + t.subrange(k, n).map_values(|tok: TokenView| tok->Word_0),
                ..acc
            },
        ),
    decreases n - k,
{
    if k == n {
        assert(acc.words + t.subrange(k, n).map_values(|tok: TokenView| tok->Word_0) =~= acc.words);
    } else {
        assert(t[k] is Word);
        let acc1 = CommandView { words: acc.words.push(t[k]->Word_0), ..acc };
        lemma_assemble_word_prefix(t, k + 1, n, acc1);
        assert(acc1.words + t.subrange(k + 1, n).map_values(|tok: TokenView| tok->Word_0)
            =~= acc.words + t.subrange(k, n).map_values(|tok: TokenView| tok->Word_0));
    }
}

pub proof fn lemma_assemble_word_tokens(words: Seq<Seq<char>>)
    ensures
        assemble(word_tokens(words)) == Ok::<CommandView, ParseError>(plain_command(words)),
        has_no_pipe(word_tokens(words)),
{
    let t = word_tokens(words);
    assert forall|m: int| 0 <= m < t.len() implies #[trigger] t[m] is Word by {}
    lemma_assemble_word_prefix(t, 0, t.len() as int, empty_command());
    assert(Seq::<Seq<char>>::empty() + t.subrange(0, t.len() as int).map_values(
        |tok: TokenView| tok->Word_0,
    ) =~= words);
}

/// Inside single quotes every character is literal.
pub proof fn lemma_single_quoted_run(
    s: Seq<char>,
    i: int,
    j: int,
    st: LexState,
    status: i32,
    env: Seq<(String, String)>,
)
    requires
        0 <= i <= j <= s.len(),
        st.quote == Quote::Single,
        forall|k: int| i <= k < j ==> s[k] != '\'',
    ensures
        lex_from(s, i, st, status, env) == lex_from(
            s,
            j,
            if i < j {
                LexState { word: st.word + s.subrange(i, j), started: true, ..st }
            } else {
                st
            },
            status,
            env,
        ),
    decreases j - i,
{
    if i < j {
        let st1 = add_char(st, s[i]);
        lemma_single_quoted_run(s, i + 1, j, st1, status, env);
        assert(st1.word + s.subrange(i + 1, j) =~= st.word + s.subrange(i, j));
        assert(st1.word =~= st.word + s.subrange(i, i + 1));
    }
}

/// The first entry with a name gives its value; with no entry, the value is
/// empty.
pub proof fn law_lookup_first_entry(env: Seq<(String, String)>, name: Seq<char>, k: int)
    requires
        0 <= k < env.len(),
        env[k].0@ == name,
        forall|m: int| 0 <= m < k ==> env[m].0@ != name,
    ensures
        lookup(env, name) == env[k].1@,
{
    lemma_lookup_skip(env, name, 0, k);
}

proof fn lemma_lookup_skip(env: Seq<(String, String)>, name: Seq<char>, from: int, to: int)
    requires
        0 <= from <= to <= env.len(),
        forall|m: int| from <= m < to ==> env[m].0@ != name,
    ensures
        lookup_from(env, name, from) == lookup_from(env, name, to),
    decreases to - from,
{
    if from < to {
        lemma_lookup_skip(env, name, from + 1, to);
    }
}

/// An unset variable has the empty value.
pub proof fn law_unset_variable_is_empty(env: Seq<(String, String)>, name: Seq<char>)
    requires
        forall|m: int| 0 <= m < env.len() ==> env[m].0@ != name,
    ensures
        lookup(env, name) == Seq::<char>::empty(),
{
    lemma_lookup_skip(env, name, 0, env.len() as int);
}

/// The number of input redirection operators among the first `k` tokens.
pub open spec fn count_inputs(t: Seq<TokenView>, k: int) -> int
    decreases k,
{
    if k <= 0 {
        0
    } else {
        count_inputs(t, k - 1) + if t[k - 1] is Input {
            1int
        } else {
            0int
        }
    }
}

/// The number of output redirection operators (`>` or `>>`) among the first
/// `k` tokens.
pub open spec fn count_outputs(t: Seq<TokenView>, k: int) -> int
    decreases k,
{
    if k <= 0 {
        0
    } else {
        count_outputs(t, k - 1) + if t[k - 1] is Output || t[k - 1] is Append {
            1int
        } else {
            0int
        }
    }
}

proof fn lemma_counts_grow(t: Seq<TokenView>, i: int, j: int)
    requires
        0 <= i <= j <= t.len(),
    ensures
        count_inputs(t, i) <= count_inputs(t, j),
        count_outputs(t, i) <= count_outputs(t, j),
    decreases j - i,
{
    if i < j {
        lemma_counts_grow(t, i, j - 1);
    }
}

proof fn lemma_counts_zero(t: Seq<TokenView>, j: int)
    requires
        0 <= j <= t.len(),
    ensures
        (forall|m: int| 0 <= m < j ==> !(#[trigger] t[m] is Input)) ==> count_inputs(t, j) == 0,
        (forall|m: int| 0 <= m < j ==> !(#[trigger] t[m] is Output) && !(t[m] is Append))
            ==> count_outputs(t, j) == 0,
    decreases j,
{
    if j > 0 {
        lemma_counts_zero(t, j - 1);
    }
}

/// A redirection operator.
pub open spec fn is_operator(tok: TokenView) -> bool {
    tok is Input || tok is Output || tok is Append
}

/// Every operator from index `k` on is followed by the word naming its
/// file.
pub open spec fn operators_have_targets(t: Seq<TokenView>, k: int) -> bool {
    forall|m: int|
        k <= m < t.len() && is_operator(#[trigger] t[m]) ==> m + 1 < t.len() && t[m + 1] is Word
}

/// A word that is an argument: one not right after an operator.
pub open spec fn is_argument(t: Seq<TokenView>, k: int) -> bool {
    t[k] is Word && !(k > 0 && is_operator(t[k - 1]))
}

/// The arguments from index `k` on, in order.
pub open spec fn arguments(t: Seq<TokenView>, k: int) -> Seq<Seq<char>>
    decreases t.len() - k,
{
    if k < 0 || k >= t.len() {
        Seq::empty()
    } else if is_argument(t, k) {
        seq![t[k]->Word_0] + arguments(t, k + 1)
    } else {
        arguments(t, k + 1)
    }
}

pub open spec fn indicator(b: bool) -> int {
    if b {
        1
    } else {
        0
    }
}

/// Gathering the tokens from a point not right after an operator.
proof fn lemma_assemble_rule_from(t: Seq<TokenView>, k: int, acc: CommandView)
    requires
        0 <= k <= t.len(),
        k == 0 || !is_operator(t[k - 1]),
    ensures
        assemble_from(t, k, acc) is Ok <==> {
            &&& operators_have_targets(t, k)
            &&& count_inputs(t, t.len() as int) - count_inputs(t, k) + indicator(acc.input is Some)
                <= 1
            &&& count_outputs(t, t.len() as int) - count_outputs(t, k) + indicator(
                acc.output is Some,
            ) <= 1
        },
        assemble_from(t, k, acc) matches Ok(c) ==> {
            &&& c.words == acc.words + arguments(t, k)
            &&& forall|m: int|
                k <= m < t.len() && #[trigger] t[m] is Input ==> c.input == Some(t[m + 1]->Word_0)
            &&& count_inputs(t, t.len() as int) == count_inputs(t, k) ==> c.input == acc.input
            &&& forall|m: int|
                k <= m < t.len() && #[trigger] t[m] is Output ==> c.output == Some(
                    OutputView::Truncate(t[m + 1]->Word_0),
                )
            &&& forall|m: int|
                k <= m < t.len() && #[trigger] t[m] is Append ==> c.output == Some(
                    OutputView::Append(t[m + 1]->Word_0),
                )
            &&& count_outputs(t, t.len() as int) == count_outputs(t, k) ==> c.output == acc.output
        },
    decreases t.len() - k,
{
    let n = t.len() as int;
    if k < n {
        lemma_counts_grow(t, k + 1, n);
        match t[k] {
            TokenView::Word(w) => {
                let acc1 = CommandView { words: acc.words.push(w), ..acc };
                lemma_assemble_rule_from(t, k + 1, acc1);
                assert(arguments(t, k) == seq![w] + arguments(t, k + 1));
                assert(acc1.words + arguments(t, k + 1) =~= acc.words + (seq![w] + arguments(
                    t,
                    k + 1,
                )));
            },
            TokenView::Pipe => {
                lemma_assemble_rule_from(t, k + 1, acc);
            },
            TokenView::Input => {
                if acc.input is None && k + 1 < n && t[k + 1] is Word {
                    let acc2 = CommandView { input: Some(t[k + 1]->Word_0), ..acc };
                    lemma_counts_grow(t, k + 2, n);
                    lemma_assemble_rule_from(t, k + 2, acc2);
                    assert(arguments(t, k + 1) == arguments(t, k + 2));
                }
            },
            TokenView::Output => {
                if acc.output is None && k + 1 < n && t[k + 1] is Word {
                    let acc2 = CommandView {
                        output: Some(OutputView::Truncate(t[k + 1]->Word_0)),
                        ..acc
                    };
                    lemma_counts_grow(t, k + 2, n);
                    lemma_assemble_rule_from(t, k + 2, acc2);
                    assert(arguments(t, k + 1) == arguments(t, k + 2));
                }
            },
            TokenView::Append => {
                if acc.output is None && k + 1 < n && t[k + 1] is Word {
                    let acc2 = CommandView {
                        output: Some(OutputView::Append(t[k + 1]->Word_0)),
                        ..acc
                    };
                    lemma_counts_grow(t, k + 2, n);
                    lemma_assemble_rule_from(t, k + 2, acc2);
                    assert(arguments(t, k + 1) == arguments(t, k + 2));
                }
            },
        }
    } else {
        assert(acc.words + arguments(t, k) =~= acc.words);
    }
}

/// How tokens gather into a command: they do exactly when every redirection
/// operator is followed by the word naming its file and there is at most one
/// input and at most one output redirection; the command then holds the
/// words that follow no operator, in order, the file of the input
/// redirection if there is one, and the file of the output redirection with
/// its kind (`>` truncating, `>>` appending) if there is one.
pub proof fn law_assembly_rule(t: Seq<TokenView>)
    ensures
        assemble(t) is Ok <==> {
            &&& operators_have_targets(t, 0)
            &&& count_inputs(t, t.len() as int) <= 1
            &&& count_outputs(t, t.len() as int) <= 1
        },
        assemble(t) matches Ok(c) ==> {
            &&& c.words == arguments(t, 0)
            &&& forall|m: int|
                0 <= m < t.len() && #[trigger] t[m] is Input ==> c.input == Some(t[m + 1]->Word_0)
            &&& (forall|m: int| 0 <= m < t.len() ==> !(#[trigger] t[m] is Input)) ==> c.input
                is None
            &&& forall|m: int|
                0 <= m < t.len() && #[trigger] t[m] is Output ==> c.output == Some(
                    OutputView::Truncate(t[m + 1]->Word_0),
                )
            &&& forall|m: int|
                0 <= m < t.len() && #[trigger] t[m] is Append ==> c.output == Some(
                    OutputView::Append(t[m + 1]->Word_0),
                )
            &&& (forall|m: int|
                0 <= m < t.len() ==> !(#[trigger] t[m] is Output) && !(t[m] is Append))
                ==> c.output is None
        },
{
    lemma_assemble_rule_from(t, 0, empty_command());
    lemma_counts_zero(t, t.len() as int);
    assert(Seq::<Seq<char>>::empty() + arguments(t, 0) =~= arguments(t, 0));
}

proof fn lemma_stages_ok(stages: Seq<Seq<TokenView>>, k: int)
    requires
        0 <= k,
        stages_from(stages, k) is Ok,
    ensures
        forall|m: int| k <= m < stages.len() ==> #[trigger] assemble(stages[m]) is Ok,
    decreases stages.len() - k,
{
    if k < stages.len() {
        lemma_stages_ok(stages, k + 1);
    }
}

/// Each command has at most one input and one output redirection: in a
/// line that parses, no pipeline stage holds two of either kind, so a line
/// with two is rejected.
pub proof fn law_at_most_one_redirection_each(
    s: Seq<char>,
    status: i32,
    env: Seq<(String, String)>,
)
    requires
        pipeline_spec(s, status, env) is Ok,
    ensures
        lex(s, status, env) matches Ok(t) && forall|m: int|
            0 <= m < split_stages(t).len() ==> count_inputs(
                #[trigger] split_stages(t)[m],
                split_stages(t)[m].len() as int,
            ) <= 1 && count_outputs(split_stages(t)[m], split_stages(t)[m].len() as int) <= 1,
{
    let t = lex(s, status, env)->Ok_0;
    let stages = split_stages(t);
    lemma_stages_ok(stages, 0);
    assert forall|m: int| 0 <= m < stages.len() implies count_inputs(
        #[trigger] stages[m],
        stages[m].len() as int,
    ) <= 1 && count_outputs(stages[m], stages[m].len() as int) <= 1 by {
        assert(assemble(stages[m]) is Ok);
        law_assembly_rule(stages[m]);
    }
}

/// `$?` written somewhere in the line, as those two characters.
pub open spec fn mentions_status(s: Seq<char>) -> bool {
    exists|k: int| 0 <= k < s.len() - 1 && s[k] == '$' && #[trigger] s[k + 1] == '?'
}

/// Scanning a line without `$?` does not depend on the previous status.
proof fn lemma_lex_ignores_status(
    s: Seq<char>,
    i: int,
    st: LexState,
    a: i32,
    b: i32,
    env: Seq<(String, String)>,
)
    requires
        !mentions_status(s),
        0 <= i,
    ensures
        lex_from(s, i, st, a, env) == lex_from(s, i, st, b, env),
    decreases s.len() - i, 1int,
{
    if i < s.len() {
        let c = s[i];
        match st.quote {
            Quote::Unquoted => {
                if c == '\'' {
                    lemma_lex_ignores_status(
                        s,
                        i + 1,
                        with_quote(start_word(st), Quote::Single),
                        a,
                        b,
                        env,
                    );
                } else if c == '"' {
                    lemma_lex_ignores_status(
                        s,
                        i + 1,
                        with_quote(start_word(st), Quote::Double),
                        a,
                        b,
                        env,
                    );
                } else if c == '\\' {
                    if i + 1 < s.len() {
                        lemma_lex_ignores_status(s, i + 2, add_char(st, s[i + 1]), a, b, env);
                    }
                } else if spec_is_whitespace(c) {
                    lemma_lex_ignores_status(s, i + 1, flush(st), a, b, env);
                } else if c == '#' && !st.started {
                    lemma_line_end_bounds(s, i + 1);
                    lemma_lex_ignores_status(s, line_end(s, i + 1), st, a, b, env);
                } else if c == '<' {
                    lemma_lex_ignores_status(
                        s,
                        i + 1,
                        add_token(flush(st), TokenView::Input),
                        a,
                        b,
                        env,
                    );
                } else if c == '>' {
                    if i + 1 < s.len() && s[i + 1] == '>' {
                        lemma_lex_ignores_status(
                            s,
                            i + 2,
                            add_token(flush(st), TokenView::Append),
                            a,
                            b,
                            env,
                        );
                    } else {
                        lemma_lex_ignores_status(
                            s,
                            i + 1,
                            add_token(flush(st), TokenView::Output),
                            a,
                            b,
                            env,
                        );
                    }
                } else if c == '|' {
                    lemma_lex_ignores_status(
                        s,
                        i + 1,
                        add_token(flush(st), TokenView::Pipe),
                        a,
                        b,
                        env,
                    );
                } else if c == '$' {
                    lemma_dollar_ignores_status(s, i, st, a, b, env);
                } else {
                    lemma_lex_ignores_status(s, i + 1, add_char(st, c), a, b, env);
                }
            },
            Quote::Single => {
                if c == '\'' {
                    lemma_lex_ignores_status(s, i + 1, with_quote(st, Quote::Unquoted), a, b, env);
                } else {
                    lemma_lex_ignores_status(s, i + 1, add_char(st, c), a, b, env);
                }
            },
            Quote::Double => {
                if c == '"' {
                    lemma_lex_ignores_status(s, i + 1, with_quote(st, Quote::Unquoted), a, b, env);
                } else if c == '\\' {
                    if i + 1 < s.len() {
                        lemma_lex_ignores_status(s, i + 2, add_char(st, s[i + 1]), a, b, env);
                    }
                } else if c == '$' {
                    lemma_dollar_ignores_status(s, i, st, a, b, env);
                } else {
                    lemma_lex_ignores_status(s, i + 1, add_char(st, c), a, b, env);
                }
            },
        }
    }
}

/// A `$` that is not followed by `?` expands the same whatever the status.
proof fn lemma_dollar_ignores_status(
    s: Seq<char>,
    i: int,
    st: LexState,
    a: i32,
    b: i32,
    env: Seq<(String, String)>,
)
    requires
        !mentions_status(s),
        0 <= i < s.len(),
        s[i] == '$',
    ensures
        expansion(s, i + 1, a, env) == expansion(s, i + 1, b, env),
        match expansion(s, i + 1, a, env) {
            Ok((j, t)) => i + 1 <= j <= s.len() && lex_from(s, j, add_text(st, t), a, env)
                == lex_from(s, j, add_text(st, t), b, env),
            Err(_) => true,
        },
    decreases s.len() - i, 0int,
{
    if i + 1 < s.len() {
        assert(s[i + 1] != '?');
    }
    lemma_expansion_advances(s, i + 1, a, env);
    if let Ok((j, t)) = expansion(s, i + 1, a, env) {
        lemma_lex_ignores_status(s, j, add_text(st, t), a, b, env);
    }
}

/// The previous status matters only through an expanded `$?`: a line in
/// which `$?` is not written means the same whatever the previous status,
/// as a pipeline and as one command.
pub proof fn law_status_matters_only_through_expansion(
    s: Seq<char>,
    a: i32,
    b: i32,
    env: Seq<(String, String)>,
)
    requires
        !mentions_status(s),
    ensures
        pipeline_spec(s, a, env) == pipeline_spec(s, b, env),
        parse_spec(s, a, env) == parse_spec(s, b, env),
{
    lemma_lex_ignores_status(s, 0, initial_state(), a, b, env);
}

} // verus!
