//! Laws of pipelines: how an unquoted `|` divides a line into stages.
use vstd::prelude::*;

use crate::parser::{
    add_token, flush, initial_state, lemma_split_stages_nonempty, lex, lex_from, pipeline_spec,
    split_stages, stages_from, CommandView, LexState, ParseError, Quote, TokenView,
};
use crate::parser_laws::{
    has_no_pipe, interleave, lemma_assemble_word_tokens, plain_command, separates, word_tokens,
};
use crate::text::spec_is_whitespace;
use crate::word_laws::{
    between_words, is_word, lemma_piece_words_at, word_boundary, word_texts,
    word_values, Piece,
};

verus! {

/// Stages of words, each with whitespace around its words and at least one
/// whitespace character between two of them.
pub open spec fn stage_shapes(seps: Seq<Seq<Seq<char>>>, words: Seq<Seq<Seq<Piece>>>) -> bool {
    &&& seps.len() == words.len()
    &&& words.len() > 0
    &&& forall|k: int| 0 <= k < words.len() ==> #[trigger] separates(seps[k], word_texts(words[k]))
    &&& forall|k: int, m: int|
        0 <= k < words.len() && 0 <= m < words[k].len() ==> #[trigger] is_word(words[k][m])
}

/// The stages written one after another, with `|` between two of them.
pub open spec fn pipeline_text(seps: Seq<Seq<Seq<char>>>, words: Seq<Seq<Seq<Piece>>>) -> Seq<
    char,
>
    decreases words.len(),
{
    if words.len() == 0 {
        Seq::empty()
    } else if words.len() == 1 {
        interleave(seps[0], word_texts(words[0]))
    } else {
        pipeline_text(seps.drop_last(), words.drop_last()) + seq!['|'] + interleave(
            seps.last(),
            word_texts(words.last()),
        )
    }
}

/// What the words of each stage stand for.
pub open spec fn stage_values(
    words: Seq<Seq<Seq<Piece>>>,
    status: i32,
    env: Seq<(String, String)>,
) -> Seq<Seq<Seq<char>>> {
    words.map_values(|w: Seq<Seq<Piece>>| word_values(w, status, env))
}

/// The tokens of a pipeline whose stages hold these arguments: the words of
/// each stage, with a pipe operator between two stages.
pub open spec fn pipeline_tokens(values: Seq<Seq<Seq<char>>>) -> Seq<TokenView>
    decreases values.len(),
{
    if values.len() == 0 {
        Seq::empty()
    } else if values.len() == 1 {
        word_tokens(values[0])
    } else {
        pipeline_tokens(values.drop_last()).push(TokenView::Pipe) + word_tokens(values.last())
    }
}

proof fn lemma_stage_shapes_prefix(seps: Seq<Seq<Seq<char>>>, words: Seq<Seq<Seq<Piece>>>)
    requires
        stage_shapes(seps, words),
        words.len() > 1,
    ensures
        stage_shapes(seps.drop_last(), words.drop_last()),
        separates(seps.last(), word_texts(words.last())),
        forall|m: int| 0 <= m < words.last().len() ==> #[trigger] is_word(words.last()[m]),
{
    let n = words.len() - 1;
    let ps = seps.drop_last();
    let pw = words.drop_last();
    assert forall|k: int| 0 <= k < pw.len() implies #[trigger] separates(
        ps[k],
        word_texts(pw[k]),
    ) by {
        assert(separates(seps[k], word_texts(words[k])));
    }
    assert forall|k: int, m: int| 0 <= k < pw.len() && 0 <= m < pw[k].len() implies #[trigger] is_word(
        pw[k][m],
    ) by {
        assert(is_word(words[k][m]));
    }
    assert(separates(seps[n], word_texts(words[n])));
    assert forall|m: int| 0 <= m < words.last().len() implies #[trigger] is_word(
        words.last()[m],
    ) by {
        assert(is_word(words[n][m]));
    }
}

/// Scanning a line that begins with such stages, followed by nothing or by
/// a character that ends words.
proof fn lemma_stages_prefix(
    seps: Seq<Seq<Seq<char>>>,
    words: Seq<Seq<Seq<Piece>>>,
    s: Seq<char>,
    status: i32,
    env: Seq<(String, String)>,
) -> (after: LexState)
    requires
        stage_shapes(seps, words),
        pipeline_text(seps, words).len() <= s.len(),
        s.subrange(0, pipeline_text(seps, words).len() as int) == pipeline_text(seps, words),
        word_boundary(s, pipeline_text(seps, words).len() as int),
    ensures
        lex_from(s, 0, initial_state(), status, env) == lex_from(
            s,
            pipeline_text(seps, words).len() as int,
            after,
            status,
            env,
        ),
        after.quote == Quote::Unquoted,
        flush(after) == between_words(pipeline_tokens(stage_values(words, status, env))),
    decreases words.len(),
{
    let text = pipeline_text(seps, words);
    let values = stage_values(words, status, env);
    if words.len() == 1 {
        assert(initial_state() == between_words(Seq::empty()));
        assert(separates(seps[0], word_texts(words[0])));
        assert forall|m: int| 0 <= m < words[0].len() implies #[trigger] is_word(words[0][m]) by {}
        let after = lemma_piece_words_at(seps[0], words[0], s, 0, Seq::empty(), status, env);
        assert(values[0] == word_values(words[0], status, env));
        assert(Seq::<TokenView>::empty() + word_tokens(values[0]) =~= word_tokens(values[0]));
        after
    } else {
        let ps = seps.drop_last();
        let pw = words.drop_last();
        let prefix = pipeline_text(ps, pw);
        let last = interleave(seps.last(), word_texts(words.last()));
        assert(text == prefix + seq!['|'] + last);
        lemma_stage_shapes_prefix(seps, words);
        assert(s.subrange(0, prefix.len() as int) == prefix) by {
            assert(s.subrange(0, prefix.len() as int) =~= s.subrange(
                0,
                text.len() as int,
            ).subrange(0, prefix.len() as int));
            assert(text.subrange(0, prefix.len() as int) =~= prefix);
        }
        let p = prefix.len() as int;
        assert(s[p] == '|') by {
            assert(s[p] == s.subrange(0, text.len() as int)[p]);
            assert(text[p] == '|');
        }
        let mid = lemma_stages_prefix(ps, pw, s, status, env);
        assert(!spec_is_whitespace('|'));
        assert(stage_values(pw, status, env) =~= values.drop_last());
        let before = pipeline_tokens(values.drop_last()).push(TokenView::Pipe);
        assert(lex_from(s, p, mid, status, env) == lex_from(
            s,
            p + 1,
            add_token(flush(mid), TokenView::Pipe),
            status,
            env,
        ));
        assert(add_token(flush(mid), TokenView::Pipe) == between_words(before));
        assert(s.subrange(p + 1, p + 1 + last.len()) == last) by {
            assert forall|k: int| 0 <= k < last.len() implies s.subrange(p + 1, p + 1 + last.len())[k]
                == last[k] by {
                assert(s[p + 1 + k] == s.subrange(0, text.len() as int)[p + 1 + k]);
                assert(text[p + 1 + k] == last[k]);
            }
            assert(s.subrange(p + 1, p + 1 + last.len()) =~= last);
        }
        assert(p + 1 + last.len() == text.len());
        let after = lemma_piece_words_at(
            seps.last(),
            words.last(),
            s,
            p + 1,
            before,
            status,
            env,
        );
        assert(values.last() == word_values(words.last(), status, env));
        assert(before + word_tokens(values.last()) == pipeline_tokens(values));
        after
    }
}

/// Such a line scans to its pipeline tokens.
proof fn lemma_pipeline_lex(
    seps: Seq<Seq<Seq<char>>>,
    words: Seq<Seq<Seq<Piece>>>,
    status: i32,
    env: Seq<(String, String)>,
)
    requires
        stage_shapes(seps, words),
    ensures
        lex(pipeline_text(seps, words), status, env) == Ok::<Seq<TokenView>, ParseError>(
            pipeline_tokens(stage_values(words, status, env)),
        ),
{
    let s = pipeline_text(seps, words);
    assert(s.subrange(0, s.len() as int) =~= s);
    let after = lemma_stages_prefix(seps, words, s, status, env);
    assert(lex_from(s, s.len() as int, after, status, env) == Ok::<LexState, ParseError>(after));
}

/// Tokens without a pipe operator join the last stage.
proof fn lemma_split_append(t: Seq<TokenView>, u: Seq<TokenView>)
    requires
        has_no_pipe(u),
    ensures
        split_stages(t + u) == split_stages(t).update(
            split_stages(t).len() - 1,
            split_stages(t).last() + u,
        ),
    decreases u.len(),
{
    lemma_split_stages_nonempty(t);
    let st = split_stages(t);
    if u.len() == 0 {
        assert(t + u =~= t);
        assert(st.last() + u =~= st.last());
        assert(st.update(st.len() - 1, st.last() + u) =~= st);
    } else {
        let u1 = u.drop_last();
        assert(has_no_pipe(u1)) by {
            assert forall|k: int| 0 <= k < u1.len() implies !(#[trigger] u1[k] is Pipe) by {
                assert(u1[k] == u[k]);
            }
        }
        lemma_split_append(t, u1);
        assert((t + u).drop_last() =~= t + u1);
        assert((t + u).last() == u.last());
        assert(!(u[u.len() - 1] is Pipe));
        assert((st.last() + u1).push(u.last()) =~= st.last() + u);
        assert(split_stages(t + u) =~= st.update(st.len() - 1, st.last() + u));
    }
}

/// The token runs of the stages.
pub open spec fn plain_stages(words: Seq<Seq<Seq<char>>>) -> Seq<Seq<TokenView>> {
    words.map_values(|w: Seq<Seq<char>>| word_tokens(w))
}

/// Pipeline tokens split back into the stages' token runs.
proof fn lemma_pipeline_split(words: Seq<Seq<Seq<char>>>)
    requires
        words.len() > 0,
    ensures
        split_stages(pipeline_tokens(words)) == plain_stages(words),
    decreases words.len(),
{
    lemma_assemble_word_tokens(words.last());
    if words.len() == 1 {
        let empty = Seq::<TokenView>::empty();
        lemma_split_append(empty, word_tokens(words[0]));
        assert(empty + word_tokens(words[0]) =~= word_tokens(words[0]));
        assert(split_stages(empty) == seq![empty]);
        assert(empty + word_tokens(words[0]) =~= word_tokens(words[0]));
        assert(plain_stages(words) =~= seq![word_tokens(words[0])]);
        assert(seq![empty].update(0, empty + word_tokens(words[0])) =~= seq![word_tokens(words[0])]);
    } else {
        let pw = words.drop_last();
        lemma_pipeline_split(pw);
        let t = pipeline_tokens(pw).push(TokenView::Pipe);
        assert(t.drop_last() =~= pipeline_tokens(pw));
        assert(split_stages(t) == plain_stages(pw).push(Seq::empty()));
        lemma_split_append(t, word_tokens(words.last()));
        assert(Seq::<TokenView>::empty() + word_tokens(words.last()) =~= word_tokens(words.last()));
        assert(plain_stages(pw).push(Seq::empty()).update(
            pw.len() as int,
            Seq::<TokenView>::empty() + word_tokens(words.last()),
        ) =~= plain_stages(words));
    }
}

/// The commands of the stages from `k` on.
proof fn lemma_plain_stages_from(words: Seq<Seq<Seq<char>>>, k: int)
    requires
        0 <= k <= words.len(),
    ensures
        (forall|m: int| k <= m < words.len() ==> #[trigger] words[m].len() > 0) ==> stages_from(
            plain_stages(words),
            k,
        ) == Ok::<Seq<CommandView>, ParseError>(
            words.subrange(k, words.len() as int).map_values(
                |w: Seq<Seq<char>>| plain_command(w),
            ),
        ),
        (words.len() > 1 && exists|m: int| k <= m < words.len() && #[trigger] words[m].len() == 0)
            ==> stages_from(plain_stages(words), k) == Err::<Seq<CommandView>, ParseError>(
            ParseError::EmptyPipelineStage,
        ),
    decreases words.len() - k,
{
    if k < words.len() {
        lemma_plain_stages_from(words, k + 1);
        lemma_assemble_word_tokens(words[k]);
        let stages = plain_stages(words);
        assert(stages[k] == word_tokens(words[k]));
        assert(stages.len() == words.len());
        let c = plain_command(words[k]);
        if forall|m: int| k <= m < words.len() ==> #[trigger] words[m].len() > 0 {
            assert(words[k].len() > 0);
            assert(forall|m: int| k + 1 <= m < words.len() ==> #[trigger] words[m].len() > 0);
            assert(seq![c] + words.subrange(k + 1, words.len() as int).map_values(
                |w: Seq<Seq<char>>| plain_command(w),
            ) =~= words.subrange(k, words.len() as int).map_values(
                |w: Seq<Seq<char>>| plain_command(w),
            ));
        }
        if words.len() > 1 && exists|m: int| k <= m < words.len() && #[trigger] words[m].len() == 0 {
            let m = choose|m: int| k <= m < words.len() && #[trigger] words[m].len() == 0;
            if m > k {
                assert(k + 1 <= m < words.len() && words[m].len() == 0);
            }
        }
    } else {
        assert(words.subrange(k, words.len() as int).map_values(
            |w: Seq<Seq<char>>| plain_command(w),
        ) =~= Seq::<CommandView>::empty());
    }
}

/// An unquoted `|` separates pipeline stages, with or without whitespace
/// around it: stages of words joined by `|` parse to one command per stage,
/// in order, each holding the values of its stage's words and no
/// redirection.
pub proof fn law_pipe_separates_stages(
    seps: Seq<Seq<Seq<char>>>,
    words: Seq<Seq<Seq<Piece>>>,
    status: i32,
    env: Seq<(String, String)>,
)
    requires
        stage_shapes(seps, words),
        forall|k: int| 0 <= k < words.len() ==> #[trigger] words[k].len() > 0,
    ensures
        pipeline_spec(pipeline_text(seps, words), status, env) == Ok::<
            Seq<CommandView>,
            ParseError,
        >(stage_values(words, status, env).map_values(|w: Seq<Seq<char>>| plain_command(w))),
{
    let values = stage_values(words, status, env);
    lemma_pipeline_lex(seps, words, status, env);
    lemma_pipeline_split(values);
    assert forall|k: int| 0 <= k < values.len() implies #[trigger] values[k].len() > 0 by {
        assert(words[k].len() > 0);
    }
    lemma_plain_stages_from(values, 0);
    assert(values.subrange(0, values.len() as int) =~= values);
}

/// Every stage of a pipeline needs a command: a line of two or more stages
/// where one of them has no words (a leading, trailing or doubled `|`) is
/// rejected.
pub proof fn law_every_stage_needs_a_command(
    seps: Seq<Seq<Seq<char>>>,
    words: Seq<Seq<Seq<Piece>>>,
    k: int,
    status: i32,
    env: Seq<(String, String)>,
)
    requires
        stage_shapes(seps, words),
        words.len() >= 2,
        0 <= k < words.len(),
        words[k].len() == 0,
    ensures
        pipeline_spec(pipeline_text(seps, words), status, env) == Err::<
            Seq<CommandView>,
            ParseError,
        >(ParseError::EmptyPipelineStage),
{
    let values = stage_values(words, status, env);
    lemma_pipeline_lex(seps, words, status, env);
    lemma_pipeline_split(values);
    assert(values[k].len() == 0);
    lemma_plain_stages_from(values, 0);
}

} // verus!
