//! Laws of words: a word written as plain, escaped, quoted and expanded
//! pieces stands for the concatenation of what its pieces stand for.
use vstd::prelude::*;

use crate::parser::{
    add_char, add_text, add_token, assemble_from, empty_command, expansion, find_from, flush,
    initial_state, lemma_find_from_bounds, lemma_line_end_bounds, lemma_name_end_bounds, lex,
    lex_from, line_end, lookup, name_end, parse_spec, start_word, with_quote, CommandView,
    LexState, OutputView, ParseError, Quote, TokenView,
};
use crate::parser_laws::{
    has_no_pipe, interleave, is_blank, is_plain, lemma_assemble_word_prefix,
    lemma_assemble_word_tokens, lemma_blank_run, lemma_single_quoted_run, lemma_single_stage,
    lemma_word_tokens_push, plain_command, separates, word_tokens,
};
use crate::text::{is_name_char, is_name_start, is_valid_name, numeral, spec_is_whitespace};

verus! {

/// The forms that begin with `$`.
pub enum DollarForm {
    /// `$?`
    Status,
    /// `${NAME}`
    Braced(Seq<char>),
    /// `$NAME`
    Bare(Seq<char>),
    /// A `$` that begins no expansion.
    Lone,
}

pub open spec fn dollar_text(d: DollarForm) -> Seq<char> {
    match d {
        DollarForm::Status => seq!['$', '?'],
        DollarForm::Braced(name) => seq!['$', '{'] + name + seq!['}'],
        DollarForm::Bare(name) => seq!['$'] + name,
        DollarForm::Lone => seq!['$'],
    }
}

/// What a `$` form stands for: the previous status, a variable's value, or
/// a `$` itself.
pub open spec fn dollar_value(d: DollarForm, status: i32, env: Seq<(String, String)>) -> Seq<
    char,
> {
    match d {
        DollarForm::Status => numeral(status as int),
        DollarForm::Braced(name) => lookup(env, name),
        DollarForm::Bare(name) => lookup(env, name),
        DollarForm::Lone => seq!['$'],
    }
}

/// The form is well written when followed by `next` (`None`: nothing
/// follows): names are valid, a bare name is not followed by another name
/// character, and a lone `$` is not followed by what would begin an
/// expansion.
pub open spec fn dollar_fits(d: DollarForm, next: Option<char>) -> bool {
    match d {
        DollarForm::Status => true,
        DollarForm::Braced(name) => is_valid_name(name),
        DollarForm::Bare(name) => is_valid_name(name) && (next matches Some(c) ==> !is_name_char(c)),
        DollarForm::Lone => next matches Some(c) ==> c != '?' && c != '{' && !is_name_start(c),
    }
}

/// The character at `k`, if there is one.
pub open spec fn next_at(s: Seq<char>, k: int) -> Option<char> {
    if 0 <= k < s.len() {
        Some(s[k])
    } else {
        None
    }
}

/// Where a `$` form starts, outside quotes or inside double quotes, the
/// scanner adds its value to the current word and goes on after it.
pub proof fn lemma_dollar_step(
    s: Seq<char>,
    i: int,
    d: DollarForm,
    st: LexState,
    status: i32,
    env: Seq<(String, String)>,
)
    requires
        st.quote == Quote::Unquoted || st.quote == Quote::Double,
        0 <= i,
        i + dollar_text(d).len() <= s.len(),
        s.subrange(i, i + dollar_text(d).len()) == dollar_text(d),
        dollar_fits(d, next_at(s, i + dollar_text(d).len())),
    ensures
        lex_from(s, i, st, status, env) == lex_from(
            s,
            i + dollar_text(d).len(),
            add_text(st, dollar_value(d, status, env)),
            status,
            env,
        ),
{
    let text = dollar_text(d);
    let n = text.len() as int;
    assert(s[i] == s.subrange(i, i + n)[0]);
    assert(s[i] == '$');
    assert(!spec_is_whitespace('$'));
    match d {
        DollarForm::Status => {
            assert(s[i + 1] == s.subrange(i, i + n)[1]);
            assert(expansion(s, i + 1, status, env) == Ok::<(int, Seq<char>), crate::parser::ParseError>(
                (i + 2, numeral(status as int)),
            ));
        },
        DollarForm::Braced(name) => {
            let m = name.len() as int;
            assert(s[i + 1] == s.subrange(i, i + n)[1]);
            assert(s[i + 1] == '{');
            lemma_find_from_bounds(s, i + 2, '}');
            assert(s[i + 2 + m] == s.subrange(i, i + n)[2 + m]);
            assert(s[i + 2 + m] == '}');
            assert forall|k: int| i + 2 <= k < i + 2 + m implies s[k] != '}' by {
                assert(s[k] == s.subrange(i, i + n)[k - i]);
                assert(s.subrange(i, i + n)[k - i] == name[k - i - 2]);
                if k > i + 2 {
                    assert(is_name_char(name[k - i - 2]));
                }
            }
            assert(find_from(s, i + 2, '}') == Some(i + 2 + m)) by {
                if find_from(s, i + 2, '}') is None {
                    assert(s[i + 2 + m] != '}');
                }
            }
            assert(s.subrange(i + 2, i + 2 + m) =~= name) by {
                assert forall|k: int| 0 <= k < m implies s.subrange(i + 2, i + 2 + m)[k]
                    == name[k] by {
                    assert(s[i + 2 + k] == s.subrange(i, i + n)[2 + k]);
                }
            }
            assert(expansion(s, i + 1, status, env) == Ok::<(int, Seq<char>), crate::parser::ParseError>(
                (i + 3 + m, lookup(env, name)),
            ));
        },
        DollarForm::Bare(name) => {
            let m = name.len() as int;
            assert forall|k: int| i + 1 <= k < i + 1 + m implies s[k] == name[k - i - 1] by {
                assert(s[k] == s.subrange(i, i + n)[k - i]);
            }
            assert(s[i + 1] == name[0]);
            lemma_name_end_bounds(s, i + 1);
            assert forall|k: int| i + 1 <= k < i + 1 + m implies #[trigger] is_name_char(s[k]) by {
                assert(s[k] == name[k - i - 1]);
                if k > i + 1 {
                    assert(is_name_char(name[k - i - 1]));
                }
            }
            assert(name_end(s, i + 1) == i + 1 + m) by {
                if name_end(s, i + 1) < i + 1 + m {
                    assert(is_name_char(s[name_end(s, i + 1)]));
                }
                if name_end(s, i + 1) > i + 1 + m {
                    assert(is_name_char(s[i + 1 + m]));
                    assert(next_at(s, i + 1 + m) == Some(s[i + 1 + m]));
                }
            }
            assert(s.subrange(i + 1, i + 1 + m) =~= name);
            assert(expansion(s, i + 1, status, env) == Ok::<(int, Seq<char>), crate::parser::ParseError>(
                (i + 1 + m, lookup(env, name)),
            ));
        },
        DollarForm::Lone => {
            if i + 1 < s.len() {
                assert(next_at(s, i + 1) == Some(s[i + 1]));
            }
            assert(expansion(s, i + 1, status, env) == Ok::<(int, Seq<char>), crate::parser::ParseError>(
                (i + 1, seq!['$']),
            ));
        },
    }
}

/// A piece of text inside double quotes.
pub enum Inner {
    /// A character other than `"`, `\` and `$`.
    Char(char),
    /// `\` and the character it makes literal.
    Escaped(char),
    Dollar(DollarForm),
}

pub open spec fn inner_text(p: Inner) -> Seq<char> {
    match p {
        Inner::Char(c) => seq![c],
        Inner::Escaped(c) => seq!['\\', c],
        Inner::Dollar(d) => dollar_text(d),
    }
}

pub open spec fn inner_value(p: Inner, status: i32, env: Seq<(String, String)>) -> Seq<char> {
    match p {
        Inner::Char(c) => seq![c],
        Inner::Escaped(c) => seq![c],
        Inner::Dollar(d) => dollar_value(d, status, env),
    }
}

pub open spec fn inner_fits(p: Inner, next: Option<char>) -> bool {
    match p {
        Inner::Char(c) => c != '"' && c != '\\' && c != '$',
        Inner::Escaped(_) => true,
        Inner::Dollar(d) => dollar_fits(d, next),
    }
}

pub open spec fn inners_text(parts: Seq<Inner>) -> Seq<char>
    decreases parts.len(),
{
    if parts.len() == 0 {
        Seq::empty()
    } else {
        inners_text(parts.drop_last()) + inner_text(parts.last())
    }
}

pub open spec fn inners_value(parts: Seq<Inner>, status: i32, env: Seq<(String, String)>) -> Seq<
    char,
>
    decreases parts.len(),
{
    if parts.len() == 0 {
        Seq::empty()
    } else {
        inners_value(parts.drop_last(), status, env) + inner_value(parts.last(), status, env)
    }
}

/// What follows piece `k`: the first character of the next piece, or
/// `after` for the last one.
pub open spec fn inner_follow(parts: Seq<Inner>, k: int, after: Option<char>) -> Option<char> {
    if k + 1 < parts.len() {
        Some(inner_text(parts[k + 1])[0])
    } else {
        after
    }
}

/// Every piece is well written, given the text that follows it.
pub open spec fn inners_fit(parts: Seq<Inner>, after: Option<char>) -> bool {
    forall|k: int|
        0 <= k < parts.len() ==> #[trigger] inner_fits(parts[k], inner_follow(parts, k, after))
}

proof fn lemma_subrange_prefix(s: Seq<char>, i: int, a: Seq<char>, b: Seq<char>)
    requires
        0 <= i,
        i + a.len() + b.len() <= s.len(),
        s.subrange(i, i + a.len() + b.len()) == a + b,
    ensures
        s.subrange(i, i + a.len()) == a,
        s.subrange(i + a.len(), i + a.len() + b.len()) == b,
{
    let n = a.len() + b.len();
    assert forall|k: int| 0 <= k < a.len() implies s.subrange(i, i + a.len())[k] == a[k] by {
        assert(s[i + k] == s.subrange(i, i + n)[k]);
        assert((a + b)[k] == a[k]);
    }
    assert forall|k: int| 0 <= k < b.len() implies s.subrange(i + a.len(), i + n)[k] == b[k] by {
        assert(s[i + a.len() + k] == s.subrange(i, i + n)[a.len() + k]);
        assert((a + b)[a.len() + k] == b[k]);
    }
    assert(s.subrange(i, i + a.len()) =~= a);
    assert(s.subrange(i + a.len(), i + n) =~= b);
}

/// Scanning the pieces inside double quotes adds their values to the word.
pub proof fn lemma_inners_run(
    s: Seq<char>,
    i: int,
    parts: Seq<Inner>,
    st: LexState,
    status: i32,
    env: Seq<(String, String)>,
)
    requires
        st.quote == Quote::Double,
        st.started,
        0 <= i,
        i + inners_text(parts).len() <= s.len(),
        s.subrange(i, i + inners_text(parts).len()) == inners_text(parts),
        inners_fit(parts, next_at(s, i + inners_text(parts).len())),
    ensures
        lex_from(s, i, st, status, env) == lex_from(
            s,
            i + inners_text(parts).len(),
            LexState { word: st.word + inners_value(parts, status, env), ..st },
            status,
            env,
        ),
    decreases parts.len(),
{
    if parts.len() == 0 {
        assert(st.word + inners_value(parts, status, env) =~= st.word);
    } else {
        let prefix = parts.drop_last();
        let last = parts.last();
        let a = inners_text(prefix);
        let b = inner_text(last);
        lemma_subrange_prefix(s, i, a, b);
        let p = i + a.len();
        assert(b.len() > 0);
        assert(s[p] == b[0]) by {
            assert(s[p] == s.subrange(p, p + b.len())[0]);
        }
        assert(inners_fit(prefix, next_at(s, p))) by {
            assert forall|k: int| 0 <= k < prefix.len() implies #[trigger] inner_fits(
                prefix[k],
                inner_follow(prefix, k, next_at(s, p)),
            ) by {
                assert(prefix[k] == parts[k]);
                assert(inner_fits(
                    parts[k],
                    inner_follow(parts, k, next_at(s, i + inners_text(parts).len())),
                ));
                if k + 1 < prefix.len() {
                    assert(prefix[k + 1] == parts[k + 1]);
                } else {
                    assert(parts[k + 1] == last);
                }
            }
        }
        lemma_inners_run(s, i, prefix, st, status, env);
        let mid = LexState { word: st.word + inners_value(prefix, status, env), ..st };
        let q = p + b.len();
        assert(inner_fits(last, next_at(s, q))) by {
            let k = parts.len() - 1;
            assert(inner_fits(
                parts[k],
                inner_follow(parts, k, next_at(s, i + inners_text(parts).len())),
            ));
        }
        let target = LexState { word: st.word + inners_value(parts, status, env), ..st };
        assert(target.word =~= mid.word + inner_value(last, status, env));
        assert(q == i + inners_text(parts).len());
        match last {
            Inner::Char(c) => {
                assert(add_char(mid, c).word =~= target.word);
                assert(lex_from(s, p, mid, status, env) == lex_from(
                    s,
                    p + 1,
                    add_char(mid, c),
                    status,
                    env,
                ));
            },
            Inner::Escaped(c) => {
                assert(s[p + 1] == s.subrange(p, p + b.len())[1]);
                assert(add_char(mid, c).word =~= target.word);
                assert(lex_from(s, p, mid, status, env) == lex_from(
                    s,
                    p + 2,
                    add_char(mid, c),
                    status,
                    env,
                ));
            },
            Inner::Dollar(d) => {
                lemma_dollar_step(s, p, d, mid, status, env);
                assert(add_text(mid, dollar_value(d, status, env)) == target);
            },
        }
    }
}

/// A piece of a word outside quotes.
pub enum Piece {
    /// A character with no special meaning.
    Plain(char),
    /// `\` and the character it makes literal.
    Escaped(char),
    /// Text in single quotes.
    SingleQuoted(Seq<char>),
    /// Pieces in double quotes.
    DoubleQuoted(Seq<Inner>),
    Dollar(DollarForm),
}

pub open spec fn piece_text(p: Piece) -> Seq<char> {
    match p {
        Piece::Plain(c) => seq![c],
        Piece::Escaped(c) => seq!['\\', c],
        Piece::SingleQuoted(t) => seq!['\''] + t + seq!['\''],
        Piece::DoubleQuoted(parts) => seq!['"'] + inners_text(parts) + seq!['"'],
        Piece::Dollar(d) => dollar_text(d),
    }
}

/// What a piece stands for.
pub open spec fn piece_value(p: Piece, status: i32, env: Seq<(String, String)>) -> Seq<char> {
    match p {
        Piece::Plain(c) => seq![c],
        Piece::Escaped(c) => seq![c],
        Piece::SingleQuoted(t) => t,
        Piece::DoubleQuoted(parts) => inners_value(parts, status, env),
        Piece::Dollar(d) => dollar_value(d, status, env),
    }
}

pub open spec fn piece_fits(p: Piece, next: Option<char>) -> bool {
    match p {
        Piece::Plain(c) => is_plain(c),
        Piece::Escaped(_) => true,
        Piece::SingleQuoted(t) => forall|k: int| 0 <= k < t.len() ==> t[k] != '\'',
        Piece::DoubleQuoted(parts) => inners_fit(parts, Some('"')),
        Piece::Dollar(d) => dollar_fits(d, next),
    }
}

/// Outside quotes, the scanner adds a piece's value to the current word.
pub proof fn lemma_piece_step(
    s: Seq<char>,
    i: int,
    p: Piece,
    st: LexState,
    status: i32,
    env: Seq<(String, String)>,
)
    requires
        st.quote == Quote::Unquoted,
        st.started || p != Piece::Plain('#'),
        0 <= i,
        i + piece_text(p).len() <= s.len(),
        s.subrange(i, i + piece_text(p).len()) == piece_text(p),
        piece_fits(p, next_at(s, i + piece_text(p).len())),
    ensures
        lex_from(s, i, st, status, env) == lex_from(
            s,
            i + piece_text(p).len(),
            LexState { word: st.word + piece_value(p, status, env), started: true, ..st },
            status,
            env,
        ),
{
    let text = piece_text(p);
    let n = text.len() as int;
    let target = LexState { word: st.word + piece_value(p, status, env), started: true, ..st };
    assert(s[i] == s.subrange(i, i + n)[0]);
    match p {
        Piece::Plain(c) => {
            assert(add_char(st, c) == target) by {
                assert(add_char(st, c).word =~= target.word);
            }
        },
        Piece::Escaped(c) => {
            assert(s[i + 1] == s.subrange(i, i + n)[1]);
            assert(add_char(st, c) == target) by {
                assert(add_char(st, c).word =~= target.word);
            }
        },
        Piece::SingleQuoted(t) => {
            let m = t.len() as int;
            let st1 = with_quote(start_word(st), Quote::Single);
            assert(lex_from(s, i, st, status, env) == lex_from(s, i + 1, st1, status, env));
            assert forall|k: int| i + 1 <= k < i + 1 + m implies s[k] != '\'' by {
                assert(s[k] == s.subrange(i, i + n)[k - i]);
                assert(s.subrange(i, i + n)[k - i] == t[k - i - 1]);
            }
            lemma_single_quoted_run(s, i + 1, i + 1 + m, st1, status, env);
            assert(s.subrange(i + 1, i + 1 + m) =~= t) by {
                assert forall|k: int| 0 <= k < m implies s.subrange(i + 1, i + 1 + m)[k] == t[k] by {
                    assert(s[i + 1 + k] == s.subrange(i, i + n)[1 + k]);
                }
            }
            let st2 = LexState { word: st1.word + t, ..st1 };
            assert(st2 == (if i + 1 < i + 1 + m {
                LexState { word: st1.word + s.subrange(i + 1, i + 1 + m), started: true, ..st1 }
            } else {
                st1
            })) by {
                if m == 0 {
                    assert(st1.word + t =~= st1.word);
                }
            }
            assert(s[i + 1 + m] == s.subrange(i, i + n)[1 + m]);
            assert(s[i + 1 + m] == '\'');
            assert(lex_from(s, i + 1 + m, st2, status, env) == lex_from(
                s,
                i + 2 + m,
                with_quote(st2, Quote::Unquoted),
                status,
                env,
            ));
            assert(with_quote(st2, Quote::Unquoted) == target);
        },
        Piece::DoubleQuoted(parts) => {
            let inner = inners_text(parts);
            let m = inner.len() as int;
            let st1 = with_quote(start_word(st), Quote::Double);
            assert(lex_from(s, i, st, status, env) == lex_from(s, i + 1, st1, status, env));
            assert(s.subrange(i + 1, i + 1 + m) =~= inner) by {
                assert forall|k: int| 0 <= k < m implies s.subrange(i + 1, i + 1 + m)[k]
                    == inner[k] by {
                    assert(s[i + 1 + k] == s.subrange(i, i + n)[1 + k]);
                }
            }
            assert(s[i + 1 + m] == s.subrange(i, i + n)[1 + m]);
            assert(s[i + 1 + m] == '"');
            assert(next_at(s, i + 1 + m) == Some('"'));
            lemma_inners_run(s, i + 1, parts, st1, status, env);
            let st2 = LexState { word: st1.word + inners_value(parts, status, env), ..st1 };
            assert(lex_from(s, i + 1 + m, st2, status, env) == lex_from(
                s,
                i + 2 + m,
                with_quote(st2, Quote::Unquoted),
                status,
                env,
            ));
            assert(with_quote(st2, Quote::Unquoted) == target);
        },
        Piece::Dollar(d) => {
            lemma_dollar_step(s, i, d, st, status, env);
            assert(add_text(st, dollar_value(d, status, env)) == target);
        },
    }
}

/// The scanner's state between words, with `tokens` already read.
pub open spec fn between_words(tokens: Seq<TokenView>) -> LexState {
    LexState { quote: Quote::Unquoted, word: Seq::empty(), started: false, tokens }
}

/// The text of a word: its pieces one after another.
pub open spec fn word_text(w: Seq<Piece>) -> Seq<char>
    decreases w.len(),
{
    if w.len() == 0 {
        Seq::empty()
    } else {
        word_text(w.drop_last()) + piece_text(w.last())
    }
}

/// What a word stands for: the values of its pieces one after another.
pub open spec fn word_value(w: Seq<Piece>, status: i32, env: Seq<(String, String)>) -> Seq<char>
    decreases w.len(),
{
    if w.len() == 0 {
        Seq::empty()
    } else {
        word_value(w.drop_last(), status, env) + piece_value(w.last(), status, env)
    }
}

/// What follows piece `k` of a word: the first character of the next piece,
/// or `after` for the last one.
pub open spec fn piece_follow(w: Seq<Piece>, k: int, after: Option<char>) -> Option<char> {
    if k + 1 < w.len() {
        Some(piece_text(w[k + 1])[0])
    } else {
        after
    }
}

pub open spec fn pieces_fit(w: Seq<Piece>, after: Option<char>) -> bool {
    forall|k: int| 0 <= k < w.len() ==> #[trigger] piece_fits(w[k], piece_follow(w, k, after))
}

/// A word: at least one piece, not beginning with `#` (which would begin a
/// comment), every piece well written when the word ends there.
pub open spec fn is_word(w: Seq<Piece>) -> bool {
    &&& w.len() > 0
    &&& w[0] != Piece::Plain('#')
    &&& pieces_fit(w, None)
}

/// Scanning a word adds its value to the current word.
proof fn lemma_word_run(
    s: Seq<char>,
    i: int,
    w: Seq<Piece>,
    st: LexState,
    status: i32,
    env: Seq<(String, String)>,
)
    requires
        st.quote == Quote::Unquoted,
        w.len() > 0,
        w[0] != Piece::Plain('#'),
        0 <= i,
        i + word_text(w).len() <= s.len(),
        s.subrange(i, i + word_text(w).len()) == word_text(w),
        pieces_fit(w, next_at(s, i + word_text(w).len())),
    ensures
        lex_from(s, i, st, status, env) == lex_from(
            s,
            i + word_text(w).len(),
            LexState { word: st.word + word_value(w, status, env), started: true, ..st },
            status,
            env,
        ),
    decreases w.len(),
{
    let prefix = w.drop_last();
    let last = w.last();
    let a = word_text(prefix);
    let b = piece_text(last);
    lemma_subrange_prefix(s, i, a, b);
    let p = i + a.len();
    let k = w.len() - 1;
    assert(piece_fits(w[k], piece_follow(w, k, next_at(s, i + word_text(w).len()))));
    if prefix.len() == 0 {
        assert(a =~= Seq::<char>::empty());
        assert(last == w[0]);
        lemma_piece_step(s, p, last, st, status, env);
        assert(st.word + piece_value(last, status, env) =~= st.word + word_value(w, status, env));
    } else {
        assert(b.len() > 0) by {
            assert(piece_text(last).len() > 0);
        }
        assert(s[p] == b[0]) by {
            assert(s[p] == s.subrange(p, p + b.len())[0]);
        }
        assert(pieces_fit(prefix, next_at(s, p))) by {
            assert forall|m: int| 0 <= m < prefix.len() implies #[trigger] piece_fits(
                prefix[m],
                piece_follow(prefix, m, next_at(s, p)),
            ) by {
                assert(prefix[m] == w[m]);
                assert(piece_fits(w[m], piece_follow(w, m, next_at(s, i + word_text(w).len()))));
                if m + 1 < prefix.len() {
                    assert(prefix[m + 1] == w[m + 1]);
                }
            }
        }
        assert(prefix[0] == w[0]);
        lemma_word_run(s, i, prefix, st, status, env);
        let mid = LexState {
            word: st.word + word_value(prefix, status, env),
            started: true,
            ..st
        };
        lemma_piece_step(s, p, last, mid, status, env);
        assert(mid.word + piece_value(last, status, env) =~= st.word + word_value(w, status, env));
    }
}

/// A character that may end a word: whitespace, a pipe or a redirection
/// operator.
pub open spec fn ends_word(c: char) -> bool {
    spec_is_whitespace(c) || c == '|' || c == '<' || c == '>'
}

proof fn lemma_word_end_char(c: char)
    requires
        ends_word(c),
    ensures
        !is_name_char(c),
        !is_name_start(c),
        c != '?',
        c != '{',
{
}

/// A word that fits when nothing follows it also fits before a character
/// that ends words.
proof fn lemma_fits_before_end(w: Seq<Piece>, next: Option<char>)
    requires
        pieces_fit(w, None),
        next matches Some(c) ==> ends_word(c),
    ensures
        pieces_fit(w, next),
{
    if let Some(c) = next {
        lemma_word_end_char(c);
    }
    assert forall|k: int| 0 <= k < w.len() implies #[trigger] piece_fits(
        w[k],
        piece_follow(w, k, next),
    ) by {
        assert(piece_fits(w[k], piece_follow(w, k, None)));
    }
}

pub open spec fn word_texts(words: Seq<Seq<Piece>>) -> Seq<Seq<char>> {
    words.map_values(|w: Seq<Piece>| word_text(w))
}

pub open spec fn word_values(words: Seq<Seq<Piece>>, status: i32, env: Seq<(String, String)>) -> Seq<
    Seq<char>,
> {
    words.map_values(|w: Seq<Piece>| word_value(w, status, env))
}

/// Nothing, or a character that ends words, follows index `k - 1`.
pub open spec fn word_boundary(s: Seq<char>, k: int) -> bool {
    next_at(s, k) matches Some(c) ==> ends_word(c)
}

/// Scanning whitespace-separated words that start at offset `o`, from a
/// state between words: the state where they end, which holds their values
/// as words once the last one is ended.
pub proof fn lemma_piece_words_at(
    seps: Seq<Seq<char>>,
    words: Seq<Seq<Piece>>,
    s: Seq<char>,
    o: int,
    before: Seq<TokenView>,
    status: i32,
    env: Seq<(String, String)>,
) -> (after: LexState)
    requires
        separates(seps, word_texts(words)),
        forall|k: int| 0 <= k < words.len() ==> #[trigger] is_word(words[k]),
        0 <= o,
        o + interleave(seps, word_texts(words)).len() <= s.len(),
        s.subrange(o, o + interleave(seps, word_texts(words)).len()) == interleave(
            seps,
            word_texts(words),
        ),
        words.len() > 0 && seps.last().len() == 0 ==> word_boundary(
            s,
            o + interleave(seps, word_texts(words)).len(),
        ),
    ensures
        lex_from(s, o, between_words(before), status, env) == lex_from(
            s,
            o + interleave(seps, word_texts(words)).len(),
            after,
            status,
            env,
        ),
        after.quote == Quote::Unquoted,
        flush(after) == between_words(before + word_tokens(word_values(words, status, env))),
        words.len() == 0 || seps.last().len() > 0 ==> after == between_words(
            before + word_tokens(word_values(words, status, env)),
        ),
    decreases words.len(),
{
    let texts = word_texts(words);
    let values = word_values(words, status, env);
    let line = interleave(seps, texts);
    if words.len() == 0 {
        assert(line == seps[0]);
        assert(is_blank(seps[0]));
        assert forall|k: int| o <= k < o + line.len() implies #[trigger] spec_is_whitespace(s[k]) by {
            assert(s[k] == s.subrange(o, o + line.len())[k - o]);
            assert(spec_is_whitespace(line[k - o]));
        }
        lemma_blank_run(s, o, o + line.len(), between_words(before), status, env);
        assert(before + word_tokens(values) =~= before);
        between_words(before)
    } else {
        let ps = seps.drop_last();
        let pw = words.drop_last();
        let ptexts = word_texts(pw);
        assert(ptexts =~= texts.drop_last());
        let prefix = interleave(ps, ptexts);
        let w = words.last();
        let wt = word_text(w);
        let sep = seps.last();
        assert(texts.last() == wt);
        assert(line == prefix + wt + sep);
        assert(separates(ps, ptexts)) by {
            assert forall|k: int| 0 <= k < ps.len() implies #[trigger] is_blank(ps[k]) by {
                assert(ps[k] == seps[k]);
            }
            assert forall|k: int| 0 < k < ptexts.len() implies #[trigger] ps[k].len() > 0 by {
                assert(ps[k] == seps[k]);
            }
        }
        assert(pw.len() > 0 ==> ps.last().len() > 0) by {
            if pw.len() > 0 {
                assert(ps.last() == seps[pw.len() as int]);
            }
        }
        assert forall|k: int| 0 <= k < pw.len() implies #[trigger] is_word(pw[k]) by {
            assert(pw[k] == words[k]);
        }
        assert(s.subrange(o, o + prefix.len()) == prefix) by {
            assert(s.subrange(o, o + prefix.len()) =~= s.subrange(o, o + line.len()).subrange(
                0,
                prefix.len() as int,
            ));
            assert(line.subrange(0, prefix.len() as int) =~= prefix);
        }
        let mid = lemma_piece_words_at(ps, pw, s, o, before, status, env);
        let pvalues = word_values(pw, status, env);
        assert(pvalues =~= values.drop_last());
        assert(mid == between_words(before + word_tokens(pvalues)));
        let a = o + prefix.len();
        let b = a + wt.len();
        let c = b + sep.len();
        assert(is_word(w));
        assert(s.subrange(a, b) == wt) by {
            assert forall|k: int| 0 <= k < wt.len() implies s.subrange(a, b)[k] == wt[k] by {
                assert(s[a + k] == s.subrange(o, o + line.len())[a + k - o]);
                assert(line[a + k - o] == wt[k]);
            }
            assert(s.subrange(a, b) =~= wt);
        }
        assert(word_boundary(s, b)) by {
            if sep.len() > 0 {
                assert(s[b] == s.subrange(o, o + line.len())[b - o]);
                assert(line[b - o] == sep[0]);
                assert(is_blank(sep));
                assert(spec_is_whitespace(sep[0]));
            }
        }
        lemma_fits_before_end(w, next_at(s, b));
        lemma_word_run(s, a, w, mid, status, env);
        let st_w = LexState { word: mid.word + word_value(w, status, env), started: true, ..mid };
        assert(st_w.word =~= word_value(w, status, env));
        assert(is_blank(sep));
        assert forall|k: int| b <= k < c implies #[trigger] spec_is_whitespace(s[k]) by {
            assert(s[k] == s.subrange(o, o + line.len())[k - o]);
            assert(line[k - o] == sep[k - b]);
        }
        lemma_blank_run(s, b, c, st_w, status, env);
        let v = word_value(w, status, env);
        lemma_word_tokens_push(pvalues, v);
        assert(values =~= pvalues.push(v));
        assert(before + word_tokens(values) =~= (before + word_tokens(pvalues)).push(
            TokenView::Word(v),
        ));
        if sep.len() > 0 {
            flush(st_w)
        } else {
            st_w
        }
    }
}

/// Words stand for their values: a line of words separated by whitespace,
/// each written as plain, escaped, single-quoted, double-quoted and `$`
/// pieces, parses to one argument per word, holding the values of its
/// pieces one after another (quoted text literally, `$?` as the previous
/// status, `$NAME` and `${NAME}` as the variable's value), with no
/// redirection.
pub proof fn law_words_stand_for_their_values(
    seps: Seq<Seq<char>>,
    words: Seq<Seq<Piece>>,
    status: i32,
    env: Seq<(String, String)>,
)
    requires
        separates(seps, word_texts(words)),
        forall|k: int| 0 <= k < words.len() ==> #[trigger] is_word(words[k]),
    ensures
        parse_spec(interleave(seps, word_texts(words)), status, env) == Ok::<
            CommandView,
            ParseError,
        >(plain_command(word_values(words, status, env))),
{
    let s = interleave(seps, word_texts(words));
    let values = word_values(words, status, env);
    assert(s.subrange(0, s.len() as int) =~= s);
    assert(initial_state() == between_words(Seq::empty()));
    let after = lemma_piece_words_at(seps, words, s, 0, Seq::empty(), status, env);
    assert(lex_from(s, s.len() as int, after, status, env) == Ok::<LexState, ParseError>(after));
    assert(Seq::<TokenView>::empty() + word_tokens(values) =~= word_tokens(values));
    assert(lex(s, status, env) == Ok::<Seq<TokenView>, ParseError>(word_tokens(values)));
    lemma_assemble_word_tokens(values);
    lemma_single_stage(s, status, env, word_tokens(values));
}

/// The first character of a word's text is none that the scanner reads as
/// an operator.
proof fn lemma_word_starts_plainly(w: Seq<Piece>)
    requires
        is_word(w),
    ensures
        word_text(w).len() > 0,
        word_text(w)[0] != '>',
        word_text(w)[0] != '<',
        word_text(w)[0] != '|',
        !spec_is_whitespace(word_text(w)[0]),
{
    assert(piece_fits(w[0], piece_follow(w, 0, None)));
    lemma_word_text_starts(w);
}

proof fn lemma_word_text_starts(w: Seq<Piece>)
    requires
        w.len() > 0,
    ensures
        word_text(w).len() > 0,
        word_text(w)[0] == piece_text(w[0])[0],
    decreases w.len(),
{
    if w.len() > 1 {
        lemma_word_text_starts(w.drop_last());
        assert(w.drop_last()[0] == w[0]);
    } else {
        assert(w.drop_last().len() == 0);
        assert(word_text(w.drop_last()) =~= Seq::<char>::empty());
        assert(word_text(w) =~= piece_text(w[0]));
    }
}

/// The tokens of a command with both redirections.
pub open spec fn redirected_tokens(
    args: Seq<Seq<char>>,
    input: Seq<char>,
    append: bool,
    output: Seq<char>,
) -> Seq<TokenView> {
    word_tokens(args) + seq![
        TokenView::Input,
        TokenView::Word(input),
        if append {
            TokenView::Append
        } else {
            TokenView::Output
        },
        TokenView::Word(output),
    ]
}

pub open spec fn redirected_command(
    args: Seq<Seq<char>>,
    input: Seq<char>,
    append: bool,
    output: Seq<char>,
) -> CommandView {
    CommandView {
        words: args,
        input: Some(input),
        output: Some(
            if append {
                OutputView::Append(output)
            } else {
                OutputView::Truncate(output)
            },
        ),
    }
}

proof fn lemma_redirected_assemble(
    args: Seq<Seq<char>>,
    input: Seq<char>,
    append: bool,
    output: Seq<char>,
)
    ensures
        assemble_from(redirected_tokens(args, input, append, output), 0, empty_command()) == Ok::<
            CommandView,
            ParseError,
        >(redirected_command(args, input, append, output)),
        has_no_pipe(redirected_tokens(args, input, append, output)),
{
    let t = redirected_tokens(args, input, append, output);
    let m = args.len() as int;
    let out = if append {
        TokenView::Append
    } else {
        TokenView::Output
    };
    assert forall|k: int| 0 <= k < m implies #[trigger] t[k] is Word by {
        assert(t[k] == word_tokens(args)[k]);
    }
    lemma_assemble_word_prefix(t, 0, m, empty_command());
    assert(t.subrange(0, m).map_values(|tok: TokenView| tok->Word_0) =~= args) by {
        assert forall|k: int| 0 <= k < m implies t.subrange(0, m).map_values(
            |tok: TokenView| tok->Word_0,
        )[k] == args[k] by {
            assert(t[k] == TokenView::Word(args[k]));
        }
    }
    let c0 = empty_command();
    let c1 = CommandView { words: Seq::<Seq<char>>::empty() + args, ..c0 };
    assert(Seq::<Seq<char>>::empty() + args =~= args);
    let c2 = CommandView { input: Some(input), ..c1 };
    let c3 = redirected_command(args, input, append, output);
    assert(t[m] == TokenView::Input);
    assert(t[m + 1] == TokenView::Word(input));
    assert(t[m + 2] == out);
    assert(t[m + 3] == TokenView::Word(output));
    assert(assemble_from(t, m, c1) == assemble_from(t, m + 2, c2));
    assert(assemble_from(t, m + 2, c2) == assemble_from(t, m + 4, c3));
    assert forall|k: int| 0 <= k < t.len() implies !(#[trigger] t[k] is Pipe) by {
        if k < m {
            assert(t[k] == word_tokens(args)[k]);
        }
    }
}

/// One word with whitespace around it.
pub open spec fn spaced_word(before: Seq<char>, w: Seq<Piece>, after: Seq<char>) -> Seq<char> {
    interleave(seq![before, after], word_texts(seq![w]))
}

proof fn lemma_spaced_word(before: Seq<char>, w: Seq<Piece>, after: Seq<char>)
    ensures
        spaced_word(before, w, after) == before + word_text(w) + after,
{
    let seps = seq![before, after];
    let texts = word_texts(seq![w]);
    assert(texts =~= seq![word_text(w)]);
    assert(seps.drop_last() =~= seq![before]);
    assert(texts.drop_last() =~= Seq::<Seq<char>>::empty());
    assert(interleave(seps.drop_last(), texts.drop_last()) == before);
}

/// Scanning a command with both redirections.
proof fn lemma_redirected_lex(
    seps: Seq<Seq<char>>,
    args: Seq<Seq<Piece>>,
    before_input: Seq<char>,
    input: Seq<Piece>,
    after_input: Seq<char>,
    append: bool,
    before_output: Seq<char>,
    output: Seq<Piece>,
    after_output: Seq<char>,
    status: i32,
    env: Seq<(String, String)>,
)
    requires
        separates(seps, word_texts(args)),
        forall|k: int| 0 <= k < args.len() ==> #[trigger] is_word(args[k]),
        is_word(input),
        is_word(output),
        is_blank(before_input),
        is_blank(after_input),
        is_blank(before_output),
        is_blank(after_output),
    ensures
        lex(
            interleave(seps, word_texts(args)) + seq!['<'] + spaced_word(
                before_input,
                input,
                after_input,
            ) + (if append {
                seq!['>', '>']
            } else {
                seq!['>']
            }) + spaced_word(before_output, output, after_output),
            status,
            env,
        ) == Ok::<Seq<TokenView>, ParseError>(
            redirected_tokens(
                word_values(args, status, env),
                word_value(input, status, env),
                append,
                word_value(output, status, env),
            ),
        ),
{
    let op = if append {
        seq!['>', '>']
    } else {
        seq!['>']
    };
    let a = interleave(seps, word_texts(args));
    let b = spaced_word(before_input, input, after_input);
    let c = spaced_word(before_output, output, after_output);
    let s = a + seq!['<'] + b + op + c;
    let la = a.len() as int;
    let pb = la + 1;
    let po = pb + b.len();
    let pc = po + op.len();
    let n = s.len() as int;
    let vargs = word_values(args, status, env);
    let vin = word_value(input, status, env);
    let vout = word_value(output, status, env);
    let out = if append {
        TokenView::Append
    } else {
        TokenView::Output
    };
    lemma_spaced_word(before_input, input, after_input);
    lemma_spaced_word(before_output, output, after_output);
    assert(s.subrange(0, la) =~= a);
    assert(s[la] == '<');
    assert(initial_state() == between_words(Seq::empty()));
    let x0 = lemma_piece_words_at(seps, args, s, 0, Seq::empty(), status, env);
    let t1 = (Seq::<TokenView>::empty() + word_tokens(vargs)).push(TokenView::Input);
    assert(!spec_is_whitespace('<'));
    assert(lex_from(s, la, x0, status, env) == lex_from(
        s,
        pb,
        add_token(flush(x0), TokenView::Input),
        status,
        env,
    ));
    assert(add_token(flush(x0), TokenView::Input) == between_words(t1));
    let b_words = seq![input];
    assert forall|k: int| 0 <= k < b_words.len() implies #[trigger] is_word(b_words[k]) by {}
    assert(word_texts(b_words) =~= seq![word_text(input)]);
    assert(s.subrange(pb, po) =~= b);
    assert(s[po] == '>');
    let x1 = lemma_piece_words_at(
        seq![before_input, after_input],
        b_words,
        s,
        pb,
        t1,
        status,
        env,
    );
    assert(word_values(b_words, status, env) =~= seq![vin]);
    let t2 = (t1 + word_tokens(seq![vin])).push(out);
    lemma_word_starts_plainly(output);
    if append {
        assert(s[po + 1] == '>');
    } else {
        assert(s[po + 1] == c[0]);
        if before_output.len() > 0 {
            assert(c[0] == before_output[0]);
            assert(spec_is_whitespace(before_output[0]));
        } else {
            assert(c[0] == word_text(output)[0]);
        }
    }
    assert(lex_from(s, po, x1, status, env) == lex_from(
        s,
        pc,
        add_token(flush(x1), out),
        status,
        env,
    ));
    assert(add_token(flush(x1), out) == between_words(t2));
    let c_words = seq![output];
    assert forall|k: int| 0 <= k < c_words.len() implies #[trigger] is_word(c_words[k]) by {}
    assert(word_texts(c_words) =~= seq![word_text(output)]);
    assert(s.subrange(pc, n) =~= c);
    let x2 = lemma_piece_words_at(
        seq![before_output, after_output],
        c_words,
        s,
        pc,
        t2,
        status,
        env,
    );
    assert(word_values(c_words, status, env) =~= seq![vout]);
    assert(lex_from(s, n, x2, status, env) == Ok::<LexState, ParseError>(x2));
    assert(flush(x2).tokens =~= redirected_tokens(vargs, vin, append, vout));
}

/// Redirections take the values of their path words, with or without
/// whitespace around the operators: a line of words followed by `<`, an
/// input word, `>` or `>>`, and an output word parses to the words' values
/// as arguments, the input word's value as the input file, and the output
/// word's value as the file output is written to or appended to.
pub proof fn law_redirections_take_word_values(
    seps: Seq<Seq<char>>,
    args: Seq<Seq<Piece>>,
    before_input: Seq<char>,
    input: Seq<Piece>,
    after_input: Seq<char>,
    append: bool,
    before_output: Seq<char>,
    output: Seq<Piece>,
    after_output: Seq<char>,
    status: i32,
    env: Seq<(String, String)>,
)
    requires
        separates(seps, word_texts(args)),
        forall|k: int| 0 <= k < args.len() ==> #[trigger] is_word(args[k]),
        is_word(input),
        is_word(output),
        is_blank(before_input),
        is_blank(after_input),
        is_blank(before_output),
        is_blank(after_output),
    ensures
        parse_spec(
            interleave(seps, word_texts(args)) + seq!['<'] + before_input + word_text(input)
                + after_input + (if append {
                seq!['>', '>']
            } else {
                seq!['>']
            }) + before_output + word_text(output) + after_output,
            status,
            env,
        ) == Ok::<CommandView, ParseError>(
            redirected_command(
                word_values(args, status, env),
                word_value(input, status, env),
                append,
                word_value(output, status, env),
            ),
        ),
{
    let op = if append {
        seq!['>', '>']
    } else {
        seq!['>']
    };
    let a = interleave(seps, word_texts(args));
    let b = spaced_word(before_input, input, after_input);
    let c = spaced_word(before_output, output, after_output);
    let line = a + seq!['<'] + before_input + word_text(input) + after_input + op + before_output
        + word_text(output) + after_output;
    assert(line =~= a + seq!['<'] + b + op + c) by {
        lemma_spaced_word(before_input, input, after_input);
        lemma_spaced_word(before_output, output, after_output);
    }
    lemma_redirected_lex(
        seps,
        args,
        before_input,
        input,
        after_input,
        append,
        before_output,
        output,
        after_output,
        status,
        env,
    );
    let t = redirected_tokens(
        word_values(args, status, env),
        word_value(input, status, env),
        append,
        word_value(output, status, env),
    );
    lemma_redirected_assemble(
        word_values(args, status, env),
        word_value(input, status, env),
        append,
        word_value(output, status, env),
    );
    lemma_single_stage(line, status, env, t);
}

/// A comment runs to the end of the line: after words and whitespace, an
/// unquoted `#` and everything after it up to a newline are ignored.
pub proof fn law_comment_ends_the_line(
    seps: Seq<Seq<char>>,
    words: Seq<Seq<Piece>>,
    comment: Seq<char>,
    status: i32,
    env: Seq<(String, String)>,
)
    requires
        separates(seps, word_texts(words)),
        forall|k: int| 0 <= k < words.len() ==> #[trigger] is_word(words[k]),
        words.len() > 0 ==> seps.last().len() > 0,
        forall|k: int| 0 <= k < comment.len() ==> comment[k] != '\n',
    ensures
        parse_spec(interleave(seps, word_texts(words)) + seq!['#'] + comment, status, env) == Ok::<
            CommandView,
            ParseError,
        >(plain_command(word_values(words, status, env))),
{
    let line = interleave(seps, word_texts(words));
    let s = line + seq!['#'] + comment;
    let values = word_values(words, status, env);
    assert(s.subrange(0, line.len() as int) =~= line);
    assert(initial_state() == between_words(Seq::empty()));
    let after = lemma_piece_words_at(seps, words, s, 0, Seq::empty(), status, env);
    let a = line.len() as int;
    assert(s[a] == '#');
    lemma_line_end_bounds(s, a + 1);
    assert forall|m: int| a + 1 <= m < s.len() implies s[m] != '\n' by {
        assert(s[m] == comment[m - a - 1]);
    }
    assert(line_end(s, a + 1) == s.len());
    assert(!spec_is_whitespace('#'));
    assert(lex_from(s, a, after, status, env) == lex_from(s, s.len() as int, after, status, env));
    assert(lex_from(s, s.len() as int, after, status, env) == Ok::<LexState, ParseError>(after));
    assert(Seq::<TokenView>::empty() + word_tokens(values) =~= word_tokens(values));
    assert(lex(s, status, env) == Ok::<Seq<TokenView>, ParseError>(word_tokens(values)));
    lemma_assemble_word_tokens(values);
    lemma_single_stage(s, status, env, word_tokens(values));
}

/// Every character of `text` preceded by a backslash.
pub open spec fn escaped(text: Seq<char>) -> Seq<char>
    decreases text.len(),
{
    if text.len() == 0 {
        Seq::empty()
    } else {
        escaped(text.drop_last()) + seq!['\\', text.last()]
    }
}

/// Scanning escaped characters outside quotes adds them to the word.
proof fn lemma_escaped_run(
    s: Seq<char>,
    i: int,
    text: Seq<char>,
    st: LexState,
    status: i32,
    env: Seq<(String, String)>,
)
    requires
        st.quote == Quote::Unquoted,
        0 <= i,
        i + escaped(text).len() <= s.len(),
        s.subrange(i, i + escaped(text).len()) == escaped(text),
    ensures
        escaped(text).len() == 2 * text.len(),
        lex_from(s, i, st, status, env) == lex_from(
            s,
            i + escaped(text).len(),
            if text.len() == 0 {
                st
            } else {
                LexState { word: st.word + text, started: true, ..st }
            },
            status,
            env,
        ),
    decreases text.len(),
{
    if text.len() > 0 {
        let rest = text.drop_last();
        let c = text.last();
        let a = escaped(rest);
        let b = seq!['\\', c];
        lemma_subrange_prefix(s, i, a, b);
        lemma_escaped_run(s, i, rest, st, status, env);
        let p = i + a.len();
        let mid = if rest.len() == 0 {
            st
        } else {
            LexState { word: st.word + rest, started: true, ..st }
        };
        assert(s[p] == s.subrange(p, p + 2)[0]);
        assert(s[p + 1] == s.subrange(p, p + 2)[1]);
        assert(lex_from(s, p, mid, status, env) == lex_from(s, p + 2, add_char(mid, c), status, env));
        assert(add_char(mid, c).word =~= st.word + text);
    }
}

/// A backslash makes the next character literal, whatever it is
/// (whitespace, quotes, `$`, `#`, `<`, `>`, `|` and `\` included): a
/// nonempty text with every character escaped is one argument, the text
/// itself.
pub proof fn law_escaped_text_is_literal(text: Seq<char>, status: i32, env: Seq<(String, String)>)
    requires
        text.len() > 0,
    ensures
        parse_spec(escaped(text), status, env) == Ok::<CommandView, ParseError>(
            plain_command(seq![text]),
        ),
{
    let s = escaped(text);
    assert(s.subrange(0, s.len() as int) =~= s);
    lemma_escaped_run(s, 0, text, initial_state(), status, env);
    let after = LexState { word: Seq::empty() + text, started: true, ..initial_state() };
    assert(after.word =~= text);
    assert(lex_from(s, s.len() as int, after, status, env) == Ok::<LexState, ParseError>(after));
    assert(flush(after).tokens =~= word_tokens(seq![text]));
    lemma_assemble_word_tokens(seq![text]);
    lemma_single_stage(s, status, env, word_tokens(seq![text]));
}

} // verus!
