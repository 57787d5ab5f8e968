//! The interactive prompt: placeholders in the `CARLI_PROMPT` template.
use vstd::prelude::*;

use crate::text::chars_of;

verus! {

/// `s` with every occurrence of `pattern`, from left to right and without
/// overlapping, replaced by `replacement`.
pub open spec fn replace_all(s: Seq<char>, pattern: Seq<char>, replacement: Seq<char>) -> Seq<char>
    decreases s.len(),
{
    if pattern.len() == 0 || s.len() < pattern.len() {
        s
    } else if s.take(pattern.len() as int) == pattern {
        replacement + replace_all(s.skip(pattern.len() as int), pattern, replacement)
    } else {
        seq![s[0]] + replace_all(s.skip(1), pattern, replacement)
    }
}

/// Whether `pattern` occurs in `s` at index `i`.
fn occurs_at(s: &Vec<char>, i: usize, pattern: &Vec<char>) -> (result: bool)
    requires
        i <= s@.len(),
    ensures
        result == (i + pattern@.len() <= s@.len() && s@.subrange(
            i as int,
            i + pattern@.len(),
        ) == pattern@),
{
    if pattern.len() > s.len() - i {
        return false;
    }
    let mut k: usize = 0;
    while k < pattern.len()
        invariant
            i + pattern@.len() <= s@.len(),
            s@.len() == s.len(),
            pattern@.len() == pattern.len(),
            k <= pattern@.len(),
            forall|m: int| 0 <= m < k ==> s@[i + m] == pattern@[m],
        decreases pattern.len() - k,
    {
        if s[i + k] != pattern[k] {
            proof {
                assert(s@.subrange(i as int, i + pattern@.len())[k as int] != pattern@[k as int]);
            }
            return false;
        }
        k = k + 1;
    }
    proof {
        assert(s@.subrange(i as int, i + pattern@.len()) =~= pattern@);
    }
    true
}

/// `text` with every occurrence of `pattern` (which is not empty) replaced
/// by `replacement`.
pub fn replace(text: &str, pattern: &str, replacement: &str) -> (result: String)
    requires
        pattern@.len() > 0,
    ensures
        result@ == replace_all(text@, pattern@, replacement@),
{
    let s = chars_of(text);
    let p = chars_of(pattern);
    let mut result = String::new();
    let mut i: usize = 0;
    proof {
        assert(s@.skip(0) =~= s@);
    }
    while i < s.len()
        invariant
            s@ == text@,
            p@ == pattern@,
            p@.len() > 0,
            i <= s@.len(),
            replace_all(text@, pattern@, replacement@) == result@ + replace_all(
                s@.skip(i as int),
                pattern@,
                replacement@,
            ),
        decreases s.len() - i,
    {
        let ghost rest = s@.skip(i as int);
        if occurs_at(&s, i, &p) {
            proof {
                assert(rest.take(p@.len() as int) =~= s@.subrange(i as int, i + p@.len()));
                assert(rest.skip(p@.len() as int) =~= s@.skip(i + p@.len()));
            }
            let ghost before = result@;
            result.append(replacement);
            proof {
                assert(before + (replacement@ + replace_all(
                    rest.skip(p@.len() as int),
                    pattern@,
                    replacement@,
                )) =~= result@ + replace_all(s@.skip(i + p@.len()), pattern@, replacement@));
            }
            i = i + p.len();
        } else {
            proof {
                if rest.len() >= p@.len() {
                    assert(rest.take(p@.len() as int) =~= s@.subrange(i as int, i + p@.len()));
                }
                assert(rest.skip(1) =~= s@.skip(i + 1));
            }
            let ghost before = result@;
            result.push(s[i]);
            proof {
                if rest.len() < p@.len() {
                    assert(replace_all(rest, pattern@, replacement@) == rest);
                    assert(rest =~= seq![s@[i as int]] + rest.skip(1));
                    lemma_replace_short(rest.skip(1), pattern@, replacement@);
                }
                assert(before + (seq![s@[i as int]] + replace_all(
                    rest.skip(1),
                    pattern@,
                    replacement@,
                )) =~= result@ + replace_all(s@.skip(i + 1), pattern@, replacement@));
            }
            i = i + 1;
        }
    }
    proof {
        assert(s@.skip(i as int) =~= Seq::<char>::empty());
        assert(result@ + Seq::<char>::empty() =~= result@);
    }
    result
}

proof fn lemma_replace_short(s: Seq<char>, pattern: Seq<char>, replacement: Seq<char>)
    requires
        s.len() < pattern.len(),
    ensures
        replace_all(s, pattern, replacement) == s,
{
}

/// The prompt for a template: `{cwd}`, then `{dir}`, then `{user}`, then
/// `{shell}` are replaced, in that order, by the current directory, its
/// name, the user, and `carli`.
pub open spec fn prompt_spec(
    template: Seq<char>,
    cwd: Seq<char>,
    directory: Seq<char>,
    user: Seq<char>,
) -> Seq<char> {
    replace_all(
        replace_all(
            replace_all(replace_all(template, "{cwd}"@, cwd), "{dir}"@, directory),
            "{user}"@,
            user,
        ),
        "{shell}"@,
        "carli"@,
    )
}

/// A value that was read, or the default in its place.
pub open spec fn or_default(value: Option<&str>, default: Seq<char>) -> Seq<char> {
    match value {
        Some(text) => text@,
        None => default,
    }
}

/// The prompt for the values that could be read: the template (`carli $ `
/// when `CARLI_PROMPT` is unset), the current directory (`?` when it cannot
/// be read), its name (`/` when it has none), and the user (`unknown`).
pub open spec fn prompt_with_defaults(
    template: Option<&str>,
    cwd: Option<&str>,
    directory: Option<&str>,
    user: Option<&str>,
) -> Seq<char> {
    prompt_spec(
        or_default(template, "carli $ "@),
        or_default(cwd, "?"@),
        or_default(directory, "/"@),
        or_default(user, "unknown"@),
    )
}

/// Builds the prompt from its template and the values of its placeholders,
/// putting the defaults in place of what could not be read.
pub fn build_prompt(
    template: Option<&str>,
    cwd: Option<&str>,
    directory: Option<&str>,
    user: Option<&str>,
) -> (prompt: String)
    ensures
        prompt@ == prompt_with_defaults(template, cwd, directory, user),
{
    proof {
        reveal_strlit("{cwd}");
        reveal_strlit("{dir}");
        reveal_strlit("{user}");
        reveal_strlit("{shell}");
    }
    let template = match template {
        Some(text) => text,
        None => "carli $ ",
    };
    let cwd = match cwd {
        Some(text) => text,
        None => "?",
    };
    let directory = match directory {
        Some(text) => text,
        None => "/",
    };
    let user = match user {
        Some(text) => text,
        None => "unknown",
    };
    let a = replace(template, "{cwd}", cwd);
    let b = replace(a.as_str(), "{dir}", directory);
    let c = replace(b.as_str(), "{user}", user);
    replace(c.as_str(), "{shell}", "carli")
}

proof fn lemma_replace_absent(s: Seq<char>, pattern: Seq<char>, replacement: Seq<char>)
    requires
        pattern.len() > 0,
        forall|k: int| 0 <= k < s.len() ==> s[k] != pattern[0],
    ensures
        replace_all(s, pattern, replacement) == s,
    decreases s.len(),
{
    if s.len() >= pattern.len() {
        assert(s.take(pattern.len() as int)[0] == s[0]);
        assert(s.take(pattern.len() as int) != pattern);
        lemma_replace_absent(s.skip(1), pattern, replacement);
        assert(seq![s[0]] + s.skip(1) =~= s);
    }
}

/// A template without placeholders is the prompt itself.
pub proof fn law_prompt_without_placeholders(
    template: Seq<char>,
    cwd: Seq<char>,
    directory: Seq<char>,
    user: Seq<char>,
)
    requires
        forall|k: int| 0 <= k < template.len() ==> template[k] != '{',
    ensures
        prompt_spec(template, cwd, directory, user) == template,
{
    reveal_strlit("{cwd}");
    reveal_strlit("{dir}");
    reveal_strlit("{user}");
    reveal_strlit("{shell}");
    lemma_replace_absent(template, "{cwd}"@, cwd);
    lemma_replace_absent(template, "{dir}"@, directory);
    lemma_replace_absent(template, "{user}"@, user);
    lemma_replace_absent(template, "{shell}"@, "carli"@);
}

} // verus!
