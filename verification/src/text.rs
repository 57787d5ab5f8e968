//! Character classes, variable names and decimal numerals.
use vstd::prelude::*;

verus! {

/// `String::push` appends one character to the end of the string.
pub assume_specification[ String::push ](string: &mut String, ch: char)
    ensures
        final(string)@ == old(string)@.push(ch),
;

/// The characters that carry the Unicode `White_Space` property.
pub open spec fn spec_is_whitespace(c: char) -> bool {
    let n = c as u32;
    ||| 0x09 <= n <= 0x0d
    ||| n == 0x20
    ||| n == 0x85
    ||| n == 0xa0
    ||| n == 0x1680
    ||| 0x2000 <= n <= 0x200a
    ||| n == 0x2028
    ||| n == 0x2029
    ||| n == 0x202f
    ||| n == 0x205f
    ||| n == 0x3000
}

pub open spec fn spec_is_ascii_alphabetic(c: char) -> bool {
    ('a' <= c <= 'z') || ('A' <= c <= 'Z')
}

pub open spec fn spec_is_ascii_digit(c: char) -> bool {
    '0' <= c <= '9'
}

pub open spec fn spec_is_ascii_alphanumeric(c: char) -> bool {
    spec_is_ascii_alphabetic(c) || spec_is_ascii_digit(c)
}

/// A character that may begin a variable name.
pub open spec fn is_name_start(c: char) -> bool {
    c == '_' || spec_is_ascii_alphabetic(c)
}

/// A character that may continue a variable name.
pub open spec fn is_name_char(c: char) -> bool {
    c == '_' || spec_is_ascii_alphanumeric(c)
}

/// A variable name: an underscore or ASCII letter, then underscores,
/// ASCII letters and ASCII digits.
pub open spec fn is_valid_name(name: Seq<char>) -> bool {
    &&& name.len() > 0
    &&& is_name_start(name[0])
    &&& forall|i: int| 1 <= i < name.len() ==> #[trigger] is_name_char(name[i])
}

/// Whether `c` is a Unicode whitespace character.
pub fn is_whitespace(c: char) -> (result: bool)
    ensures
        result == spec_is_whitespace(c),
{
    let n = c as u32;
    (0x09 <= n && n <= 0x0d) || n == 0x20 || n == 0x85 || n == 0xa0 || n == 0x1680 || (0x2000
        <= n && n <= 0x200a) || n == 0x2028 || n == 0x2029 || n == 0x202f || n == 0x205f || n
        == 0x3000
}

pub fn is_ascii_alphabetic(c: char) -> (result: bool)
    ensures
        result == spec_is_ascii_alphabetic(c),
{
    ('a' <= c && c <= 'z') || ('A' <= c && c <= 'Z')
}

pub fn is_ascii_digit(c: char) -> (result: bool)
    ensures
        result == spec_is_ascii_digit(c),
{
    '0' <= c && c <= '9'
}

pub fn is_variable_name_start(c: char) -> (result: bool)
    ensures
        result == is_name_start(c),
{
    c == '_' || is_ascii_alphabetic(c)
}

pub fn is_variable_name_char(c: char) -> (result: bool)
    ensures
        result == is_name_char(c),
{
    c == '_' || is_ascii_alphabetic(c) || is_ascii_digit(c)
}

/// The characters of `text`, in order.
pub fn chars_of(text: &str) -> (chars: Vec<char>)
    ensures
        chars@ == text@,
{
    let mut chars: Vec<char> = Vec::new();
    for c in it: text.chars()
        invariant
            chars@ == it.seq().take(it.index() as int),
    {
        chars.push(c);
    }
    chars
}

/// Whether `name` is a valid variable name.
pub fn is_valid_variable_name(name: &str) -> (result: bool)
    ensures
        result == is_valid_name(name@),
{
    let chars = chars_of(name);
    if chars.len() == 0 || !is_variable_name_start(chars[0]) {
        return false;
    }
    let mut i: usize = 1;
    while i < chars.len()
        invariant
            1 <= i <= chars.len(),
            chars@ == name@,
            forall|k: int| 1 <= k < i ==> #[trigger] is_name_char(chars@[k]),
        decreases chars.len() - i,
    {
        if !is_variable_name_char(chars[i]) {
            return false;
        }
        i = i + 1;
    }
    true
}

/// The decimal digit character for `d`.
pub open spec fn digit_char(d: int) -> char {
    (48 + d) as char
}

/// The decimal numeral of a natural number, without leading zeros.
pub open spec fn natural_numeral(n: nat) -> Seq<char>
    decreases n,
{
    if n < 10 {
        seq![digit_char(n as int)]
    } else {
        natural_numeral(n / 10).push(digit_char((n % 10) as int))
    }
}

/// The decimal numeral of an integer, with a leading `-` when negative.
pub open spec fn numeral(n: int) -> Seq<char> {
    if n < 0 {
        seq!['-'] + natural_numeral((-n) as nat)
    } else {
        natural_numeral(n as nat)
    }
}

/// Appends the decimal numeral of `n` to `output`.
pub fn push_natural(output: &mut String, n: u64)
    ensures
        final(output)@ == old(output)@ + natural_numeral(n as nat),
    decreases n,
{
    if n >= 10 {
        push_natural(output, n / 10);
    }
    let d = (n % 10) as u8;
    output.push((48 + d) as char);
    proof {
        assert(old(output)@ + natural_numeral(n as nat) =~= if n >= 10 {
            old(output)@ + natural_numeral((n / 10) as nat)
        } else {
            old(output)@
        }.push(digit_char((n % 10) as int)));
    }
}

/// Appends the decimal numeral of `n` to `output`.
pub fn push_numeral(output: &mut String, n: i64)
    ensures
        final(output)@ == old(output)@ + numeral(n as int),
{
    if n < 0 {
        output.push('-');
        let magnitude: u64 = if n == i64::MIN {
            9223372036854775808u64
        } else {
            (-n) as u64
        };
        push_natural(output, magnitude);
        proof {
            assert(old(output)@ + numeral(n as int) =~= old(output)@.push('-') + natural_numeral(
                magnitude as nat,
            ));
        }
    } else {
        push_natural(output, n as u64);
    }
}

/// The decimal numeral of `n`.
pub fn numeral_string(n: i64) -> (text: String)
    ensures
        text@ == numeral(n as int),
{
    let mut text = String::new();
    push_numeral(&mut text, n);
    proof {
        assert(text@ =~= numeral(n as int));
    }
    text
}

/// Whether two texts are equal, character by character.
pub fn text_equals(a: &str, b: &str) -> (result: bool)
    ensures
        result == (a@ == b@),
{
    let x = chars_of(a);
    let y = chars_of(b);
    if x.len() != y.len() {
        return false;
    }
    let mut i: usize = 0;
    while i < x.len()
        invariant
            x@ == a@,
            y@ == b@,
            x@.len() == y@.len(),
            i <= x@.len(),
            forall|k: int| 0 <= k < i ==> x@[k] == y@[k],
        decreases x.len() - i,
    {
        if x[i] != y[i] {
            return false;
        }
        i = i + 1;
    }
    proof {
        assert(x@ =~= y@);
    }
    true
}

/// The value of a sequence of decimal digits.
pub open spec fn digits_value(d: Seq<char>) -> int
    decreases d.len(),
{
    if d.len() == 0 {
        0
    } else {
        digits_value(d.drop_last()) * 10 + (d.last() as int - 48)
    }
}

pub open spec fn all_digits(d: Seq<char>) -> bool {
    forall|k: int| 0 <= k < d.len() ==> #[trigger] spec_is_ascii_digit(d[k])
}

/// The digits of an unsigned numeral: the text without one leading `+`.
pub open spec fn unsigned_digits(s: Seq<char>) -> Seq<char> {
    if s.len() > 0 && s[0] == '+' {
        s.drop_first()
    } else {
        s
    }
}

/// The value of an unsigned decimal numeral no greater than `max`: an
/// optional `+` and one or more ASCII digits (leading zeros allowed).
pub open spec fn parse_unsigned(s: Seq<char>, max: int) -> Option<int> {
    let d = unsigned_digits(s);
    if d.len() > 0 && all_digits(d) && digits_value(d) <= max {
        Some(digits_value(d))
    } else {
        None
    }
}

pub proof fn lemma_digits_value_nonnegative(d: Seq<char>)
    requires
        all_digits(d),
    ensures
        digits_value(d) >= 0,
    decreases d.len(),
{
    if d.len() > 0 {
        assert(all_digits(d.drop_last())) by {
            assert forall|k: int| 0 <= k < d.drop_last().len() implies #[trigger] spec_is_ascii_digit(
                d.drop_last()[k],
            ) by {
                assert(d.drop_last()[k] == d[k]);
            }
        }
        lemma_digits_value_nonnegative(d.drop_last());
        assert(spec_is_ascii_digit(d[d.len() - 1]));
    }
}

/// A numeral's value is at least the value of any of its prefixes.
pub proof fn lemma_digits_value_prefix(d: Seq<char>, k: int)
    requires
        all_digits(d),
        0 <= k <= d.len(),
    ensures
        digits_value(d) >= digits_value(d.take(k)),
    decreases d.len() - k,
{
    if k < d.len() {
        let p = d.take(k + 1);
        assert(p.drop_last() =~= d.take(k));
        assert(spec_is_ascii_digit(d[k]));
        assert(all_digits(d.take(k))) by {
            assert forall|m: int| 0 <= m < d.take(k).len() implies #[trigger] spec_is_ascii_digit(
                d.take(k)[m],
            ) by {
                assert(d.take(k)[m] == d[m]);
            }
        }
        lemma_digits_value_nonnegative(d.take(k));
        assert(digits_value(p) == digits_value(d.take(k)) * 10 + (d[k] as int - 48));
        lemma_digits_value_prefix(d, k + 1);
    } else {
        assert(d.take(k) =~= d);
    }
}

/// Reads an unsigned decimal numeral no greater than `max`.
pub fn parse_unsigned_text(text: &str, max: u64) -> (result: Option<u64>)
    ensures
        match parse_unsigned(text@, max as int) {
            Some(v) => result == Some(v as u64),
            None => result is None,
        },
{
    let chars = chars_of(text);
    let ghost s = text@;
    let ghost d = unsigned_digits(s);
    let start: usize = if chars.len() > 0 && chars[0] == '+' {
        1
    } else {
        0
    };
    proof {
        assert(d =~= s.subrange(start as int, s.len() as int));
    }
    if start == chars.len() {
        return None;
    }
    let mut value: u128 = 0;
    let mut i: usize = start;
    while i < chars.len()
        invariant
            chars@ == s,
            s == text@,
            d == unsigned_digits(s),
            d == s.subrange(start as int, s.len() as int),
            start <= i <= s.len(),
            start < s.len(),
            all_digits(d.take(i - start)),
            value == digits_value(d.take(i - start)),
            value <= max,
        decreases chars.len() - i,
    {
        let c = chars[i];
        if !is_ascii_digit(c) {
            proof {
                assert(d[i - start] == c);
                assert(!spec_is_ascii_digit(d[i - start]));
                assert(!all_digits(d));
            }
            return None;
        }
        let digit = (c as u32 - 48) as u128;
        let next = value * 10 + digit;
        proof {
            let p = d.take(i - start + 1);
            assert(p.drop_last() =~= d.take(i - start));
            assert(p.last() == c);
            assert(all_digits(p)) by {
                assert forall|m: int| 0 <= m < p.len() implies #[trigger] spec_is_ascii_digit(
                    p[m],
                ) by {
                    if m < p.len() - 1 {
                        assert(p[m] == d.take(i - start)[m]);
                    }
                }
            }
            assert(next == digits_value(p));
        }
        if next > max as u128 {
            proof {
                if all_digits(d) {
                    lemma_digits_value_prefix(d, i - start + 1);
                    assert(digits_value(d) > max);
                }
                assert(parse_unsigned(s, max as int) is None);
            }
            return None;
        }
        value = next;
        i = i + 1;
    }
    proof {
        assert(d.take(i - start) =~= d);
    }
    Some(value as u64)
}

/// A numeral that is read has a value between zero and the limit.
pub proof fn lemma_parse_unsigned_range(s: Seq<char>, max: int)
    ensures
        parse_unsigned(s, max) matches Some(v) ==> 0 <= v <= max,
{
    let d = unsigned_digits(s);
    if d.len() > 0 && all_digits(d) {
        lemma_digits_value_nonnegative(d);
    }
}

proof fn lemma_natural_numeral_digits(n: nat)
    ensures
        natural_numeral(n).len() > 0,
        all_digits(natural_numeral(n)),
        digits_value(natural_numeral(n)) == n,
        natural_numeral(n)[0] != '+',
    decreases n,
{
    if n < 10 {
        assert(digit_char(n as int) as int == 48 + n);
        let t = natural_numeral(n);
        assert(t.drop_last() =~= Seq::<char>::empty());
        assert(t.last() == digit_char(n as int));
        assert(digits_value(t) == digits_value(t.drop_last()) * 10 + (t.last() as int - 48));
        assert(digits_value(t.drop_last()) == 0);
    } else {
        lemma_natural_numeral_digits(n / 10);
        let p = natural_numeral(n / 10);
        let d = digit_char((n % 10) as int);
        assert(d as int == 48 + n % 10);
        assert(natural_numeral(n).drop_last() =~= p);
        assert(natural_numeral(n).last() == d);
        assert(digits_value(natural_numeral(n)) == digits_value(p) * 10 + (d as int - 48));
        assert(n == (n / 10) * 10 + n % 10);
        assert forall|k: int| 0 <= k < natural_numeral(n).len() implies #[trigger] spec_is_ascii_digit(
            natural_numeral(n)[k],
        ) by {
            if k < p.len() {
                assert(natural_numeral(n)[k] == p[k]);
            }
        }
        assert(natural_numeral(n)[0] == p[0]);
    }
}

/// Reading back a written numeral gives the number: every number up to the
/// limit is read from its own decimal numeral.
pub proof fn law_numeral_round_trip(n: nat, max: int)
    requires
        n <= max,
    ensures
        parse_unsigned(natural_numeral(n), max) == Some(n as int),
{
    lemma_natural_numeral_digits(n);
}

/// Leading zeros do not change a numeral's value.
pub proof fn law_leading_zero_is_ignored(d: Seq<char>, max: int)
    requires
        d.len() > 0,
        d[0] != '+',
    ensures
        parse_unsigned(seq!['0'] + d, max) == parse_unsigned(d, max),
{
    let z = seq!['0'] + d;
    assert(unsigned_digits(z) == z);
    assert(unsigned_digits(d) == d);
    lemma_zero_prefix_value(d);
    if all_digits(d) {
        assert(all_digits(z)) by {
            assert forall|k: int| 0 <= k < z.len() implies #[trigger] spec_is_ascii_digit(z[k]) by {
                if k > 0 {
                    assert(z[k] == d[k - 1]);
                }
            }
        }
    } else {
        let k = choose|k: int| 0 <= k < d.len() && !spec_is_ascii_digit(d[k]);
        assert(z[k + 1] == d[k]);
        assert(!all_digits(z));
    }
}

proof fn lemma_zero_prefix_value(d: Seq<char>)
    ensures
        digits_value(seq!['0'] + d) == digits_value(d),
    decreases d.len(),
{
    let z = seq!['0'] + d;
    if d.len() == 0 {
        assert(z.drop_last() =~= Seq::<char>::empty());
        assert(z.last() == '0');
        assert(digits_value(z) == digits_value(z.drop_last()) * 10 + (z.last() as int - 48));
    } else {
        lemma_zero_prefix_value(d.drop_last());
        assert(z.drop_last() =~= seq!['0'] + d.drop_last());
        assert(z.last() == d.last());
        assert(digits_value(z) == digits_value(z.drop_last()) * 10 + (z.last() as int - 48));
    }
}

} // verus!
