use vstd::prelude::*;
use crate::token::{LexError, TokenView};

verus! {

pub open spec fn is_operator_char(c: char) -> bool {
    c == '+' || c == '-' || c == '*' || c == '/' || c == '%' || c == '='
}

pub open spec fn is_separator_char(c: char) -> bool {
    c == '(' || c == ')' || c == '{' || c == '}' || c == '[' || c == ']' || c == ','
        || c == ';'
}

pub open spec fn is_digit(c: char) -> bool {
    '0' <= c <= '9'
}

/// A character that may begin a name.
pub open spec fn is_name_start(c: char) -> bool {
    ('a' <= c <= 'z') || ('A' <= c <= 'Z') || c == '_'
}

/// A character that may continue a name.
pub open spec fn is_name_char(c: char) -> bool {
    is_name_start(c) || is_digit(c)
}

/// The characters that separate tokens and are otherwise skipped.
pub open spec fn is_whitespace(c: char) -> bool {
    c == ' ' || c == '\t' || c == '\n'
}

/// The reserved words, compared case-sensitively.
pub open spec fn is_reserved(name: Seq<char>) -> bool {
    name == "if"@ || name == "elif"@ || name == "else"@ || name == "while"@ || name == "for"@
        || name == "str"@ || name == "int"@ || name == "float"@ || name == "bool"@
        || name == "char"@ || name == "return"@
}

/// The end of the maximal run of digits that starts at `i`.
pub open spec fn digit_run_end(s: Seq<char>, i: int) -> int
    decreases s.len() - i,
{
    if 0 <= i < s.len() && is_digit(s[i]) {
        digit_run_end(s, i + 1)
    } else {
        i
    }
}

/// The end of the maximal run of name characters that starts at `i`.
pub open spec fn name_run_end(s: Seq<char>, i: int) -> int
    decreases s.len() - i,
{
    if 0 <= i < s.len() && is_name_char(s[i]) {
        name_run_end(s, i + 1)
    } else {
        i
    }
}

/// The value of a decimal digit.
pub open spec fn digit_value(c: char) -> int {
    c as int - '0' as int
}

/// The decimal value of a sequence of digits; leading zeros add nothing.
pub open spec fn digits_value(d: Seq<char>) -> int
    decreases d.len(),
{
    if d.len() == 0 {
        0
    } else {
        10 * digits_value(d.drop_last()) + digit_value(d.last())
    }
}

/// The token that a name becomes.
pub open spec fn classify(name: Seq<char>) -> TokenView {
    if is_reserved(name) {
        TokenView::Keyword(name)
    } else {
        TokenView::Identifier(name)
    }
}

/// `t` followed by the tokens of `rest`, or the error of `rest`.
pub open spec fn prepend(t: TokenView, rest: Result<Seq<TokenView>, LexError>) -> Result<
    Seq<TokenView>,
    LexError,
> {
    match rest {
        Ok(ts) => Ok(seq![t] + ts),
        Err(e) => Err(e),
    }
}

/// The outcome of scanning `s` from position `i` on: the tokens, ending with
/// the end-of-input marker, or the first error met going left to right.
pub open spec fn scan_from(s: Seq<char>, i: int) -> Result<Seq<TokenView>, LexError>
    recommends
        0 <= i <= s.len(),
    decreases s.len() - i,
    via scan_from_decreases
{
    if i < 0 || i >= s.len() {
        Ok(seq![TokenView::EOF])
    } else {
        let c = s[i];
        if is_operator_char(c) {
            prepend(TokenView::Operator(seq![c]), scan_from(s, i + 1))
        } else if is_separator_char(c) {
            prepend(TokenView::Separator(c), scan_from(s, i + 1))
        } else if is_digit(c) {
            let j = digit_run_end(s, i);
            let v = digits_value(s.subrange(i, j));
            if v > i64::MAX {
                Err(LexError::NumeralOverflow)
            } else {
                prepend(TokenView::Number(v), scan_from(s, j))
            }
        } else if is_name_start(c) {
            let j = name_run_end(s, i);
            prepend(classify(s.subrange(i, j)), scan_from(s, j))
        } else if is_whitespace(c) {
            scan_from(s, i + 1)
        } else {
            Err(LexError::UnknownCharacter(c))
        }
    }
}

#[via_fn]
proof fn scan_from_decreases(s: Seq<char>, i: int) {
    if 0 <= i < s.len() {
        lemma_digit_run(s, i + 1);
        lemma_name_run(s, i + 1);
    }
}

/// What the digit run from `i` spans.
pub proof fn lemma_digit_run(s: Seq<char>, i: int)
    requires
        0 <= i <= s.len(),
    ensures
        i <= digit_run_end(s, i) <= s.len(),
        forall|k: int| i <= k < digit_run_end(s, i) ==> is_digit(#[trigger] s[k]),
        digit_run_end(s, i) < s.len() ==> !is_digit(s[digit_run_end(s, i)]),
    decreases s.len() - i,
{
    if i < s.len() && is_digit(s[i]) {
        lemma_digit_run(s, i + 1);
    }
}

/// What the name run from `i` spans.
pub proof fn lemma_name_run(s: Seq<char>, i: int)
    requires
        0 <= i <= s.len(),
    ensures
        i <= name_run_end(s, i) <= s.len(),
        forall|k: int| i <= k < name_run_end(s, i) ==> is_name_char(#[trigger] s[k]),
        name_run_end(s, i) < s.len() ==> !is_name_char(s[name_run_end(s, i)]),
    decreases s.len() - i,
{
    if i < s.len() && is_name_char(s[i]) {
        lemma_name_run(s, i + 1);
    }
}

/// The value of a run of digits is at least that of each of its prefixes.
pub proof fn lemma_digits_value_prefix(d: Seq<char>, k: int)
    requires
        0 <= k <= d.len(),
        forall|m: int| 0 <= m < d.len() ==> is_digit(#[trigger] d[m]),
    ensures
        0 <= digits_value(d.take(k)) <= digits_value(d),
    decreases d.len(),
{
    if d.len() > 0 {
        let p = d.drop_last();
        assert forall|m: int| 0 <= m < p.len() implies is_digit(#[trigger] p[m]) by {
            assert(p[m] == d[m]);
        }
        if k == d.len() {
            assert(d.take(k) =~= d);
            lemma_digits_value_prefix(p, 0);
        } else {
            lemma_digits_value_prefix(p, k);
            assert(p.take(k) =~= d.take(k));
        }
    } else {
        assert(d.take(k) =~= d);
    }
}

/// The outcome of scanning the whole of `s`.
pub open spec fn scan(s: Seq<char>) -> Result<Seq<TokenView>, LexError> {
    scan_from(s, 0)
}

} // verus!
