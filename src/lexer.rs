use vstd::prelude::*;
use crate::grammar::{
    classify, digit_run_end, digits_value, is_digit, is_name_char, is_name_start,
    is_operator_char, is_reserved, is_separator_char, is_whitespace, lemma_digit_run,
    lemma_digits_value_prefix, lemma_name_run, name_run_end, prepend, scan, scan_from,
};
use crate::laws::{end_marker_last_and_once, no_name_starts_with_digit};
use crate::token::{LexError, TokenType, TokenView, tokens_view};

verus! {

/// Scans `input` into its tokens, the last of which is `EOF`; or returns the
/// error met at the first character that cannot be scanned.
pub fn tokenize(input: &str) -> (r: Result<Vec<TokenType>, LexError>)
    ensures
        match (r, scan(input@)) {
            (Ok(v), Ok(ts)) => tokens_view(v@) == ts,
            (Err(e), Err(f)) => e == f,
            _ => false,
        },
        r is Ok ==> {
            let v = r->Ok_0@;
            &&& v.len() > 0
            &&& v.last() == TokenType::EOF
            &&& forall|k: int| 0 <= k < v.len() - 1 ==> v[k] != TokenType::EOF
        },
        r != Err::<Vec<TokenType>, LexError>(LexError::IdentifierStartsWithDigit),
{
    proof {
        no_name_starts_with_digit(input@);
    }
    let chars = chars_of(input);
    let ghost s = chars@;
    let mut tokens: Vec<TokenType> = Vec::new();
    let mut pos: usize = 0;
    while pos < chars.len()
        invariant
            pos <= s.len(),
            s == chars@,
            s == input@,
            scan(s) == after(tokens_view(tokens@), scan_from(s, pos as int)),
        decreases s.len() - pos,
    {
        let c = chars[pos];
        let ghost prefix = tokens_view(tokens@);
        if is_operator(c) {
            let mut op = String::new();
            push_char(&mut op, c);
            assert(op@ =~= seq![c]);
            proof {
                lemma_after_prepend(prefix, TokenView::Operator(op@), scan_from(s, pos + 1));
            }
            tokens.push(TokenType::Operator(op));
            assert(tokens_view(tokens@) =~= prefix.push(TokenView::Operator(seq![c])));
            pos = pos + 1;
        } else if is_separator(c) {
            proof {
                lemma_after_prepend(prefix, TokenView::Separator(c), scan_from(s, pos + 1));
            }
            tokens.push(TokenType::Separator(c));
            assert(tokens_view(tokens@) =~= prefix.push(TokenView::Separator(c)));
            pos = pos + 1;
        } else if is_digit_char(c) {
            proof {
                lemma_digit_run(s, pos as int);
            }
            let num = consume_numbers(&chars, &mut pos);
            match num {
                Ok(n) => {
                    proof {
                        lemma_after_prepend(prefix, TokenView::Number(n as int), scan_from(s, pos as int));
                    }
                    tokens.push(TokenType::Number(n));
                    assert(tokens_view(tokens@) =~= prefix.push(TokenView::Number(n as int)));
                },
                Err(e) => {
                    return Err(e);
                },
            }
        } else if is_name_start_char(c) {
            proof {
                lemma_name_run(s, pos as int);
            }
            let ident = consume_identifier(&chars, &mut pos);
            match ident {
                Ok(name) => {
                    let keyword = is_keyword(name.as_str());
                    let ghost t = classify(name@);
                    proof {
                        lemma_after_prepend(prefix, t, scan_from(s, pos as int));
                    }
                    if keyword {
                        tokens.push(TokenType::Keyword(name));
                    } else {
                        tokens.push(TokenType::Identifier(name));
                    }
                    assert(tokens_view(tokens@) =~= prefix.push(t));
                },
                Err(e) => {
                    return Err(e);
                },
            }
        } else if is_blank(c) {
            pos = pos + 1;
        } else {
            return Err(LexError::UnknownCharacter(c));
        }
    }
    let ghost prefix = tokens_view(tokens@);
    tokens.push(TokenType::EOF);
    assert(tokens_view(tokens@) =~= prefix.push(TokenView::EOF));
    assert(prefix.push(TokenView::EOF) =~= prefix + seq![TokenView::EOF]);
    proof {
        end_marker_last_and_once(s);
        assert forall|k: int| 0 <= k < tokens@.len() implies tokens_view(tokens@)[k] == #[trigger] tokens@[k]@ by {}
    }
    Ok(tokens)
}

/// `prefix` followed by the tokens of `rest`, or the error of `rest`.
spec fn after(prefix: Seq<TokenView>, rest: Result<Seq<TokenView>, LexError>) -> Result<
    Seq<TokenView>,
    LexError,
> {
    match rest {
        Ok(ts) => Ok(prefix + ts),
        Err(e) => Err(e),
    }
}

proof fn lemma_after_prepend(
    prefix: Seq<TokenView>,
    t: TokenView,
    rest: Result<Seq<TokenView>, LexError>,
)
    ensures
        after(prefix, prepend(t, rest)) == after(prefix.push(t), rest),
{
    match rest {
        Ok(ts) => {
            assert(prefix + (seq![t] + ts) =~= prefix.push(t) + ts);
        },
        Err(e) => {},
    }
}

/// The characters of `input`, in order.
fn chars_of(input: &str) -> (r: Vec<char>)
    ensures
        r@ == input@,
{
    let mut r: Vec<char> = Vec::new();
    for c in it: input.chars()
        invariant
            r@ == it.seq().take(it.index() as int),
    {
        r.push(c);
    }
    r
}

/// Relies on String::push: appends one character at the end.
#[verifier::external_body]
fn push_char(s: &mut String, c: char)
    ensures
        final(s)@ == old(s)@.push(c),
{
    s.push(c)
}

fn is_operator(c: char) -> (r: bool)
    ensures
        r == is_operator_char(c),
{
    c == '+' || c == '-' || c == '*' || c == '/' || c == '%' || c == '='
}

fn is_separator(c: char) -> (r: bool)
    ensures
        r == is_separator_char(c),
{
    c == '(' || c == ')' || c == '{' || c == '}' || c == '[' || c == ']' || c == ',' || c == ';'
}

fn is_blank(c: char) -> (r: bool)
    ensures
        r == is_whitespace(c),
{
    c == ' ' || c == '\t' || c == '\n'
}

fn is_digit_char(c: char) -> (r: bool)
    ensures
        r == is_digit(c),
{
    '0' <= c && c <= '9'
}

fn is_name_start_char(c: char) -> (r: bool)
    ensures
        r == is_name_start(c),
{
    ('a' <= c && c <= 'z') || ('A' <= c && c <= 'Z') || c == '_'
}

fn is_name_char_exec(c: char) -> (r: bool)
    ensures
        r == is_name_char(c),
{
    is_name_start_char(c) || is_digit_char(c)
}

/// Consumes the maximal run of digits at `*pos` and returns its value.
/// Fails, leaving `*pos` where it was, when the value exceeds `i64::MAX`.
fn consume_numbers(chars: &Vec<char>, pos: &mut usize) -> (r: Result<i64, LexError>)
    requires
        *old(pos) <= chars.len(),
    ensures
        ({
            let end = digit_run_end(chars@, *old(pos) as int);
            let v = digits_value(chars@.subrange(*old(pos) as int, end));
            match r {
                Ok(n) => v <= i64::MAX && n == v && *final(pos) == end,
                Err(e) => v > i64::MAX && e == LexError::NumeralOverflow && *final(pos)
                    == *old(pos),
            }
        }),
{
    let ghost s = chars@;
    let ghost start = *pos as int;
    proof {
        lemma_digit_run(s, start);
    }
    let mut i: usize = *pos;
    let mut v: i64 = 0;
    while i < chars.len() && is_digit_char(chars[i])
        invariant
            start <= i <= s.len(),
            start == *old(pos) as int,
            *pos == *old(pos),
            s == chars@,
            i <= digit_run_end(s, start) <= s.len(),
            digit_run_end(s, i as int) == digit_run_end(s, start),
            forall|k: int| start <= k < digit_run_end(s, start) ==> is_digit(#[trigger] s[k]),
            0 <= v,
            v as int == digits_value(s.subrange(start, i as int)),
        decreases s.len() - i,
    {
        proof {
            lemma_digit_run(s, i + 1);
            assert(digit_run_end(s, i as int) == digit_run_end(s, i + 1));
        }
        let ghost next = s.subrange(start, i + 1);
        assert(next.drop_last() =~= s.subrange(start, i as int));
        let d = (chars[i] as u32 - '0' as u32) as i64;
        assert(0 <= d <= 9 && digits_value(next) == 10 * v + d);
        let shifted = v.checked_mul(10);
        if shifted.is_none() {
            proof {
                lemma_overflow_persists(s, start, i + 1);
            }
            return Err(LexError::NumeralOverflow);
        }
        let sum = shifted.unwrap().checked_add(d);
        if sum.is_none() {
            proof {
                lemma_overflow_persists(s, start, i + 1);
            }
            return Err(LexError::NumeralOverflow);
        }
        v = sum.unwrap();
        i = i + 1;
    }
    *pos = i;
    Ok(v)
}

/// Consumes the maximal run of name characters at `*pos` and returns it.
/// Fails, leaving `*pos` where it was, when that run would start with a digit.
fn consume_identifier(chars: &Vec<char>, pos: &mut usize) -> (r: Result<String, LexError>)
    requires
        *old(pos) <= chars.len(),
    ensures
        ({
            let start = *old(pos) as int;
            let starts_with_digit = start < chars.len() && is_digit(chars@[start]);
            match r {
                Ok(name) => !starts_with_digit && name@ == chars@.subrange(
                    start,
                    name_run_end(chars@, start),
                ) && *final(pos) == name_run_end(chars@, start),
                Err(e) => starts_with_digit && e == LexError::IdentifierStartsWithDigit
                    && *final(pos) == *old(pos),
            }
        }),
{
    let ghost s = chars@;
    let ghost start = *pos as int;
    let mut ident = String::new();
    let mut i: usize = *pos;
    while i < chars.len() && is_name_char_exec(chars[i])
        invariant
            start <= i <= s.len(),
            start == *old(pos) as int,
            *pos == *old(pos),
            s == chars@,
            name_run_end(s, i as int) == name_run_end(s, start),
            ident@ == s.subrange(start, i as int),
            i > start ==> !is_digit(s[start]),
        decreases s.len() - i,
    {
        let c = chars[i];
        if i == *pos && is_digit_char(c) {
            return Err(LexError::IdentifierStartsWithDigit);
        }
        push_char(&mut ident, c);
        assert(ident@ =~= s.subrange(start, i + 1));
        i = i + 1;
    }
    *pos = i;
    Ok(ident)
}

/// Whether `ident` is one of the reserved words.
fn is_keyword(ident: &str) -> (r: bool)
    ensures
        r == is_reserved(ident@),
{
    let name = ident.to_owned();
    name == "if".to_owned() || name == "elif".to_owned() || name == "else".to_owned() || name
        == "while".to_owned() || name == "for".to_owned() || name == "str".to_owned() || name
        == "int".to_owned() || name == "float".to_owned() || name == "bool".to_owned() || name
        == "char".to_owned() || name == "return".to_owned()
}

/// Once a prefix of the digit run from `start` exceeds `i64::MAX`, so does
/// the whole run.
proof fn lemma_overflow_persists(s: Seq<char>, start: int, i: int)
    requires
        0 <= start < i <= digit_run_end(s, start) <= s.len(),
        forall|k: int| start <= k < digit_run_end(s, start) ==> is_digit(#[trigger] s[k]),
        digits_value(s.subrange(start, i)) > i64::MAX,
    ensures
        digits_value(s.subrange(start, digit_run_end(s, start))) > i64::MAX,
{
    let run = s.subrange(start, digit_run_end(s, start));
    assert forall|m: int| 0 <= m < run.len() implies is_digit(#[trigger] run[m]) by {
        assert(run[m] == s[start + m]);
    }
    lemma_digits_value_prefix(run, i - start);
    assert(run.take(i - start) =~= s.subrange(start, i));
}

} // verus!
