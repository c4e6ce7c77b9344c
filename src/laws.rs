use vstd::prelude::*;
use crate::grammar::{
    classify, digit_run_end, digit_value, digits_value, is_digit, is_name_char, is_operator_char,
    is_whitespace,
    lemma_digit_run, lemma_digits_value_prefix, lemma_name_run, name_run_end, prepend, scan,
    scan_from,
};
use crate::token::{LexError, TokenView};

verus! {

/// Scanning text made of whitespace alone yields the end-of-input marker and
/// nothing else.
pub proof fn whitespace_scans_to_end(s: Seq<char>)
    requires
        forall|i: int| 0 <= i < s.len() ==> is_whitespace(#[trigger] s[i]),
    ensures
        scan(s) == Ok::<Seq<TokenView>, LexError>(seq![TokenView::EOF]),
{
    lemma_whitespace_from(s, 0);
}

proof fn lemma_whitespace_from(s: Seq<char>, i: int)
    requires
        0 <= i <= s.len(),
        forall|k: int| 0 <= k < s.len() ==> is_whitespace(#[trigger] s[k]),
    ensures
        scan_from(s, i) == Ok::<Seq<TokenView>, LexError>(seq![TokenView::EOF]),
    decreases s.len() - i,
{
    if i < s.len() {
        lemma_whitespace_from(s, i + 1);
    }
}

/// Every successful scan ends with the end-of-input marker, and the marker
/// occurs nowhere else.
pub proof fn end_marker_last_and_once(s: Seq<char>)
    ensures
        scan(s) is Ok ==> {
            let ts = scan(s)->Ok_0;
            &&& ts.len() > 0
            &&& ts.last() == TokenView::EOF
            &&& forall|k: int| 0 <= k < ts.len() - 1 ==> ts[k] != TokenView::EOF
        },
{
    lemma_end_marker_from(s, 0);
}

proof fn lemma_end_marker_from(s: Seq<char>, i: int)
    requires
        0 <= i <= s.len(),
    ensures
        scan_from(s, i) is Ok ==> {
            let ts = scan_from(s, i)->Ok_0;
            &&& ts.len() > 0
            &&& ts.last() == TokenView::EOF
            &&& forall|k: int| 0 <= k < ts.len() - 1 ==> ts[k] != TokenView::EOF
        },
    decreases s.len() - i,
{
    if i < s.len() {
        lemma_digit_run(s, i + 1);
        lemma_name_run(s, i + 1);
        let c = s[i];
        if is_digit(c) {
            lemma_end_marker_from(s, digit_run_end(s, i));
        } else if is_name_char(c) {
            lemma_end_marker_from(s, name_run_end(s, i));
        } else {
            lemma_end_marker_from(s, i + 1);
        }
        match scan_from(s, i) {
            Ok(ts) => {
                if ts.len() > 0 && ts[0] != TokenView::EOF {
                    assert(ts.drop_first().last() == ts.last());
                    assert forall|k: int| 0 <= k < ts.len() - 1 implies ts[k] != TokenView::EOF by {
                        if k > 0 {
                            assert(ts[k] == ts.drop_first()[k - 1]);
                        }
                    }
                }
            },
            Err(_) => {},
        }
    }
}

/// A scan never fails for a name that starts with a digit: names are only
/// scanned from a letter or an underscore.
pub proof fn no_name_starts_with_digit(s: Seq<char>)
    ensures
        scan(s) != Err::<Seq<TokenView>, LexError>(LexError::IdentifierStartsWithDigit),
{
    lemma_no_digit_start_from(s, 0);
}

proof fn lemma_no_digit_start_from(s: Seq<char>, i: int)
    requires
        0 <= i <= s.len(),
    ensures
        scan_from(s, i) != Err::<Seq<TokenView>, LexError>(LexError::IdentifierStartsWithDigit),
    decreases s.len() - i,
{
    if i < s.len() {
        lemma_digit_run(s, i + 1);
        lemma_name_run(s, i + 1);
        let c = s[i];
        if is_digit(c) {
            lemma_no_digit_start_from(s, digit_run_end(s, i));
        } else if is_name_char(c) {
            lemma_no_digit_start_from(s, name_run_end(s, i));
        } else {
            lemma_no_digit_start_from(s, i + 1);
        }
    }
}

/// The decimal digit that stands for `n`, for `n` below ten.
pub open spec fn digit_char(n: int) -> char {
    if n == 0 {
        '0'
    } else if n == 1 {
        '1'
    } else if n == 2 {
        '2'
    } else if n == 3 {
        '3'
    } else if n == 4 {
        '4'
    } else if n == 5 {
        '5'
    } else if n == 6 {
        '6'
    } else if n == 7 {
        '7'
    } else if n == 8 {
        '8'
    } else {
        '9'
    }
}

/// The shortest decimal numeral of `n`.
pub open spec fn decimal_text(n: nat) -> Seq<char>
    decreases n,
{
    if n < 10 {
        seq![digit_char(n as int)]
    } else {
        decimal_text(n / 10).push(digit_char((n % 10) as int))
    }
}

/// The source text that a token stands for; a number is written without
/// leading zeros.
pub open spec fn token_text(t: TokenView) -> Seq<char> {
    match t {
        TokenView::Keyword(name) => name,
        TokenView::Identifier(name) => name,
        TokenView::Number(v) => decimal_text(v as nat),
        TokenView::StringLiteral(text) => text,
        TokenView::Operator(symbol) => symbol,
        TokenView::Separator(c) => seq![c],
        TokenView::EOF => Seq::empty(),
    }
}

/// The texts of the tokens, one after the other.
pub open spec fn joined_text(ts: Seq<TokenView>) -> Seq<char>
    decreases ts.len(),
{
    if ts.len() == 0 {
        Seq::empty()
    } else {
        token_text(ts[0]) + joined_text(ts.drop_first())
    }
}

pub open spec fn not_whitespace() -> spec_fn(char) -> bool {
    |c: char| !is_whitespace(c)
}

/// `s` with its whitespace taken out.
pub open spec fn without_whitespace(s: Seq<char>) -> Seq<char> {
    s.filter(not_whitespace())
}

/// No numeral in `s` is written with a leading zero: a `0` followed by a
/// digit continues a name or a longer numeral.
pub open spec fn no_padded_numeral(s: Seq<char>) -> bool {
    forall|i: int|
        0 <= i && i + 1 < s.len() && s[i] == '0' && is_digit(#[trigger] s[i + 1]) ==> i > 0
            && is_name_char(s[i - 1])
}

/// Joining the source texts of the tokens of a successful scan gives back
/// the input without its whitespace, provided that no numeral carries
/// leading zeros (those the number's value does not keep).
pub proof fn tokens_rebuild_source(s: Seq<char>)
    requires
        no_padded_numeral(s),
        scan(s) is Ok,
    ensures
        joined_text(scan(s)->Ok_0) == without_whitespace(s),
{
    lemma_rebuild_from(s, 0);
    assert(s.subrange(0, s.len() as int) =~= s);
}

proof fn lemma_rebuild_from(s: Seq<char>, i: int)
    requires
        0 <= i <= s.len(),
        no_padded_numeral(s),
        i == 0 || i == s.len() || !is_name_char(s[i - 1]) || !is_digit(s[i]),
        scan_from(s, i) is Ok,
    ensures
        joined_text(scan_from(s, i)->Ok_0) == without_whitespace(s.subrange(i, s.len() as int)),
    decreases s.len() - i,
{
    if i == s.len() {
        assert(s.subrange(i, s.len() as int) =~= Seq::<char>::empty());
        let end = seq![TokenView::EOF];
        assert(end.drop_first() =~= Seq::<TokenView>::empty());
        assert(joined_text(end.drop_first()) == Seq::<char>::empty());
        assert(joined_text(end) =~= Seq::<char>::empty());
    } else {
        lemma_digit_run(s, i + 1);
        lemma_name_run(s, i + 1);
        let c = s[i];
        if is_whitespace(c) {
            lemma_rebuild_from(s, i + 1);
            let tail = s.subrange(i + 1, s.len() as int);
            assert(s.subrange(i, s.len() as int) =~= seq![c] + tail);
            tail.lemma_filter_prepend(c, not_whitespace());
        } else if is_digit(c) {
            let j = digit_run_end(s, i);
            let run = s.subrange(i, j);
            assert forall|k: int| 0 <= k < run.len() implies is_digit(#[trigger] run[k]) by {
                assert(run[k] == s[i + k]);
            }
            if c == '0' && j > i + 1 {
                assert(is_digit(run[1]));
            }
            lemma_decimal_text(run);
            lemma_rebuild_from(s, j);
            lemma_rebuild_step(s, i, j, TokenView::Number(digits_value(run)));
        } else if is_name_char(c) {
            let j = name_run_end(s, i);
            lemma_rebuild_from(s, j);
            lemma_rebuild_step(s, i, j, classify(s.subrange(i, j)));
        } else {
            assert(s.subrange(i, i + 1) =~= seq![c]);
            lemma_rebuild_from(s, i + 1);
            if is_operator_char(c) {
                lemma_rebuild_step(s, i, i + 1, TokenView::Operator(seq![c]));
            } else {
                lemma_rebuild_step(s, i, i + 1, TokenView::Separator(c));
            }
        }
    }
}

/// One token of text `s[i..j]` followed by the tokens from `j`.
proof fn lemma_rebuild_step(s: Seq<char>, i: int, j: int, t: TokenView)
    requires
        0 <= i < j <= s.len(),
        forall|k: int| i <= k < j ==> !is_whitespace(#[trigger] s[k]),
        token_text(t) == s.subrange(i, j),
        scan_from(s, i) == prepend(t, scan_from(s, j)),
        scan_from(s, j) is Ok,
        joined_text(scan_from(s, j)->Ok_0) == without_whitespace(s.subrange(j, s.len() as int)),
    ensures
        joined_text(scan_from(s, i)->Ok_0) == without_whitespace(s.subrange(i, s.len() as int)),
{
    lemma_kept_run(s, i, j);
    let ts = scan_from(s, i)->Ok_0;
    assert(ts.drop_first() =~= scan_from(s, j)->Ok_0);
}

/// Where no character in `[i, j)` is whitespace, that stretch is kept whole.
proof fn lemma_kept_run(s: Seq<char>, i: int, j: int)
    requires
        0 <= i <= j <= s.len(),
        forall|k: int| i <= k < j ==> !is_whitespace(#[trigger] s[k]),
    ensures
        without_whitespace(s.subrange(i, s.len() as int)) == s.subrange(i, j)
            + without_whitespace(s.subrange(j, s.len() as int)),
    decreases j - i,
{
    if i < j {
        lemma_kept_run(s, i + 1, j);
        let tail = s.subrange(i + 1, s.len() as int);
        assert(s.subrange(i, s.len() as int) =~= seq![s[i]] + tail);
        tail.lemma_filter_prepend(s[i], not_whitespace());
        assert(s.subrange(i, j) =~= seq![s[i]] + s.subrange(i + 1, j));
    } else {
        assert(s.subrange(i, j) =~= Seq::<char>::empty());
    }
}

/// A run of digits without leading zeros is the decimal numeral of its value.
proof fn lemma_decimal_text(d: Seq<char>)
    requires
        d.len() > 0,
        forall|k: int| 0 <= k < d.len() ==> is_digit(#[trigger] d[k]),
        d[0] != '0' || d.len() == 1,
    ensures
        decimal_text(digits_value(d) as nat) == d,
    decreases d.len(),
{
    let p = d.drop_last();
    let last = d.last();
    assert(is_digit(last));
    assert(digit_char(digit_value(last)) == last);
    if d.len() == 1 {
        assert(p =~= Seq::<char>::empty());
        assert(digits_value(p) == 0);
        assert(digits_value(d) == digit_value(last));
        assert(d =~= seq![last]);
    } else {
        assert forall|k: int| 0 <= k < p.len() implies is_digit(#[trigger] p[k]) by {
            assert(p[k] == d[k]);
        }
        lemma_decimal_text(p);
        lemma_digits_value_prefix(p, 1);
        assert(p.take(1).drop_last() =~= Seq::<char>::empty());
        let a = digits_value(p);
        let b = digit_value(last);
        assert(a >= 1);
        assert(digits_value(d) == 10 * a + b);
        assert((10 * a + b) / 10 == a && (10 * a + b) % 10 == b) by (nonlinear_arith)
            requires
                0 <= b < 10,
        ;
        assert(decimal_text(digits_value(d) as nat) =~= p.push(last));
        assert(p.push(last) =~= d);
    }
}

} // verus!
