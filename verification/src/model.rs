//! The mathematical model of the scan.
//!
//! `scan_all` says, for any source text, exactly which token sequence the
//! scanner returns, or which error it stops with.  It is a single recursive
//! walk of the text: every contract of the executable scanner, and every
//! proved property of the library, is stated against it.

use vstd::prelude::*;

use crate::token::{keyword_or_identifier_typ, SpecToken, SpecTokenType};
use crate::token::Token;

verus! {

/// An ASCII decimal digit.
pub open spec fn is_digit(c: char) -> bool {
    '0' <= c && c <= '9'
}

/// An ASCII letter or underscore: the characters an identifier may begin with.
pub open spec fn is_alpha(c: char) -> bool {
    ('a' <= c && c <= 'z') || ('A' <= c && c <= 'Z') || c == '_'
}

/// A character an identifier may continue with.
pub open spec fn is_alnum(c: char) -> bool {
    is_alpha(c) || is_digit(c)
}

/// The length of the maximal run of digits starting at `i`.
pub open spec fn digits_len(s: Seq<char>, i: int) -> nat
    decreases s.len() - i,
{
    if i < s.len() && is_digit(s[i]) {
        (digits_len(s, i + 1) + 1) as nat
    } else {
        0
    }
}

/// The length of the maximal run of identifier characters starting at `i`.
pub open spec fn ident_len(s: Seq<char>, i: int) -> nat
    decreases s.len() - i,
{
    if i < s.len() && is_alnum(s[i]) {
        (ident_len(s, i + 1) + 1) as nat
    } else {
        0
    }
}

/// The length of the run of characters a line comment consumes from `i`:
/// everything up to, not including, the next newline or the end of input.
pub open spec fn comment_len(s: Seq<char>, i: int) -> nat
    decreases s.len() - i,
{
    if i < s.len() && s[i] != '\n' {
        (comment_len(s, i + 1) + 1) as nat
    } else {
        0
    }
}

/// The length of the run of non-quote characters starting at `i`: the body a
/// string literal consumes before its closing quote or the end of input.
pub open spec fn nonquote_len(s: Seq<char>, i: int) -> nat
    decreases s.len() - i,
{
    if i < s.len() && s[i] != '"' {
        (nonquote_len(s, i + 1) + 1) as nat
    } else {
        0
    }
}

/// How many newline characters stand in `s` at positions `i <= k < j`.
pub open spec fn count_newlines(s: Seq<char>, i: int, j: int) -> nat
    decreases j - i,
{
    if i < j {
        ((if s[i] == '\n' {
            1nat
        } else {
            0nat
        }) + count_newlines(s, i + 1, j)) as nat
    } else {
        0
    }
}

/// Where a number literal beginning with the digit at `i` ends: the maximal
/// digit run, extended over a decimal point only when at least one digit
/// follows it.  A trailing dot is left unconsumed.
pub open spec fn number_end(s: Seq<char>, i: int) -> int {
    let whole = i + 1 + digits_len(s, i + 1);
    if whole + 1 < s.len() && s[whole] == '.' && is_digit(s[whole + 1]) {
        whole + 2 + digits_len(s, whole + 2)
    } else {
        whole
    }
}

/// A scan failure: the first malformed lexeme aborts the scan.  Lines are
/// 1-based; an unterminated string is reported at the line reached when the
/// input ran out.
pub enum SpecScanError {
    UnterminatedString { line: nat },
    UnrecognizedCharacter { line: nat, ch: char },
}

/// A token whose lexeme is the slice of `s` from `i` to `j`.
pub open spec fn spec_token_at(
    s: Seq<char>,
    i: int,
    j: int,
    line: nat,
    typ: SpecTokenType,
) -> SpecToken {
    SpecToken { typ, lexeme: s.subrange(i, j), line }
}

/// Puts one token in front of the outcome of the rest of a scan.
pub open spec fn cons_token(
    token: SpecToken,
    rest: Result<Seq<SpecToken>, SpecScanError>,
) -> Result<Seq<SpecToken>, SpecScanError> {
    match rest {
        Ok(tokens) => Ok(seq![token] + tokens),
        Err(e) => Err(e),
    }
}

/// The outcome of scanning `s` from position `i` on line `line`: the token
/// sequence the rest of the text produces, ending in one EOF token, or the
/// first error.  `scan_all` gives the whole-text case.
///
/// The `min` caps only keep the recursion measure in view; the capped
/// positions never in fact pass the end of the text.
pub open spec fn scan_from(s: Seq<char>, i: int, line: nat) -> Result<
    Seq<SpecToken>,
    SpecScanError,
>
    decreases s.len() - i,
{
    if i >= s.len() {
        Ok(seq![SpecToken { typ: SpecTokenType::EOF, lexeme: Seq::empty(), line }])
    } else {
        let c = s[i];
        if c == '(' {
            cons_token(
                spec_token_at(s, i, i + 1, line, SpecTokenType::LEFT_PAREN),
                scan_from(s, i + 1, line),
            )
        } else if c == ')' {
            cons_token(
                spec_token_at(s, i, i + 1, line, SpecTokenType::RIGHT_PAREN),
                scan_from(s, i + 1, line),
            )
        } else if c == '{' {
            cons_token(
                spec_token_at(s, i, i + 1, line, SpecTokenType::LEFT_BRACE),
                scan_from(s, i + 1, line),
            )
        } else if c == '}' {
            cons_token(
                spec_token_at(s, i, i + 1, line, SpecTokenType::RIGHT_BRACE),
                scan_from(s, i + 1, line),
            )
        } else if c == ',' {
            cons_token(
                spec_token_at(s, i, i + 1, line, SpecTokenType::COMMA),
                scan_from(s, i + 1, line),
            )
        } else if c == '.' {
            cons_token(
                spec_token_at(s, i, i + 1, line, SpecTokenType::DOT),
                scan_from(s, i + 1, line),
            )
        } else if c == '+' {
            cons_token(
                spec_token_at(s, i, i + 1, line, SpecTokenType::PLUS),
                scan_from(s, i + 1, line),
            )
        } else if c == '*' {
            cons_token(
                spec_token_at(s, i, i + 1, line, SpecTokenType::STAR),
                scan_from(s, i + 1, line),
            )
        } else if c == '-' {
            cons_token(
                spec_token_at(s, i, i + 1, line, SpecTokenType::MINUS),
                scan_from(s, i + 1, line),
            )
        } else if c == ';' {
            cons_token(
                spec_token_at(s, i, i + 1, line, SpecTokenType::SEMICOLON),
                scan_from(s, i + 1, line),
            )
        } else if c == '>' {
            if i + 1 < s.len() && s[i + 1] == '=' {
                cons_token(
                    spec_token_at(s, i, i + 2, line, SpecTokenType::GREATER_EQUAL),
                    scan_from(s, i + 2, line),
                )
            } else {
                cons_token(
                    spec_token_at(s, i, i + 1, line, SpecTokenType::GREATER),
                    scan_from(s, i + 1, line),
                )
            }
        } else if c == '<' {
            if i + 1 < s.len() && s[i + 1] == '=' {
                cons_token(
                    spec_token_at(s, i, i + 2, line, SpecTokenType::LESS_EQUAL),
                    scan_from(s, i + 2, line),
                )
            } else {
                cons_token(
                    spec_token_at(s, i, i + 1, line, SpecTokenType::LESS),
                    scan_from(s, i + 1, line),
                )
            }
        } else if c == '!' {
            if i + 1 < s.len() && s[i + 1] == '=' {
                cons_token(
                    spec_token_at(s, i, i + 2, line, SpecTokenType::BANG_EQUAL),
                    scan_from(s, i + 2, line),
                )
            } else {
                cons_token(
                    spec_token_at(s, i, i + 1, line, SpecTokenType::BANG),
                    scan_from(s, i + 1, line),
                )
            }
        } else if c == '=' {
            if i + 1 < s.len() && s[i + 1] == '=' {
                cons_token(
                    spec_token_at(s, i, i + 2, line, SpecTokenType::EQUAL_EQUAL),
                    scan_from(s, i + 2, line),
                )
            } else {
                cons_token(
                    spec_token_at(s, i, i + 1, line, SpecTokenType::EQUAL),
                    scan_from(s, i + 1, line),
                )
            }
        } else if c == '/' {
            if i + 1 < s.len() && s[i + 1] == '/' {
                scan_from(s, vstd::math::min(s.len() as int, i + 2 + comment_len(s, i + 2)), line)
            } else {
                cons_token(
                    spec_token_at(s, i, i + 1, line, SpecTokenType::SLASH),
                    scan_from(s, i + 1, line),
                )
            }
        } else if c == ' ' || c == '\r' || c == '\t' {
            scan_from(s, i + 1, line)
        } else if c == '\n' {
            scan_from(s, i + 1, line + 1)
        } else if c == '"' {
            let close = i + 1 + nonquote_len(s, i + 1);
            if close >= s.len() {
                Err(
                    SpecScanError::UnterminatedString {
                        line: line + count_newlines(s, i + 1, s.len() as int),
                    },
                )
            } else {
                cons_token(
                    SpecToken {
                        typ: SpecTokenType::STRING(s.subrange(i + 1, close)),
                        lexeme: s.subrange(i, close + 1),
                        line,
                    },
                    scan_from(s, close + 1, line + count_newlines(s, i + 1, close)),
                )
            }
        } else if is_digit(c) {
            let end = number_end(s, i);
            cons_token(
                spec_token_at(s, i, end, line, SpecTokenType::NUMBER(s.subrange(i, end))),
                scan_from(s, vstd::math::min(s.len() as int, end), line),
            )
        } else if is_alpha(c) {
            let end = i + 1 + ident_len(s, i + 1);
            cons_token(
                spec_token_at(s, i, end, line, keyword_or_identifier_typ(s.subrange(i, end))),
                scan_from(s, vstd::math::min(s.len() as int, end), line),
            )
        } else {
            Err(SpecScanError::UnrecognizedCharacter { line, ch: c })
        }
    }
}

/// The outcome of scanning a whole source text from its first character,
/// starting on line 1.
pub open spec fn scan_all(s: Seq<char>) -> Result<Seq<SpecToken>, SpecScanError> {
    scan_from(s, 0, 1)
}

/// The views of a sequence of tokens.
pub open spec fn tokens_views(tokens: Seq<Token>) -> Seq<SpecToken> {
    tokens.map_values(|token: Token| token@)
}

/// `full` is the outcome `rest` with `prefix` already emitted in front of it:
/// the loop invariant shape of the scanner.
pub open spec fn scan_extends(
    full: Result<Seq<SpecToken>, SpecScanError>,
    prefix: Seq<SpecToken>,
    rest: Result<Seq<SpecToken>, SpecScanError>,
) -> bool {
    match rest {
        Ok(tokens) => full == Ok::<Seq<SpecToken>, SpecScanError>(prefix + tokens),
        Err(e) => full == Err::<Seq<SpecToken>, SpecScanError>(e),
    }
}

/// A digit run starting inside the text ends inside the text.
pub proof fn lemma_digits_len_le(s: Seq<char>, i: int)
    requires
        i <= s.len(),
    ensures
        i + digits_len(s, i) <= s.len(),
    decreases s.len() - i,
{
    if i < s.len() && is_digit(s[i]) {
        lemma_digits_len_le(s, i + 1);
    }
}

/// An identifier run starting inside the text ends inside the text.
pub proof fn lemma_ident_len_le(s: Seq<char>, i: int)
    requires
        i <= s.len(),
    ensures
        i + ident_len(s, i) <= s.len(),
    decreases s.len() - i,
{
    if i < s.len() && is_alnum(s[i]) {
        lemma_ident_len_le(s, i + 1);
    }
}

/// A comment run starting inside the text ends inside the text.
pub proof fn lemma_comment_len_le(s: Seq<char>, i: int)
    requires
        i <= s.len(),
    ensures
        i + comment_len(s, i) <= s.len(),
    decreases s.len() - i,
{
    if i < s.len() && s[i] != '\n' {
        lemma_comment_len_le(s, i + 1);
    }
}

/// A string-body run starting inside the text ends inside the text.
pub proof fn lemma_nonquote_len_le(s: Seq<char>, i: int)
    requires
        i <= s.len(),
    ensures
        i + nonquote_len(s, i) <= s.len(),
    decreases s.len() - i,
{
    if i < s.len() && s[i] != '"' {
        lemma_nonquote_len_le(s, i + 1);
    }
}

/// A range holds no more newlines than characters.
pub proof fn lemma_count_newlines_le(s: Seq<char>, i: int, j: int)
    requires
        i <= j,
    ensures
        count_newlines(s, i, j) <= j - i,
    decreases j - i,
{
    if i < j {
        lemma_count_newlines_le(s, i + 1, j);
    }
}

/// Extending a range by its end character adds that character's newline count.
pub proof fn lemma_count_newlines_snoc(s: Seq<char>, i: int, j: int)
    requires
        i <= j,
    ensures
        count_newlines(s, i, j + 1) == count_newlines(s, i, j) + (if s[j] == '\n' {
            1nat
        } else {
            0nat
        }),
    decreases j - i,
{
    if i < j {
        lemma_count_newlines_snoc(s, i + 1, j);
    } else {
        assert(count_newlines(s, j + 1, j + 1) == 0);
    }
}

/// Newline counts add over adjacent ranges.
pub proof fn lemma_count_newlines_split(s: Seq<char>, i: int, m: int, j: int)
    requires
        i <= m <= j,
    ensures
        count_newlines(s, i, j) == count_newlines(s, i, m) + count_newlines(s, m, j),
    decreases m - i,
{
    if i < m {
        lemma_count_newlines_split(s, i + 1, m, j);
    }
}

/// A range without newline characters counts zero newlines.
pub proof fn lemma_count_newlines_zero(s: Seq<char>, i: int, j: int)
    requires
        i <= j,
        forall|k: int| i <= k < j ==> s[k] != '\n',
    ensures
        count_newlines(s, i, j) == 0,
    decreases j - i,
{
    if i < j {
        lemma_count_newlines_zero(s, i + 1, j);
    }
}

/// A one-token step extends the scan outcome it steps to.
pub proof fn lemma_cons_extends(token: SpecToken, rest: Result<Seq<SpecToken>, SpecScanError>)
    ensures
        scan_extends(cons_token(token, rest), seq![token], rest),
{
}

/// A step that emits nothing extends the unchanged outcome.
pub proof fn lemma_empty_extends(outcome: Result<Seq<SpecToken>, SpecScanError>)
    ensures
        scan_extends(outcome, Seq::empty(), outcome),
{
    match outcome {
        Ok(tokens) => {
            assert(Seq::<SpecToken>::empty() + tokens =~= tokens);
        },
        Err(_) => {},
    }
}

/// Emitted prefixes compose: stepping from `full` through `mid` to `rest`
/// emits the two prefixes one after the other.
pub proof fn lemma_scan_extends_trans(
    full: Result<Seq<SpecToken>, SpecScanError>,
    first: Seq<SpecToken>,
    mid: Result<Seq<SpecToken>, SpecScanError>,
    second: Seq<SpecToken>,
    rest: Result<Seq<SpecToken>, SpecScanError>,
)
    requires
        scan_extends(full, first, mid),
        scan_extends(mid, second, rest),
    ensures
        scan_extends(full, first + second, rest),
{
    match rest {
        Ok(tokens) => {
            assert(first + (second + tokens) =~= (first + second) + tokens);
        },
        Err(_) => {},
    }
}

/// What one pushed token adds to a sequence, seen as a prefix and a delta.
pub proof fn lemma_push_delta(before: Seq<SpecToken>, after: Seq<SpecToken>, token: SpecToken)
    requires
        after == before.push(token),
    ensures
        after.skip(before.len() as int) == seq![token],
        after.take(before.len() as int) == before,
        after.len() == before.len() + 1,
{
    assert(after.skip(before.len() as int) =~= seq![token]);
    assert(after.take(before.len() as int) =~= before);
}

/// A scan step that emitted one token: the sequence of emitted views grows
/// by that token, and the outcome at the step's start extends the outcome at
/// its end by it.
pub proof fn lemma_token_step(
    s: Seq<char>,
    i: int,
    line: nat,
    before: Seq<SpecToken>,
    after: Seq<SpecToken>,
    token: SpecToken,
    next: int,
    next_line: nat,
)
    requires
        scan_from(s, i, line) == cons_token(token, scan_from(s, next, next_line)),
        after == before.push(token),
    ensures
        after.take(before.len() as int) == before,
        after.len() == before.len() + 1,
        scan_extends(
            scan_from(s, i, line),
            after.skip(before.len() as int),
            scan_from(s, next, next_line),
        ),
{
    lemma_cons_extends(token, scan_from(s, next, next_line));
    lemma_push_delta(before, after, token);
}

/// A scan step that emitted nothing: whitespace, a newline, a comment.
pub proof fn lemma_quiet_step(
    views: Seq<SpecToken>,
    outcome: Result<Seq<SpecToken>, SpecScanError>,
)
    ensures
        views.take(views.len() as int) == views,
        views.skip(views.len() as int) == Seq::<SpecToken>::empty(),
        scan_extends(outcome, views.skip(views.len() as int), outcome),
{
    assert(views.take(views.len() as int) =~= views);
    assert(views.skip(views.len() as int) =~= Seq::<SpecToken>::empty());
    lemma_empty_extends(outcome);
}

/// A sequence splits into what `take` and `skip` give at any point inside it.
pub proof fn lemma_views_decompose(views: Seq<SpecToken>, n: int)
    requires
        0 <= n <= views.len(),
    ensures
        views == views.take(n) + views.skip(n),
{
    assert(views =~= views.take(n) + views.skip(n));
}

/// Taking views commutes with appending one token.
pub proof fn lemma_tokens_views_push(tokens: Seq<Token>, token: Token)
    ensures
        tokens_views(tokens.push(token)) == tokens_views(tokens).push(token@),
{
    assert(tokens_views(tokens.push(token)) =~= tokens_views(tokens).push(token@));
}

} // verus!
