//! Proved properties of the scan, stated against `model::scan_all`.
//!
//! Three of them are laws of the whole scanner: a source of nothing but
//! whitespace and comments scans to the one EOF token; every successful scan
//! ends in exactly one EOF token and every other token carries a non-empty
//! slice of the source; and two single-token sources joined by a space scan
//! to their two tokens followed by one EOF.

use vstd::prelude::*;

use crate::model::{
    comment_len, cons_token, count_newlines, digits_len, ident_len, is_alnum, is_alpha, is_digit,
    lemma_comment_len_le, lemma_count_newlines_split, lemma_count_newlines_zero,
    lemma_digits_len_le, lemma_ident_len_le, lemma_nonquote_len_le, nonquote_len, number_end,
    scan_all, scan_from, SpecScanError,
};
use crate::token::{keyword_or_identifier_typ, SpecToken, SpecTokenType};

verus! {

/// The text from `i` on consists of nothing but whitespace, newlines and
/// line comments.
pub open spec fn trivia_only(s: Seq<char>, i: int) -> bool
    decreases s.len() - i,
{
    if i >= s.len() {
        true
    } else if s[i] == ' ' || s[i] == '\r' || s[i] == '\t' || s[i] == '\n' {
        trivia_only(s, i + 1)
    } else if s[i] == '/' && i + 1 < s.len() && s[i + 1] == '/' {
        trivia_only(s, vstd::math::min(s.len() as int, i + 2 + comment_len(s, i + 2)))
    } else {
        false
    }
}

/// No character a line comment consumes is a newline.
proof fn lemma_comment_run_no_newline(s: Seq<char>, i: int)
    requires
        0 <= i <= s.len(),
    ensures
        forall|k: int| i <= k < i + comment_len(s, i) ==> s[k] != '\n',
    decreases s.len() - i,
{
    if i < s.len() && s[i] != '\n' {
        lemma_comment_run_no_newline(s, i + 1);
    }
}

/// Scanning trivia emits nothing: from any trivia-only position the scan
/// returns exactly the one EOF token, at the line reached at the end.
pub proof fn lemma_trivia_scan(s: Seq<char>, i: int, line: nat)
    requires
        0 <= i <= s.len(),
        trivia_only(s, i),
    ensures
        scan_from(s, i, line) == Ok::<Seq<SpecToken>, SpecScanError>(
            seq![
                SpecToken {
                    typ: SpecTokenType::EOF,
                    lexeme: Seq::empty(),
                    line: line + count_newlines(s, i, s.len() as int),
                },
            ],
        ),
    decreases s.len() - i,
{
    if i >= s.len() {
        assert(count_newlines(s, i, s.len() as int) == 0);
    } else if s[i] == ' ' || s[i] == '\r' || s[i] == '\t' {
        lemma_trivia_scan(s, i + 1, line);
    } else if s[i] == '\n' {
        lemma_trivia_scan(s, i + 1, line + 1);
    } else {
        let j = vstd::math::min(s.len() as int, i + 2 + comment_len(s, i + 2));
        lemma_comment_len_le(s, i + 2);
        assert(j == i + 2 + comment_len(s, i + 2));
        lemma_trivia_scan(s, j, line);
        lemma_comment_run_no_newline(s, i + 2);
        lemma_count_newlines_zero(s, i, j);
        lemma_count_newlines_split(s, i, j, s.len() as int);
    }
}

/// A source of nothing but whitespace and comments scans to the token
/// sequence holding exactly one EOF token and nothing else.
pub proof fn lemma_trivia_scans_to_eof_alone(s: Seq<char>)
    requires
        trivia_only(s, 0),
    ensures
        scan_all(s) == Ok::<Seq<SpecToken>, SpecScanError>(
            seq![
                SpecToken {
                    typ: SpecTokenType::EOF,
                    lexeme: Seq::empty(),
                    line: 1 + count_newlines(s, 0, s.len() as int),
                },
            ],
        ),
{
    lemma_trivia_scan(s, 0, 1);
}

/// The lexeme is exactly some slice of the source that begins at or after
/// `from`.
pub open spec fn is_source_slice(lexeme: Seq<char>, s: Seq<char>, from: int) -> bool {
    exists|a: int, b: int| from <= a < b <= s.len() && lexeme == #[trigger] s.subrange(a, b)
}

/// The shape every successful scan outcome has, seen from position `from`:
/// it ends in exactly one EOF token with an empty lexeme, and every earlier
/// token is not EOF and carries a non-empty slice of the source.
pub open spec fn scan_shape(
    s: Seq<char>,
    from: int,
    outcome: Result<Seq<SpecToken>, SpecScanError>,
) -> bool {
    match outcome {
        Ok(v) => {
            &&& v.len() >= 1
            &&& v[v.len() - 1].typ is EOF
            &&& v[v.len() - 1].lexeme == Seq::<char>::empty()
            &&& forall|k: int|
                0 <= k < v.len() - 1 ==> !((#[trigger] v[k]).typ is EOF) && v[k].lexeme.len() > 0
                    && is_source_slice(v[k].lexeme, s, from)
        },
        Err(_) => true,
    }
}

/// A slice seen from a later position is a slice seen from an earlier one.
proof fn lemma_source_slice_widen(lexeme: Seq<char>, s: Seq<char>, from1: int, from2: int)
    requires
        is_source_slice(lexeme, s, from1),
        from2 <= from1,
    ensures
        is_source_slice(lexeme, s, from2),
{
    let (a, b) = choose|a: int, b: int|
        from1 <= a < b <= s.len() && lexeme == #[trigger] s.subrange(a, b);
    assert(from2 <= a < b <= s.len() && lexeme == s.subrange(a, b));
}

/// The shape seen from a later position holds from an earlier one.
proof fn lemma_shape_widen(
    s: Seq<char>,
    from1: int,
    from2: int,
    outcome: Result<Seq<SpecToken>, SpecScanError>,
)
    requires
        scan_shape(s, from1, outcome),
        from2 <= from1,
    ensures
        scan_shape(s, from2, outcome),
{
    match outcome {
        Ok(v) => {
            assert forall|k: int| 0 <= k < v.len() - 1 implies !((#[trigger] v[k]).typ is EOF)
                && v[k].lexeme.len() > 0 && is_source_slice(v[k].lexeme, s, from2) by {
                lemma_source_slice_widen(v[k].lexeme, s, from1, from2);
            }
        },
        Err(_) => {},
    }
}

/// One emitting step keeps the shape: the emitted token is not EOF, its
/// lexeme is the consumed slice, and the rest of the scan has the shape from
/// where it resumes.
proof fn lemma_shape_step(
    s: Seq<char>,
    i: int,
    line: nat,
    typ: SpecTokenType,
    end: int,
    next: int,
    next_line: nat,
)
    requires
        0 <= i < end <= s.len(),
        i < next,
        scan_from(s, i, line) == cons_token(
            SpecToken { typ, lexeme: s.subrange(i, end), line },
            scan_from(s, next, next_line),
        ),
        !(typ is EOF),
        scan_shape(s, next, scan_from(s, next, next_line)),
    ensures
        scan_shape(s, i, scan_from(s, i, line)),
{
    let token = SpecToken { typ, lexeme: s.subrange(i, end), line };
    match scan_from(s, next, next_line) {
        Ok(rest) => {
            let v = seq![token] + rest;
            assert(scan_from(s, i, line) == Ok::<Seq<SpecToken>, SpecScanError>(v));
            assert(v[v.len() - 1] == rest[rest.len() - 1]);
            assert forall|k: int| 0 <= k < v.len() - 1 implies !((#[trigger] v[k]).typ is EOF)
                && v[k].lexeme.len() > 0 && is_source_slice(v[k].lexeme, s, i) by {
                if k == 0 {
                    assert(v[0] == token);
                    assert(token.lexeme.len() == end - i);
                    assert(is_source_slice(token.lexeme, s, i));
                } else {
                    assert(v[k] == rest[k - 1]);
                    lemma_source_slice_widen(rest[k - 1].lexeme, s, next, i);
                }
            }
        },
        Err(_) => {},
    }
}

/// Every scan outcome has the shape: proved by walking the same recursion as
/// `scan_from` itself.
pub proof fn lemma_scan_shape(s: Seq<char>, i: int, line: nat)
    requires
        0 <= i <= s.len(),
    ensures
        scan_shape(s, i, scan_from(s, i, line)),
    decreases s.len() - i,
{
    if i >= s.len() {
    } else {
        let c = s[i];
        if c == '(' {
            lemma_scan_shape(s, i + 1, line);
            lemma_shape_step(s, i, line, SpecTokenType::LEFT_PAREN, i + 1, i + 1, line);
        } else if c == ')' {
            lemma_scan_shape(s, i + 1, line);
            lemma_shape_step(s, i, line, SpecTokenType::RIGHT_PAREN, i + 1, i + 1, line);
        } else if c == '{' {
            lemma_scan_shape(s, i + 1, line);
            lemma_shape_step(s, i, line, SpecTokenType::LEFT_BRACE, i + 1, i + 1, line);
        } else if c == '}' {
            lemma_scan_shape(s, i + 1, line);
            lemma_shape_step(s, i, line, SpecTokenType::RIGHT_BRACE, i + 1, i + 1, line);
        } else if c == ',' {
            lemma_scan_shape(s, i + 1, line);
            lemma_shape_step(s, i, line, SpecTokenType::COMMA, i + 1, i + 1, line);
        } else if c == '.' {
            lemma_scan_shape(s, i + 1, line);
            lemma_shape_step(s, i, line, SpecTokenType::DOT, i + 1, i + 1, line);
        } else if c == '+' {
            lemma_scan_shape(s, i + 1, line);
            lemma_shape_step(s, i, line, SpecTokenType::PLUS, i + 1, i + 1, line);
        } else if c == '*' {
            lemma_scan_shape(s, i + 1, line);
            lemma_shape_step(s, i, line, SpecTokenType::STAR, i + 1, i + 1, line);
        } else if c == '-' {
            lemma_scan_shape(s, i + 1, line);
            lemma_shape_step(s, i, line, SpecTokenType::MINUS, i + 1, i + 1, line);
        } else if c == ';' {
            lemma_scan_shape(s, i + 1, line);
            lemma_shape_step(s, i, line, SpecTokenType::SEMICOLON, i + 1, i + 1, line);
        } else if c == '>' {
            if i + 1 < s.len() && s[i + 1] == '=' {
                lemma_scan_shape(s, i + 2, line);
                lemma_shape_step(s, i, line, SpecTokenType::GREATER_EQUAL, i + 2, i + 2, line);
            } else {
                lemma_scan_shape(s, i + 1, line);
                lemma_shape_step(s, i, line, SpecTokenType::GREATER, i + 1, i + 1, line);
            }
        } else if c == '<' {
            if i + 1 < s.len() && s[i + 1] == '=' {
                lemma_scan_shape(s, i + 2, line);
                lemma_shape_step(s, i, line, SpecTokenType::LESS_EQUAL, i + 2, i + 2, line);
            } else {
                lemma_scan_shape(s, i + 1, line);
                lemma_shape_step(s, i, line, SpecTokenType::LESS, i + 1, i + 1, line);
            }
        } else if c == '!' {
            if i + 1 < s.len() && s[i + 1] == '=' {
                lemma_scan_shape(s, i + 2, line);
                lemma_shape_step(s, i, line, SpecTokenType::BANG_EQUAL, i + 2, i + 2, line);
            } else {
                lemma_scan_shape(s, i + 1, line);
                lemma_shape_step(s, i, line, SpecTokenType::BANG, i + 1, i + 1, line);
            }
        } else if c == '=' {
            if i + 1 < s.len() && s[i + 1] == '=' {
                lemma_scan_shape(s, i + 2, line);
                lemma_shape_step(s, i, line, SpecTokenType::EQUAL_EQUAL, i + 2, i + 2, line);
            } else {
                lemma_scan_shape(s, i + 1, line);
                lemma_shape_step(s, i, line, SpecTokenType::EQUAL, i + 1, i + 1, line);
            }
        } else if c == '/' {
            if i + 1 < s.len() && s[i + 1] == '/' {
                let j = vstd::math::min(s.len() as int, i + 2 + comment_len(s, i + 2));
                lemma_scan_shape(s, j, line);
                lemma_shape_widen(s, j, i, scan_from(s, j, line));
            } else {
                lemma_scan_shape(s, i + 1, line);
                lemma_shape_step(s, i, line, SpecTokenType::SLASH, i + 1, i + 1, line);
            }
        } else if c == ' ' || c == '\r' || c == '\t' {
            lemma_scan_shape(s, i + 1, line);
            lemma_shape_widen(s, i + 1, i, scan_from(s, i + 1, line));
        } else if c == '\n' {
            lemma_scan_shape(s, i + 1, line + 1);
            lemma_shape_widen(s, i + 1, i, scan_from(s, i + 1, line + 1));
        } else if c == '"' {
            let close = i + 1 + nonquote_len(s, i + 1);
            if close < s.len() {
                let next_line = line + count_newlines(s, i + 1, close);
                lemma_scan_shape(s, close + 1, next_line);
                lemma_shape_step(
                    s,
                    i,
                    line,
                    SpecTokenType::STRING(s.subrange(i + 1, close)),
                    close + 1,
                    close + 1,
                    next_line,
                );
            }
        } else if is_digit(c) {
            lemma_digits_len_le(s, i + 1);
            let whole = i + 1 + digits_len(s, i + 1);
            if whole + 1 < s.len() && s[whole] == '.' && is_digit(s[whole + 1]) {
                lemma_digits_len_le(s, whole + 2);
            }
            let end = number_end(s, i);
            lemma_scan_shape(s, end, line);
            lemma_shape_step(
                s,
                i,
                line,
                SpecTokenType::NUMBER(s.subrange(i, end)),
                end,
                end,
                line,
            );
        } else if is_alpha(c) {
            lemma_ident_len_le(s, i + 1);
            let end = i + 1 + ident_len(s, i + 1);
            lemma_scan_shape(s, end, line);
            lemma_shape_step(
                s,
                i,
                line,
                keyword_or_identifier_typ(s.subrange(i, end)),
                end,
                end,
                line,
            );
        }
    }
}

/// A slice taken past a prefix is a slice of the appended part.
proof fn lemma_subrange_shift(p: Seq<char>, b: Seq<char>, x: int, y: int)
    requires
        0 <= x <= y <= b.len(),
    ensures
        (p + b).subrange(p.len() + x, p.len() + y) == b.subrange(x, y),
{
    assert((p + b).subrange(p.len() + x, p.len() + y) =~= b.subrange(x, y));
}

/// A digit run past a prefix is the digit run of the appended part.
proof fn lemma_digits_len_shift(p: Seq<char>, b: Seq<char>, k: int)
    requires
        0 <= k <= b.len(),
    ensures
        digits_len(p + b, p.len() + k) == digits_len(b, k),
    decreases b.len() - k,
{
    if k < b.len() && is_digit(b[k]) {
        lemma_digits_len_shift(p, b, k + 1);
    }
}

/// An identifier run past a prefix is the run of the appended part.
proof fn lemma_ident_len_shift(p: Seq<char>, b: Seq<char>, k: int)
    requires
        0 <= k <= b.len(),
    ensures
        ident_len(p + b, p.len() + k) == ident_len(b, k),
    decreases b.len() - k,
{
    if k < b.len() && is_alnum(b[k]) {
        lemma_ident_len_shift(p, b, k + 1);
    }
}

/// A comment run past a prefix is the run of the appended part.
proof fn lemma_comment_len_shift(p: Seq<char>, b: Seq<char>, k: int)
    requires
        0 <= k <= b.len(),
    ensures
        comment_len(p + b, p.len() + k) == comment_len(b, k),
    decreases b.len() - k,
{
    if k < b.len() && b[k] != '\n' {
        lemma_comment_len_shift(p, b, k + 1);
    }
}

/// A string-body run past a prefix is the run of the appended part.
proof fn lemma_nonquote_len_shift(p: Seq<char>, b: Seq<char>, k: int)
    requires
        0 <= k <= b.len(),
    ensures
        nonquote_len(p + b, p.len() + k) == nonquote_len(b, k),
    decreases b.len() - k,
{
    if k < b.len() && b[k] != '"' {
        lemma_nonquote_len_shift(p, b, k + 1);
    }
}

/// A newline count past a prefix is the count of the appended part.
proof fn lemma_count_newlines_shift(p: Seq<char>, b: Seq<char>, x: int, y: int)
    requires
        0 <= x <= y <= b.len(),
    ensures
        count_newlines(p + b, p.len() + x, p.len() + y) == count_newlines(b, x, y),
    decreases y - x,
{
    if x < y {
        lemma_count_newlines_shift(p, b, x + 1, y);
    }
}

/// A scan never looks back: scanning past a prefix gives exactly the scan of
/// the appended part alone, token for token.
#[verifier::rlimit(80)]
proof fn lemma_scan_from_shift(p: Seq<char>, b: Seq<char>, k: int, line: nat)
    requires
        0 <= k <= b.len(),
    ensures
        scan_from(p + b, p.len() + k, line) == scan_from(b, k, line),
    decreases b.len() - k,
{
    let t = p + b;
    let i = p.len() + k;
    if k >= b.len() {
    } else {
        let c = b[k];
        assert(t[i] == c);
        if c == '(' || c == ')' || c == '{' || c == '}' || c == ',' || c == '.' || c == '+' || c
            == '*' || c == '-' || c == ';' {
            lemma_subrange_shift(p, b, k, k + 1);
            lemma_scan_from_shift(p, b, k + 1, line);
        } else if c == '>' || c == '<' || c == '!' || c == '=' {
            if k + 1 < b.len() && b[k + 1] == '=' {
                assert(t[i + 1] == b[k + 1]);
                lemma_subrange_shift(p, b, k, k + 2);
                lemma_scan_from_shift(p, b, k + 2, line);
            } else {
                if i + 1 < t.len() {
                    assert(t[i + 1] == b[k + 1]);
                }
                lemma_subrange_shift(p, b, k, k + 1);
                lemma_scan_from_shift(p, b, k + 1, line);
            }
        } else if c == '/' {
            if k + 1 < b.len() && b[k + 1] == '/' {
                assert(t[i + 1] == b[k + 1]);
                lemma_comment_len_shift(p, b, k + 2);
                lemma_comment_len_le(b, k + 2);
                lemma_scan_from_shift(p, b, k + 2 + comment_len(b, k + 2), line);
            } else {
                if i + 1 < t.len() {
                    assert(t[i + 1] == b[k + 1]);
                }
                lemma_subrange_shift(p, b, k, k + 1);
                lemma_scan_from_shift(p, b, k + 1, line);
            }
        } else if c == ' ' || c == '\r' || c == '\t' {
            lemma_scan_from_shift(p, b, k + 1, line);
        } else if c == '\n' {
            lemma_scan_from_shift(p, b, k + 1, line + 1);
        } else if c == '"' {
            lemma_nonquote_len_shift(p, b, k + 1);
            lemma_nonquote_len_le(b, k + 1);
            let close = k + 1 + nonquote_len(b, k + 1);
            if close >= b.len() {
                lemma_count_newlines_shift(p, b, k + 1, b.len() as int);
            } else {
                lemma_count_newlines_shift(p, b, k + 1, close);
                lemma_subrange_shift(p, b, k + 1, close);
                lemma_subrange_shift(p, b, k, close + 1);
                lemma_scan_from_shift(p, b, close + 1, line + count_newlines(b, k + 1, close));
            }
        } else if is_digit(c) {
            lemma_digits_len_shift(p, b, k + 1);
            lemma_digits_len_le(b, k + 1);
            let whole = k + 1 + digits_len(b, k + 1);
            if whole + 1 < b.len() && b[whole] == '.' && is_digit(b[whole + 1]) {
                assert(t[p.len() + whole] == b[whole]);
                assert(t[p.len() + whole + 1] == b[whole + 1]);
                lemma_digits_len_shift(p, b, whole + 2);
                lemma_digits_len_le(b, whole + 2);
            } else {
                if whole + 1 < b.len() {
                    assert(t[p.len() + whole] == b[whole]);
                    assert(t[p.len() + whole + 1] == b[whole + 1]);
                } else if whole < b.len() {
                    assert(t[p.len() + whole] == b[whole]);
                }
            }
            let end = number_end(b, k);
            assert(number_end(t, i) == p.len() + end);
            lemma_subrange_shift(p, b, k, end);
            lemma_scan_from_shift(p, b, end, line);
        } else if is_alpha(c) {
            lemma_ident_len_shift(p, b, k + 1);
            lemma_ident_len_le(b, k + 1);
            let end = k + 1 + ident_len(b, k + 1);
            lemma_subrange_shift(p, b, k, end);
            lemma_scan_from_shift(p, b, end, line);
        } else {
        }
    }
}

/// Two texts agreeing on a prefix have the same digit run inside it, when
/// the run stops inside the prefix or cannot continue past its end.
proof fn lemma_digits_len_agree(s: Seq<char>, t: Seq<char>, i: int)
    requires
        0 <= i <= s.len() <= t.len(),
        forall|k: int| 0 <= k < s.len() ==> t[k] == s[k],
        i + digits_len(s, i) < s.len() || s.len() == t.len() || !is_digit(t[s.len() as int]),
    ensures
        digits_len(t, i) == digits_len(s, i),
    decreases s.len() - i,
{
    if i < s.len() && is_digit(s[i]) {
        lemma_digits_len_agree(s, t, i + 1);
    }
}

/// The identifier-run form of the digit-run agreement.
proof fn lemma_ident_len_agree(s: Seq<char>, t: Seq<char>, i: int)
    requires
        0 <= i <= s.len() <= t.len(),
        forall|k: int| 0 <= k < s.len() ==> t[k] == s[k],
        i + ident_len(s, i) < s.len() || s.len() == t.len() || !is_alnum(t[s.len() as int]),
    ensures
        ident_len(t, i) == ident_len(s, i),
    decreases s.len() - i,
{
    if i < s.len() && is_alnum(s[i]) {
        lemma_ident_len_agree(s, t, i + 1);
    }
}

/// The string-body form of the digit-run agreement.
proof fn lemma_nonquote_len_agree(s: Seq<char>, t: Seq<char>, i: int)
    requires
        0 <= i <= s.len() <= t.len(),
        forall|k: int| 0 <= k < s.len() ==> t[k] == s[k],
        i + nonquote_len(s, i) < s.len() || s.len() == t.len() || t[s.len() as int] == '"',
    ensures
        nonquote_len(t, i) == nonquote_len(s, i),
    decreases s.len() - i,
{
    if i < s.len() && s[i] != '"' {
        lemma_nonquote_len_agree(s, t, i + 1);
    }
}

/// Two texts agreeing on a prefix slice alike inside it.
proof fn lemma_subrange_agree(s: Seq<char>, t: Seq<char>, x: int, y: int)
    requires
        s.len() <= t.len(),
        forall|k: int| 0 <= k < s.len() ==> t[k] == s[k],
        0 <= x <= y <= s.len(),
    ensures
        t.subrange(x, y) == s.subrange(x, y),
{
    assert(t.subrange(x, y) =~= s.subrange(x, y));
}

/// When a scan begins by skipping trivia, its first token lies wholly after
/// the skipped part, so its lexeme is shorter than the text from the start.
proof fn lemma_trivia_start_short(a: Seq<char>, t1: SpecToken, eof_a: SpecToken, j: int, l2: nat)
    requires
        scan_all(a) == Ok::<Seq<SpecToken>, SpecScanError>(seq![t1, eof_a]),
        scan_from(a, 0, 1) == scan_from(a, j, l2),
        1 <= j <= a.len(),
    ensures
        t1.lexeme.len() < a.len(),
{
    lemma_scan_shape(a, j, l2);
    let v = seq![t1, eof_a];
    assert(scan_shape(a, j, Ok::<Seq<SpecToken>, SpecScanError>(v)));
    assert(v[0] == t1);
    assert(is_source_slice(t1.lexeme, a, j));
    let (x, y) = choose|x: int, y: int|
        j <= x < y <= a.len() && t1.lexeme == #[trigger] a.subrange(x, y);
    assert(t1.lexeme.len() == y - x);
}

/// The common tail of the first-token argument: the first step over the
/// longer text consumes the same slice and emits the same token as the step
/// over the lexeme alone.
proof fn lemma_first_token_piece(
    a: Seq<char>,
    rest: Seq<char>,
    t1: SpecToken,
    eof_a: SpecToken,
    typ: SpecTokenType,
    e: int,
    line2: nat,
)
    requires
        t1.lexeme == a,
        scan_all(a) == Ok::<Seq<SpecToken>, SpecScanError>(seq![t1, eof_a]),
        scan_all(a) == cons_token(
            SpecToken { typ, lexeme: a.subrange(0, e), line: 1 },
            scan_from(a, e, line2),
        ),
        scan_from(a + rest, 0, 1) == cons_token(
            SpecToken { typ, lexeme: (a + rest).subrange(0, e), line: 1 },
            scan_from(a + rest, e, 1),
        ),
        0 < e <= a.len(),
    ensures
        e == a.len(),
        scan_from(a + rest, 0, 1) == cons_token(t1, scan_from(a + rest, a.len() as int, 1)),
{
    let tok_a = SpecToken { typ, lexeme: a.subrange(0, e), line: 1 };
    match scan_from(a, e, line2) {
        Ok(v2) => {
            assert(seq![tok_a] + v2 == seq![t1, eof_a]);
            assert((seq![tok_a] + v2)[0] == tok_a);
            assert(tok_a == t1);
            assert(a.subrange(0, e).len() == e);
            assert(e == a.len());
        },
        Err(_) => {
            assert(false);
        },
    }
    assert(a.len() <= (a + rest).len());
    assert(forall|k: int| 0 <= k < a.len() ==> (a + rest)[k] == a[k]);
    lemma_subrange_agree(a, a + rest, 0, e);
    assert(a.subrange(0, a.len() as int) =~= a);
    assert((a + rest).subrange(0, e) == a);
}

/// A source that is exactly one token's lexeme keeps that token when more
/// text follows after a space: the first step over the longer text consumes
/// exactly the lexeme and emits exactly that token.
proof fn lemma_first_token(a: Seq<char>, rest: Seq<char>, t1: SpecToken, eof_a: SpecToken)
    requires
        scan_all(a) == Ok::<Seq<SpecToken>, SpecScanError>(seq![t1, eof_a]),
        t1.lexeme == a,
        forall|k: int| 0 <= k < a.len() ==> a[k] != '\n',
        rest.len() > 0,
        rest[0] == ' ',
    ensures
        scan_from(a + rest, 0, 1) == cons_token(t1, scan_from(a + rest, a.len() as int, 1)),
{
    let c = a + rest;
    let n = a.len() as int;
    assert(forall|k: int| 0 <= k < n ==> c[k] == a[k]);
    assert(c[n] == rest[0]);
    if a.len() == 0 {
        assert(scan_all(a) == Ok::<Seq<SpecToken>, SpecScanError>(
            seq![SpecToken { typ: SpecTokenType::EOF, lexeme: Seq::empty(), line: 1 }],
        ));
        assert(false);
    }
    let ch = a[0];
    assert(c[0] == ch);
    if ch == '(' {
        lemma_first_token_piece(a, rest, t1, eof_a, SpecTokenType::LEFT_PAREN, 1, 1);
    } else if ch == ')' {
        lemma_first_token_piece(a, rest, t1, eof_a, SpecTokenType::RIGHT_PAREN, 1, 1);
    } else if ch == '{' {
        lemma_first_token_piece(a, rest, t1, eof_a, SpecTokenType::LEFT_BRACE, 1, 1);
    } else if ch == '}' {
        lemma_first_token_piece(a, rest, t1, eof_a, SpecTokenType::RIGHT_BRACE, 1, 1);
    } else if ch == ',' {
        lemma_first_token_piece(a, rest, t1, eof_a, SpecTokenType::COMMA, 1, 1);
    } else if ch == '.' {
        lemma_first_token_piece(a, rest, t1, eof_a, SpecTokenType::DOT, 1, 1);
    } else if ch == '+' {
        lemma_first_token_piece(a, rest, t1, eof_a, SpecTokenType::PLUS, 1, 1);
    } else if ch == '*' {
        lemma_first_token_piece(a, rest, t1, eof_a, SpecTokenType::STAR, 1, 1);
    } else if ch == '-' {
        lemma_first_token_piece(a, rest, t1, eof_a, SpecTokenType::MINUS, 1, 1);
    } else if ch == ';' {
        lemma_first_token_piece(a, rest, t1, eof_a, SpecTokenType::SEMICOLON, 1, 1);
    } else if ch == '>' {
        if 1 < a.len() && a[1] == '=' {
            assert(c[1] == a[1]);
            lemma_first_token_piece(a, rest, t1, eof_a, SpecTokenType::GREATER_EQUAL, 2, 1);
        } else {
            if 1 < a.len() {
                assert(c[1] == a[1]);
            }
            lemma_first_token_piece(a, rest, t1, eof_a, SpecTokenType::GREATER, 1, 1);
        }
    } else if ch == '<' {
        if 1 < a.len() && a[1] == '=' {
            assert(c[1] == a[1]);
            lemma_first_token_piece(a, rest, t1, eof_a, SpecTokenType::LESS_EQUAL, 2, 1);
        } else {
            if 1 < a.len() {
                assert(c[1] == a[1]);
            }
            lemma_first_token_piece(a, rest, t1, eof_a, SpecTokenType::LESS, 1, 1);
        }
    } else if ch == '!' {
        if 1 < a.len() && a[1] == '=' {
            assert(c[1] == a[1]);
            lemma_first_token_piece(a, rest, t1, eof_a, SpecTokenType::BANG_EQUAL, 2, 1);
        } else {
            if 1 < a.len() {
                assert(c[1] == a[1]);
            }
            lemma_first_token_piece(a, rest, t1, eof_a, SpecTokenType::BANG, 1, 1);
        }
    } else if ch == '=' {
        if 1 < a.len() && a[1] == '=' {
            assert(c[1] == a[1]);
            lemma_first_token_piece(a, rest, t1, eof_a, SpecTokenType::EQUAL_EQUAL, 2, 1);
        } else {
            if 1 < a.len() {
                assert(c[1] == a[1]);
            }
            lemma_first_token_piece(a, rest, t1, eof_a, SpecTokenType::EQUAL, 1, 1);
        }
    } else if ch == '/' {
        if 1 < a.len() && a[1] == '/' {
            let j = vstd::math::min(a.len() as int, 2 + comment_len(a, 2) as int);
            lemma_comment_len_le(a, 2);
            lemma_trivia_start_short(a, t1, eof_a, j, 1);
        } else {
            if 1 < a.len() {
                assert(c[1] == a[1]);
            }
            lemma_first_token_piece(a, rest, t1, eof_a, SpecTokenType::SLASH, 1, 1);
        }
    } else if ch == ' ' || ch == '\r' || ch == '\t' {
        lemma_trivia_start_short(a, t1, eof_a, 1, 1);
    } else if ch == '\n' {
        assert(false);
    } else if ch == '"' {
        let close: int = 1 + nonquote_len(a, 1) as int;
        lemma_nonquote_len_le(a, 1);
        if close >= a.len() {
            assert(false);
        } else {
            lemma_nonquote_len_agree(a, c, 1);
            lemma_count_newlines_zero(a, 1, close);
            lemma_count_newlines_zero(c, 1, close);
            lemma_subrange_agree(a, c, 1, close);
            lemma_first_token_piece(
                a,
                rest,
                t1,
                eof_a,
                SpecTokenType::STRING(a.subrange(1, close)),
                close + 1,
                1 + count_newlines(a, 1, close),
            );
        }
    } else if is_digit(ch) {
        lemma_digits_len_le(a, 1);
        lemma_digits_len_agree(a, c, 1);
        let whole: int = 1 + digits_len(a, 1) as int;
        if whole + 1 < a.len() && a[whole] == '.' && is_digit(a[whole + 1]) {
            assert(c[whole] == a[whole]);
            assert(c[whole + 1] == a[whole + 1]);
            lemma_digits_len_le(a, whole + 2);
            lemma_digits_len_agree(a, c, whole + 2);
        } else {
            if whole < a.len() {
                assert(c[whole] == a[whole]);
            }
            if whole + 1 < a.len() {
                assert(c[whole + 1] == a[whole + 1]);
            }
        }
        let end = number_end(a, 0);
        assert(number_end(c, 0) == end);
        lemma_subrange_agree(a, c, 0, end);
        lemma_first_token_piece(
            a,
            rest,
            t1,
            eof_a,
            SpecTokenType::NUMBER(a.subrange(0, end)),
            end,
            1,
        );
    } else if is_alpha(ch) {
        lemma_ident_len_le(a, 1);
        lemma_ident_len_agree(a, c, 1);
        let end: int = 1 + ident_len(a, 1) as int;
        lemma_subrange_agree(a, c, 0, end);
        lemma_first_token_piece(
            a,
            rest,
            t1,
            eof_a,
            keyword_or_identifier_typ(a.subrange(0, end)),
            end,
            1,
        );
    } else {
        assert(false);
    }
}

/// Round trip: scanning the concatenation of two valid token lexemes,
/// separated by a single space, yields the same two tokens as scanning them
/// separately, followed by the trailing EOF of the second scan.  Each source
/// is exactly its token's lexeme; the first must not span lines, since a
/// lexeme with a newline in it would push the second token onto a later line.
pub proof fn lemma_round_trip(
    a: Seq<char>,
    b: Seq<char>,
    t1: SpecToken,
    eof_a: SpecToken,
    t2: SpecToken,
    eof_b: SpecToken,
)
    requires
        scan_all(a) == Ok::<Seq<SpecToken>, SpecScanError>(seq![t1, eof_a]),
        t1.lexeme == a,
        scan_all(b) == Ok::<Seq<SpecToken>, SpecScanError>(seq![t2, eof_b]),
        t2.lexeme == b,
        forall|k: int| 0 <= k < a.len() ==> a[k] != '\n',
    ensures
        scan_all(a + seq![' '] + b) == Ok::<Seq<SpecToken>, SpecScanError>(seq![t1, t2, eof_b]),
{
    let rest = seq![' '] + b;
    let c = a + rest;
    assert(rest[0] == ' ');
    lemma_first_token(a, rest, t1, eof_a);
    let n = a.len() as int;
    assert(c[n] == ' ');
    assert(scan_from(c, n, 1) == scan_from(c, n + 1, 1));
    let p = a + seq![' '];
    assert(c =~= p + b);
    lemma_scan_from_shift(p, b, 0, 1);
    assert(scan_from(c, n + 1, 1) == scan_from(b, 0, 1));
    assert(scan_from(c, 0, 1) == cons_token(
        t1,
        Ok::<Seq<SpecToken>, SpecScanError>(seq![t2, eof_b]),
    ));
    assert(seq![t1] + seq![t2, eof_b] =~= seq![t1, t2, eof_b]);
}

/// For any source with no errors, the last token is the one EOF token and
/// every other token has a non-empty lexeme matching exactly a slice of the
/// source text.
pub proof fn lemma_scan_ok_shape(s: Seq<char>)
    ensures
        scan_shape(s, 0, scan_all(s)),
{
    lemma_scan_shape(s, 0, 1);
}

} // verus!
