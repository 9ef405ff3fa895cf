//! The scanner: a single forward pass over the source text.
//!
//! `Scanner::scan_tokens` is proved to return exactly the outcome of the
//! specification walk `model::scan_all` on its source text.

use vstd::prelude::*;

use crate::model::{
    comment_len, cons_token, count_newlines, digits_len, ident_len, is_alnum, is_alpha, is_digit,
    lemma_comment_len_le, lemma_count_newlines_le, lemma_count_newlines_snoc, lemma_digits_len_le,
    lemma_empty_extends, lemma_ident_len_le, lemma_quiet_step, lemma_scan_extends_trans,
    lemma_token_step, lemma_tokens_views_push, lemma_views_decompose, nonquote_len, number_end,
    scan_all, scan_extends, scan_from, tokens_views, SpecScanError,
};
use crate::token::{
    keyword_or_identifier, keyword_or_identifier_typ, SpecToken, SpecTokenType, Token, TokenType,
};
use vstd::string::StrSliceExecFns;

verus! {

/// A scan failure.  The scan stops at the first one; the line is 1-based.
///
/// An unterminated string is reported at the line reached when the input ran
/// out; an unrecognized character at the line it stands on.
#[derive(Debug, Clone, Copy, PartialEq, Eq)]
pub enum ScanError {
    UnterminatedString { line: usize },
    UnrecognizedCharacter { line: usize, ch: char },
}

impl View for ScanError {
    type V = SpecScanError;

    open spec fn view(&self) -> SpecScanError {
        match self {
            ScanError::UnterminatedString { line } => SpecScanError::UnterminatedString {
                line: *line as nat,
            },
            ScanError::UnrecognizedCharacter { line, ch } => SpecScanError::UnrecognizedCharacter {
                line: *line as nat,
                ch: *ch,
            },
        }
    }
}

impl ScanError {
    /// The 1-based line the failure was detected on.
    pub fn line(&self) -> (line: usize)
        ensures
            (match self@ {
                SpecScanError::UnterminatedString { line: l } => line as nat == l,
                SpecScanError::UnrecognizedCharacter { line: l, .. } => line as nat == l,
            }),
    {
        match self {
            ScanError::UnterminatedString { line } => *line,
            ScanError::UnrecognizedCharacter { line, .. } => *line,
        }
    }
}

/// The scanner's state: the source text, the tokens emitted so far, the
/// current line, and the two cursor offsets.  `start` marks the beginning of
/// the lexeme being recognized, `current` the next unconsumed character;
/// offsets count characters, not bytes.
pub struct Scanner {
    pub source: String,
    pub len: usize,
    pub tokens: Vec<Token>,
    pub line: usize,
    pub current: usize,
    pub start: usize,
}

impl Scanner {
    /// The state invariant: the cursors stay inside the text, `start` never
    /// passes `current`, and `line` is one more than the number of newlines
    /// consumed so far.
    pub open spec fn wf(&self) -> bool {
        &&& self.len == self.source@.len()
        &&& self.source@.len() < usize::MAX
        &&& self.start <= self.current <= self.source@.len()
        &&& self.line == 1 + count_newlines(self.source@, 0, self.current as int)
    }

    /// A fresh scanner over `source`, at the first character of line 1, with
    /// no tokens yet.  The length bound is a machine limit: the line counter
    /// must fit in `usize` even when every character is a newline.
    pub fn new(source: String) -> (scanner: Scanner)
        requires
            source@.len() < usize::MAX,
        ensures
            scanner.wf(),
            scanner.source@ == source@,
            scanner.current == 0,
            scanner.start == 0,
            scanner.line == 1,
            scanner.tokens@ == Seq::<Token>::empty(),
    {
        let len = source.as_str().unicode_len();
        proof {
            assert(count_newlines(source@, 0, 0) == 0);
        }
        Scanner { source, len, tokens: Vec::new(), line: 1, current: 0, start: 0 }
    }

    /// Whether the cursor has consumed the whole text.
    pub fn is_at_end(&self) -> (at_end: bool)
        requires
            self.wf(),
        ensures
            at_end == (self.current == self.source@.len()),
    {
        self.current >= self.len
    }

    /// The next unconsumed character, without consuming it; a NUL character
    /// stands in at the end of the text.
    pub fn peek(&self) -> (c: char)
        requires
            self.wf(),
        ensures
            (c == if self.current < self.source@.len() {
                self.source@[self.current as int]
            } else {
                '\0'
            }),
    {
        if self.is_at_end() {
            '\0'
        } else {
            self.source.as_str().get_char(self.current)
        }
    }

    /// The character one past the next unconsumed one, with the same NUL
    /// stand-in at the end.
    pub fn peek_next(&self) -> (c: char)
        requires
            self.wf(),
        ensures
            (c == if self.current + 1 < self.source@.len() {
                self.source@[self.current + 1]
            } else {
                '\0'
            }),
    {
        if self.current + 1 >= self.len {
            '\0'
        } else {
            self.source.as_str().get_char(self.current + 1)
        }
    }

    /// Consumes and returns the next character, stepping the line counter
    /// over a newline.
    pub fn advance(&mut self) -> (c: char)
        requires
            old(self).wf(),
            old(self).current < old(self).source@.len(),
        ensures
            final(self).wf(),
            c == old(self).source@[old(self).current as int],
            final(self).current == old(self).current + 1,
            final(self).line == old(self).line + (if c == '\n' {
                1int
            } else {
                0int
            }),
            final(self).source@ == old(self).source@,
            final(self).tokens@ == old(self).tokens@,
            final(self).start == old(self).start,
            final(self).len == old(self).len,
    {
        proof {
            lemma_count_newlines_le(self.source@, 0, self.current as int);
            lemma_count_newlines_snoc(self.source@, 0, self.current as int);
        }
        let c = self.source.as_str().get_char(self.current);
        self.current = self.current + 1;
        if c == '\n' {
            self.line = self.line + 1;
        }
        c
    }

    /// One character of lookahead for two-character operators: consumes the
    /// next character only when it is `expected`.
    pub fn match_next_char(&mut self, expected: char) -> (matched: bool)
        requires
            old(self).wf(),
        ensures
            final(self).wf(),
            matched == (old(self).current < old(self).source@.len()
                && old(self).source@[old(self).current as int] == expected),
            final(self).source@ == old(self).source@,
            final(self).tokens@ == old(self).tokens@,
            final(self).start == old(self).start,
            final(self).len == old(self).len,
            (if matched {
                final(self).current == old(self).current + 1 && final(self).line == old(self).line
                    + (if expected == '\n' {
                    1int
                } else {
                    0int
                })
            } else {
                final(self).current == old(self).current && final(self).line == old(self).line
            }),
    {
        if self.is_at_end() {
            return false;
        }
        if self.peek() != expected {
            return false;
        }
        self.advance();
        true
    }

    /// Emits a token of category `typ` whose lexeme is the slice of source
    /// between the two cursors, tagged with the current line.
    pub fn add_token_type(&mut self, typ: TokenType)
        requires
            old(self).wf(),
        ensures
            final(self).wf(),
            tokens_views(final(self).tokens@) == tokens_views(old(self).tokens@).push(
                SpecToken {
                    typ: typ@,
                    lexeme: old(self).source@.subrange(
                        old(self).start as int,
                        old(self).current as int,
                    ),
                    line: old(self).line as nat,
                },
            ),
            final(self).source@ == old(self).source@,
            final(self).current == old(self).current,
            final(self).start == old(self).start,
            final(self).line == old(self).line,
            final(self).len == old(self).len,
    {
        let lexeme = self.source.as_str().substring_char(self.start, self.current).to_owned();
        let token = Token::new(typ, lexeme, self.line);
        proof {
            lemma_tokens_views_push(self.tokens@, token);
        }
        self.tokens.push(token);
    }

    /// Scans a number literal: a maximal digit run, extended over a decimal
    /// point only when at least one digit follows it.  A trailing dot is left
    /// for the next scan cycle.  Called with the first digit just consumed.
    pub fn scan_number(&mut self) -> (r: Result<(), ScanError>)
        requires
            old(self).wf(),
            old(self).current == old(self).start + 1,
            old(self).start < old(self).source@.len(),
            is_digit(old(self).source@[old(self).start as int]),
        ensures
            final(self).wf(),
            r is Ok,
            final(self).source@ == old(self).source@,
            final(self).start == old(self).start,
            final(self).len == old(self).len,
            final(self).line == old(self).line,
            final(self).current == number_end(old(self).source@, old(self).start as int),
            tokens_views(final(self).tokens@) == tokens_views(old(self).tokens@).push(
                SpecToken {
                    typ: SpecTokenType::NUMBER(
                        old(self).source@.subrange(
                            old(self).start as int,
                            number_end(old(self).source@, old(self).start as int),
                        ),
                    ),
                    lexeme: old(self).source@.subrange(
                        old(self).start as int,
                        number_end(old(self).source@, old(self).start as int),
                    ),
                    line: old(self).line as nat,
                },
            ),
    {
        let ghost s = self.source@;
        let ghost first = self.start as int;
        let ghost line0 = self.line;
        let ghost tokens0 = self.tokens@;
        while is_digit_char(self.peek())
            invariant
                self.wf(),
                self.source@ == s,
                self.start == old(self).start,
                self.len == old(self).len,
                self.line == line0,
                self.tokens@ == tokens0,
                first + 1 <= self.current <= s.len(),
                first + 1 + digits_len(s, first + 1) == self.current + digits_len(
                    s,
                    self.current as int,
                ),
            decreases s.len() - self.current,
        {
            proof {
                assert(digits_len(s, self.current as int) == digits_len(
                    s,
                    self.current as int + 1,
                ) + 1);
            }
            self.advance();
        }
        proof {
            assert(digits_len(s, self.current as int) == 0);
        }
        let ghost whole = self.current as int;
        if self.peek() == '.' && is_digit_char(self.peek_next()) {
            self.advance();
            proof {
                assert(digits_len(s, whole + 1) == digits_len(s, whole + 2) + 1);
            }
            while is_digit_char(self.peek())
                invariant
                    self.wf(),
                    self.source@ == s,
                    self.start == old(self).start,
                    self.len == old(self).len,
                    self.line == line0,
                    self.tokens@ == tokens0,
                    whole + 1 <= self.current <= s.len(),
                    whole + 1 + digits_len(s, whole + 1) == self.current + digits_len(
                        s,
                        self.current as int,
                    ),
                decreases s.len() - self.current,
            {
                proof {
                    assert(digits_len(s, self.current as int) == digits_len(
                        s,
                        self.current as int + 1,
                    ) + 1);
                }
                self.advance();
            }
            proof {
                assert(digits_len(s, self.current as int) == 0);
            }
        }
        let digits = self.source.as_str().substring_char(self.start, self.current).to_owned();
        self.add_token_type(TokenType::NUMBER(digits));
        Ok(())
    }

    /// Scans an identifier or reserved word: a maximal run of letters, digits
    /// and underscores, looked up against the keyword table as a whole word.
    /// Called with the first character just consumed.
    pub fn scan_identifier_or_reserved(&mut self) -> (r: Result<(), ScanError>)
        requires
            old(self).wf(),
            old(self).current == old(self).start + 1,
            old(self).start < old(self).source@.len(),
            is_alpha(old(self).source@[old(self).start as int]),
        ensures
            final(self).wf(),
            r is Ok,
            final(self).source@ == old(self).source@,
            final(self).start == old(self).start,
            final(self).len == old(self).len,
            final(self).line == old(self).line,
            final(self).current == old(self).start + 1 + ident_len(
                old(self).source@,
                old(self).start + 1,
            ),
            tokens_views(final(self).tokens@) == tokens_views(old(self).tokens@).push(
                SpecToken {
                    typ: crate::token::keyword_or_identifier_typ(
                        old(self).source@.subrange(
                            old(self).start as int,
                            old(self).start + 1 + ident_len(old(self).source@, old(self).start + 1),
                        ),
                    ),
                    lexeme: old(self).source@.subrange(
                        old(self).start as int,
                        old(self).start + 1 + ident_len(old(self).source@, old(self).start + 1),
                    ),
                    line: old(self).line as nat,
                },
            ),
    {
        let ghost s = self.source@;
        let ghost first = self.start as int;
        let ghost line0 = self.line;
        let ghost tokens0 = self.tokens@;
        while is_alnum_char(self.peek())
            invariant
                self.wf(),
                self.source@ == s,
                self.start == old(self).start,
                self.len == old(self).len,
                self.line == line0,
                self.tokens@ == tokens0,
                first + 1 <= self.current <= s.len(),
                first + 1 + ident_len(s, first + 1) == self.current + ident_len(
                    s,
                    self.current as int,
                ),
            decreases s.len() - self.current,
        {
            proof {
                assert(ident_len(s, self.current as int) == ident_len(
                    s,
                    self.current as int + 1,
                ) + 1);
            }
            self.advance();
        }
        proof {
            assert(ident_len(s, self.current as int) == 0);
        }
        let text = self.source.as_str().substring_char(self.start, self.current).to_owned();
        let typ = keyword_or_identifier(text);
        self.add_token_type(typ);
        Ok(())
    }

    /// Scans a string literal: everything up to the closing quote, which may
    /// span lines.  The token carries the line the string began on and its
    /// payload is the text strictly between the quotes.  Input running out
    /// before the closing quote is an unterminated-string error, reported at
    /// the line reached.  Called with the opening quote just consumed.
    pub fn scan_string(&mut self) -> (r: Result<(), ScanError>)
        requires
            old(self).wf(),
            old(self).current == old(self).start + 1,
            old(self).start < old(self).source@.len(),
            old(self).source@[old(self).start as int] == '"',
        ensures
            final(self).wf(),
            final(self).source@ == old(self).source@,
            final(self).start == old(self).start,
            final(self).len == old(self).len,
            ({
                let s = old(self).source@;
                let body = old(self).start + 1;
                let close = body + nonquote_len(s, body);
                if close >= s.len() {
                    &&& r matches Err(e) && e@ == (SpecScanError::UnterminatedString {
                        line: old(self).line as nat + count_newlines(s, body, s.len() as int),
                    })
                    &&& final(self).current == s.len()
                    &&& final(self).tokens@ == old(self).tokens@
                } else {
                    &&& r is Ok
                    &&& final(self).current == close + 1
                    &&& final(self).line == old(self).line + count_newlines(s, body, close)
                    &&& tokens_views(final(self).tokens@) == tokens_views(old(self).tokens@).push(
                        SpecToken {
                            typ: SpecTokenType::STRING(s.subrange(body, close)),
                            lexeme: s.subrange(old(self).start as int, close + 1),
                            line: old(self).line as nat,
                        },
                    )
                }
            }),
    {
        let ghost s = self.source@;
        let ghost body = self.start as int + 1;
        let ghost line0 = self.line as int;
        let ghost tokens0 = self.tokens@;
        let line_start = self.line;
        while !self.is_at_end() && self.peek() != '"'
            invariant
                self.wf(),
                self.source@ == s,
                self.start == old(self).start,
                self.len == old(self).len,
                self.tokens@ == tokens0,
                body <= self.current <= s.len(),
                body + nonquote_len(s, body) == self.current + nonquote_len(
                    s,
                    self.current as int,
                ),
                self.line == line0 + count_newlines(s, body, self.current as int),
            decreases s.len() - self.current,
        {
            proof {
                assert(nonquote_len(s, self.current as int) == nonquote_len(
                    s,
                    self.current as int + 1,
                ) + 1);
                lemma_count_newlines_snoc(s, body, self.current as int);
            }
            self.advance();
        }
        proof {
            assert(nonquote_len(s, self.current as int) == 0);
        }
        if self.is_at_end() {
            return Err(ScanError::UnterminatedString { line: self.line });
        }
        self.advance();
        let payload = self.source.as_str().substring_char(self.start + 1, self.current - 1)
            .to_owned();
        let lexeme = self.source.as_str().substring_char(self.start, self.current).to_owned();
        let token = Token::new(TokenType::STRING(payload), lexeme, line_start);
        proof {
            lemma_tokens_views_push(self.tokens@, token);
        }
        self.tokens.push(token);
        Ok(())
    }

    /// Consumes one lexeme starting at the cursor: classifies its first
    /// character, resolves two-character operators by one character of
    /// lookahead, and emits zero or more tokens.  The outcome of the scan
    /// from the old cursor is the outcome from the new cursor with whatever
    /// this step emitted in front of it.
    pub fn scan_token(&mut self) -> (r: Result<(), ScanError>)
        requires
            old(self).wf(),
            old(self).start == old(self).current,
            old(self).current < old(self).source@.len(),
        ensures
            final(self).wf(),
            final(self).source@ == old(self).source@,
            final(self).start == old(self).start,
            final(self).len == old(self).len,
            (match r {
                Ok(_) => {
                    &&& old(self).current < final(self).current <= old(self).source@.len()
                    &&& tokens_views(final(self).tokens@).len() >= tokens_views(
                        old(self).tokens@,
                    ).len()
                    &&& tokens_views(final(self).tokens@).take(
                        tokens_views(old(self).tokens@).len() as int,
                    ) == tokens_views(old(self).tokens@)
                    &&& scan_extends(
                        scan_from(
                            old(self).source@,
                            old(self).current as int,
                            old(self).line as nat,
                        ),
                        tokens_views(final(self).tokens@).skip(
                            tokens_views(old(self).tokens@).len() as int,
                        ),
                        scan_from(
                            old(self).source@,
                            final(self).current as int,
                            final(self).line as nat,
                        ),
                    )
                },
                Err(e) => {
                    &&& scan_from(
                        old(self).source@,
                        old(self).current as int,
                        old(self).line as nat,
                    ) == Err::<Seq<SpecToken>, SpecScanError>(e@)
                    &&& final(self).tokens@ == old(self).tokens@
                },
            }),
    {
        let ghost s = self.source@;
        let ghost i = self.current as int;
        let ghost l = self.line as nat;
        let ghost views0 = tokens_views(self.tokens@);
        let c = self.advance();
        if c == '(' {
            self.add_token_type(TokenType::LEFT_PAREN);
            proof {
                let tok = SpecToken {
                    typ: SpecTokenType::LEFT_PAREN,
                    lexeme: s.subrange(i, i + 1),
                    line: l,
                };
                assert(scan_from(s, i, l) == cons_token(tok, scan_from(s, i + 1, l)));
                lemma_token_step(s, i, l, views0, tokens_views(self.tokens@), tok, i + 1, l);
            }
            Ok(())
        } else if c == ')' {
            self.add_token_type(TokenType::RIGHT_PAREN);
            proof {
                let tok = SpecToken {
                    typ: SpecTokenType::RIGHT_PAREN,
                    lexeme: s.subrange(i, i + 1),
                    line: l,
                };
                assert(scan_from(s, i, l) == cons_token(tok, scan_from(s, i + 1, l)));
                lemma_token_step(s, i, l, views0, tokens_views(self.tokens@), tok, i + 1, l);
            }
            Ok(())
        } else if c == '{' {
            self.add_token_type(TokenType::LEFT_BRACE);
            proof {
                let tok = SpecToken {
                    typ: SpecTokenType::LEFT_BRACE,
                    lexeme: s.subrange(i, i + 1),
                    line: l,
                };
                assert(scan_from(s, i, l) == cons_token(tok, scan_from(s, i + 1, l)));
                lemma_token_step(s, i, l, views0, tokens_views(self.tokens@), tok, i + 1, l);
            }
            Ok(())
        } else if c == '}' {
            self.add_token_type(TokenType::RIGHT_BRACE);
            proof {
                let tok = SpecToken {
                    typ: SpecTokenType::RIGHT_BRACE,
                    lexeme: s.subrange(i, i + 1),
                    line: l,
                };
                assert(scan_from(s, i, l) == cons_token(tok, scan_from(s, i + 1, l)));
                lemma_token_step(s, i, l, views0, tokens_views(self.tokens@), tok, i + 1, l);
            }
            Ok(())
        } else if c == ',' {
            self.add_token_type(TokenType::COMMA);
            proof {
                let tok = SpecToken {
                    typ: SpecTokenType::COMMA,
                    lexeme: s.subrange(i, i + 1),
                    line: l,
                };
                assert(scan_from(s, i, l) == cons_token(tok, scan_from(s, i + 1, l)));
                lemma_token_step(s, i, l, views0, tokens_views(self.tokens@), tok, i + 1, l);
            }
            Ok(())
        } else if c == '.' {
            self.add_token_type(TokenType::DOT);
            proof {
                let tok = SpecToken {
                    typ: SpecTokenType::DOT,
                    lexeme: s.subrange(i, i + 1),
                    line: l,
                };
                assert(scan_from(s, i, l) == cons_token(tok, scan_from(s, i + 1, l)));
                lemma_token_step(s, i, l, views0, tokens_views(self.tokens@), tok, i + 1, l);
            }
            Ok(())
        } else if c == '+' {
            self.add_token_type(TokenType::PLUS);
            proof {
                let tok = SpecToken {
                    typ: SpecTokenType::PLUS,
                    lexeme: s.subrange(i, i + 1),
                    line: l,
                };
                assert(scan_from(s, i, l) == cons_token(tok, scan_from(s, i + 1, l)));
                lemma_token_step(s, i, l, views0, tokens_views(self.tokens@), tok, i + 1, l);
            }
            Ok(())
        } else if c == '*' {
            self.add_token_type(TokenType::STAR);
            proof {
                let tok = SpecToken {
                    typ: SpecTokenType::STAR,
                    lexeme: s.subrange(i, i + 1),
                    line: l,
                };
                assert(scan_from(s, i, l) == cons_token(tok, scan_from(s, i + 1, l)));
                lemma_token_step(s, i, l, views0, tokens_views(self.tokens@), tok, i + 1, l);
            }
            Ok(())
        } else if c == '-' {
            self.add_token_type(TokenType::MINUS);
            proof {
                let tok = SpecToken {
                    typ: SpecTokenType::MINUS,
                    lexeme: s.subrange(i, i + 1),
                    line: l,
                };
                assert(scan_from(s, i, l) == cons_token(tok, scan_from(s, i + 1, l)));
                lemma_token_step(s, i, l, views0, tokens_views(self.tokens@), tok, i + 1, l);
            }
            Ok(())
        } else if c == ';' {
            self.add_token_type(TokenType::SEMICOLON);
            proof {
                let tok = SpecToken {
                    typ: SpecTokenType::SEMICOLON,
                    lexeme: s.subrange(i, i + 1),
                    line: l,
                };
                assert(scan_from(s, i, l) == cons_token(tok, scan_from(s, i + 1, l)));
                lemma_token_step(s, i, l, views0, tokens_views(self.tokens@), tok, i + 1, l);
            }
            Ok(())
        } else if c == '>' {
            if self.match_next_char('=') {
                self.add_token_type(TokenType::GREATER_EQUAL);
                proof {
                    let tok = SpecToken {
                        typ: SpecTokenType::GREATER_EQUAL,
                        lexeme: s.subrange(i, i + 2),
                        line: l,
                    };
                    assert(scan_from(s, i, l) == cons_token(tok, scan_from(s, i + 2, l)));
                    lemma_token_step(s, i, l, views0, tokens_views(self.tokens@), tok, i + 2, l);
                }
            } else {
                self.add_token_type(TokenType::GREATER);
                proof {
                    let tok = SpecToken {
                        typ: SpecTokenType::GREATER,
                        lexeme: s.subrange(i, i + 1),
                        line: l,
                    };
                    assert(scan_from(s, i, l) == cons_token(tok, scan_from(s, i + 1, l)));
                    lemma_token_step(s, i, l, views0, tokens_views(self.tokens@), tok, i + 1, l);
                }
            }
            Ok(())
        } else if c == '<' {
            if self.match_next_char('=') {
                self.add_token_type(TokenType::LESS_EQUAL);
                proof {
                    let tok = SpecToken {
                        typ: SpecTokenType::LESS_EQUAL,
                        lexeme: s.subrange(i, i + 2),
                        line: l,
                    };
                    assert(scan_from(s, i, l) == cons_token(tok, scan_from(s, i + 2, l)));
                    lemma_token_step(s, i, l, views0, tokens_views(self.tokens@), tok, i + 2, l);
                }
            } else {
                self.add_token_type(TokenType::LESS);
                proof {
                    let tok = SpecToken {
                        typ: SpecTokenType::LESS,
                        lexeme: s.subrange(i, i + 1),
                        line: l,
                    };
                    assert(scan_from(s, i, l) == cons_token(tok, scan_from(s, i + 1, l)));
                    lemma_token_step(s, i, l, views0, tokens_views(self.tokens@), tok, i + 1, l);
                }
            }
            Ok(())
        } else if c == '!' {
            if self.match_next_char('=') {
                self.add_token_type(TokenType::BANG_EQUAL);
                proof {
                    let tok = SpecToken {
                        typ: SpecTokenType::BANG_EQUAL,
                        lexeme: s.subrange(i, i + 2),
                        line: l,
                    };
                    assert(scan_from(s, i, l) == cons_token(tok, scan_from(s, i + 2, l)));
                    lemma_token_step(s, i, l, views0, tokens_views(self.tokens@), tok, i + 2, l);
                }
            } else {
                self.add_token_type(TokenType::BANG);
                proof {
                    let tok = SpecToken {
                        typ: SpecTokenType::BANG,
                        lexeme: s.subrange(i, i + 1),
                        line: l,
                    };
                    assert(scan_from(s, i, l) == cons_token(tok, scan_from(s, i + 1, l)));
                    lemma_token_step(s, i, l, views0, tokens_views(self.tokens@), tok, i + 1, l);
                }
            }
            Ok(())
        } else if c == '=' {
            if self.match_next_char('=') {
                self.add_token_type(TokenType::EQUAL_EQUAL);
                proof {
                    let tok = SpecToken {
                        typ: SpecTokenType::EQUAL_EQUAL,
                        lexeme: s.subrange(i, i + 2),
                        line: l,
                    };
                    assert(scan_from(s, i, l) == cons_token(tok, scan_from(s, i + 2, l)));
                    lemma_token_step(s, i, l, views0, tokens_views(self.tokens@), tok, i + 2, l);
                }
            } else {
                self.add_token_type(TokenType::EQUAL);
                proof {
                    let tok = SpecToken {
                        typ: SpecTokenType::EQUAL,
                        lexeme: s.subrange(i, i + 1),
                        line: l,
                    };
                    assert(scan_from(s, i, l) == cons_token(tok, scan_from(s, i + 1, l)));
                    lemma_token_step(s, i, l, views0, tokens_views(self.tokens@), tok, i + 1, l);
                }
            }
            Ok(())
        } else if c == '/' {
            if self.match_next_char('/') {
                let ghost after_slashes = self.current as int;
                while !self.is_at_end() && self.peek() != '\n'
                    invariant
                        self.wf(),
                        self.source@ == s,
                        self.start == old(self).start,
                        self.len == old(self).len,
                        self.line == old(self).line,
                        self.tokens@ == old(self).tokens@,
                        after_slashes <= self.current <= s.len(),
                        after_slashes + comment_len(s, after_slashes) == self.current
                            + comment_len(s, self.current as int),
                    decreases s.len() - self.current,
                {
                    proof {
                        assert(comment_len(s, self.current as int) == comment_len(
                            s,
                            self.current as int + 1,
                        ) + 1);
                    }
                    self.advance();
                }
                proof {
                    assert(comment_len(s, self.current as int) == 0);
                    lemma_comment_len_le(s, i + 2);
                    assert(scan_from(s, i, l) == scan_from(s, self.current as int, l));
                    lemma_quiet_step(views0, scan_from(s, self.current as int, l));
                }
            } else {
                self.add_token_type(TokenType::SLASH);
                proof {
                    let tok = SpecToken {
                        typ: SpecTokenType::SLASH,
                        lexeme: s.subrange(i, i + 1),
                        line: l,
                    };
                    assert(scan_from(s, i, l) == cons_token(tok, scan_from(s, i + 1, l)));
                    lemma_token_step(s, i, l, views0, tokens_views(self.tokens@), tok, i + 1, l);
                }
            }
            Ok(())
        } else if c == ' ' || c == '\r' || c == '\t' {
            proof {
                assert(scan_from(s, i, l) == scan_from(s, i + 1, l));
                lemma_quiet_step(views0, scan_from(s, i + 1, l));
            }
            Ok(())
        } else if c == '\n' {
            proof {
                assert(scan_from(s, i, l) == scan_from(s, i + 1, l + 1));
                lemma_quiet_step(views0, scan_from(s, i + 1, l + 1));
            }
            Ok(())
        } else if c == '"' {
            let result = self.scan_string();
            proof {
                let body = i + 1;
                let close = body + nonquote_len(s, body);
                if close >= s.len() {
                    assert(scan_from(s, i, l) == Err::<Seq<SpecToken>, SpecScanError>(
                        SpecScanError::UnterminatedString {
                            line: l + count_newlines(s, body, s.len() as int),
                        },
                    ));
                } else {
                    let tok = SpecToken {
                        typ: SpecTokenType::STRING(s.subrange(body, close)),
                        lexeme: s.subrange(i, close + 1),
                        line: l,
                    };
                    assert(scan_from(s, i, l) == cons_token(
                        tok,
                        scan_from(s, close + 1, l + count_newlines(s, body, close)),
                    ));
                    lemma_token_step(
                        s,
                        i,
                        l,
                        views0,
                        tokens_views(self.tokens@),
                        tok,
                        close + 1,
                        l + count_newlines(s, body, close),
                    );
                }
            }
            result
        } else if is_digit_char(c) {
            let result = self.scan_number();
            proof {
                lemma_digits_len_le(s, i + 1);
                let whole = i + 1 + digits_len(s, i + 1);
                if whole + 1 < s.len() && s[whole] == '.' && is_digit(s[whole + 1]) {
                    lemma_digits_len_le(s, whole + 2);
                }
                let end = number_end(s, i);
                let tok = SpecToken {
                    typ: SpecTokenType::NUMBER(s.subrange(i, end)),
                    lexeme: s.subrange(i, end),
                    line: l,
                };
                assert(scan_from(s, i, l) == cons_token(tok, scan_from(s, end, l)));
                lemma_token_step(s, i, l, views0, tokens_views(self.tokens@), tok, end, l);
            }
            result
        } else if is_alpha_char(c) {
            let result = self.scan_identifier_or_reserved();
            proof {
                lemma_ident_len_le(s, i + 1);
                let end = i + 1 + ident_len(s, i + 1);
                let tok = SpecToken {
                    typ: keyword_or_identifier_typ(s.subrange(i, end)),
                    lexeme: s.subrange(i, end),
                    line: l,
                };
                assert(scan_from(s, i, l) == cons_token(tok, scan_from(s, end, l)));
                lemma_token_step(s, i, l, views0, tokens_views(self.tokens@), tok, end, l);
            }
            result
        } else {
            proof {
                assert(scan_from(s, i, l) == Err::<Seq<SpecToken>, SpecScanError>(
                    SpecScanError::UnrecognizedCharacter { line: l, ch: s[i] },
                ));
            }
            Err(ScanError::UnrecognizedCharacter { line: self.line, ch: c })
        }
    }

    /// Scans the whole source in one pass: consumes one lexeme at a time
    /// until the text is exhausted, then appends the single EOF token at the
    /// line the scan ended on.  Returns exactly the outcome of the
    /// specification walk `model::scan_all` on the source: the full token
    /// sequence on success, or the first error, with no partial token list.
    /// Empties the scanner; a new source unit needs a fresh one.
    pub fn scan_tokens(&mut self) -> (r: Result<Vec<Token>, ScanError>)
        requires
            old(self).wf(),
            old(self).current == 0,
            old(self).start == 0,
            old(self).line == 1,
            old(self).tokens@ == Seq::<Token>::empty(),
        ensures
            (r matches Ok(tokens) ==> scan_all(old(self).source@) == Ok::<
                Seq<SpecToken>,
                SpecScanError,
            >(tokens_views(tokens@))),
            (r matches Err(e) ==> scan_all(old(self).source@) == Err::<
                Seq<SpecToken>,
                SpecScanError,
            >(e@)),
    {
        let ghost s = self.source@;
        proof {
            assert(tokens_views(Seq::<Token>::empty()) =~= Seq::<SpecToken>::empty());
            lemma_empty_extends(scan_all(s));
        }
        while !self.is_at_end()
            invariant
                self.wf(),
                self.source@ == s,
                s == old(self).source@,
                scan_extends(
                    scan_all(s),
                    tokens_views(self.tokens@),
                    scan_from(s, self.current as int, self.line as nat),
                ),
            decreases s.len() - self.current,
        {
            self.start = self.current;
            let ghost views_pre = tokens_views(self.tokens@);
            let ghost cur_pre = self.current as int;
            let ghost line_pre = self.line as nat;
            let result = self.scan_token();
            match result {
                Ok(_) => {
                    proof {
                        let views_post = tokens_views(self.tokens@);
                        lemma_views_decompose(views_post, views_pre.len() as int);
                        lemma_scan_extends_trans(
                            scan_all(s),
                            views_pre,
                            scan_from(s, cur_pre, line_pre),
                            views_post.skip(views_pre.len() as int),
                            scan_from(s, self.current as int, self.line as nat),
                        );
                    }
                },
                Err(e) => {
                    proof {
                        assert(scan_extends(scan_all(s), views_pre, scan_from(s, cur_pre, line_pre)));
                        assert(scan_all(s) == Err::<Seq<SpecToken>, SpecScanError>(e@));
                    }
                    return Err(e);
                },
            }
        }
        let ghost prefix = tokens_views(self.tokens@);
        proof {
            assert(scan_from(s, self.current as int, self.line as nat) == Ok::<
                Seq<SpecToken>,
                SpecScanError,
            >(
                seq![
                    SpecToken {
                        typ: SpecTokenType::EOF,
                        lexeme: Seq::empty(),
                        line: self.line as nat,
                    },
                ],
            ));
        }
        let line = self.line;
        let token = Token::new(TokenType::EOF, String::new(), line);
        proof {
            lemma_tokens_views_push(self.tokens@, token);
            assert(prefix + seq![token@] =~= prefix.push(token@));
        }
        self.tokens.push(token);
        let mut tokens: Vec<Token> = Vec::new();
        core::mem::swap(&mut tokens, &mut self.tokens);
        Ok(tokens)
    }
}

/// The executable form of `model::is_digit`.
fn is_digit_char(c: char) -> (b: bool)
    ensures
        b == is_digit(c),
{
    '0' <= c && c <= '9'
}

/// The executable form of `model::is_alpha`.
fn is_alpha_char(c: char) -> (b: bool)
    ensures
        b == is_alpha(c),
{
    ('a' <= c && c <= 'z') || ('A' <= c && c <= 'Z') || c == '_'
}

/// The executable form of `model::is_alnum`.
fn is_alnum_char(c: char) -> (b: bool)
    ensures
        b == is_alnum(c),
{
    is_alpha_char(c) || is_digit_char(c)
}

} // verus!
