//! The lexical analyzer: NEON text to a token stream.
//!
//! The scanner walks the input left to right with one character of
//! lookahead, tracking line and column.  Its behaviour is specified by
//! [`spec_tokenize`], a character-level description of the whole token
//! stream, and every scanning method is proved against it.

use vstd::prelude::*;
use vstd::string::StringExecFns;
use crate::number::{
    spec_is_digit, spec_digits_end, lemma_digits_end, spec_expand_number, spec_compress_number,
    Number, expand_chars, compress_number, is_digit_char,
};
use crate::types::{Token, TokenModel, TokenType};
use crate::text::{str_chars, chars_string, subvec};

verus! {

/// The token-delimiting characters: whitespace, the sigils, and the
/// quote.
pub open spec fn spec_is_delim(c: char) -> bool {
    c == ' ' || c == '\t' || c == '\n' || c == '\r' || c == ':' || c == ',' || c == '#' || c == '@'
        || c == '$' || c == '~' || c == '^' || c == '>' || c == '"'
}

/// Whether position `pos` ends a word: past the input or a delimiter.
pub open spec fn spec_boundary(s: Seq<char>, pos: nat) -> bool {
    pos >= s.len() || spec_is_delim(s[pos as int])
}

/// A token model, in field order.
pub open spec fn mk_tok(
    kind: TokenType,
    value: Seq<char>,
    raw: Seq<char>,
    num: Number,
    line: nat,
    column: nat,
) -> TokenModel {
    TokenModel { token_type: kind, value, raw, num, line, column }
}

/// What a character after a backslash stands for.
pub open spec fn spec_unescape_char(c: char) -> char {
    if c == 'n' {
        '\n'
    } else if c == 'r' {
        '\r'
    } else if c == 't' {
        '\t'
    } else {
        c
    }
}

/// The unescaped text and stop position of a quoted-string body
/// starting at `i` (just after the opening quote).  The scan stops at
/// an unescaped quote or at the end of input.
pub open spec fn spec_quoted_body(s: Seq<char>, i: nat) -> (Seq<char>, nat)
    decreases s.len() - i,
{
    if i >= s.len() || s[i as int] == '"' {
        (Seq::empty(), i)
    } else if s[i as int] == '\\' {
        if i + 1 < s.len() {
            let r = spec_quoted_body(s, i + 2);
            (seq![spec_unescape_char(s[i as int + 1])] + r.0, r.1)
        } else {
            (Seq::<char>::empty(), i + 1)
        }
    } else {
        let r = spec_quoted_body(s, i + 1);
        (seq![s[i as int]] + r.0, r.1)
    }
}

pub proof fn lemma_quoted_body_bounds(s: Seq<char>, i: nat)
    requires
        i <= s.len(),
    ensures
        i <= spec_quoted_body(s, i).1 <= s.len(),
    decreases s.len() - i,
{
    if i >= s.len() || s[i as int] == '"' {
    } else if s[i as int] == '\\' {
        if i + 1 < s.len() {
            lemma_quoted_body_bounds(s, i + 2);
        }
    } else {
        lemma_quoted_body_bounds(s, i + 1);
    }
}

/// A magnitude suffix character.
pub open spec fn spec_is_suffix(c: char) -> bool {
    c == 'K' || c == 'M' || c == 'B' || c == 'T'
}

/// The end of the number span starting at `i`: an optional sign, an
/// optional leading dot, digits, an optional fraction, an optional
/// magnitude suffix.
pub open spec fn spec_number_end(s: Seq<char>, i: nat) -> nat {
    let j0 = if i < s.len() && s[i as int] == '-' {
        i + 1
    } else {
        i
    };
    let j1 = if j0 < s.len() && s[j0 as int] == '.' {
        j0 + 1
    } else {
        j0
    };
    let j2 = spec_digits_end(s, j1);
    let j3 = if j2 < s.len() && s[j2 as int] == '.' {
        spec_digits_end(s, j2 + 1)
    } else {
        j2
    };
    if j3 < s.len() && spec_is_suffix(s[j3 as int]) {
        j3 + 1
    } else {
        j3
    }
}

pub proof fn lemma_number_end_bounds(s: Seq<char>, i: nat)
    requires
        i < s.len(),
        spec_is_digit(s[i as int]) || s[i as int] == '-' || s[i as int] == '.',
    ensures
        i < spec_number_end(s, i) <= s.len(),
{
    let j0 = if i < s.len() && s[i as int] == '-' {
        i + 1
    } else {
        i
    };
    let j1 = if j0 < s.len() && s[j0 as int] == '.' {
        j0 + 1
    } else {
        j0
    };
    lemma_digits_end(s, j1);
    let j2 = spec_digits_end(s, j1);
    if j2 < s.len() && s[j2 as int] == '.' {
        lemma_digits_end(s, j2 + 1);
    }
}

/// The end of the unquoted-string span starting at `i`: the first
/// delimiter at or after it.
pub open spec fn spec_unq_end(s: Seq<char>, i: nat) -> nat
    decreases s.len() - i,
{
    if i >= s.len() || spec_is_delim(s[i as int]) {
        i
    } else {
        spec_unq_end(s, i + 1)
    }
}

pub proof fn lemma_unq_end(s: Seq<char>, i: nat)
    requires
        i <= s.len(),
    ensures
        i <= spec_unq_end(s, i) <= s.len(),
        forall|j: int| i <= j < spec_unq_end(s, i) ==> !spec_is_delim(s[j]),
        spec_unq_end(s, i) < s.len() ==> spec_is_delim(s[spec_unq_end(s, i) as int]),
    decreases s.len() - i,
{
    if i >= s.len() || spec_is_delim(s[i as int]) {
    } else {
        lemma_unq_end(s, i + 1);
    }
}

/// Each underscore replaced by a space.
pub open spec fn spec_underscore_to_space(s: Seq<char>) -> Seq<char> {
    s.map_values(
        |c: char|
            if c == '_' {
                ' '
            } else {
                c
            },
    )
}

/// One step of the scanner: the token emitted at `pos` (none for
/// skipped whitespace) and the state after it.
pub struct LexStep {
    pub token: Option<TokenModel>,
    pub pos: nat,
    pub line: nat,
    pub column: nat,
}

/// What the scanner does at `pos`.  Dispatch order: horizontal
/// whitespace, newline, sigils, `T`/`F`/`N` shortcuts at a word
/// boundary, quoted string, number, unquoted string.  A reserved
/// delimiter that starts no token (`$`, `~`, `>`) is taken as a
/// one-character string so that the scan always advances.
pub open spec fn spec_scan_token(s: Seq<char>, pos: nat, line: nat, col: nat) -> LexStep {
    let c = s[pos as int];
    let zero = Number::spec_zero();
    if c == ' ' || c == '\t' || c == '\r' {
        LexStep { token: None, pos: pos + 1, line, column: col + 1 }
    } else if c == '\n' {
        LexStep {
            token: Some(mk_tok(TokenType::Newline, seq!['\n'], seq!['\n'], zero, line, col)),
            pos: pos + 1,
            line: line + 1,
            column: 1,
        }
    } else if c == '#' || c == '^' || c == '@' || c == ':' || c == ',' || c == '-' {
        let kind = if c == '#' {
            TokenType::ArrayStart
        } else if c == '^' {
            TokenType::SchemaStart
        } else if c == '@' {
            TokenType::ObjectStart
        } else if c == ':' {
            TokenType::Colon
        } else if c == ',' {
            TokenType::Comma
        } else {
            TokenType::ListItem
        };
        LexStep {
            token: Some(mk_tok(kind, seq![c], seq![c], zero, line, col)),
            pos: pos + 1,
            line,
            column: col + 1,
        }
    } else if (c == 'T' || c == 'F' || c == 'N') && spec_boundary(s, pos + 1) {
        let (kind, value) = if c == 'T' {
            (TokenType::Boolean, seq!['t', 'r', 'u', 'e'])
        } else if c == 'F' {
            (TokenType::Boolean, seq!['f', 'a', 'l', 's', 'e'])
        } else {
            (TokenType::Null, seq!['n', 'u', 'l', 'l'])
        };
        LexStep {
            token: Some(mk_tok(kind, value, seq![c], zero, line, col)),
            pos: pos + 1,
            line,
            column: col + 1,
        }
    } else if c == '"' {
        let b = spec_quoted_body(s, pos + 1);
        let raw = seq!['"'] + s.subrange(pos as int + 1, b.1 as int) + seq!['"'];
        let np = if b.1 < s.len() {
            b.1 + 1
        } else {
            b.1
        };
        LexStep {
            token: Some(mk_tok(TokenType::String, b.0, raw, zero, line, (col + (np - pos)) as nat)),
            pos: np,
            line,
            column: (col + (np - pos)) as nat,
        }
    } else if spec_is_digit(c) || c == '-' || c == '.' {
        let e = spec_number_end(s, pos);
        let raw = s.subrange(pos as int, e as int);
        let num = spec_expand_number(raw);
        LexStep {
            token: Some(
                mk_tok(
                    TokenType::Number,
                    spec_compress_number(num, false),
                    raw,
                    num,
                    line,
                    (col + (e - pos)) as nat,
                ),
            ),
            pos: e,
            line,
            column: (col + (e - pos)) as nat,
        }
    } else {
        let e = spec_unq_end(s, pos);
        if e == pos {
            LexStep {
                token: Some(
                    mk_tok(TokenType::String, seq![c], seq![c], zero, line, (col + 1) as nat),
                ),
                pos: pos + 1,
                line,
                column: col + 1,
            }
        } else {
            let raw = s.subrange(pos as int, e as int);
            let t = if raw == seq!['n', 'u', 'l', 'l'] {
                mk_tok(TokenType::Null, raw, raw, zero, line, (col + (e - pos)) as nat)
            } else if raw == seq!['t', 'r', 'u', 'e'] {
                mk_tok(TokenType::Boolean, raw, raw, zero, line, (col + (e - pos)) as nat)
            } else if raw == seq!['f', 'a', 'l', 's', 'e'] {
                mk_tok(TokenType::Boolean, raw, raw, zero, line, (col + (e - pos)) as nat)
            } else {
                mk_tok(
                    TokenType::String,
                    spec_underscore_to_space(raw),
                    raw,
                    zero,
                    line,
                    (col + (e - pos)) as nat,
                )
            };
            LexStep { token: Some(t), pos: e, line, column: (col + (e - pos)) as nat }
        }
    }
}

/// The scanner always advances and never leaves the input.
pub proof fn lemma_scan_progress(s: Seq<char>, pos: nat, line: nat, col: nat)
    requires
        pos < s.len(),
    ensures
        pos < spec_scan_token(s, pos, line, col).pos <= s.len(),
{
    let c = s[pos as int];
    if c == ' ' || c == '\t' || c == '\r' || c == '\n' {
    } else if c == '#' || c == '^' || c == '@' || c == ':' || c == ',' || c == '-' {
    } else if (c == 'T' || c == 'F' || c == 'N') && spec_boundary(s, pos + 1) {
    } else if c == '"' {
        lemma_quoted_body_bounds(s, pos + 1);
    } else if spec_is_digit(c) || c == '-' || c == '.' {
        lemma_number_end_bounds(s, pos);
    } else {
        lemma_unq_end(s, pos);
    }
}

/// The token stream from `pos` to the end of the input, `Eof`
/// included.
pub open spec fn spec_lex_from(s: Seq<char>, pos: nat, line: nat, col: nat) -> Seq<TokenModel>
    decreases s.len() - pos,
        via spec_lex_from_dec
{
    if pos >= s.len() {
        seq![
            mk_tok(
                TokenType::Eof,
                Seq::<char>::empty(),
                Seq::<char>::empty(),
                Number::spec_zero(),
                line,
                col,
            ),
        ]
    } else {
        let st = spec_scan_token(s, pos, line, col);
        match st.token {
            Some(t) => seq![t] + spec_lex_from(s, st.pos, st.line, st.column),
            None => spec_lex_from(s, st.pos, st.line, st.column),
        }
    }
}

#[via_fn]
proof fn spec_lex_from_dec(s: Seq<char>, pos: nat, line: nat, col: nat) {
    if pos < s.len() {
        lemma_scan_progress(s, pos, line, col);
    }
}

/// The full token stream of `s`.
pub open spec fn spec_tokenize(s: Seq<char>) -> Seq<TokenModel> {
    spec_lex_from(s, 0, 1, 1)
}

/// The stream holds at most one token per character, plus `Eof`.
pub proof fn lemma_lex_from_len(s: Seq<char>, pos: nat, line: nat, col: nat)
    requires
        pos <= s.len(),
    ensures
        spec_lex_from(s, pos, line, col).len() <= s.len() - pos + 1,
    decreases s.len() - pos,
{
    if pos < s.len() {
        lemma_scan_progress(s, pos, line, col);
        let st = spec_scan_token(s, pos, line, col);
        lemma_lex_from_len(s, st.pos, st.line, st.column);
    }
}

/// The token models of a token vector.
pub open spec fn views(ts: Seq<Token>) -> Seq<TokenModel> {
    ts.map_values(|t: Token| t@)
}

/// The token a step emits, as a (possibly empty) stream.
pub open spec fn opt_tok(t: Option<TokenModel>) -> Seq<TokenModel> {
    match t {
        Some(m) => seq![m],
        None => Seq::empty(),
    }
}

/// Whether `c` is a delimiter.
pub fn is_delim_char(c: char) -> (r: bool)
    ensures
        r == spec_is_delim(c),
{
    c == ' ' || c == '\t' || c == '\n' || c == '\r' || c == ':' || c == ',' || c == '#' || c == '@'
        || c == '$' || c == '~' || c == '^' || c == '>' || c == '"'
}

/// Whether `c` is a magnitude suffix.
pub fn is_suffix_char(c: char) -> (r: bool)
    ensures
        r == spec_is_suffix(c),
{
    c == 'K' || c == 'M' || c == 'B' || c == 'T'
}

/// What a character after a backslash stands for.
fn unescape_char(c: char) -> (r: char)
    ensures
        r == spec_unescape_char(c),
{
    if c == 'n' {
        '\n'
    } else if c == 'r' {
        '\r'
    } else if c == 't' {
        '\t'
    } else {
        c
    }
}

/// A one-character string.
fn char_string(c: char) -> (r: String)
    ensures
        r@ == seq![c],
{
    let mut s = String::new();
    s.push(c);
    proof {
        assert(s@ =~= seq![c]);
    }
    s
}

/// The lexer: an input buffer, a cursor with line and column
/// counters, and the tokens scanned so far.
pub struct Lexer {
    pub input: Vec<char>,
    pub pos: usize,
    pub line: usize,
    pub column: usize,
    pub tokens: Vec<Token>,
}

impl Lexer {
    /// The cursor is inside the input and the counters stay small
    /// enough for the arithmetic on them.
    pub open spec fn wf(self) -> bool {
        &&& self.pos <= self.input@.len()
        &&& self.input@.len() < usize::MAX
        &&& self.column <= self.pos + 1
        &&& self.line <= self.pos + 1
    }

    /// A lexer over the characters of `input`, at line 1, column 1.
    pub fn new(input: &str) -> (r: Self)
        requires
            input@.len() < usize::MAX,
        ensures
            r.input@ == input@,
            r.pos == 0,
            r.line == 1,
            r.column == 1,
            r.tokens@.len() == 0,
            r.wf(),
    {
        Lexer { input: str_chars(input), pos: 0, line: 1, column: 1, tokens: Vec::new() }
    }

    /// Moves one character right.
    pub fn advance(&mut self)
        requires
            old(self).wf(),
            old(self).pos < old(self).input@.len(),
        ensures
            final(self).input == old(self).input,
            final(self).tokens == old(self).tokens,
            final(self).line == old(self).line,
            final(self).pos == old(self).pos + 1,
            final(self).column == old(self).column + 1,
            final(self).wf(),
    {
        self.pos = self.pos + 1;
        self.column = self.column + 1;
    }

    /// Appends a token carrying the current position; its number
    /// payload is zero.
    pub fn add_token(&mut self, token_type: TokenType, value: String, raw: String)
        ensures
            final(self).input == old(self).input,
            final(self).pos == old(self).pos,
            final(self).line == old(self).line,
            final(self).column == old(self).column,
            views(final(self).tokens@) == views(old(self).tokens@).push(
                mk_tok(
                    token_type,
                    value@,
                    raw@,
                    Number::spec_zero(),
                    old(self).line as nat,
                    old(self).column as nat,
                ),
            ),
    {
        let ghost v = value@;
        let ghost rw = raw@;
        let t = Token {
            token_type,
            value,
            raw,
            num: Number::zero(),
            line: self.line,
            column: self.column,
        };
        self.tokens.push(t);
        proof {
            assert(views(self.tokens@) =~= views(old(self).tokens@).push(
                mk_tok(
                    token_type,
                    v,
                    rw,
                    Number::spec_zero(),
                    old(self).line as nat,
                    old(self).column as nat,
                ),
            ));
        }
    }

    /// Whether `c` can begin a number span.
    pub fn is_number_start(&self, c: char) -> (r: bool)
        ensures
            r == (spec_is_digit(c) || c == '-' || c == '.'),
    {
        is_digit_char(c) || c == '-' || c == '.'
    }

    /// Whether position `pos` ends a word.
    pub fn is_word_boundary(&self, pos: usize) -> (r: bool)
        ensures
            r == spec_boundary(self.input@, pos as nat),
    {
        if pos >= self.input.len() {
            true
        } else {
            is_delim_char(self.input[pos])
        }
    }

    /// Scans a quoted string: collects characters until an unescaped
    /// quote, honouring the `\\`, `\"`, `\n`, `\r`, `\t` escapes and
    /// passing unknown escapes through.
    pub fn scan_quoted_string(&mut self)
        requires
            old(self).wf(),
            old(self).pos < old(self).input@.len(),
            old(self).input@[old(self).pos as int] == '"',
        ensures
            ({
                let s = old(self).input@;
                let b = spec_quoted_body(s, (old(self).pos + 1) as nat);
                let np: nat = if b.1 < s.len() {
                    b.1 + 1
                } else {
                    b.1
                };
                &&& final(self).input == old(self).input
                &&& final(self).pos == np
                &&& final(self).line == old(self).line
                &&& final(self).column == old(self).column + (np - old(self).pos)
                &&& final(self).wf()
                &&& views(final(self).tokens@) == views(old(self).tokens@).push(
                    mk_tok(
                        TokenType::String,
                        b.0,
                        seq!['"'] + s.subrange(old(self).pos as int + 1, b.1 as int) + seq!['"'],
                        Number::spec_zero(),
                        old(self).line as nat,
                        (old(self).column + (np - old(self).pos)) as nat,
                    ),
                )
            }),
    {
        let ghost s = self.input@;
        proof {
            lemma_quoted_body_bounds(s, (old(self).pos + 1) as nat);
        }
        self.advance();  // skip the opening quote
        let start = self.pos;
        let mut value: Vec<char> = Vec::new();
        while self.pos < self.input.len() && self.input[self.pos] != '"'
            invariant
                self.wf(),
                self.input == old(self).input,
                self.input@ == s,
                self.tokens == old(self).tokens,
                self.line == old(self).line,
                start <= self.pos,
                start == old(self).pos + 1,
                self.column == old(self).column + (self.pos - old(self).pos),
                value@ + spec_quoted_body(s, self.pos as nat).0 == spec_quoted_body(
                    s,
                    start as nat,
                ).0,
                spec_quoted_body(s, self.pos as nat).1 == spec_quoted_body(s, start as nat).1,
            decreases s.len() - self.pos,
        {
            let ghost p = self.pos as nat;
            if self.input[self.pos] == '\\' {
                self.advance();
                if self.pos < self.input.len() {
                    let ec = self.input[self.pos];
                    proof {
                        assert(value@.push(spec_unescape_char(ec)) + spec_quoted_body(
                            s,
                            p + 2,
                        ).0 =~= value@ + (seq![spec_unescape_char(ec)] + spec_quoted_body(
                            s,
                            p + 2,
                        ).0));
                    }
                    value.push(unescape_char(ec));
                    self.advance();
                }
            } else {
                let c = self.input[self.pos];
                proof {
                    assert(value@.push(c) + spec_quoted_body(s, p + 1).0 =~= value@ + (seq![c]
                        + spec_quoted_body(s, p + 1).0));
                }
                value.push(c);
                self.advance();
            }
        }
        proof {
            assert(spec_quoted_body(s, self.pos as nat).0 =~= Seq::<char>::empty());
            assert(value@ + Seq::<char>::empty() =~= value@);
        }
        let span = subvec(&self.input, start, self.pos);
        if self.pos < self.input.len() {
            self.advance();  // skip the closing quote
        }
        let mut rv: Vec<char> = Vec::new();
        rv.push('"');
        let mut sp = span;
        rv.append(&mut sp);
        rv.push('"');
        proof {
            assert(rv@ =~= seq!['"'] + s.subrange(
                start as int,
                spec_quoted_body(s, start as nat).1 as int,
            ) + seq!['"']);
        }
        let raw = chars_string(&rv);
        let vs = chars_string(&value);
        self.add_token(TokenType::String, vs, raw);
    }

    /// Scans a number span: an optional sign, an optional leading
    /// dot, digits, an optional fraction, an optional magnitude
    /// suffix.  The token's `num` payload is the expanded value and
    /// its canonical text is the `value`.
    pub fn scan_number(&mut self)
        requires
            old(self).wf(),
            old(self).pos < old(self).input@.len(),
            spec_is_digit(old(self).input@[old(self).pos as int]) || old(self).input@[old(
                self,
            ).pos as int] == '-' || old(self).input@[old(self).pos as int] == '.',
        ensures
            ({
                let s = old(self).input@;
                let e = spec_number_end(s, old(self).pos as nat);
                let raw = s.subrange(old(self).pos as int, e as int);
                let num = spec_expand_number(raw);
                &&& final(self).input == old(self).input
                &&& final(self).pos == e
                &&& final(self).line == old(self).line
                &&& final(self).column == old(self).column + (e - old(self).pos)
                &&& final(self).wf()
                &&& views(final(self).tokens@) == views(old(self).tokens@).push(
                    mk_tok(
                        TokenType::Number,
                        spec_compress_number(num, false),
                        raw,
                        num,
                        old(self).line as nat,
                        (old(self).column + (e - old(self).pos)) as nat,
                    ),
                )
            }),
    {
        let ghost s = self.input@;
        let start = self.pos;
        if self.input[self.pos] == '-' {
            self.advance();
        }
        let ghost j0 = self.pos as nat;
        if self.pos < self.input.len() && self.input[self.pos] == '.' {
            self.advance();
        }
        let ghost j1 = self.pos as nat;
        proof {
            lemma_digits_end(s, j1);
        }
        while self.pos < self.input.len() && is_digit_char(self.input[self.pos])
            invariant
                self.wf(),
                self.input == old(self).input,
                self.input@ == s,
                self.tokens == old(self).tokens,
                self.line == old(self).line,
                j1 <= self.pos,
                self.column == old(self).column + (self.pos - old(self).pos),
                old(self).pos <= self.pos,
                spec_digits_end(s, j1) == spec_digits_end(s, self.pos as nat),
            decreases s.len() - self.pos,
        {
            self.advance();
        }
        proof {
            assert(spec_digits_end(s, self.pos as nat) == self.pos);
        }
        let ghost j2 = self.pos as nat;
        if self.pos < self.input.len() && self.input[self.pos] == '.' {
            self.advance();
            proof {
                lemma_digits_end(s, self.pos as nat);
            }
            while self.pos < self.input.len() && is_digit_char(self.input[self.pos])
                invariant
                    self.wf(),
                    self.input == old(self).input,
                    self.input@ == s,
                    self.tokens == old(self).tokens,
                    self.line == old(self).line,
                    j2 + 1 <= self.pos,
                    self.column == old(self).column + (self.pos - old(self).pos),
                    old(self).pos <= self.pos,
                    spec_digits_end(s, j2 + 1) == spec_digits_end(s, self.pos as nat),
                decreases s.len() - self.pos,
            {
                self.advance();
            }
            proof {
                assert(spec_digits_end(s, self.pos as nat) == self.pos);
            }
        }
        let ghost j3 = self.pos as nat;
        if self.pos < self.input.len() && is_suffix_char(self.input[self.pos]) {
            self.advance();
        }
        proof {
            assert(self.pos == spec_number_end(s, start as nat));
        }
        let rawv = subvec(&self.input, start, self.pos);
        let num = expand_chars(&rawv);
        let value = compress_number(&num, false);
        let raw = chars_string(&rawv);
        let t = Token {
            token_type: TokenType::Number,
            value,
            raw,
            num,
            line: self.line,
            column: self.column,
        };
        let ghost before = self.tokens@;
        self.tokens.push(t);
        proof {
            assert(views(self.tokens@) =~= views(before).push(t@));
        }
    }

    /// Scans an unquoted string up to the next delimiter; `null`,
    /// `true` and `false` become their keyword tokens, anything else
    /// a string with underscores read as spaces.  A reserved
    /// delimiter that starts no token is taken as a one-character
    /// string.
    pub fn scan_unquoted_string(&mut self)
        requires
            old(self).wf(),
            old(self).pos < old(self).input@.len(),
        ensures
            ({
                let s = old(self).input@;
                let pos = old(self).pos as nat;
                let line = old(self).line as nat;
                let col = old(self).column as nat;
                let e = spec_unq_end(s, pos);
                let raw = s.subrange(pos as int, e as int);
                &&& final(self).input == old(self).input
                &&& final(self).line == old(self).line
                &&& final(self).wf()
                &&& if e == pos {
                    &&& final(self).pos == pos + 1
                    &&& final(self).column == col + 1
                    &&& views(final(self).tokens@) == views(old(self).tokens@).push(
                        mk_tok(
                            TokenType::String,
                            seq![s[pos as int]],
                            seq![s[pos as int]],
                            Number::spec_zero(),
                            line,
                            (col + 1) as nat,
                        ),
                    )
                } else {
                    &&& final(self).pos == e
                    &&& final(self).column == col + (e - pos)
                    &&& views(final(self).tokens@) == views(old(self).tokens@).push(
                        if raw == seq!['n', 'u', 'l', 'l'] {
                            mk_tok(
                                TokenType::Null,
                                raw,
                                raw,
                                Number::spec_zero(),
                                line,
                                (col + (e - pos)) as nat,
                            )
                        } else if raw == seq!['t', 'r', 'u', 'e'] {
                            mk_tok(
                                TokenType::Boolean,
                                raw,
                                raw,
                                Number::spec_zero(),
                                line,
                                (col + (e - pos)) as nat,
                            )
                        } else if raw == seq!['f', 'a', 'l', 's', 'e'] {
                            mk_tok(
                                TokenType::Boolean,
                                raw,
                                raw,
                                Number::spec_zero(),
                                line,
                                (col + (e - pos)) as nat,
                            )
                        } else {
                            mk_tok(
                                TokenType::String,
                                spec_underscore_to_space(raw),
                                raw,
                                Number::spec_zero(),
                                line,
                                (col + (e - pos)) as nat,
                            )
                        },
                    )
                }
            }),
    {
        let ghost s = self.input@;
        let start = self.pos;
        proof {
            lemma_unq_end(s, start as nat);
        }
        while self.pos < self.input.len() && !is_delim_char(self.input[self.pos])
            invariant
                self.wf(),
                self.input == old(self).input,
                self.input@ == s,
                self.tokens == old(self).tokens,
                self.line == old(self).line,
                start <= self.pos,
                start == old(self).pos,
                self.column == old(self).column + (self.pos - old(self).pos),
                spec_unq_end(s, start as nat) == spec_unq_end(s, self.pos as nat),
            decreases s.len() - self.pos,
        {
            self.advance();
        }
        proof {
            assert(spec_unq_end(s, self.pos as nat) == self.pos);
        }
        if self.pos == start {
            // a reserved delimiter such as `$`, `~` or `>`: consume it
            // as a one-character string so the scan advances
            let c = self.input[self.pos];
            self.advance();
            self.add_token(TokenType::String, char_string(c), char_string(c));
        } else {
            let rawv = subvec(&self.input, start, self.pos);
            let is_null = rawv.len() == 4 && rawv[0] == 'n' && rawv[1] == 'u' && rawv[2] == 'l'
                && rawv[3] == 'l';
            let is_true = rawv.len() == 4 && rawv[0] == 't' && rawv[1] == 'r' && rawv[2] == 'u'
                && rawv[3] == 'e';
            let is_false = rawv.len() == 5 && rawv[0] == 'f' && rawv[1] == 'a' && rawv[2] == 'l'
                && rawv[3] == 's' && rawv[4] == 'e';
            proof {
                let raw = s.subrange(start as int, self.pos as int);
                assert(is_null == (raw == seq!['n', 'u', 'l', 'l'])) by {
                    if is_null {
                        assert(raw =~= seq!['n', 'u', 'l', 'l']);
                    }
                    if raw == seq!['n', 'u', 'l', 'l'] {
                        assert(rawv@[0] == 'n' && rawv@[1] == 'u' && rawv@[2] == 'l' && rawv@[3]
                            == 'l');
                    }
                }
                assert(is_true == (raw == seq!['t', 'r', 'u', 'e'])) by {
                    if is_true {
                        assert(raw =~= seq!['t', 'r', 'u', 'e']);
                    }
                    if raw == seq!['t', 'r', 'u', 'e'] {
                        assert(rawv@[0] == 't' && rawv@[1] == 'r' && rawv@[2] == 'u' && rawv@[3]
                            == 'e');
                    }
                }
                assert(is_false == (raw == seq!['f', 'a', 'l', 's', 'e'])) by {
                    if is_false {
                        assert(raw =~= seq!['f', 'a', 'l', 's', 'e']);
                    }
                    if raw == seq!['f', 'a', 'l', 's', 'e'] {
                        assert(rawv@[0] == 'f' && rawv@[1] == 'a' && rawv@[2] == 'l' && rawv@[3]
                            == 's' && rawv@[4] == 'e');
                    }
                }
            }
            if is_null {
                let raw = chars_string(&rawv);
                let value = chars_string(&rawv);
                self.add_token(TokenType::Null, value, raw);
            } else if is_true {
                let raw = chars_string(&rawv);
                let value = chars_string(&rawv);
                self.add_token(TokenType::Boolean, value, raw);
            } else if is_false {
                let raw = chars_string(&rawv);
                let value = chars_string(&rawv);
                self.add_token(TokenType::Boolean, value, raw);
            } else {
                let mut mapped: Vec<char> = Vec::new();
                let mut i: usize = 0;
                while i < rawv.len()
                    invariant
                        i <= rawv@.len(),
                        mapped@.len() == i,
                        forall|j: int|
                            0 <= j < i ==> mapped@[j] == (if rawv@[j] == '_' {
                                ' '
                            } else {
                                rawv@[j]
                            }),
                    decreases rawv@.len() - i,
                {
                    let c = rawv[i];
                    if c == '_' {
                        mapped.push(' ');
                    } else {
                        mapped.push(c);
                    }
                    i = i + 1;
                }
                proof {
                    assert(mapped@ =~= spec_underscore_to_space(rawv@));
                }
                let raw = chars_string(&rawv);
                let value = chars_string(&mapped);
                self.add_token(TokenType::String, value, raw);
            }
        }
    }

    /// Scans one token (or skips one whitespace character) at the
    /// cursor.
    pub fn scan_token(&mut self)
        requires
            old(self).wf(),
            old(self).pos < old(self).input@.len(),
        ensures
            ({
                let st = spec_scan_token(
                    old(self).input@,
                    old(self).pos as nat,
                    old(self).line as nat,
                    old(self).column as nat,
                );
                &&& final(self).input == old(self).input
                &&& final(self).pos == st.pos
                &&& final(self).line == st.line
                &&& final(self).column == st.column
                &&& final(self).wf()
                &&& views(final(self).tokens@) == views(old(self).tokens@) + opt_tok(st.token)
            }),
    {
        let ghost st = spec_scan_token(
            self.input@,
            self.pos as nat,
            self.line as nat,
            self.column as nat,
        );
        let c = self.input[self.pos];
        if c == ' ' || c == '\t' || c == '\r' {
            self.advance();
            proof {
                assert(views(self.tokens@) =~= views(old(self).tokens@) + opt_tok(st.token));
            }
            return ;
        }
        if c == '\n' {
            self.add_token(TokenType::Newline, char_string('\n'), char_string('\n'));
            self.advance();
            self.line = self.line + 1;
            self.column = 1;
            proof {
                assert(views(self.tokens@) =~= views(old(self).tokens@) + opt_tok(st.token));
            }
            return ;
        }
        if c == '#' || c == '^' || c == '@' || c == ':' || c == ',' || c == '-' {
            let kind = if c == '#' {
                TokenType::ArrayStart
            } else if c == '^' {
                TokenType::SchemaStart
            } else if c == '@' {
                TokenType::ObjectStart
            } else if c == ':' {
                TokenType::Colon
            } else if c == ',' {
                TokenType::Comma
            } else {
                TokenType::ListItem
            };
            self.add_token(kind, char_string(c), char_string(c));
            self.advance();
            proof {
                assert(views(self.tokens@) =~= views(old(self).tokens@) + opt_tok(st.token));
            }
            return ;
        }
        if (c == 'T' || c == 'F' || c == 'N') && self.is_word_boundary(self.pos + 1) {
            if c == 'T' {
                let v = String::from_str("true");
                proof {
                    reveal_strlit("true");
                    assert(v@ =~= seq!['t', 'r', 'u', 'e']);
                }
                self.add_token(TokenType::Boolean, v, char_string('T'));
            } else if c == 'F' {
                let v = String::from_str("false");
                proof {
                    reveal_strlit("false");
                    assert(v@ =~= seq!['f', 'a', 'l', 's', 'e']);
                }
                self.add_token(TokenType::Boolean, v, char_string('F'));
            } else {
                let v = String::from_str("null");
                proof {
                    reveal_strlit("null");
                    assert(v@ =~= seq!['n', 'u', 'l', 'l']);
                }
                self.add_token(TokenType::Null, v, char_string('N'));
            }
            self.advance();
            proof {
                assert(views(self.tokens@) =~= views(old(self).tokens@) + opt_tok(st.token));
            }
            return ;
        }
        if c == '"' {
            self.scan_quoted_string();
            proof {
                assert(views(self.tokens@) =~= views(old(self).tokens@) + opt_tok(st.token));
            }
            return ;
        }
        if self.is_number_start(c) {
            self.scan_number();
            proof {
                assert(views(self.tokens@) =~= views(old(self).tokens@) + opt_tok(st.token));
            }
            return ;
        }
        self.scan_unquoted_string();
        proof {
            assert(views(self.tokens@) =~= views(old(self).tokens@) + opt_tok(st.token));
        }
    }

    /// Scans the whole input and hands the tokens out, `Eof` last;
    /// the lexer's own buffer is left empty.
    pub fn tokenize(&mut self) -> (r: Vec<Token>)
        requires
            old(self).wf(),
        ensures
            final(self).input == old(self).input,
            final(self).tokens@.len() == 0,
            views(r@) == views(old(self).tokens@) + spec_lex_from(
                old(self).input@,
                old(self).pos as nat,
                old(self).line as nat,
                old(self).column as nat,
            ),
    {
        let ghost s = self.input@;
        let ghost total = views(old(self).tokens@) + spec_lex_from(
            s,
            old(self).pos as nat,
            old(self).line as nat,
            old(self).column as nat,
        );
        while self.pos < self.input.len()
            invariant
                self.wf(),
                self.input == old(self).input,
                self.input@ == s,
                total == views(self.tokens@) + spec_lex_from(
                    s,
                    self.pos as nat,
                    self.line as nat,
                    self.column as nat,
                ),
            decreases s.len() - self.pos,
        {
            let ghost st = spec_scan_token(s, self.pos as nat, self.line as nat, self.column as nat);
            let ghost pre = views(self.tokens@);
            let ghost tail = spec_lex_from(s, st.pos, st.line, st.column);
            proof {
                lemma_scan_progress(s, self.pos as nat, self.line as nat, self.column as nat);
                assert(spec_lex_from(s, self.pos as nat, self.line as nat, self.column as nat)
                    == opt_tok(st.token) + tail) by {
                    if st.token is Some {
                        assert(opt_tok(st.token) =~= seq![st.token->0]);
                    } else {
                        assert(opt_tok(st.token) + tail =~= tail);
                    }
                }
            }
            self.scan_token();
            proof {
                assert(views(self.tokens@) + tail =~= pre + (opt_tok(st.token) + tail));
            }
        }
        let eof_v = String::new();
        let eof_r = String::new();
        self.add_token(TokenType::Eof, eof_v, eof_r);
        proof {
            assert(spec_lex_from(s, self.pos as nat, self.line as nat, self.column as nat)
                == seq![
                mk_tok(
                    TokenType::Eof,
                    Seq::<char>::empty(),
                    Seq::<char>::empty(),
                    Number::spec_zero(),
                    self.line as nat,
                    self.column as nat,
                ),
            ]);
            assert(views(self.tokens@) =~= total);
        }
        let mut out: Vec<Token> = Vec::new();
        core::mem::swap(&mut out, &mut self.tokens);
        out
    }
}

} // verus!
