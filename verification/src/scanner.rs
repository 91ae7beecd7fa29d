//! Lexical analysis: source bytes to a terminated token sequence.
//!
//! The scanner consumes the whole source once, left to right, with maximal
//! munch for the two-character operators, and never aborts: a malformed
//! number still yields a literal token carrying a sentinel value, and an
//! unrecognized byte is recorded and skipped, so the parser always receives
//! the best possible token stream. Every token and diagnostic produced is
//! exactly what the mathematical scan (`scan_model`) describes.

use vstd::prelude::*;

use crate::error::{Diag, DiagKind, DiagModel};
use crate::token::{clone_tokens, copy_range, Literal, Token, TokenModel, TokenType};

verus! {

/// Whether `c` is a decimal digit.
pub open spec fn is_digit(c: u8) -> bool {
    48 <= c <= 57
}

/// Whether `c` can start an identifier: a letter or an underscore.
pub open spec fn is_alpha(c: u8) -> bool {
    (97 <= c <= 122) || (65 <= c <= 90) || c == 95
}

/// Whether `c` can continue an identifier.
pub open spec fn is_alphanumeric(c: u8) -> bool {
    is_alpha(c) || is_digit(c)
}

/// The end of the maximal digit run starting at `i`.
pub open spec fn digits_end(src: Seq<u8>, i: int) -> int
    decreases src.len() - i when 0 <= i <= src.len()
{
    if i >= src.len() || !is_digit(src[i]) {
        i
    } else {
        digits_end(src, i + 1)
    }
}

/// The end of the maximal identifier run starting at `i`.
pub open spec fn ident_end(src: Seq<u8>, i: int) -> int
    decreases src.len() - i when 0 <= i <= src.len()
{
    if i >= src.len() || !is_alphanumeric(src[i]) {
        i
    } else {
        ident_end(src, i + 1)
    }
}

/// The position of the newline that ends a comment starting at `i`, or the
/// end of the source if none follows.
pub open spec fn comment_end(src: Seq<u8>, i: int) -> int
    decreases src.len() - i when 0 <= i <= src.len()
{
    if i >= src.len() || src[i] == 10 {
        i
    } else {
        comment_end(src, i + 1)
    }
}

/// The number a digit run spells in base ten.
pub open spec fn digits_val(s: Seq<u8>) -> int
    decreases s.len(),
{
    if s.len() == 0 {
        0
    } else {
        digits_val(s.drop_last()) * 10 + (s.last() - 48)
    }
}

/// The keyword token category `s` spells, if any. The keyword set is fixed
/// and case-sensitive.
pub open spec fn keyword_model(s: Seq<u8>) -> Option<TokenType> {
    if s == seq![118u8, 97, 114] {  // var
        Some(TokenType::VAR)
    } else if s == seq![99u8, 111, 110, 115, 116] {  // const
        Some(TokenType::CONST)
    } else if s == seq![98u8, 101, 103, 105, 110] {  // begin
        Some(TokenType::BEGIN)
    } else if s == seq![101u8, 110, 100] {  // end
        Some(TokenType::END)
    } else if s == seq![119u8, 104, 105, 108, 101] {  // while
        Some(TokenType::WHILE)
    } else if s == seq![100u8, 111] {  // do
        Some(TokenType::DO)
    } else if s == seq![105u8, 102] {  // if
        Some(TokenType::IF)
    } else if s == seq![116u8, 104, 101, 110] {  // then
        Some(TokenType::THEN)
    } else if s == seq![112u8, 114, 111, 99, 101, 100, 117, 114, 101] {  // procedure
        Some(TokenType::PROCEDURE)
    } else if s == seq![99u8, 97, 108, 108] {  // call
        Some(TokenType::CALL)
    } else if s == seq![111u8, 100, 100] {  // odd
        Some(TokenType::ODD)
    } else {
        None
    }
}

/// The line counter after one more newline, never wrapping.
pub open spec fn bump_line(line: usize) -> usize {
    if line < usize::MAX {
        (line + 1) as usize
    } else {
        line
    }
}

/// A token spanning `lo..hi` of the source with no payload.
pub open spec fn plain_token(src: Seq<u8>, lo: int, hi: int, kind: TokenType, line: usize) -> TokenModel {
    TokenModel { kind, lexeme: src.subrange(lo, hi), literal: None, line }
}

/// A scanner diagnostic on `line`.
pub open spec fn scan_diag(kind: DiagKind, line: usize) -> DiagModel {
    DiagModel { line, at_end: false, lexeme: Seq::empty(), kind }
}

/// What one scan step starting at `pos` does: where scanning resumes, the
/// line counter after the step, and the token or diagnostic produced.
pub struct ScanStepModel {
    pub next: int,
    pub line: usize,
    pub token: Option<TokenModel>,
    pub diag: Option<DiagModel>,
}

/// A step producing just a token that ends at `hi`.
pub open spec fn token_step(src: Seq<u8>, lo: int, hi: int, kind: TokenType, line: usize) -> ScanStepModel {
    ScanStepModel { next: hi, line, token: Some(plain_token(src, lo, hi, kind, line)), diag: None }
}

/// Whether the byte after `pos` is `c`, for the two-character operators.
pub open spec fn second_is(src: Seq<u8>, pos: int, c: u8) -> bool {
    pos + 1 < src.len() && src[pos + 1] == c
}

/// The scan step at `pos`: which token or diagnostic the byte there opens,
/// with maximal munch for `:=`, `==`, `!=`, `<=`, `>=`, comments running to
/// the end of the line, numbers and identifiers taking their maximal run,
/// and whitespace producing nothing.
pub open spec fn scan_step_model(src: Seq<u8>, pos: int, line: usize) -> ScanStepModel {
    let c = src[pos];
    if c == 40 {  // (
        token_step(src, pos, pos + 1, TokenType::LEFT_PAREN, line)
    } else if c == 41 {  // )
        token_step(src, pos, pos + 1, TokenType::RIGHT_PAREN, line)
    } else if c == 44 {  // ,
        token_step(src, pos, pos + 1, TokenType::COMMA, line)
    } else if c == 59 {  // ;
        token_step(src, pos, pos + 1, TokenType::SEMICOLON, line)
    } else if c == 46 {  // .
        token_step(src, pos, pos + 1, TokenType::DOT, line)
    } else if c == 43 {  // +
        token_step(src, pos, pos + 1, TokenType::PLUS, line)
    } else if c == 45 {  // -
        token_step(src, pos, pos + 1, TokenType::MINUS, line)
    } else if c == 42 {  // *
        token_step(src, pos, pos + 1, TokenType::STAR, line)
    } else if c == 47 {  // /
        token_step(src, pos, pos + 1, TokenType::SLASH, line)
    } else if c == 63 {  // ?
        token_step(src, pos, pos + 1, TokenType::QMARK, line)
    } else if c == 35 {  // #: comment to end of line
        ScanStepModel { next: comment_end(src, pos + 1), line, token: None, diag: None }
    } else if c == 33 {  // !
        if second_is(src, pos, 61) {
            token_step(src, pos, pos + 2, TokenType::BANG_EQU, line)
        } else {
            token_step(src, pos, pos + 1, TokenType::BANG, line)
        }
    } else if c == 58 {  // :
        if second_is(src, pos, 61) {
            token_step(src, pos, pos + 2, TokenType::COLON_EQU, line)
        } else {
            ScanStepModel {
                next: pos + 1,
                line,
                token: None,
                diag: Some(scan_diag(DiagKind::LoneColon, line)),
            }
        }
    } else if c == 61 {  // =
        if second_is(src, pos, 61) {
            token_step(src, pos, pos + 2, TokenType::EQU_EQU, line)
        } else {
            token_step(src, pos, pos + 1, TokenType::EQU, line)
        }
    } else if c == 62 {  // >
        if second_is(src, pos, 61) {
            token_step(src, pos, pos + 2, TokenType::MORE_EQU, line)
        } else {
            token_step(src, pos, pos + 1, TokenType::MORE, line)
        }
    } else if c == 60 {  // <
        if second_is(src, pos, 61) {
            token_step(src, pos, pos + 2, TokenType::LESS_EQU, line)
        } else {
            token_step(src, pos, pos + 1, TokenType::LESS, line)
        }
    } else if c == 32 || c == 13 || c == 9 {  // space, carriage return, tab
        ScanStepModel { next: pos + 1, line, token: None, diag: None }
    } else if c == 10 {  // newline
        ScanStepModel { next: pos + 1, line: bump_line(line), token: None, diag: None }
    } else if is_digit(c) {
        let hi = digits_end(src, pos);
        let lexeme = src.subrange(pos, hi);
        let v = digits_val(lexeme);
        if v <= i32::MAX {
            ScanStepModel {
                next: hi,
                line,
                token: Some(
                    TokenModel {
                        kind: TokenType::NUMBER,
                        lexeme,
                        literal: Some(crate::token::LiteralModel::Number(v as i32)),
                        line,
                    },
                ),
                diag: None,
            }
        } else {
            // The literal does not fit the value range: record the fault and
            // still emit a literal token carrying a sentinel value, so
            // scanning and parsing can continue.
            ScanStepModel {
                next: hi,
                line,
                token: Some(
                    TokenModel {
                        kind: TokenType::NUMBER,
                        lexeme,
                        literal: Some(crate::token::LiteralModel::Number(-1i32)),
                        line,
                    },
                ),
                diag: Some(scan_diag(DiagKind::MalformedNumber, line)),
            }
        }
    } else if is_alpha(c) {
        let hi = ident_end(src, pos);
        let lexeme = src.subrange(pos, hi);
        match keyword_model(lexeme) {
            Some(kind) => ScanStepModel {
                next: hi,
                line,
                token: Some(TokenModel { kind, lexeme, literal: None, line }),
                diag: None,
            },
            None => ScanStepModel {
                next: hi,
                line,
                token: Some(
                    TokenModel {
                        kind: TokenType::IDENTIFIER,
                        lexeme,
                        literal: Some(crate::token::LiteralModel::Identifier(lexeme)),
                        line,
                    },
                ),
                diag: None,
            },
        }
    } else {
        ScanStepModel {
            next: pos + 1,
            line,
            token: None,
            diag: Some(scan_diag(DiagKind::UnexpectedCharacter, line)),
        }
    }
}

/// The tokens and diagnostics of a whole scan.
pub struct ScanModel {
    pub toks: Seq<TokenModel>,
    pub diags: Seq<DiagModel>,
}

/// The token-at-a-time scan of `src` from `pos` with the line counter at
/// `line`: every step's token and diagnostic in source order, closed by the
/// end-of-input sentinel token.
pub open spec fn scan_model(src: Seq<u8>, pos: int, line: usize) -> ScanModel
    decreases src.len() - pos when 0 <= pos
{
    if pos >= src.len() {
        ScanModel {
            toks: seq![
                TokenModel { kind: TokenType::EOF, lexeme: Seq::empty(), literal: None, line },
            ],
            diags: Seq::empty(),
        }
    } else {
        let step = scan_step_model(src, pos, line);
        let next = if pos < step.next <= src.len() {
            step.next
        } else {
            pos + 1
        };
        let rest = scan_model(src, next, step.line);
        ScanModel {
            toks: match step.token {
                Some(t) => seq![t] + rest.toks,
                None => rest.toks,
            },
            diags: match step.diag {
                Some(d) => seq![d] + rest.diags,
                None => rest.diags,
            },
        }
    }
}


/// Every scan ends with the end-of-input sentinel, whatever the source.
pub proof fn lemma_scan_ends_eof(src: Seq<u8>, pos: int, line: usize)
    requires
        0 <= pos,
    ensures
        scan_model(src, pos, line).toks.len() >= 1,
        scan_model(src, pos, line).toks.last().kind == TokenType::EOF,
    decreases src.len() - pos,
{
    if pos < src.len() {
        let step = scan_step_model(src, pos, line);
        let next = if pos < step.next <= src.len() {
            step.next
        } else {
            pos + 1
        };
        lemma_scan_ends_eof(src, next, step.line);
        let rest = scan_model(src, next, step.line);
        match step.token {
            Some(t) => {
                assert((seq![t] + rest.toks).last() == rest.toks.last());
            },
            None => {},
        }
    }
}

/// The values of a token row, elementwise.
pub open spec fn tokens_model(s: Seq<Token>) -> Seq<TokenModel> {
    s.map(|_i: int, t: Token| t@)
}

/// The values of a diagnostic row, elementwise.
pub open spec fn diags_model(s: Seq<Diag>) -> Seq<DiagModel> {
    s.map(|_i: int, d: Diag| d@)
}

/// Every scan step moves forward, and not past the end of the source.
pub proof fn lemma_step_bounds(src: Seq<u8>, pos: int, line: usize)
    requires
        0 <= pos < src.len(),
    ensures
        scan_step_model(src, pos, line).next > pos,
        scan_step_model(src, pos, line).next <= src.len(),
{
    lemma_run_end_bounds(src, pos + 1);
    let c = src[pos];
    if is_digit(c) || is_alpha(c) {
        lemma_run_end_bounds(src, pos);
        if is_digit(c) {
            assert(digits_end(src, pos) == digits_end(src, pos + 1));
        } else {
            assert(ident_end(src, pos) == ident_end(src, pos + 1));
        }
    }
}

/// The maximal runs end within the source and never move backward.
pub proof fn lemma_run_end_bounds(src: Seq<u8>, i: int)
    requires
        0 <= i <= src.len(),
    ensures
        i <= digits_end(src, i) <= src.len(),
        i <= ident_end(src, i) <= src.len(),
        i <= comment_end(src, i) <= src.len(),
    decreases src.len() - i,
{
    if i < src.len() {
        lemma_run_end_bounds(src, i + 1);
    }
}


/// The keyword category `s` spells, if any.
fn keyword(s: &Vec<u8>) -> (r: Option<TokenType>)
    ensures
        r == keyword_model(s@),
{
    let n = s.len();
    if n == 3 && s[0] == 118 && s[1] == 97 && s[2] == 114 {
        proof {
            assert(s@ =~= seq![118u8, 97, 114]);
        }
        return Some(TokenType::VAR);
    }
    if n == 5 && s[0] == 99 && s[1] == 111 && s[2] == 110 && s[3] == 115 && s[4] == 116 {
        proof {
            assert(s@ =~= seq![99u8, 111, 110, 115, 116]);
        }
        return Some(TokenType::CONST);
    }
    if n == 5 && s[0] == 98 && s[1] == 101 && s[2] == 103 && s[3] == 105 && s[4] == 110 {
        proof {
            assert(s@ =~= seq![98u8, 101, 103, 105, 110]);
        }
        return Some(TokenType::BEGIN);
    }
    if n == 3 && s[0] == 101 && s[1] == 110 && s[2] == 100 {
        proof {
            assert(s@ =~= seq![101u8, 110, 100]);
        }
        return Some(TokenType::END);
    }
    if n == 5 && s[0] == 119 && s[1] == 104 && s[2] == 105 && s[3] == 108 && s[4] == 101 {
        proof {
            assert(s@ =~= seq![119u8, 104, 105, 108, 101]);
        }
        return Some(TokenType::WHILE);
    }
    if n == 2 && s[0] == 100 && s[1] == 111 {
        proof {
            assert(s@ =~= seq![100u8, 111]);
        }
        return Some(TokenType::DO);
    }
    if n == 2 && s[0] == 105 && s[1] == 102 {
        proof {
            assert(s@ =~= seq![105u8, 102]);
        }
        return Some(TokenType::IF);
    }
    if n == 4 && s[0] == 116 && s[1] == 104 && s[2] == 101 && s[3] == 110 {
        proof {
            assert(s@ =~= seq![116u8, 104, 101, 110]);
        }
        return Some(TokenType::THEN);
    }
    if n == 9 && s[0] == 112 && s[1] == 114 && s[2] == 111 && s[3] == 99 && s[4] == 101 && s[5]
        == 100 && s[6] == 117 && s[7] == 114 && s[8] == 101 {
        proof {
            assert(s@ =~= seq![112u8, 114, 111, 99, 101, 100, 117, 114, 101]);
        }
        return Some(TokenType::PROCEDURE);
    }
    if n == 4 && s[0] == 99 && s[1] == 97 && s[2] == 108 && s[3] == 108 {
        proof {
            assert(s@ =~= seq![99u8, 97, 108, 108]);
        }
        return Some(TokenType::CALL);
    }
    if n == 3 && s[0] == 111 && s[1] == 100 && s[2] == 100 {
        proof {
            assert(s@ =~= seq![111u8, 100, 100]);
        }
        return Some(TokenType::ODD);
    }
    proof {
        assert(keyword_model(s@) is None) by {
            if s@ == seq![118u8, 97, 114] {
                assert(s@.len() == 3 && s@[0] == 118 && s@[1] == 97 && s@[2] == 114);
            }
            if s@ == seq![99u8, 111, 110, 115, 116] {
                assert(s@.len() == 5 && s@[0] == 99 && s@[1] == 111 && s@[2] == 110 && s@[3]
                    == 115 && s@[4] == 116);
            }
            if s@ == seq![98u8, 101, 103, 105, 110] {
                assert(s@.len() == 5 && s@[0] == 98 && s@[1] == 101 && s@[2] == 103 && s@[3]
                    == 105 && s@[4] == 110);
            }
            if s@ == seq![101u8, 110, 100] {
                assert(s@.len() == 3 && s@[0] == 101 && s@[1] == 110 && s@[2] == 100);
            }
            if s@ == seq![119u8, 104, 105, 108, 101] {
                assert(s@.len() == 5 && s@[0] == 119 && s@[1] == 104 && s@[2] == 105 && s@[3]
                    == 108 && s@[4] == 101);
            }
            if s@ == seq![100u8, 111] {
                assert(s@.len() == 2 && s@[0] == 100 && s@[1] == 111);
            }
            if s@ == seq![105u8, 102] {
                assert(s@.len() == 2 && s@[0] == 105 && s@[1] == 102);
            }
            if s@ == seq![116u8, 104, 101, 110] {
                assert(s@.len() == 4 && s@[0] == 116 && s@[1] == 104 && s@[2] == 101 && s@[3]
                    == 110);
            }
            if s@ == seq![112u8, 114, 111, 99, 101, 100, 117, 114, 101] {
                assert(s@.len() == 9 && s@[0] == 112 && s@[1] == 114 && s@[2] == 111 && s@[3]
                    == 99 && s@[4] == 101 && s@[5] == 100 && s@[6] == 117 && s@[7] == 114 && s@[8]
                    == 101);
            }
            if s@ == seq![99u8, 97, 108, 108] {
                assert(s@.len() == 4 && s@[0] == 99 && s@[1] == 97 && s@[2] == 108 && s@[3]
                    == 108);
            }
            if s@ == seq![111u8, 100, 100] {
                assert(s@.len() == 3 && s@[0] == 111 && s@[1] == 100 && s@[2] == 100);
            }
        }
    }
    None
}

/// A run of digits is never worth less than its prefix.
proof fn lemma_digits_val_nonneg(s: Seq<u8>)
    requires
        forall|j: int| 0 <= j < s.len() ==> is_digit(#[trigger] s[j]),
    ensures
        digits_val(s) >= 0,
    decreases s.len(),
{
    if s.len() > 0 {
        lemma_digits_val_nonneg(s.drop_last());
    }
}

/// The scanner: the source bytes, the tokens and diagnostics produced so
/// far, the span of the token being scanned, and the 1-based line counter.
pub struct Scanner {
    pub source: Vec<u8>,
    pub tokens: Vec<Token>,
    pub start: usize,
    pub current: usize,
    pub line: usize,
    pub diags: Vec<Diag>,
}

impl Scanner {
    /// A scanner at the start of `source`.
    pub fn new(source: Vec<u8>) -> (s: Scanner)
        ensures
            s.source@ == source@,
            s.tokens@ =~= Seq::<Token>::empty(),
            s.diags@ =~= Seq::<Diag>::empty(),
            s.start == 0,
            s.current == 0,
            s.line == 1,
    {
        Scanner { source, tokens: Vec::new(), start: 0, current: 0, line: 1, diags: Vec::new() }
    }

    /// Record a lexical diagnostic on the current line.
    fn error(&mut self, kind: DiagKind)
        ensures
            final(self).source == old(self).source,
            final(self).tokens == old(self).tokens,
            final(self).start == old(self).start,
            final(self).current == old(self).current,
            final(self).line == old(self).line,
            diags_model(final(self).diags@) == diags_model(old(self).diags@).push(
                scan_diag(kind, old(self).line),
            ),
    {
        let d = Diag { line: self.line, at_end: false, lexeme: Vec::new(), kind };
        proof {
            assert(d@.lexeme =~= Seq::<u8>::empty());
        }
        self.diags.push(d);
        proof {
            assert(diags_model(self.diags@) =~= diags_model(old(self).diags@).push(
                scan_diag(kind, old(self).line),
            ));
        }
    }

    /// Append a token with no payload spanning `start..current`.
    fn add_token(&mut self, kind: TokenType)
        requires
            old(self).start <= old(self).current <= old(self).source@.len(),
        ensures
            final(self).source == old(self).source,
            final(self).diags == old(self).diags,
            final(self).start == old(self).start,
            final(self).current == old(self).current,
            final(self).line == old(self).line,
            tokens_model(final(self).tokens@) == tokens_model(old(self).tokens@).push(
                plain_token(
                    old(self).source@,
                    old(self).start as int,
                    old(self).current as int,
                    kind,
                    old(self).line,
                ),
            ),
    {
        self.add_token_full(None, kind)
    }

    /// Append a token spanning `start..current` carrying `literal`.
    fn add_token_full(&mut self, literal: Option<Literal>, kind: TokenType)
        requires
            old(self).start <= old(self).current <= old(self).source@.len(),
        ensures
            final(self).source == old(self).source,
            final(self).diags == old(self).diags,
            final(self).start == old(self).start,
            final(self).current == old(self).current,
            final(self).line == old(self).line,
            tokens_model(final(self).tokens@) == tokens_model(old(self).tokens@).push(
                TokenModel {
                    kind,
                    lexeme: old(self).source@.subrange(
                        old(self).start as int,
                        old(self).current as int,
                    ),
                    literal: match literal {
                        Some(lit) => Some(lit@),
                        None => None,
                    },
                    line: old(self).line,
                },
            ),
    {
        let lex = copy_range(&self.source, self.start, self.current);
        let t = Token::new(kind, lex, literal, self.line);
        self.tokens.push(t);
        proof {
            assert(tokens_model(self.tokens@) =~= tokens_model(old(self).tokens@).push(t@));
        }
    }

    /// Consume the next byte if it is `expected`.
    fn matches(&mut self, expected: u8) -> (r: bool)
        requires
            old(self).current <= old(self).source@.len(),
        ensures
            final(self).source == old(self).source,
            final(self).tokens == old(self).tokens,
            final(self).diags == old(self).diags,
            final(self).start == old(self).start,
            final(self).line == old(self).line,
            r == (old(self).current < old(self).source@.len() && old(self).source@[old(self).current as int] == expected),
            final(self).current == if r {
                old(self).current + 1
            } else {
                old(self).current as int
            },
    {
        if self.current >= self.source.len() {
            return false;
        }
        if self.source[self.current] != expected {
            return false;
        }
        self.current = self.current + 1;
        true
    }

    /// Scan one token starting at `current`, doing exactly what the scan
    /// step at that position describes.
    fn scan_token(&mut self)
        requires
            old(self).current < old(self).source@.len(),
            old(self).start == old(self).current,
        ensures
            final(self).source == old(self).source,
            ({
                let step = scan_step_model(
                    old(self).source@,
                    old(self).current as int,
                    old(self).line,
                );
                &&& final(self).current == step.next
                &&& final(self).line == step.line
                &&& tokens_model(final(self).tokens@) == match step.token {
                    Some(t) => tokens_model(old(self).tokens@).push(t),
                    None => tokens_model(old(self).tokens@),
                }
                &&& diags_model(final(self).diags@) == match step.diag {
                    Some(d) => diags_model(old(self).diags@).push(d),
                    None => diags_model(old(self).diags@),
                }
            }),
    {
        let ghost src = self.source@;
        let ghost pos = self.current as int;
        let n = self.source.len();
        let c = self.source[self.current];
        self.current = self.current + 1;
        if c == 40 {
            self.add_token(TokenType::LEFT_PAREN);
        } else if c == 41 {
            self.add_token(TokenType::RIGHT_PAREN);
        } else if c == 44 {
            self.add_token(TokenType::COMMA);
        } else if c == 59 {
            self.add_token(TokenType::SEMICOLON);
        } else if c == 46 {
            self.add_token(TokenType::DOT);
        } else if c == 43 {
            self.add_token(TokenType::PLUS);
        } else if c == 45 {
            self.add_token(TokenType::MINUS);
        } else if c == 42 {
            self.add_token(TokenType::STAR);
        } else if c == 47 {
            self.add_token(TokenType::SLASH);
        } else if c == 63 {
            self.add_token(TokenType::QMARK);
        } else if c == 35 {
            // A comment runs to the end of the line and produces no token.
            #[verifier::loop_isolation(false)]
            while self.current < self.source.len() && self.source[self.current] != 10
                invariant
                    self.source == old(self).source,
                    self.tokens == old(self).tokens,
                    self.diags == old(self).diags,
                    self.start == old(self).start,
                    self.line == old(self).line,
                    pos + 1 <= self.current <= src.len(),
                    comment_end(src, pos + 1) == comment_end(src, self.current as int),
                decreases src.len() - self.current,
            {
                self.current = self.current + 1;
            }
        } else if c == 33 {
            if self.matches(61) {
                self.add_token(TokenType::BANG_EQU);
            } else {
                self.add_token(TokenType::BANG);
            }
        } else if c == 58 {
            if self.matches(61) {
                self.add_token(TokenType::COLON_EQU);
            } else {
                self.error(DiagKind::LoneColon);
            }
        } else if c == 61 {
            if self.matches(61) {
                self.add_token(TokenType::EQU_EQU);
            } else {
                self.add_token(TokenType::EQU);
            }
        } else if c == 62 {
            if self.matches(61) {
                self.add_token(TokenType::MORE_EQU);
            } else {
                self.add_token(TokenType::MORE);
            }
        } else if c == 60 {
            if self.matches(61) {
                self.add_token(TokenType::LESS_EQU);
            } else {
                self.add_token(TokenType::LESS);
            }
        } else if c == 32 || c == 13 || c == 9 {
            // Whitespace is skipped.
        } else if c == 10 {
            if self.line < usize::MAX {
                self.line = self.line + 1;
            }
        } else if 48 <= c && c <= 57 {
            self.number(c);
        } else if (97 <= c && c <= 122) || (65 <= c && c <= 90) || c == 95 {
            self.identifier();
        } else {
            self.error(DiagKind::UnexpectedCharacter);
        }
    }

    /// Scan the rest of a number literal whose first digit is `c`. A value
    /// outside the `i32` range is recorded as a diagnostic, and the token
    /// still appears, carrying a sentinel value.
    fn number(&mut self, c: u8)
        requires
            old(self).current == old(self).start + 1,
            old(self).start < old(self).source@.len(),
            old(self).source@[old(self).start as int] == c,
            is_digit(c),
        ensures
            final(self).source == old(self).source,
            final(self).line == old(self).line,
            ({
                let src = old(self).source@;
                let pos = old(self).start as int;
                let hi = digits_end(src, pos);
                let v = digits_val(src.subrange(pos, hi));
                &&& final(self).current == hi
                &&& tokens_model(final(self).tokens@) == tokens_model(old(self).tokens@).push(
                    TokenModel {
                        kind: TokenType::NUMBER,
                        lexeme: src.subrange(pos, hi),
                        literal: Some(
                            crate::token::LiteralModel::Number(
                                if v <= i32::MAX {
                                    v as i32
                                } else {
                                    -1i32
                                },
                            ),
                        ),
                        line: old(self).line,
                    },
                )
                &&& diags_model(final(self).diags@) == if v <= i32::MAX {
                    diags_model(old(self).diags@)
                } else {
                    diags_model(old(self).diags@).push(
                        scan_diag(DiagKind::MalformedNumber, old(self).line),
                    )
                }
            }),
    {
        let ghost src = self.source@;
        let ghost pos = self.start as int;
        proof {
            lemma_run_end_bounds(src, pos);
            assert(src.subrange(pos, pos + 1).drop_last() =~= Seq::<u8>::empty());
            assert(src.subrange(pos, pos + 1).last() == c);
        }
        proof {
            assert(digits_val(Seq::<u8>::empty()) == 0);
        }
        let mut acc: Option<i32> = Some((c - 48) as i32);
        #[verifier::loop_isolation(false)]
        while self.current < self.source.len() && 48 <= self.source[self.current]
            && self.source[self.current] <= 57
            invariant
                self.source == old(self).source,
                self.tokens == old(self).tokens,
                self.diags == old(self).diags,
                self.start == old(self).start,
                self.line == old(self).line,
                pos + 1 <= self.current <= src.len(),
                digits_end(src, pos) == digits_end(src, self.current as int),
                forall|j: int| pos <= j < self.current ==> is_digit(#[trigger] src[j]),
                match acc {
                    Some(a) => a as int == digits_val(src.subrange(pos, self.current as int))
                        && a >= 0,
                    None => digits_val(src.subrange(pos, self.current as int)) > i32::MAX,
                },
            decreases src.len() - self.current,
        {
            let d = self.source[self.current];
            let ghost before = src.subrange(pos, self.current as int);
            let ghost after = src.subrange(pos, self.current + 1);
            proof {
                assert(after.drop_last() =~= before);
                assert(after.last() == d);
                lemma_digits_val_nonneg(before);
            }
            acc = match acc {
                Some(a) => match a.checked_mul(10) {
                    Some(m) => match m.checked_add((d - 48) as i32) {
                        Some(t) => Some(t),
                        None => None,
                    },
                    None => None,
                },
                None => None,
            };
            self.current = self.current + 1;
        }
        proof {
            assert(digits_end(src, self.current as int) == self.current as int);
        }
        match acc {
            Some(v) => {
                self.add_token_full(Some(Literal::Number(v)), TokenType::NUMBER);
            },
            None => {
                self.error(DiagKind::MalformedNumber);
                self.add_token_full(Some(Literal::Number(-1)), TokenType::NUMBER);
            },
        }
    }

    /// Scan the rest of an identifier or keyword.
    fn identifier(&mut self)
        requires
            old(self).current == old(self).start + 1,
            old(self).start < old(self).source@.len(),
            is_alpha(old(self).source@[old(self).start as int]),
        ensures
            final(self).source == old(self).source,
            final(self).line == old(self).line,
            final(self).diags == old(self).diags,
            ({
                let src = old(self).source@;
                let pos = old(self).start as int;
                let hi = ident_end(src, pos);
                let lexeme = src.subrange(pos, hi);
                &&& final(self).current == hi
                &&& tokens_model(final(self).tokens@) == tokens_model(old(self).tokens@).push(
                    match keyword_model(lexeme) {
                        Some(kind) => TokenModel {
                            kind,
                            lexeme,
                            literal: None,
                            line: old(self).line,
                        },
                        None => TokenModel {
                            kind: TokenType::IDENTIFIER,
                            lexeme,
                            literal: Some(crate::token::LiteralModel::Identifier(lexeme)),
                            line: old(self).line,
                        },
                    },
                )
            }),
    {
        let ghost src = self.source@;
        let ghost pos = self.start as int;
        proof {
            lemma_run_end_bounds(src, pos);
        }
        #[verifier::loop_isolation(false)]
        while self.current < self.source.len() && ((97 <= self.source[self.current]
            && self.source[self.current] <= 122) || (65 <= self.source[self.current]
            && self.source[self.current] <= 90) || self.source[self.current] == 95 || (48
            <= self.source[self.current] && self.source[self.current] <= 57))
            invariant
                self.source == old(self).source,
                self.tokens == old(self).tokens,
                self.diags == old(self).diags,
                self.start == old(self).start,
                self.line == old(self).line,
                pos + 1 <= self.current <= src.len(),
                ident_end(src, pos) == ident_end(src, self.current as int),
            decreases src.len() - self.current,
        {
            self.current = self.current + 1;
        }
        proof {
            assert(ident_end(src, self.current as int) == self.current as int);
        }
        let lex = copy_range(&self.source, self.start, self.current);
        match keyword(&lex) {
            Some(kind) => {
                self.add_token(kind);
            },
            None => {
                self.add_token_full(Some(Literal::Identifier(lex)), TokenType::IDENTIFIER);
            },
        }
    }

    /// Scan the whole source: the tokens returned, and the diagnostics
    /// collected, are exactly those of the mathematical scan from the
    /// start of the source, ending with the end-of-input sentinel.
    pub fn scan_tokens(&mut self) -> (toks: Vec<Token>)
        requires
            old(self).current == 0,
            old(self).line == 1,
            old(self).tokens@.len() == 0,
            old(self).diags@.len() == 0,
        ensures
            tokens_model(toks@) == scan_model(old(self).source@, 0, 1).toks,
            diags_model(final(self).diags@) == scan_model(old(self).source@, 0, 1).diags,
    {
        let ghost src = self.source@;
        proof {
            assert(tokens_model(self.tokens@) =~= Seq::<TokenModel>::empty());
            assert(diags_model(self.diags@) =~= Seq::<DiagModel>::empty());
            assert(Seq::<TokenModel>::empty() + scan_model(src, 0, 1).toks =~= scan_model(
                src,
                0,
                1,
            ).toks);
            assert(Seq::<DiagModel>::empty() + scan_model(src, 0, 1).diags =~= scan_model(
                src,
                0,
                1,
            ).diags);
        }
        #[verifier::loop_isolation(false)]
        while self.current < self.source.len()
            invariant
                self.source@ == src,
                self.current <= src.len(),
                scan_model(src, 0, 1).toks =~= tokens_model(self.tokens@) + scan_model(
                    src,
                    self.current as int,
                    self.line,
                ).toks,
                scan_model(src, 0, 1).diags =~= diags_model(self.diags@) + scan_model(
                    src,
                    self.current as int,
                    self.line,
                ).diags,
            decreases src.len() - self.current,
        {
            self.start = self.current;
            let ghost cur0 = self.current as int;
            let ghost line0 = self.line;
            let ghost toks0 = tokens_model(self.tokens@);
            let ghost diags0 = diags_model(self.diags@);
            proof {
                lemma_step_bounds(src, cur0, line0);
            }
            self.scan_token();
            proof {
                let step = scan_step_model(src, cur0, line0);
                match step.token {
                    Some(t) => {
                        assert((toks0 + (seq![t] + scan_model(src, step.next, step.line).toks))
                            =~= (toks0.push(t) + scan_model(src, step.next, step.line).toks));
                    },
                    None => {},
                }
                match step.diag {
                    Some(d) => {
                        assert((diags0 + (seq![d] + scan_model(src, step.next, step.line).diags))
                            =~= (diags0.push(d) + scan_model(src, step.next, step.line).diags));
                    },
                    None => {},
                }
            }
        }
        let eof = Token::new(TokenType::EOF, Vec::new(), None, self.line);
        proof {
            assert(eof@.lexeme =~= Seq::<u8>::empty());
        }
        self.tokens.push(eof);
        proof {
            assert(scan_model(src, self.current as int, self.line).toks =~= seq![eof@]);
            assert(scan_model(src, self.current as int, self.line).diags
                =~= Seq::<DiagModel>::empty());
            assert(tokens_model(self.tokens@) =~= tokens_model(self.tokens@.drop_last()).push(
                eof@,
            ));
            assert(tokens_model(self.tokens@) =~= scan_model(src, 0, 1).toks);
            assert(diags_model(self.diags@) + Seq::<DiagModel>::empty() =~= diags_model(
                self.diags@,
            ));
        }
        let out = clone_tokens(&self.tokens);
        proof {
            assert(tokens_model(out@) =~= tokens_model(self.tokens@));
        }
        out
    }
}

} // verus!
