//! Lexical units: token categories, literal payloads, and the token record.

use vstd::prelude::*;

verus! {

/// The category of a lexical unit.
#[derive(Clone, Copy, Debug, PartialEq, Eq, Structural)]
#[allow(non_camel_case_types)]
pub enum TokenType {
    LEFT_PAREN,
    RIGHT_PAREN,
    SEMICOLON,
    COMMA,
    DOT,
    PLUS,
    MINUS,
    STAR,
    SLASH,
    /// `!`: the print statement marker.
    BANG,
    /// `?`: the print-variable statement marker.
    QMARK,
    BANG_EQU,
    COLON_EQU,
    EQU,
    EQU_EQU,
    MORE,
    MORE_EQU,
    LESS,
    LESS_EQU,
    IDENTIFIER,
    NUMBER,
    CONST,
    VAR,
    BEGIN,
    END,
    WHILE,
    DO,
    IF,
    THEN,
    PROCEDURE,
    CALL,
    ODD,
    EOF,
}

/// A copy of a byte string whose contents are known to be kept.
pub fn clone_bytes(v: &Vec<u8>) -> (r: Vec<u8>)
    ensures
        r@ == v@,
{
    let r = v.clone();
    proof {
        assert(r@ =~= v@);
    }
    r
}

/// Whether two byte strings spell the same text.
pub fn bytes_eq(a: &Vec<u8>, b: &Vec<u8>) -> (r: bool)
    ensures
        r == (a@ == b@),
{
    if a.len() != b.len() {
        proof {
            assert(a@ != b@);
        }
        return false;
    }
    let mut i: usize = 0;
    while i < a.len()
        invariant
            i <= a@.len(),
            a@.len() == b@.len(),
            forall|j: int| 0 <= j < i ==> a@[j] == b@[j],
        decreases a@.len() - i,
    {
        if a[i] != b[i] {
            return false;
        }
        i = i + 1;
    }
    proof {
        assert(a@ =~= b@);
    }
    true
}

/// A copy of the bytes `v[lo..hi]`.
pub fn copy_range(v: &Vec<u8>, lo: usize, hi: usize) -> (r: Vec<u8>)
    requires
        lo <= hi <= v@.len(),
    ensures
        r@ == v@.subrange(lo as int, hi as int),
{
    let mut r: Vec<u8> = Vec::new();
    let mut i: usize = lo;
    while i < hi
        invariant
            lo <= i <= hi <= v@.len(),
            r@ =~= v@.subrange(lo as int, i as int),
        decreases hi - i,
    {
        r.push(v[i]);
        proof {
            assert(r@ =~= v@.subrange(lo as int, i + 1));
        }
        i = i + 1;
    }
    r
}

/// The payload a token carries: an integer value or an identifier name.
#[derive(Debug)]
pub enum Literal {
    Number(i32),
    Identifier(Vec<u8>),
}

/// The mathematical value of a `Literal`, with the name as a byte sequence.
pub enum LiteralModel {
    Number(i32),
    Identifier(Seq<u8>),
}

impl View for Literal {
    type V = LiteralModel;

    open spec fn view(&self) -> LiteralModel {
        match self {
            Literal::Number(v) => LiteralModel::Number(*v),
            Literal::Identifier(name) => LiteralModel::Identifier(name@),
        }
    }
}

impl Clone for Literal {
    fn clone(&self) -> (res: Self)
        ensures
            res@ == self@,
    {
        match self {
            Literal::Number(v) => Literal::Number(*v),
            Literal::Identifier(name) => Literal::Identifier(clone_bytes(name)),
        }
    }
}

/// One lexical unit: its category, the source bytes it was scanned from,
/// an optional payload, and the 1-based line it starts on.
#[derive(Debug)]
pub struct Token {
    pub kind: TokenType,
    pub lexeme: Vec<u8>,
    pub literal: Option<Literal>,
    pub line: usize,
}

/// The mathematical value of a `Token`.
pub struct TokenModel {
    pub kind: TokenType,
    pub lexeme: Seq<u8>,
    pub literal: Option<LiteralModel>,
    pub line: usize,
}

impl View for Token {
    type V = TokenModel;

    open spec fn view(&self) -> TokenModel {
        TokenModel {
            kind: self.kind,
            lexeme: self.lexeme@,
            literal: match self.literal {
                Some(lit) => Some(lit@),
                None => None,
            },
            line: self.line,
        }
    }
}

impl Clone for Token {
    fn clone(&self) -> (res: Self)
        ensures
            res@ == self@,
    {
        Token {
            kind: self.kind,
            lexeme: clone_bytes(&self.lexeme),
            literal: match &self.literal {
                Some(lit) => Some(lit.clone()),
                None => None,
            },
            line: self.line,
        }
    }
}

impl Token {
    pub fn new(kind: TokenType, lexeme: Vec<u8>, literal: Option<Literal>, line: usize) -> (t:
        Token)
        ensures
            t@ == (TokenModel {
                kind,
                lexeme: lexeme@,
                literal: match literal {
                    Some(lit) => Some(lit@),
                    None => None,
                },
                line,
            }),
    {
        Token { kind, lexeme, literal, line }
    }
}

/// A copy of a token row whose values are known to be kept.
pub fn clone_tokens(v: &Vec<Token>) -> (r: Vec<Token>)
    ensures
        r@.len() == v@.len(),
        forall|j: int| 0 <= j < v@.len() ==> (#[trigger] r@[j])@ == v@[j]@,
{
    let mut out: Vec<Token> = Vec::new();
    let mut i: usize = 0;
    while i < v.len()
        invariant
            i <= v@.len(),
            out@.len() == i,
            forall|j: int| 0 <= j < i ==> (#[trigger] out@[j])@ == v@[j]@,
        decreases v@.len() - i,
    {
        let t = v[i].clone();
        out.push(t);
        i = i + 1;
    }
    out
}

} // verus!
