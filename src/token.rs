use vstd::prelude::*;

use crate::ast::Pos;
use crate::literal::DecodeError;

verus! {

/// The class of a lexical token.
#[derive(Debug, Clone, Copy, PartialEq, Eq, Structural)]
pub enum Kind {
    Punctuator,
    Name,
    IntValue,
    FloatValue,
    BigIntValue,
    StringValue,
    BlockString,
}

/// A classified token: its kind, its source text and where it starts.
#[derive(Debug, Clone, Copy, PartialEq)]
pub struct Token<'a> {
    pub kind: Kind,
    pub value: &'a str,
    pub position: Pos,
}

/// A cursor over the tokens of a source text.
///
/// `index` is the next token to read; `end` is the place just past the text.
#[derive(Debug)]
pub struct TokenStream<'a> {
    pub tokens: Vec<Token<'a>>,
    pub index: usize,
    pub end: Pos,
}

impl<'a> TokenStream<'a> {
    pub fn new(tokens: Vec<Token<'a>>, end: Pos) -> (r: TokenStream<'a>)
        ensures
            r.tokens@ == tokens@,
            r.index == 0,
            r.end == end,
    {
        TokenStream { tokens, index: 0, end }
    }
}

/// Why a production failed.
#[derive(Debug, Clone, Copy, PartialEq, Eq, Structural)]
pub enum ErrorKind {
    /// The token here is not one that the production accepts.
    UnexpectedToken,
    /// The tokens ran out.
    UnexpectedEnd,
    /// Integer digit text that is not decimal or is too large.
    BadNumber,
    /// A string literal that does not decode.
    BadString(DecodeError),
}

/// A failure, with the place of the token where it arose.
#[derive(Debug, Clone, Copy, PartialEq, Eq, Structural)]
pub struct ParseError {
    pub kind: ErrorKind,
    pub position: Pos,
}

/// The outcome of a production in the model: what it built and where it
/// stopped, or why and at which token index it failed.
pub enum Parsed<M> {
    Done(M, int),
    Failed(ErrorKind, int),
}

/// Whether token `p` is the punctuator `c`.
pub open spec fn is_punct(toks: Seq<Token>, p: int, c: char) -> bool {
    0 <= p < toks.len() && toks[p].kind == Kind::Punctuator && toks[p].value@ == seq![c]
}

/// Whether token `p` is a name.
pub open spec fn is_name(toks: Seq<Token>, p: int) -> bool {
    0 <= p < toks.len() && toks[p].kind == Kind::Name
}

/// The failure for a token that does not fit, or for running out of tokens.
pub open spec fn fail_at<M>(toks: Seq<Token>, p: int) -> Parsed<M> {
    if 0 <= p < toks.len() {
        Parsed::Failed(ErrorKind::UnexpectedToken, p)
    } else {
        Parsed::Failed(ErrorKind::UnexpectedEnd, p)
    }
}

/// The place of token `i`, or the end of the text past the last token.
pub open spec fn pos_at(toks: Seq<Token>, end: Pos, i: int) -> Pos {
    if 0 <= i < toks.len() {
        toks[i].position
    } else {
        end
    }
}

pub(crate) fn error_at(toks: &Vec<Token>, end: Pos, i: usize) -> (r: ParseError)
    ensures
        r.position == pos_at(toks@, end, i as int),
        r.kind == (if i < toks@.len() { ErrorKind::UnexpectedToken } else { ErrorKind::UnexpectedEnd }),
{
    ParseError {
        kind: if i < toks.len() { ErrorKind::UnexpectedToken } else { ErrorKind::UnexpectedEnd },
        position: if i < toks.len() { toks[i].position } else { end },
    }
}

/// Whether token `p` is the punctuator `c`.
pub(crate) fn punct_at(toks: &Vec<Token>, p: usize, c: char) -> (r: bool)
    ensures
        r == is_punct(toks@, p as int, c),
{
    if p >= toks.len() {
        return false;
    }
    let t = toks[p];
    if t.kind != Kind::Punctuator {
        return false;
    }
    let cs = crate::chars::chars_of(t.value);
    if cs.len() != 1 {
        return false;
    }
    let r = cs[0] == c;
    assert(r ==> cs@ == seq![c]);
    r
}

} // verus!
