use vstd::prelude::*;

use crate::ast::{Directive, DirectiveModel, Type, Value, ValueModel};
use crate::block::{block_unquoted, unquote_block_string};
use crate::grammar::{
    arguments_at, arguments_from, directives_at, directives_from, entries_model, scalar_at,
    scalar_value, type_at, type_from, value_at, value_from, lemma_fields_wf, lemma_value_wf,
    values_wf,
};
use crate::literal::{unquote_string, unquoted};
use crate::text::Text;
use crate::token::{is_punct, pos_at, ErrorKind, Kind, ParseError, Parsed, Token, TokenStream};

verus! {

/// `r` and the cursor after the call are what the model `m` gives for the
/// cursor before it: on success the cursor has moved past what was read, on
/// failure it stands where it stood.
pub open spec fn stepped<'a, X, M>(
    r: Result<X, ParseError>,
    m: Parsed<M>,
    before: TokenStream<'a>,
    after: TokenStream<'a>,
    view: spec_fn(X) -> M,
) -> bool {
    &&& after.tokens@ == before.tokens@
    &&& after.end == before.end
    &&& match m {
        Parsed::Done(v, q) => r is Ok && view(r->Ok_0) == v && after.index == q,
        Parsed::Failed(e, i) => r is Err && r->Err_0 == ParseError {
            kind: e,
            position: pos_at(before.tokens@, before.end, i),
        } && after.index == before.index,
    }
}

/// A one-token literal of kind `k` at token `p`.
pub open spec fn kind_at(toks: Seq<Token>, p: int, k: Kind) -> Parsed<ValueModel> {
    if !(0 <= p < toks.len()) {
        Parsed::Failed(ErrorKind::UnexpectedEnd, p)
    } else if toks[p].kind != k {
        Parsed::Failed(ErrorKind::UnexpectedToken, p)
    } else {
        scalar_at(toks, p)
    }
}

/// A quoted or block string at token `p`, decoded.
pub open spec fn string_at(toks: Seq<Token>, p: int) -> Parsed<Seq<char>> {
    if !(0 <= p < toks.len()) {
        Parsed::Failed(ErrorKind::UnexpectedEnd, p)
    } else if toks[p].kind == Kind::StringValue {
        match unquoted(toks[p].value@) {
            Ok(s) => Parsed::Done(s, p + 1),
            Err(e) => Parsed::Failed(ErrorKind::BadString(e), p),
        }
    } else if toks[p].kind == Kind::BlockString {
        match block_unquoted(toks[p].value@) {
            Ok(s) => Parsed::Done(s, p + 1),
            Err(e) => Parsed::Failed(ErrorKind::BadString(e), p),
        }
    } else {
        Parsed::Failed(ErrorKind::UnexpectedToken, p)
    }
}

/// Reads a value, where a variable `$name` may stand.
pub fn value<'a, T: Text<'a>>(input: &mut TokenStream<'a>) -> (r: Result<Value<'a, T>, ParseError>)
    ensures
        stepped(
            r,
            value_at(old(input).tokens@, old(input).index as int, true),
            *old(input),
            *final(input),
            |v: Value<'a, T>| v.model(),
        ),
        r is Ok ==> r->Ok_0.wf(),
{
    value_with::<T>(input, true)
}

/// Reads a default value: a value in which no variable may stand.
pub fn default_value<'a, T: Text<'a>>(input: &mut TokenStream<'a>) -> (r: Result<
    Value<'a, T>,
    ParseError,
>)
    ensures
        stepped(
            r,
            value_at(old(input).tokens@, old(input).index as int, false),
            *old(input),
            *final(input),
            |v: Value<'a, T>| v.model(),
        ),
        r is Ok ==> r->Ok_0.wf(),
{
    value_with::<T>(input, false)
}

fn value_with<'a, T: Text<'a>>(input: &mut TokenStream<'a>, vars: bool) -> (r: Result<
    Value<'a, T>,
    ParseError,
>)
    ensures
        stepped(
            r,
            value_at(old(input).tokens@, old(input).index as int, vars),
            *old(input),
            *final(input),
            |v: Value<'a, T>| v.model(),
        ),
        r is Ok ==> r->Ok_0.wf(),
{
    if input.index > input.tokens.len() {
        return Err(ParseError { kind: ErrorKind::UnexpectedEnd, position: input.end });
    }
    proof {
        lemma_value_wf(input.tokens@, input.index as int, vars);
    }
    match value_from::<T>(&input.tokens, input.end, input.index, vars) {
        Ok((v, q)) => {
            input.index = q;
            Ok(v)
        },
        Err(e) => Err(e),
    }
}

/// Reads a literal of one token: a keyword, an enum symbol, a number or a string.
pub fn plain_value<'a, T: Text<'a>>(input: &mut TokenStream<'a>) -> (r: Result<
    Value<'a, T>,
    ParseError,
>)
    ensures
        stepped(
            r,
            scalar_at(old(input).tokens@, old(input).index as int),
            *old(input),
            *final(input),
            |v: Value<'a, T>| v.model(),
        ),
{
    if input.index >= input.tokens.len() {
        return Err(ParseError { kind: ErrorKind::UnexpectedEnd, position: input.end });
    }
    match scalar_value::<T>(&input.tokens, input.end, input.index) {
        Ok((v, q)) => {
            input.index = q;
            Ok(v)
        },
        Err(e) => Err(e),
    }
}

fn literal_of_kind<'a, T: Text<'a>>(input: &mut TokenStream<'a>, k: Kind) -> (r: Result<
    Value<'a, T>,
    ParseError,
>)
    ensures
        stepped(
            r,
            kind_at(old(input).tokens@, old(input).index as int, k),
            *old(input),
            *final(input),
            |v: Value<'a, T>| v.model(),
        ),
{
    if input.index >= input.tokens.len() {
        return Err(ParseError { kind: ErrorKind::UnexpectedEnd, position: input.end });
    }
    let t = input.tokens[input.index];
    if t.kind != k {
        return Err(ParseError { kind: ErrorKind::UnexpectedToken, position: t.position });
    }
    match scalar_value::<T>(&input.tokens, input.end, input.index) {
        Ok((v, q)) => {
            input.index = q;
            Ok(v)
        },
        Err(e) => Err(e),
    }
}

/// Reads an integer literal that fits in 64 bits.
pub fn int_value<'a, T: Text<'a>>(input: &mut TokenStream<'a>) -> (r: Result<
    Value<'a, T>,
    ParseError,
>)
    ensures
        stepped(
            r,
            kind_at(old(input).tokens@, old(input).index as int, Kind::IntValue),
            *old(input),
            *final(input),
            |v: Value<'a, T>| v.model(),
        ),
{
    literal_of_kind::<T>(input, Kind::IntValue)
}

/// Reads an integer literal that fits in 128 bits.
pub fn bigint_value<'a, T: Text<'a>>(input: &mut TokenStream<'a>) -> (r: Result<
    Value<'a, T>,
    ParseError,
>)
    ensures
        stepped(
            r,
            kind_at(old(input).tokens@, old(input).index as int, Kind::BigIntValue),
            *old(input),
            *final(input),
            |v: Value<'a, T>| v.model(),
        ),
{
    literal_of_kind::<T>(input, Kind::BigIntValue)
}

/// Reads a floating-point literal, kept as its source text.
pub fn float_value<'a, T: Text<'a>>(input: &mut TokenStream<'a>) -> (r: Result<
    Value<'a, T>,
    ParseError,
>)
    ensures
        stepped(
            r,
            kind_at(old(input).tokens@, old(input).index as int, Kind::FloatValue),
            *old(input),
            *final(input),
            |v: Value<'a, T>| v.model(),
        ),
{
    literal_of_kind::<T>(input, Kind::FloatValue)
}

/// Reads a quoted string literal as a value.
pub fn string_value<'a, T: Text<'a>>(input: &mut TokenStream<'a>) -> (r: Result<
    Value<'a, T>,
    ParseError,
>)
    ensures
        stepped(
            r,
            kind_at(old(input).tokens@, old(input).index as int, Kind::StringValue),
            *old(input),
            *final(input),
            |v: Value<'a, T>| v.model(),
        ),
{
    literal_of_kind::<T>(input, Kind::StringValue)
}

/// Reads a block string literal as a value.
pub fn block_string_value<'a, T: Text<'a>>(input: &mut TokenStream<'a>) -> (r: Result<
    Value<'a, T>,
    ParseError,
>)
    ensures
        stepped(
            r,
            kind_at(old(input).tokens@, old(input).index as int, Kind::BlockString),
            *old(input),
            *final(input),
            |v: Value<'a, T>| v.model(),
        ),
{
    literal_of_kind::<T>(input, Kind::BlockString)
}

/// Reads a quoted or block string literal and decodes it.
pub fn string<'a>(input: &mut TokenStream<'a>) -> (r: Result<String, ParseError>)
    ensures
        stepped(
            r,
            string_at(old(input).tokens@, old(input).index as int),
            *old(input),
            *final(input),
            |s: String| s@,
        ),
{
    if input.index >= input.tokens.len() {
        return Err(ParseError { kind: ErrorKind::UnexpectedEnd, position: input.end });
    }
    let t = input.tokens[input.index];
    let d = if t.kind == Kind::StringValue {
        unquote_string(t.value)
    } else if t.kind == Kind::BlockString {
        unquote_block_string(t.value)
    } else {
        return Err(ParseError { kind: ErrorKind::UnexpectedToken, position: t.position });
    };
    match d {
        Ok(s) => {
            input.index = input.index + 1;
            Ok(s)
        },
        Err(e) => Err(ParseError { kind: ErrorKind::BadString(e), position: t.position }),
    }
}

/// Reads a type reference.
pub fn parse_type<'a, T: Text<'a>>(input: &mut TokenStream<'a>) -> (r: Result<
    Type<'a, T>,
    ParseError,
>)
    ensures
        stepped(
            r,
            type_at(old(input).tokens@, old(input).index as int),
            *old(input),
            *final(input),
            |t: Type<'a, T>| t.model(),
        ),
{
    if input.index > input.tokens.len() {
        return Err(ParseError { kind: ErrorKind::UnexpectedEnd, position: input.end });
    }
    match type_from::<T>(&input.tokens, input.end, input.index) {
        Ok((t, q)) => {
            input.index = q;
            Ok(t)
        },
        Err(e) => Err(e),
    }
}

/// Reads an argument list, which may be absent; names are kept in source
/// order, repeated ones too.
pub fn arguments<'a, T: Text<'a>>(input: &mut TokenStream<'a>) -> (r: Result<
    Vec<(T::Value, Value<'a, T>)>,
    ParseError,
>)
    ensures
        stepped(
            r,
            arguments_at(old(input).tokens@, old(input).index as int),
            *old(input),
            *final(input),
            |a: Vec<(T::Value, Value<'a, T>)>| entries_model::<T>(a@),
        ),
        r is Ok ==> forall|i: int| 0 <= i < r->Ok_0@.len() ==> (#[trigger] r->Ok_0@[i]).1.wf(),
{
    if input.index > input.tokens.len() {
        let a: Vec<(T::Value, Value<'a, T>)> = Vec::new();
        assert(entries_model::<T>(a@) =~= Seq::empty());
        return Ok(a);
    }
    proof {
        lemma_fields_wf(input.tokens@, input.index + 1, true, ')');
    }
    match arguments_from::<T>(&input.tokens, input.end, input.index) {
        Ok((a, q)) => {
            let ghost m = entries_model::<T>(a@);
            assert(values_wf(m)) by {
                if !is_punct(input.tokens@, input.index as int, '(') {
                    assert(m.len() == 0);
                }
            }
            assert forall|i: int| 0 <= i < a@.len() implies (#[trigger] a@[i]).1.wf() by {
                assert(m[i].1 == a@[i].1.model());
                assert(m[i].1.wf());
            }
            input.index = q;
            Ok(a)
        },
        Err(e) => Err(e),
    }
}

/// Reads the directives that stand at the cursor, each with the place of its `@`.
pub fn directives<'a, T: Text<'a>>(input: &mut TokenStream<'a>) -> (r: Result<
    Vec<Directive<'a, T>>,
    ParseError,
>)
    ensures
        stepped(
            r,
            directives_at(old(input).tokens@, old(input).index as int),
            *old(input),
            *final(input),
            |d: Vec<Directive<'a, T>>| Seq::new(d@.len(), |i: int| d@[i].model()),
        ),
{
    if input.index > input.tokens.len() {
        let d: Vec<Directive<'a, T>> = Vec::new();
        assert(Seq::new(d@.len(), |i: int| d@[i].model()) =~= Seq::<DirectiveModel>::empty());
        return Ok(d);
    }
    match directives_from::<T>(&input.tokens, input.end, input.index) {
        Ok((d, q)) => {
            assert(Seq::new(d@.len(), |i: int| d@[i].model()) =~= match directives_at(
                input.tokens@,
                input.index as int,
            ) {
                Parsed::Done(m, _) => m,
                Parsed::Failed(..) => Seq::empty(),
            });
            input.index = q;
            Ok(d)
        },
        Err(e) => Err(e),
    }
}

} // verus!
