use graphql_parser::ast::{Directive, Pos, Type, Value};
use graphql_parser::block::unquote_block_string;
use graphql_parser::literal::{unquote_string, DecodeError};
use graphql_parser::number::{parse_u128, parse_u64, BigNumber, Number};
use graphql_parser::parser::{
    arguments, bigint_value, block_string_value, default_value, directives, float_value,
    int_value, parse_type, plain_value, string, string_value, value,
};
use graphql_parser::token::{ErrorKind, Kind, ParseError, Token, TokenStream};

fn tok(kind: Kind, value: &str, column: usize) -> Token<'_> {
    Token { kind, value, position: Pos { line: 1, column } }
}

fn punct(value: &str, column: usize) -> Token<'_> {
    tok(Kind::Punctuator, value, column)
}

fn name(value: &str, column: usize) -> Token<'_> {
    tok(Kind::Name, value, column)
}

fn stream(tokens: Vec<Token<'_>>) -> TokenStream<'_> {
    TokenStream::new(tokens, Pos { line: 9, column: 9 })
}

#[test]
fn unquote_unicode_string() {
    // basic tests
    assert_eq!(unquote_string(r#""\u0009""#).expect(""), "\u{0009}");
    assert_eq!(unquote_string(r#""\u000A""#).expect(""), "\u{000A}");
    assert_eq!(unquote_string(r#""\u000D""#).expect(""), "\u{000D}");
    assert_eq!(unquote_string(r#""\u0020""#).expect(""), "\u{0020}");
    assert_eq!(unquote_string(r#""\uFFFF""#).expect(""), "\u{FFFF}");

    // a more complex string
    assert_eq!(
        unquote_string(r#""\u0009 hello \u000A there""#).expect(""),
        "\u{0009} hello \u{000A} there"
    );
}

#[test]
fn int_literal_keeps_its_magnitude() {
    assert_eq!(parse_u64("0"), Some(0));
    assert_eq!(parse_u64("1234"), Some(1234));
    assert_eq!(parse_u64("18446744073709551615"), Some(u64::MAX));
    assert_eq!(parse_u64("18446744073709551616"), None);
    assert_eq!(parse_u64(""), None);
    assert_eq!(parse_u64("12a"), None);
    let mut s = stream(vec![tok(Kind::IntValue, "18446744073709551615", 1)]);
    let v = int_value::<&str>(&mut s).unwrap();
    assert_eq!(v, Value::Int(Number(u64::MAX)));
    assert_eq!(s.index, 1);
    if let Value::Int(n) = v {
        assert_eq!(n.as_u64(), u64::MAX);
        assert_eq!(n.as_i64(), None);
    }
}

#[test]
fn number_narrows_to_i64() {
    assert_eq!(Number(5).as_i64(), Some(5));
    assert_eq!(Number(i64::MAX as u64).as_i64(), Some(i64::MAX));
    assert_eq!(Number(i64::MAX as u64 + 1).as_i64(), None);
}

#[test]
fn big_literal_keeps_its_magnitude() {
    assert_eq!(parse_u128("18446744073709551616"), Some(1u128 << 64));
    assert_eq!(
        parse_u128("340282366920938463463374607431768211455"),
        Some(u128::MAX)
    );
    assert_eq!(parse_u128("340282366920938463463374607431768211456"), None);
    let mut s = stream(vec![tok(Kind::BigIntValue, "18446744073709551616", 1)]);
    let v = bigint_value::<&str>(&mut s).unwrap();
    assert_eq!(v, Value::BigInt(BigNumber(1u128 << 64)));
    assert_eq!(BigNumber(1u128 << 64).as_u64(), None);
    assert_eq!(BigNumber(1u128 << 64).as_u128(), 1u128 << 64);
    assert_eq!(BigNumber(7).as_u64(), Some(7));
}

#[test]
fn too_large_int_is_a_bad_number() {
    let mut s = stream(vec![tok(Kind::IntValue, "18446744073709551616", 4)]);
    let e = value::<&str>(&mut s).unwrap_err();
    assert_eq!(e.kind, ErrorKind::BadNumber);
    assert_eq!(e.position, Pos { line: 1, column: 4 });
    assert_eq!(s.index, 0);
}

#[test]
fn simple_escapes_decode() {
    assert_eq!(unquote_string(r#""\n""#).unwrap(), "\n");
    assert_eq!(unquote_string(r#""\u0041""#).unwrap(), "A");
    assert_eq!(unquote_string(r#""\\""#).unwrap(), "\\");
    assert_eq!(unquote_string(r#""\"\/\b\f\r\t""#).unwrap(), "\"/\u{0008}\u{000C}\r\t");
}

#[test]
fn plain_text_round_trips() {
    let text = "Hello, world! 123 ~{}[]";
    let quoted = format!("\"{}\"", text);
    assert_eq!(unquote_string(&quoted).unwrap(), text);
    assert_eq!(unquote_string("\"\"").unwrap(), "");
}

#[test]
fn string_decode_errors() {
    assert_eq!(unquote_string(r#""\q""#), Err(DecodeError::BadEscape('q')));
    assert_eq!(unquote_string(r#""\u12""#), Err(DecodeError::ShortUnicodeEscape));
    assert_eq!(unquote_string(r#""\uD800""#), Err(DecodeError::InvalidCodePoint));
    assert_eq!(unquote_string(r#""\uZZZZ""#), Err(DecodeError::InvalidCodePoint));
    assert_eq!(unquote_string(r#""abc\""#), Err(DecodeError::TrailingBackslash));
    assert_eq!(unquote_string("abc"), Err(DecodeError::Unquoted));
    assert_eq!(unquote_string("\""), Err(DecodeError::Unquoted));
}

#[test]
fn surrogate_pairs_are_not_combined() {
    assert_eq!(unquote_string(r#""\uD83D\uDE00""#), Err(DecodeError::InvalidCodePoint));
}

#[test]
fn block_string_dedents() {
    let src = "\"\"\"\n    Hello,\n      World!\n    \n\"\"\"";
    assert_eq!(unquote_block_string(src).unwrap(), "Hello,\n  World!\n");
}

#[test]
fn block_string_first_line_and_escapes() {
    let src = "\"\"\"  first  \n\t  a \\\"\"\" b\n\t  c\"\"\"";
    assert_eq!(unquote_block_string(src).unwrap(), "first\na \"\"\" b\nc\n");
    assert_eq!(unquote_block_string("\"\"\"\"\"\"").unwrap(), "");
    assert_eq!(unquote_block_string("\"\"\"x\"\"\"").unwrap(), "x\n");
    assert_eq!(unquote_block_string("\"\"x\"\""), Err(DecodeError::Unquoted));
}

#[test]
fn block_string_crlf_and_short_lines() {
    let src = "\"\"\"\r\n    a\r\n  \r\n      b\r\n\"\"\"";
    assert_eq!(unquote_block_string(src).unwrap(), "a\n\n  b\n");
}

#[test]
fn argument_list_parses() {
    let toks = vec![
        punct("(", 1),
        name("a", 2),
        punct(":", 3),
        tok(Kind::IntValue, "1", 5),
        name("b", 8),
        punct(":", 9),
        punct("[", 11),
        tok(Kind::IntValue, "1", 12),
        tok(Kind::IntValue, "2", 15),
        tok(Kind::IntValue, "3", 18),
        punct("]", 19),
        name("c", 22),
        punct(":", 23),
        punct("{", 25),
        name("x", 26),
        punct(":", 27),
        name("true", 29),
        punct("}", 33),
        punct(")", 34),
    ];
    let mut s = stream(toks);
    let args = arguments::<&str>(&mut s).unwrap();
    assert_eq!(s.index, 19);
    assert_eq!(args.len(), 3);
    assert_eq!(args[0], ("a", Value::Int(Number(1))));
    assert_eq!(
        args[1],
        (
            "b",
            Value::List(vec![
                Value::Int(Number(1)),
                Value::Int(Number(2)),
                Value::Int(Number(3))
            ])
        )
    );
    assert_eq!(args[2], ("c", Value::Object(vec![("x", Value::Boolean(true))])));
}

#[test]
fn absent_and_empty_arguments() {
    let mut s = stream(vec![name("x", 1)]);
    assert_eq!(arguments::<&str>(&mut s).unwrap(), vec![]);
    assert_eq!(s.index, 0);
    let mut s = stream(vec![punct("(", 1), punct(")", 2)]);
    let e = arguments::<&str>(&mut s).unwrap_err();
    assert_eq!(e, ParseError { kind: ErrorKind::UnexpectedToken, position: Pos { line: 1, column: 2 } });
    assert_eq!(s.index, 0);
}

#[test]
fn repeated_argument_names_all_stay() {
    let toks = vec![
        punct("(", 1),
        name("a", 2),
        punct(":", 3),
        tok(Kind::IntValue, "1", 4),
        name("a", 5),
        punct(":", 6),
        tok(Kind::IntValue, "2", 7),
        punct(")", 8),
    ];
    let mut s = stream(toks);
    let args = arguments::<String>(&mut s).unwrap();
    assert_eq!(
        args,
        vec![
            ("a".to_string(), Value::Int(Number(1))),
            ("a".to_string(), Value::Int(Number(2)))
        ]
    );
}

#[test]
fn object_keys_sorted_and_last_wins() {
    let toks = vec![
        punct("{", 1),
        name("zeta", 2),
        punct(":", 3),
        tok(Kind::IntValue, "1", 4),
        name("alpha", 5),
        punct(":", 6),
        name("null", 7),
        name("zeta", 8),
        punct(":", 9),
        name("RED", 10),
        punct("}", 11),
    ];
    let mut s = stream(toks);
    let v = value::<&str>(&mut s).unwrap();
    assert_eq!(
        v,
        Value::Object(vec![("alpha", Value::Null), ("zeta", Value::Enum("RED"))])
    );
    assert_eq!(s.index, 11);
}

#[test]
fn variables_only_in_values() {
    let mut s = stream(vec![punct("$", 1), name("id", 2)]);
    let e = default_value::<&str>(&mut s).unwrap_err();
    assert_eq!(e, ParseError { kind: ErrorKind::UnexpectedToken, position: Pos { line: 1, column: 1 } });
    assert_eq!(s.index, 0);
    let v = value::<&str>(&mut s).unwrap();
    assert_eq!(v, Value::Variable("id"));
    assert_eq!(s.index, 2);
}

#[test]
fn variable_without_name_fails() {
    let mut s = stream(vec![punct("$", 1)]);
    let e = value::<&str>(&mut s).unwrap_err();
    assert_eq!(e, ParseError { kind: ErrorKind::UnexpectedEnd, position: Pos { line: 9, column: 9 } });
}

#[test]
fn non_null_list_of_non_null() {
    let toks = vec![punct("[", 1), name("String", 2), punct("!", 8), punct("]", 9), punct("!", 10)];
    let mut s = stream(toks);
    let t = parse_type::<&str>(&mut s).unwrap();
    assert_eq!(
        t,
        Type::NonNullType(Box::new(Type::ListType(Box::new(Type::NonNullType(Box::new(
            Type::NamedType("String")
        ))))))
    );
    assert_eq!(s.index, 5);
}

#[test]
fn unclosed_list_type_fails() {
    let mut s = stream(vec![punct("[", 1), name("Int", 2)]);
    let e = parse_type::<String>(&mut s).unwrap_err();
    assert_eq!(e.kind, ErrorKind::UnexpectedEnd);
    assert_eq!(s.index, 0);
}

#[test]
fn owned_copy_equals_borrowed_tree() {
    let toks = vec![
        punct("[", 1),
        name("A", 2),
        tok(Kind::FloatValue, "1.5", 3),
        tok(Kind::StringValue, "\"s\"", 4),
        punct("{", 5),
        name("k", 6),
        punct(":", 7),
        punct("$", 8),
        name("v", 9),
        punct("}", 10),
        punct("]", 11),
    ];
    let mut borrowed = stream(toks.clone());
    let b = value::<&str>(&mut borrowed).unwrap();
    let mut owned = stream(toks);
    let o = value::<String>(&mut owned).unwrap();
    assert_eq!(b.into_static(), o);
    assert_eq!(b.into_static().into_static(), o);
}

#[test]
fn directives_keep_positions_and_order() {
    let toks = vec![
        punct("@", 1),
        name("skip", 2),
        punct("(", 6),
        name("if", 7),
        punct(":", 9),
        name("true", 11),
        punct(")", 15),
        punct("@", 17),
        name("live", 18),
        name("after", 23),
    ];
    let mut s = stream(toks);
    let ds: Vec<Directive<&str>> = directives(&mut s).unwrap();
    assert_eq!(s.index, 9);
    assert_eq!(
        ds,
        vec![
            Directive {
                position: Pos { line: 1, column: 1 },
                name: "skip",
                arguments: vec![("if", Value::Boolean(true))]
            },
            Directive { position: Pos { line: 1, column: 17 }, name: "live", arguments: vec![] }
        ]
    );
}

#[test]
fn one_token_literals() {
    let mut s = stream(vec![
        name("false", 1),
        name("null", 2),
        name("BLUE", 3),
        tok(Kind::FloatValue, "2.5e3", 4),
        tok(Kind::StringValue, "\"a\\tb\"", 5),
        tok(Kind::BlockString, "\"\"\"\n  x\n\"\"\"", 6),
        tok(Kind::BlockString, "\"\"\"y\"\"\"", 7),
        punct("]", 8),
    ]);
    assert_eq!(plain_value::<&str>(&mut s).unwrap(), Value::Boolean(false));
    assert_eq!(plain_value::<&str>(&mut s).unwrap(), Value::Null);
    assert_eq!(plain_value::<&str>(&mut s).unwrap(), Value::Enum("BLUE"));
    assert_eq!(float_value::<&str>(&mut s).unwrap(), Value::Float("2.5e3"));
    assert_eq!(string_value::<&str>(&mut s).unwrap(), Value::String("a\tb".to_string()));
    assert_eq!(block_string_value::<&str>(&mut s).unwrap(), Value::String("x\n".to_string()));
    assert_eq!(string(&mut s).unwrap(), "y\n");
    let e = plain_value::<&str>(&mut s).unwrap_err();
    assert_eq!(e.kind, ErrorKind::UnexpectedToken);
    assert_eq!(s.index, 7);
}

#[test]
fn wrong_kind_is_unexpected() {
    let mut s = stream(vec![tok(Kind::FloatValue, "1.0", 3)]);
    let e = int_value::<&str>(&mut s).unwrap_err();
    assert_eq!(e, ParseError { kind: ErrorKind::UnexpectedToken, position: Pos { line: 1, column: 3 } });
    let mut s = stream(vec![]);
    let e = string(&mut s).unwrap_err();
    assert_eq!(e.kind, ErrorKind::UnexpectedEnd);
}

#[test]
fn bad_string_in_value() {
    let mut s = stream(vec![punct("[", 1), tok(Kind::StringValue, "\"\\x\"", 2), punct("]", 3)]);
    let e = value::<&str>(&mut s).unwrap_err();
    assert_eq!(e.kind, ErrorKind::BadString(DecodeError::BadEscape('x')));
    assert_eq!(e.position, Pos { line: 1, column: 2 });
    assert_eq!(s.index, 0);
}

#[test]
fn empty_list_and_object() {
    let mut s = stream(vec![punct("[", 1), punct("]", 2), punct("{", 3), punct("}", 4)]);
    assert_eq!(default_value::<&str>(&mut s).unwrap(), Value::List(vec![]));
    assert_eq!(default_value::<&str>(&mut s).unwrap(), Value::Object(vec![]));
    assert_eq!(s.index, 4);
}

#[test]
fn block_string_unicode_indentation() {
    let src = "\"\"\"\n\u{3000}\u{3000}a\n\u{3000}\u{3000}\u{3000}b\"\"\"";
    assert_eq!(unquote_block_string(src).unwrap(), "a\n\u{3000}b\n");
    let src = "\"\"\"\n  a\n  \u{00A0}\"\"\"";
    assert_eq!(unquote_block_string(src).unwrap(), "a\n");
}

#[test]
fn block_string_all_blank_is_empty() {
    assert_eq!(unquote_block_string("\"\"\"\n   \n  \"\"\"").unwrap(), "");
    assert_eq!(unquote_block_string("\"\"\"   \"\"\"").unwrap(), "");
}

#[test]
fn block_string_drops_every_trailing_blank_line() {
    assert_eq!(unquote_block_string("\"\"\"\n  a\n\n\n\"\"\"").unwrap(), "a\n");
    assert_eq!(unquote_block_string("\"\"\"\n  a\n\n  b\n \n\t\n\"\"\"").unwrap(), "a\n\nb\n");
}

#[test]
fn clones_are_equal() {
    let v: Value<&str> = Value::Object(vec![("k", Value::List(vec![Value::Enum("E"), Value::Null]))]);
    assert_eq!(v.clone(), v);
    let t: Type<String> = Type::NonNullType(Box::new(Type::ListType(Box::new(Type::NamedType("A".to_string())))));
    assert_eq!(t.clone(), t);
    let d: Directive<&str> = Directive { position: Pos { line: 1, column: 2 }, name: "d", arguments: vec![("a", Value::Int(Number(3)))] };
    assert_eq!(d.clone(), d);
}

#[test]
fn backspace_escape() {
    assert_eq!(unquote_string(r#""a\bb""#).unwrap(), "a\u{0008}b");
}
