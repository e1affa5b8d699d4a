use vstd::prelude::*;

use crate::chars::{char_from_u32, char_of, chars_of, is_scalar, string_of};

verus! {

/// Why a string literal could not be decoded.
#[derive(Debug, Clone, Copy, PartialEq, Eq, Structural)]
pub enum DecodeError {
    /// The literal is not enclosed in its quote delimiters.
    Unquoted,
    /// A backslash ends the literal.
    TrailingBackslash,
    /// A backslash is followed by a character that names no escape.
    BadEscape(char),
    /// Fewer than four characters follow `\u`.
    ShortUnicodeEscape,
    /// The four characters after `\u` are not hex digits of a scalar value.
    InvalidCodePoint,
}

/// The value of a hex digit, either case.
pub open spec fn hex_digit(c: char) -> Option<int> {
    if '0' <= c <= '9' {
        Some((c as u32) as int - ('0' as u32) as int)
    } else if 'a' <= c <= 'f' {
        Some((c as u32) as int - ('a' as u32) as int + 10)
    } else if 'A' <= c <= 'F' {
        Some((c as u32) as int - ('A' as u32) as int + 10)
    } else {
        None
    }
}

/// The value of four hex digits, most significant first.
pub open spec fn hex4(s: Seq<char>) -> Option<int> {
    if s.len() == 4 && hex_digit(s[0]) is Some && hex_digit(s[1]) is Some
        && hex_digit(s[2]) is Some && hex_digit(s[3]) is Some {
        Some(
            hex_digit(s[0])->0 * 4096 + hex_digit(s[1])->0 * 256 + hex_digit(s[2])->0 * 16
                + hex_digit(s[3])->0,
        )
    } else {
        None
    }
}

/// The character that a one-letter escape `\e` stands for.
pub open spec fn simple_escape(e: char) -> Option<char> {
    if e == '"' || e == '\\' || e == '/' {
        Some(e)
    } else if e == 'b' {
        Some('\u{0008}')
    } else if e == 'f' {
        Some('\u{000C}')
    } else if e == 'n' {
        Some('\n')
    } else if e == 'r' {
        Some('\r')
    } else if e == 't' {
        Some('\t')
    } else {
        None
    }
}

/// `p` put in front of a decoded text; an error passes through.
pub open spec fn prepend(p: Seq<char>, r: Result<Seq<char>, DecodeError>) -> Result<
    Seq<char>,
    DecodeError,
> {
    match r {
        Ok(t) => Ok(p + t),
        Err(e) => Err(e),
    }
}

/// The decoded text of the inside of a quoted string, escapes resolved left to right.
pub open spec fn unescape(s: Seq<char>) -> Result<Seq<char>, DecodeError>
    decreases s.len(),
{
    if s.len() == 0 {
        Ok(Seq::empty())
    } else if s[0] != '\\' {
        prepend(seq![s[0]], unescape(s.subrange(1, s.len() as int)))
    } else if s.len() < 2 {
        Err(DecodeError::TrailingBackslash)
    } else if s[1] == 'u' {
        if s.len() < 6 {
            Err(DecodeError::ShortUnicodeEscape)
        } else {
            match hex4(s.subrange(2, 6)) {
                Some(v) => if is_scalar(v) {
                    prepend(seq![char_of(v)], unescape(s.subrange(6, s.len() as int)))
                } else {
                    Err(DecodeError::InvalidCodePoint)
                },
                None => Err(DecodeError::InvalidCodePoint),
            }
        }
    } else {
        match simple_escape(s[1]) {
            Some(c) => prepend(seq![c], unescape(s.subrange(2, s.len() as int))),
            None => Err(DecodeError::BadEscape(s[1])),
        }
    }
}

/// Whether `s` starts and ends with a quote, the two being distinct characters.
pub open spec fn is_quoted(s: Seq<char>) -> bool {
    s.len() >= 2 && s[0] == '"' && s[s.len() - 1] == '"'
}

/// The decoded value of a quoted string literal, quotes included in `s`.
pub open spec fn unquoted(s: Seq<char>) -> Result<Seq<char>, DecodeError> {
    if is_quoted(s) {
        unescape(s.subrange(1, s.len() - 1))
    } else {
        Err(DecodeError::Unquoted)
    }
}

/// Whether a decode result in exec form matches its spec form.
pub open spec fn decoded_as(r: Result<String, DecodeError>, m: Result<Seq<char>, DecodeError>) -> bool {
    match r {
        Ok(t) => m == Ok::<Seq<char>, DecodeError>(t@),
        Err(e) => m == Err::<Seq<char>, DecodeError>(e),
    }
}

fn hex_digit_of(c: char) -> (r: Option<u32>)
    ensures
        match hex_digit(c) {
            Some(v) => r == Some(v as u32),
            None => r is None,
        },
        r matches Some(v) ==> v < 16,
{
    if '0' <= c && c <= '9' {
        Some(c as u32 - '0' as u32)
    } else if 'a' <= c && c <= 'f' {
        Some(c as u32 - 'a' as u32 + 10)
    } else if 'A' <= c && c <= 'F' {
        Some(c as u32 - 'A' as u32 + 10)
    } else {
        None
    }
}

/// The value of the four hex digits at `cs[i..i + 4]`.
fn read_hex4(cs: &Vec<char>, i: usize) -> (r: Option<u32>)
    requires
        i + 4 <= cs.len(),
    ensures
        match hex4(cs@.subrange(i as int, i + 4)) {
            Some(v) => r == Some(v as u32),
            None => r is None,
        },
{
    let ghost q = cs@.subrange(i as int, i + 4);
    assert(q[0] == cs@[i as int] && q[1] == cs@[i + 1] && q[2] == cs@[i + 2] && q[3] == cs@[i + 3]);
    let a = hex_digit_of(cs[i]);
    let b = hex_digit_of(cs[i + 1]);
    let c = hex_digit_of(cs[i + 2]);
    let d = hex_digit_of(cs[i + 3]);
    match (a, b, c, d) {
        (Some(a), Some(b), Some(c), Some(d)) => Some(a * 4096 + b * 256 + c * 16 + d),
        _ => None,
    }
}

fn simple_escape_of(e: char) -> (r: Option<char>)
    ensures
        r == simple_escape(e),
{
    if e == '"' || e == '\\' || e == '/' {
        Some(e)
    } else if e == 'b' {
        Some('\u{0008}')
    } else if e == 'f' {
        Some('\u{000C}')
    } else if e == 'n' {
        Some('\n')
    } else if e == 'r' {
        Some('\r')
    } else if e == 't' {
        Some('\t')
    } else {
        None
    }
}

proof fn lemma_prepend_assoc(a: Seq<char>, b: Seq<char>, r: Result<Seq<char>, DecodeError>)
    ensures
        prepend(a, prepend(b, r)) == prepend(a + b, r),
{
    if let Ok(t) = r {
        assert(a + (b + t) == (a + b) + t);
    }
}

/// Text without backslashes decodes to itself.
proof fn lemma_unescape_plain(s: Seq<char>)
    requires
        forall|i: int| 0 <= i < s.len() ==> s[i] != '\\',
    ensures
        unescape(s) == Ok::<Seq<char>, DecodeError>(s),
    decreases s.len(),
{
    if s.len() > 0 {
        let t = s.subrange(1, s.len() as int);
        assert forall|i: int| 0 <= i < t.len() implies t[i] != '\\' by {
            assert(t[i] == s[i + 1]);
        }
        lemma_unescape_plain(t);
        assert(s[0] != '\\');
        assert(seq![s[0]] + t == s);
    } else {
        assert(s == Seq::<char>::empty());
    }
}

/// Wrapping text that holds no backslash and no quote in quotes, then
/// decoding it, gives the text back.
pub proof fn lemma_plain_round_trip(s: Seq<char>)
    requires
        forall|i: int| 0 <= i < s.len() ==> s[i] != '\\' && s[i] != '"',
    ensures
        unquoted(seq!['"'] + s + seq!['"']) == Ok::<Seq<char>, DecodeError>(s),
{
    let w = seq!['"'] + s + seq!['"'];
    assert(w.subrange(1, w.len() - 1) == s);
    lemma_unescape_plain(s);
}

/// Decodes a quoted string literal (quotes included) into its text.
pub fn unquote_string(s: &str) -> (r: Result<String, DecodeError>)
    ensures
        decoded_as(r, unquoted(s@)),
{
    let cs = chars_of(s);
    let n = cs.len();
    if n < 2 || cs[0] != '"' || cs[n - 1] != '"' {
        return Err(DecodeError::Unquoted);
    }
    let end = n - 1;
    let ghost body = cs@.subrange(1, end as int);
    let mut res: Vec<char> = Vec::new();
    let mut i: usize = 1;
    assert(cs@.subrange(1, end as int) == body);
    while i < end
        invariant
            cs@ == s@,
            n == cs@.len(),
            end == n - 1,
            1 <= i <= end,
            body == cs@.subrange(1, end as int),
            unquoted(s@) == unescape(body),
            unescape(body) == prepend(res@, unescape(cs@.subrange(i as int, end as int))),
        decreases end - i,
    {
        let ghost rest = cs@.subrange(i as int, end as int);
        let ghost old_res = res@;
        let c = cs[i];
        assert(rest[0] == c);
        if c != '\\' {
            assert(rest.subrange(1, rest.len() as int) == cs@.subrange(i + 1, end as int));
            assert(unescape(rest) == prepend(seq![c], unescape(cs@.subrange(i + 1, end as int))));
            res.push(c);
            assert(res@ == old_res + seq![c]);
            proof {
                lemma_prepend_assoc(old_res, seq![c], unescape(cs@.subrange(i + 1, end as int)));
            }
            i += 1;
        } else if i + 1 >= end {
            assert(unescape(rest) == Err::<Seq<char>, DecodeError>(DecodeError::TrailingBackslash));
            return Err(DecodeError::TrailingBackslash);
        } else {
            let e = cs[i + 1];
            assert(rest[1] == e);
            if e == 'u' {
                if end - i < 6 {
                    return Err(DecodeError::ShortUnicodeEscape);
                }
                assert(rest.subrange(2, 6) == cs@.subrange(i + 2, i + 6));
                let v = read_hex4(&cs, i + 2);
                match v {
                    Some(v) => {
                        match char_from_u32(v) {
                            Some(ch) => {
                                assert(rest.subrange(6, rest.len() as int) == cs@.subrange(
                                    i + 6,
                                    end as int,
                                ));
                                assert(hex4(rest.subrange(2, 6)) == Some(v as int));
                                assert(is_scalar(v as int));
                                assert(unescape(rest) == prepend(
                                    seq![ch],
                                    unescape(cs@.subrange(i + 6, end as int)),
                                ));
                                res.push(ch);
                        assert(res@ == old_res + seq![ch]);
                                proof {
                                    lemma_prepend_assoc(
                                        old_res,
                                        seq![ch],
                                        unescape(cs@.subrange(i + 6, end as int)),
                                    );
                                }
                                i += 6;
                            },
                            None => {
                                return Err(DecodeError::InvalidCodePoint);
                            },
                        }
                    },
                    None => {
                        return Err(DecodeError::InvalidCodePoint);
                    },
                }
            } else {
                match simple_escape_of(e) {
                    Some(ch) => {
                        assert(rest.subrange(2, rest.len() as int) == cs@.subrange(
                            i + 2,
                            end as int,
                        ));
                        assert(unescape(rest) == prepend(
                            seq![ch],
                            unescape(cs@.subrange(i + 2, end as int)),
                        ));
                        res.push(ch);
                        assert(res@ == old_res + seq![ch]);
                        proof {
                            lemma_prepend_assoc(
                                old_res,
                                seq![ch],
                                unescape(cs@.subrange(i + 2, end as int)),
                            );
                        }
                        i += 2;
                    },
                    None => {
                        assert(unescape(rest) == Err::<Seq<char>, DecodeError>(
                            DecodeError::BadEscape(e),
                        ));
                        return Err(DecodeError::BadEscape(e));
                    },
                }
            }
        }
    }
    assert(cs@.subrange(i as int, end as int).len() == 0);
    assert(res@ + Seq::<char>::empty() == res@);
    Ok(string_of(&res))
}

} // verus!
