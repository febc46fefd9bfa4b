//! The grammar of authentication field values, stated over byte sequences
//! and positions in them.

use vstd::prelude::*;
use crate::authentication::{ParamsModel, SchemeModel};

verus! {

pub const SPACE: u8 = 32;
pub const TAB: u8 = 9;
pub const DQUOTE: u8 = 34;
pub const COMMA: u8 = 44;
pub const EQUALS: u8 = 61;
pub const BACKSLASH: u8 = 92;

/// Why a parse failed.
#[derive(Debug, Clone, Copy, PartialEq, Eq, Structural)]
pub enum ErrorKind {
    NoToken,
    MissingEquals,
    MissingValue,
    UnterminatedQuote,
    BadEscape,
    NoToken68,
    EmptyInput,
}

/// A parse failure: what went wrong, and at which byte offset.
#[derive(Debug, Clone, Copy, PartialEq, Eq, Structural)]
pub struct ParseError {
    pub kind: ErrorKind,
    pub offset: usize,
}

/// The byte classes that lexical units are made of.
#[derive(Clone, Copy)]
pub enum ByteClass {
    /// Bytes of a bare token: all but space, tab, `"`, `,` and `=`.
    Token,
    /// Bytes of a token68 value before its trailing `=`s.
    Token68,
    /// Separators between schemes: space, tab and comma.
    Skippable,
    /// Space and tab.
    Whitespace,
    /// The `=` byte.
    Equals,
}

/// ASCII digits and letters.
pub open spec fn is_alnum(b: u8) -> bool {
    (48 <= b && b <= 57) || (65 <= b && b <= 90) || (97 <= b && b <= 122)
}

pub open spec fn in_class(c: ByteClass, b: u8) -> bool {
    match c {
        ByteClass::Token => !(b == SPACE || b == TAB || b == DQUOTE || b == COMMA || b == EQUALS),
        // `-`, `.`, `_`, `~`, `+` and `/` besides digits and letters
        ByteClass::Token68 => is_alnum(b) || b == 45 || b == 46 || b == 95 || b == 126
            || b == 43 || b == 47,
        ByteClass::Skippable => b == SPACE || b == TAB || b == COMMA,
        ByteClass::Whitespace => b == SPACE || b == TAB,
        ByteClass::Equals => b == EQUALS,
    }
}

/// The end of the longest run of bytes of class `c` that starts at `i`.
pub open spec fn run_end(s: Seq<u8>, i: int, c: ByteClass) -> int
    decreases s.len() - i,
{
    if 0 <= i < s.len() && in_class(c, s[i]) {
        run_end(s, i + 1, c)
    } else {
        i
    }
}

pub open spec fn fail<T>(kind: ErrorKind, at: int) -> Result<T, ParseError> {
    Err(ParseError { kind, offset: at as usize })
}

/// Puts `a` in front of the value of a successful result.
pub open spec fn prepend(a: Seq<u8>, r: Result<(Seq<u8>, int), ParseError>) -> Result<
    (Seq<u8>, int),
    ParseError,
> {
    match r {
        Ok((v, e)) => Ok((a + v, e)),
        Err(x) => Err(x),
    }
}

/// The body of a quoted string from `i` (just after the opening quote): the
/// unescaped bytes and the position after the closing quote. A backslash
/// takes the next byte literally.
pub open spec fn quoted_body(s: Seq<u8>, i: int) -> Result<(Seq<u8>, int), ParseError>
    decreases s.len() - i,
{
    if i < 0 || i >= s.len() {
        fail(ErrorKind::UnterminatedQuote, s.len() as int)
    } else if s[i] == DQUOTE {
        Ok((Seq::empty(), i + 1))
    } else if s[i] == BACKSLASH {
        if i + 1 >= s.len() {
            fail(ErrorKind::BadEscape, i)
        } else {
            prepend(seq![s[i + 1]], quoted_body(s, i + 2))
        }
    } else {
        prepend(seq![s[i]], quoted_body(s, i + 1))
    }
}

/// The value of an auth-param at `i`: a bare token, else a quoted string.
pub open spec fn param_value(s: Seq<u8>, i: int) -> Result<(Seq<u8>, int), ParseError> {
    let t = run_end(s, i, ByteClass::Token);
    if t > i {
        Ok((s.subrange(i, t), t))
    } else if 0 <= i < s.len() && s[i] == DQUOTE {
        quoted_body(s, i + 1)
    } else {
        fail(ErrorKind::MissingValue, i)
    }
}

/// One auth-param at `i`: separators, a key, optional whitespace, `=`,
/// optional whitespace and a value. Yields the pair and the position after it.
pub open spec fn param(s: Seq<u8>, i: int) -> Result<((Seq<u8>, Seq<u8>), int), ParseError> {
    let a = run_end(s, i, ByteClass::Skippable);
    let k = run_end(s, a, ByteClass::Token);
    let w = run_end(s, k, ByteClass::Whitespace);
    if k == a {
        fail(ErrorKind::NoToken, a)
    } else if !(w < s.len() && s[w] == EQUALS) {
        fail(ErrorKind::MissingEquals, k)
    } else {
        match param_value(s, run_end(s, w + 1, ByteClass::Whitespace)) {
            Ok((v, e)) => Ok(((s.subrange(a, k), v), e)),
            Err(x) => Err(x),
        }
    }
}

/// The auth-params that follow one another from `i`, up to the first that
/// does not parse, and the position after the last one taken.
pub open spec fn param_list(s: Seq<u8>, i: int) -> (Seq<(Seq<u8>, Seq<u8>)>, int)
    decreases s.len() - i,
{
    match param(s, i) {
        Ok((p, e)) => if i < e <= s.len() {
            let rest = param_list(s, e);
            (seq![p] + rest.0, rest.1)
        } else {
            (seq![p], e)
        },
        Err(_) => (Seq::empty(), i),
    }
}

/// A token68 value at `i`: token68 bytes then any number of `=`; its end.
pub open spec fn token68(s: Seq<u8>, i: int) -> Result<int, ParseError> {
    let f = run_end(s, i, ByteClass::Token68);
    if f == i {
        fail(ErrorKind::NoToken68, i)
    } else {
        Ok(run_end(s, f, ByteClass::Equals))
    }
}

/// The parameters after a scheme name ending at `i`. They need at least one
/// whitespace byte before them; an auth-param list is tried first and a
/// token68 value only where not even one pair parses. Without either the
/// scheme has no parameters and the position stays at `i`.
pub open spec fn params(s: Seq<u8>, i: int) -> (Option<ParamsModel>, int) {
    let sp = run_end(s, i, ByteClass::Whitespace);
    let list = param_list(s, sp);
    if sp == i {
        (None, i)
    } else if list.0.len() > 0 {
        (Some(ParamsModel::List(list.0)), list.1)
    } else {
        match token68(s, sp) {
            Ok(e) => (Some(ParamsModel::Token68(s.subrange(sp, e))), e),
            Err(_) => (None, i),
        }
    }
}

/// One scheme at `i`: separators, a name and its parameters.
pub open spec fn scheme(s: Seq<u8>, i: int) -> Option<(SchemeModel, int)> {
    let a = run_end(s, i, ByteClass::Skippable);
    let n = run_end(s, a, ByteClass::Token);
    if n == a {
        None
    } else {
        let p = params(s, n);
        Some((SchemeModel { name: s.subrange(a, n), params: p.0 }, p.1))
    }
}

/// The schemes that follow one another from `i`, and the position after the
/// separators that follow the last one.
pub open spec fn scheme_list(s: Seq<u8>, i: int) -> (Seq<SchemeModel>, int)
    decreases s.len() - i,
{
    let a = run_end(s, i, ByteClass::Skippable);
    match scheme(s, a) {
        Some((sc, e)) => if i < e <= s.len() {
            let rest = scheme_list(s, e);
            (seq![sc] + rest.0, rest.1)
        } else {
            (seq![sc], e)
        },
        None => (Seq::empty(), a),
    }
}

/// A single credential: exactly one scheme is required.
pub open spec fn credential(s: Seq<u8>) -> Result<(SchemeModel, int), ParseError> {
    let a = run_end(s, 0, ByteClass::Skippable);
    match scheme(s, a) {
        Some((sc, e)) => Ok((sc, run_end(s, e, ByteClass::Skippable))),
        None => if a == s.len() {
            fail(ErrorKind::EmptyInput, a)
        } else {
            fail(ErrorKind::NoToken, a)
        },
    }
}

} // verus!
