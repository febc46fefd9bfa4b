//! The parser: byte classifiers, lexical units and the grammar, each proved
//! to compute what `grammar` states.

use vstd::prelude::*;
use vstd::slice::{slice_subrange, slice_to_vec};
use crate::authentication::{
    new_authentication, new_scheme, pairs_view, schemes_view, SchemeModel, Authentication, Authorization, Params, ParamsModel,
    Scheme,
};
use crate::grammar::{
    param, param_list, param_value, params, prepend, quoted_body, run_end, scheme, scheme_list,
    token68, credential, in_class, is_alnum, ByteClass, ErrorKind, ParseError, BACKSLASH, COMMA,
    DQUOTE, EQUALS, SPACE, TAB,
};

verus! {

/// Separators between schemes: space, tab and comma.
pub fn can_skip(c: u8) -> (r: bool)
    ensures
        r == in_class(ByteClass::Skippable, c),
{
    c == SPACE || c == TAB || c == COMMA
}

/// Bytes of a bare token: all but space, tab, `"`, `,` and `=`.
pub fn is_token(ch: u8) -> (r: bool)
    ensures
        r == in_class(ByteClass::Token, ch),
{
    !(ch == SPACE || ch == TAB || ch == DQUOTE || ch == COMMA || ch == EQUALS)
}

pub fn is_equal(ch: u8) -> (r: bool)
    ensures
        r == in_class(ByteClass::Equals, ch),
{
    ch == EQUALS
}

/// Space and tab.
pub fn is_whitespace(ch: u8) -> (r: bool)
    ensures
        r == in_class(ByteClass::Whitespace, ch),
{
    ch == SPACE || ch == TAB
}

/// ASCII digits and letters.
pub fn is_alphanumeric(ch: u8) -> (r: bool)
    ensures
        r == is_alnum(ch),
{
    (48 <= ch && ch <= 57) || (65 <= ch && ch <= 90) || (97 <= ch && ch <= 122)
}

/// Bytes of a token68 value before its trailing `=`s.
pub fn is_token68(ch: u8) -> (r: bool)
    ensures
        r == in_class(ByteClass::Token68, ch),
{
    // `-`, `.`, `_`, `~`, `+` and `/` besides digits and letters
    ch == 45 || ch == 46 || ch == 95 || ch == 126 || ch == 43 || ch == 47 || is_alphanumeric(ch)
}

fn class_contains(c: ByteClass, b: u8) -> (r: bool)
    ensures
        r == in_class(c, b),
{
    match c {
        ByteClass::Token => is_token(b),
        ByteClass::Token68 => is_token68(b),
        ByteClass::Skippable => can_skip(b),
        ByteClass::Whitespace => is_whitespace(b),
        ByteClass::Equals => is_equal(b),
    }
}

/// The end of the longest run of bytes of class `c` from `i`.
pub fn take_run(s: &[u8], i: usize, c: ByteClass) -> (r: usize)
    requires
        i <= s@.len(),
    ensures
        r == run_end(s@, i as int, c),
        i <= r <= s@.len(),
{
    let mut j: usize = i;
    while j < s.len() && class_contains(c, s[j])
        invariant
            i <= j <= s@.len(),
            run_end(s@, i as int, c) == run_end(s@, j as int, c),
        decreases s@.len() - j,
    {
        j = j + 1;
    }
    j
}

proof fn lemma_prepend_push(a: Seq<u8>, b: u8, r: Result<(Seq<u8>, int), ParseError>)
    ensures
        prepend(a, prepend(seq![b], r)) == prepend(a.push(b), r),
{
    match r {
        Ok((v, e)) => {
            assert(a + (seq![b] + v) =~= a.push(b) + v);
        },
        Err(_) => {},
    }
}

/// The body of a quoted string from `i`, just after its opening quote: the
/// unescaped bytes and the position after the closing quote.
pub fn quoted_string(s: &[u8], i: usize) -> (r: Result<(Vec<u8>, usize), ParseError>)
    requires
        i <= s@.len(),
    ensures
        match r {
            Ok((v, e)) => quoted_body(s@, i as int) == Ok::<(Seq<u8>, int), ParseError>((v@, e as int))
                && i < e <= s@.len(),
            Err(x) => quoted_body(s@, i as int) == Err::<(Seq<u8>, int), ParseError>(x),
        },
{
    let mut acc: Vec<u8> = Vec::new();
    let mut j: usize = i;
    while j < s.len()
        invariant
            i <= j <= s@.len(),
            quoted_body(s@, i as int) == prepend(acc@, quoted_body(s@, j as int)),
        decreases s@.len() - j,
    {
        let b = s[j];
        if b == DQUOTE {
            assert(acc@ + Seq::<u8>::empty() =~= acc@);
            return Ok((acc, j + 1));
        } else if b == BACKSLASH {
            if j + 1 >= s.len() {
                return Err(ParseError { kind: ErrorKind::BadEscape, offset: j });
            }
            proof {
                lemma_prepend_push(acc@, s@[j + 1], quoted_body(s@, j + 2));
            }
            acc.push(s[j + 1]);
            j = j + 2;
        } else {
            proof {
                lemma_prepend_push(acc@, b, quoted_body(s@, j + 1));
            }
            acc.push(b);
            j = j + 1;
        }
    }
    Err(ParseError { kind: ErrorKind::UnterminatedQuote, offset: s.len() })
}

/// The value of an auth-param at `i`: a bare token, else a quoted string.
pub fn parse_value(s: &[u8], i: usize) -> (r: Result<(Vec<u8>, usize), ParseError>)
    requires
        i <= s@.len(),
    ensures
        match r {
            Ok((v, e)) => param_value(s@, i as int) == Ok::<(Seq<u8>, int), ParseError>((v@, e as int))
                && i < e <= s@.len(),
            Err(x) => param_value(s@, i as int) == Err::<(Seq<u8>, int), ParseError>(x),
        },
{
    let t = take_run(s, i, ByteClass::Token);
    if t > i {
        Ok((slice_to_vec(slice_subrange(s, i, t)), t))
    } else if i < s.len() && s[i] == DQUOTE {
        quoted_string(s, i + 1)
    } else {
        Err(ParseError { kind: ErrorKind::MissingValue, offset: i })
    }
}

/// One auth-param at `i`: separators, a key, optional whitespace, `=`,
/// optional whitespace and a value.
pub fn parse_param(s: &[u8], i: usize) -> (r: Result<((Vec<u8>, Vec<u8>), usize), ParseError>)
    requires
        i <= s@.len(),
    ensures
        match r {
            Ok((p, e)) => param(s@, i as int) == Ok::<((Seq<u8>, Seq<u8>), int), ParseError>(
                ((p.0@, p.1@), e as int),
            ) && i < e <= s@.len(),
            Err(x) => param(s@, i as int) == Err::<((Seq<u8>, Seq<u8>), int), ParseError>(x),
        },
{
    let a = take_run(s, i, ByteClass::Skippable);
    let k = take_run(s, a, ByteClass::Token);
    let w = take_run(s, k, ByteClass::Whitespace);
    if k == a {
        return Err(ParseError { kind: ErrorKind::NoToken, offset: a });
    }
    if !(w < s.len() && s[w] == EQUALS) {
        return Err(ParseError { kind: ErrorKind::MissingEquals, offset: k });
    }
    let v = take_run(s, w + 1, ByteClass::Whitespace);
    match parse_value(s, v) {
        Ok((value, e)) => {
            let key = slice_to_vec(slice_subrange(s, a, k));
            Ok(((key, value), e))
        },
        Err(x) => Err(x),
    }
}

/// The auth-params that follow one another from `i`, up to the first that
/// does not parse, and the position after the last one taken.
pub fn parse_param_list(s: &[u8], i: usize) -> (r: (Vec<(Vec<u8>, Vec<u8>)>, usize))
    requires
        i <= s@.len(),
    ensures
        param_list(s@, i as int) == (pairs_view(r.0@), r.1 as int),
        i <= r.1 <= s@.len(),
{
    let mut acc: Vec<(Vec<u8>, Vec<u8>)> = Vec::new();
    let mut j: usize = i;
    loop
        invariant
            i <= j <= s@.len(),
            param_list(s@, i as int) == (
                pairs_view(acc@) + param_list(s@, j as int).0,
                param_list(s@, j as int).1,
            ),
        decreases s@.len() - j,
    {
        match parse_param(s, j) {
            Ok((p, e)) => {
                let ghost before = acc@;
                let ghost rest = param_list(s@, e as int);
                acc.push(p);
                proof {
                    assert(pairs_view(acc@) =~= pairs_view(before).push((p.0@, p.1@)));
                    assert(pairs_view(before) + (seq![(p.0@, p.1@)] + rest.0) =~= pairs_view(
                        acc@,
                    ) + rest.0);
                }
                j = e;
            },
            Err(_) => {
                assert(pairs_view(acc@) + Seq::empty() =~= pairs_view(acc@));
                return (acc, j);
            },
        }
    }
}

/// A token68 value at `i`: its end.
pub fn parse_token68(s: &[u8], i: usize) -> (r: Result<usize, ParseError>)
    requires
        i <= s@.len(),
    ensures
        match r {
            Ok(e) => token68(s@, i as int) == Ok::<int, ParseError>(e as int) && i < e <= s@.len(),
            Err(x) => token68(s@, i as int) == Err::<int, ParseError>(x),
        },
{
    let f = take_run(s, i, ByteClass::Token68);
    if f == i {
        Err(ParseError { kind: ErrorKind::NoToken68, offset: i })
    } else {
        Ok(take_run(s, f, ByteClass::Equals))
    }
}

/// The parameters after a scheme name that ends at `i`; an auth-param list
/// is preferred to a token68 value.
pub fn parse_params(s: &[u8], i: usize) -> (r: (Option<Params>, usize))
    requires
        i <= s@.len(),
    ensures
        params(s@, i as int) == (
            match r.0 {
                Some(p) => Some(p@),
                None => None::<ParamsModel>,
            },
            r.1 as int,
        ),
        i <= r.1 <= s@.len(),
{
    let sp = take_run(s, i, ByteClass::Whitespace);
    if sp == i {
        return (None, i);
    }
    let (list, e) = parse_param_list(s, sp);
    if list.len() > 0 {
        return (Some(Params::ParamList(list)), e);
    }
    match parse_token68(s, sp) {
        Ok(e) => (Some(Params::Base64(slice_to_vec(slice_subrange(s, sp, e)))), e),
        Err(_) => (None, i),
    }
}

/// One scheme at `i`: separators, a name and its parameters.
pub fn parse_scheme(s: &[u8], i: usize) -> (r: Option<(Scheme, usize)>)
    requires
        i <= s@.len(),
    ensures
        match r {
            Some((sc, e)) => scheme(s@, i as int) == Some((sc@, e as int)) && i < e <= s@.len(),
            None => scheme(s@, i as int) is None,
        },
{
    let a = take_run(s, i, ByteClass::Skippable);
    let n = take_run(s, a, ByteClass::Token);
    if n == a {
        return None;
    }
    let (p, e) = parse_params(s, n);
    let sc = new_scheme(slice_to_vec(slice_subrange(s, a, n)), p);
    Some((sc, e))
}

/// The schemes that follow one another from `i`, and the position after the
/// separators that follow the last one.
pub fn parse_scheme_list(s: &[u8], i: usize) -> (r: (Vec<Scheme>, usize))
    requires
        i <= s@.len(),
    ensures
        scheme_list(s@, i as int) == (schemes_view(r.0@), r.1 as int),
        i <= r.1 <= s@.len(),
{
    let mut acc: Vec<Scheme> = Vec::new();
    let mut j: usize = i;
    loop
        invariant
            i <= j <= s@.len(),
            scheme_list(s@, i as int) == (
                schemes_view(acc@) + scheme_list(s@, j as int).0,
                scheme_list(s@, j as int).1,
            ),
        decreases s@.len() - j,
    {
        let a = take_run(s, j, ByteClass::Skippable);
        match parse_scheme(s, a) {
            Some((sc, e)) => {
                let ghost before = acc@;
                let ghost m = sc@;
                let ghost rest = scheme_list(s@, e as int);
                acc.push(sc);
                proof {
                    assert(schemes_view(acc@) =~= schemes_view(before).push(m));
                    assert(schemes_view(before) + (seq![m] + rest.0) =~= schemes_view(acc@)
                        + rest.0);
                }
                j = e;
            },
            None => {
                assert(schemes_view(acc@) + Seq::empty() =~= schemes_view(acc@));
                return (acc, a);
            },
        }
    }
}

/// Parses a challenge list (`WWW-Authenticate`, `Proxy-Authenticate`). It
/// never fails: input that holds no scheme gives an empty list. The rest of
/// the input that no scheme took is handed back beside the list.
pub fn parse_authentication(input: &[u8]) -> (r: Result<(&[u8], Authentication), ParseError>)
    ensures
        match r {
            Ok((rest, auth)) => auth@ == scheme_list(input@, 0).0 && rest@ == input@.subrange(
                scheme_list(input@, 0).1,
                input@.len() as int,
            ),
            Err(_) => false,
        },
{
    let (challenges, e) = parse_scheme_list(input, 0);
    Ok((slice_subrange(input, e, input.len()), new_authentication(challenges)))
}

/// Parses a single credential (`Authorization`, `Proxy-Authorization`):
/// exactly one scheme, else `EmptyInput` where the input holds only
/// separators and `NoToken` where it holds something else.
pub fn parse_authorization(input: &[u8]) -> (r: Result<(&[u8], Authorization), ParseError>)
    ensures
        match r {
            Ok((rest, auth)) => credential(input@) matches Ok((sc, e)) && auth.credentials@ == sc
                && rest@ == input@.subrange(e, input@.len() as int),
            Err(x) => credential(input@) == Err::<(SchemeModel, int), ParseError>(x),
        },
{
    let a = take_run(input, 0, ByteClass::Skippable);
    match parse_scheme(input, a) {
        Some((sc, e)) => {
            let f = take_run(input, e, ByteClass::Skippable);
            Ok((slice_subrange(input, f, input.len()), Authorization { credentials: sc }))
        },
        None => if a == input.len() {
            Err(ParseError { kind: ErrorKind::EmptyInput, offset: a })
        } else {
            Err(ParseError { kind: ErrorKind::NoToken, offset: a })
        },
    }
}

} // verus!
