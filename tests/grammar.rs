use http_auth::parser::{
    can_skip, is_alphanumeric, is_equal, is_token, is_token68, is_whitespace, parse_param,
    parse_token68, parse_value, quoted_string,
};
use http_auth::{
    new_authentication, new_scheme, parse_authentication, parse_authorization, to_field_value,
    ErrorKind, ParseError, Params,
};

fn challenges(input: &[u8]) -> http_auth::Authentication {
    let (remaining, auth) = parse_authentication(input).unwrap();
    assert_eq!(remaining, &b""[..]);
    auth
}

#[test]
fn classifiers() {
    for b in [b' ', b'\t', b'"', b',', b'='] {
        assert!(!is_token(b));
    }
    assert!(is_token(b'a') && is_token(b'\\') && is_token(b'/') && is_token(0xc3));
    assert!(can_skip(b',') && can_skip(b' ') && can_skip(b'\t') && !can_skip(b'a'));
    assert!(is_whitespace(b'\t') && !is_whitespace(b','));
    assert!(is_equal(b'=') && !is_equal(b'-'));
    assert!(is_alphanumeric(b'0') && is_alphanumeric(b'Z') && !is_alphanumeric(b'-'));
    for b in [b'-', b'.', b'_', b'~', b'+', b'/', b'q', b'7'] {
        assert!(is_token68(b));
    }
    assert!(!is_token68(b'=') && !is_token68(b'!'));
}

#[test]
fn separators_only_give_no_scheme() {
    for input in [&b""[..], b" ", b",", b" ,\t, ,,"] {
        let (remaining, auth) = parse_authentication(input).unwrap();
        assert_eq!(remaining, &b""[..]);
        assert_eq!(auth, new_authentication(vec![]));
    }
}

#[test]
fn loose_separators_parse_as_tight_ones() {
    assert_eq!(challenges(b",, a-scheme ,"), challenges(b"a-scheme"));
    assert_eq!(challenges(b"scheme-a  ,  scheme-b"), challenges(b"scheme-a,scheme-b"));
    assert_eq!(
        challenges(b" ,Digest realm=x ,, username=y , "),
        challenges(b"Digest realm=x,username=y")
    );
}

#[test]
fn escaped_quote_in_value() {
    let auth = challenges(b"Digest a=\"a\\\"b\"");
    let expected = new_authentication(vec![new_scheme(
        "Digest".into(),
        Some(Params::ParamList(vec![("a".into(), "a\"b".into())])),
    )]);
    assert_eq!(auth, expected);
    assert_eq!(quoted_string(b"x\\\\y\"rest", 0), Ok((b"x\\y".to_vec(), 5)));
}

#[test]
fn whitespace_around_equals() {
    let auth = challenges(b"Digest realm = \"r\"");
    let expected = new_authentication(vec![new_scheme(
        "Digest".into(),
        Some(Params::ParamList(vec![("realm".into(), "r".into())])),
    )]);
    assert_eq!(auth, expected);
}

#[test]
fn key_without_equals() {
    assert_eq!(
        parse_param(b"Digest realm", 7),
        Err(ParseError { kind: ErrorKind::MissingEquals, offset: 12 })
    );
    // with no pair at all the parameters are read as a token68 value
    let expected =
        new_authentication(vec![new_scheme("Digest".into(), Some(Params::Base64("realm".into())))]);
    assert_eq!(challenges(b"Digest realm"), expected);
}

#[test]
fn each_error_kind() {
    assert_eq!(parse_param(b" ,=x", 0), Err(ParseError { kind: ErrorKind::NoToken, offset: 2 }));
    assert_eq!(parse_param(b"a= ,", 0), Err(ParseError { kind: ErrorKind::MissingValue, offset: 3 }));
    assert_eq!(
        parse_param(b"a=\"abc", 0),
        Err(ParseError { kind: ErrorKind::UnterminatedQuote, offset: 6 })
    );
    assert_eq!(parse_param(b"a=\"ab\\", 0), Err(ParseError { kind: ErrorKind::BadEscape, offset: 5 }));
    assert_eq!(parse_token68(b"==", 0), Err(ParseError { kind: ErrorKind::NoToken68, offset: 0 }));
    assert_eq!(parse_token68(b"ab==,", 0), Ok(4));
    assert_eq!(parse_value(b"tok,", 0), Ok((b"tok".to_vec(), 3)));
    assert!(matches!(
        parse_authorization(b" , "),
        Err(ParseError { kind: ErrorKind::EmptyInput, offset: 3 })
    ));
    assert!(matches!(
        parse_authorization(b" \"x"),
        Err(ParseError { kind: ErrorKind::NoToken, offset: 1 })
    ));
}

#[test]
fn single_credential() {
    let (remaining, auth) = parse_authorization(b"Basic abcdefgh== , rest").unwrap();
    assert_eq!(remaining, &b"rest"[..]);
    assert_eq!(auth.credentials, new_scheme("Basic".into(), Some(Params::Base64("abcdefgh==".into()))));
    assert_eq!(auth.credentials.name(), &b"Basic"[..]);
    assert_eq!(auth.credentials.params(), Some(&Params::Base64("abcdefgh==".into())));
}

#[test]
fn trailing_garbage_is_handed_back() {
    let (remaining, auth) = parse_authentication(b"Basic, \"x\"").unwrap();
    assert_eq!(remaining, &b"\"x\""[..]);
    assert_eq!(auth, new_authentication(vec![new_scheme("Basic".into(), None)]));
}

#[test]
fn canonical_form_and_round_trip() {
    let input: &[u8] = b" ,Digest realm=\"ex\\\"a\", username = sally,Basic abcdefgh==, Bare,,";
    let auth = challenges(input);
    let text = to_field_value(&auth);
    assert_eq!(
        text,
        b"Digest realm=\"ex\\\"a\", username=\"sally\", Basic abcdefgh==, Bare".to_vec()
    );
    assert_eq!(challenges(&text), auth);
}
