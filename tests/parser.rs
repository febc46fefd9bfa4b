use http_auth::{new_authentication, new_scheme, parse_authentication, Params};

#[test]
fn it_works() {}

#[test]
fn test_scheme_only() {
    let auth_simple = new_authentication(vec![new_scheme("a-scheme".into(), None)]);

    let result = parse_authentication(b"a-scheme");
    assert!(result.is_ok());
    let (remaining, auth) = result.unwrap();
    assert_eq!(remaining, &b""[..]);
    assert_eq!(auth, auth_simple);

    let result = parse_authentication(b", a-scheme  ");
    assert!(result.is_ok());
    let (remaining, auth) = result.unwrap();
    assert_eq!(remaining, &b""[..]);
    assert_eq!(auth, auth_simple);

    let two_schemes = new_authentication(vec![
        new_scheme("scheme-a".into(), None),
        new_scheme("scheme-b".into(), None),
    ]);

    let result = parse_authentication(b"scheme-a  ,  scheme-b");
    println!("{:?}", result);
    assert!(result.is_ok());
    let (remaining, auth) = result.unwrap();
    assert_eq!(remaining, &b""[..]);
    assert_eq!(auth, two_schemes);
}

#[test]
fn test_token68() {
    let auth_basic = new_authentication(vec![new_scheme(
        "Basic".into(),
        Some(Params::Base64("abcdefgh".into())),
    )]);

    let result = parse_authentication(b"Basic abcdefgh");
    let (remaining, auth) = result.unwrap();
    assert_eq!(remaining, &b""[..]);
    assert_eq!(auth, auth_basic);

    let auth_basic1 = new_authentication(vec![new_scheme(
        "Basic".into(),
        Some(Params::Base64("abcdefgh=".into())),
    )]);

    let result = parse_authentication(b"Basic abcdefgh=");
    let (remaining, auth) = result.unwrap();
    assert_eq!(remaining, &b""[..]);
    assert_eq!(auth, auth_basic1);

    let auth_basic2 = new_authentication(vec![new_scheme(
        "Basic".into(),
        Some(Params::Base64("abcdefgh==".into())),
    )]);

    let result = parse_authentication(b"Basic abcdefgh==");
    let (remaining, auth) = result.unwrap();
    assert_eq!(remaining, &b""[..]);
    assert_eq!(auth, auth_basic2);

    let two_basic = new_authentication(vec![
        new_scheme("Basic".into(), Some(Params::Base64("abcdefgh=".into()))),
        new_scheme("Basic".into(), Some(Params::Base64("abcdefgh==".into()))),
    ]);

    let result = parse_authentication(b"Basic abcdefgh= , Basic abcdefgh==");
    let (remaining, auth) = result.unwrap();
    assert_eq!(remaining, &b""[..]);
    assert_eq!(auth, two_basic);
}

#[test]
fn test_params() {
    let auth_digest = new_authentication(vec![new_scheme(
        "Digest".into(),
        Some(Params::ParamList(vec![
            ("realm".into(), "example.com".into()),
            ("username".into(), "sally".into()),
        ])),
    )]);

    let result = parse_authentication(b"Digest realm=example.com, username=sally");
    let (remaining, auth) = result.unwrap();
    assert_eq!(remaining, &b""[..]);
    assert_eq!(auth, auth_digest);
}

#[test]
fn test_two() {
    let auth_two = new_authentication(vec![
        new_scheme(
            "Digest".into(),
            Some(Params::ParamList(vec![
                ("realm".into(), "example.com".into()),
                ("username".into(), "sally".into()),
            ])),
        ),
        new_scheme("Basic".into(), Some(Params::Base64("abcdefgh==".into()))),
    ]);

    let result =
        parse_authentication(b"Digest realm=\"example.com\", username=sally,Basic abcdefgh==");
    let (remaining, auth) = result.unwrap();
    assert_eq!(remaining, &b""[..]);
    assert_eq!(auth, auth_two);
}
