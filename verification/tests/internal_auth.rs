use fiducia_brain::internal_auth::{
    authorized, configured, init_and_log, AuthError, INTERNAL_AUTH_HEADER,
};

#[test]
fn missing_configuration_fails_closed() {
    assert!(!authorized(None, None));
    assert!(!authorized(None, Some("whatever")));
}

#[test]
fn enabled_guard_requires_exact_secret() {
    assert!(authorized(Some("s3cret"), Some("s3cret")));
    assert!(!authorized(Some("s3cret"), Some("s3cre7")));
    assert!(!authorized(Some("s3cret"), Some("s3cret-extra")));
    assert!(!authorized(Some("s3cret"), None));
}

#[test]
fn a_secret_of_white_space_is_none() {
    assert_eq!(configured(None), None);
    assert_eq!(configured(Some(" \t\n ")), None);
    assert_eq!(configured(Some("  s3cret ")).as_deref(), Some("s3cret"));
    assert!(init_and_log(Some("s3cret")).is_ok());
    match init_and_log(Some("  ")) {
        Err(AuthError::MissingSecret) => {}
        other => panic!("unexpected {other:?}"),
    }
    assert_eq!(
        init_and_log(None).unwrap_err().message(),
        "FIDUCIA_INTERNAL_SECRET must be configured for the brain control plane"
    );
    assert_eq!(INTERNAL_AUTH_HEADER, "x-fiducia-internal-auth");
}
