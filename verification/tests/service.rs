use rc_calque::authn::{bearer_token, user_id_of, AuthnError, Claims, Jwt};
use rc_calque::http::AppError;
use rc_calque::concept::ConceptId;
use rc_calque::predict::{
    check_schema_version, order_by_time, resolve, source_label, LexError, MissingConcept, ObservationKey,
    ProbabilitySource, SCHEMA_VERSION,
};

#[test]
fn each_error_maps_to_its_status_and_problem() {
    let cases: Vec<(AppError, u16, &str, &str)> = vec![
        (AppError::Validation("m".into()), 422, "validation", "Validation failed"),
        (AppError::BadRequest("m".into()), 400, "bad-request", "Bad request"),
        (AppError::Unauthorized("m".into()), 401, "unauthorized", "Unauthorized"),
        (AppError::Forbidden("m".into()), 403, "forbidden", "Forbidden"),
        (AppError::NotFound("m".into()), 404, "not-found", "Not found"),
        (AppError::Conflict("m".into()), 409, "conflict", "Conflict"),
        (AppError::PayloadTooLarge("m".into()), 413, "payload-too-large", "Payload too large"),
    ];
    for (e, status, slug, title) in cases {
        assert_eq!(e.parts(), (status, slug, title));
        let p = e.problem();
        assert_eq!(p.status, status);
        assert_eq!(p.type_, format!("https://errors.ru-calque.app/{slug}"));
        assert_eq!(p.title, title);
        assert_eq!(p.detail, "m");
        assert!(!e.is_internal());
    }
}

#[test]
fn an_internal_error_hides_its_cause() {
    let e = AppError::Internal(anyhow::Error::msg("connection refused"));
    assert!(e.is_internal());
    let p = e.problem();
    assert_eq!(p.status, 500);
    assert_eq!(p.type_, "https://errors.ru-calque.app/internal");
    assert_eq!(p.title, "Internal server error");
    assert_eq!(p.detail, "Internal server error.");
}

#[test]
fn the_token_is_what_follows_the_bearer_scheme() {
    assert_eq!(bearer_token(Some("Bearer abc.def")).unwrap(), "abc.def");
    assert_eq!(bearer_token(Some("Bearer ")).unwrap(), "");
    match bearer_token(Some("Basic abc")) {
        Err(AppError::Unauthorized(m)) => assert_eq!(m, "ожидается Bearer-токен"),
        other => panic!("{other:?}"),
    }
    match bearer_token(Some("bearer abc")) {
        Err(AppError::Unauthorized(m)) => assert_eq!(m, "ожидается Bearer-токен"),
        other => panic!("{other:?}"),
    }
    match bearer_token(None) {
        Err(AppError::Unauthorized(m)) => assert_eq!(m, "нет заголовка Authorization"),
        other => panic!("{other:?}"),
    }
}

#[test]
fn the_subject_must_be_a_uuid() {
    assert_eq!(
        user_id_of("550e8400-e29b-41d4-a716-446655440000").unwrap(),
        0x550e8400_e29b_41d4_a716_446655440000u128
    );
    match user_id_of("not-a-uuid") {
        Err(AppError::Unauthorized(m)) => assert_eq!(m, "битый sub в токене"),
        other => panic!("{other:?}"),
    }
}

#[test]
fn a_key_that_is_not_pem_is_refused() {
    assert_eq!(
        Jwt::verifying(b"not a key", "auth".into(), "app".into()).err(),
        Some(AuthnError::InvalidPublicKey)
    );
    assert_eq!(
        Jwt::signer(b"x", b"y", "auth".into(), "app".into(), 60).err(),
        Some(AuthnError::InvalidPublicKey)
    );
}

#[test]
fn claims_carry_the_values_they_are_given() {
    let c = Claims { sub: "u".into(), iss: "i".into(), aud: "a".into(), iat: 1, exp: 2 };
    assert_eq!(c.clone(), c);
}

#[test]
fn sources_have_readable_labels() {
    assert_eq!(source_label(ProbabilitySource::Concept), "concept history");
    assert_eq!(source_label(ProbabilitySource::Group), "group fallback");
    assert_eq!(source_label(ProbabilitySource::Kind), "kind fallback");
    assert_eq!(source_label(ProbabilitySource::Overall), "overall history");
    assert_eq!(source_label(ProbabilitySource::GlobalPrior), "catalog prior");
    assert_eq!(source_label(ProbabilitySource::DefaultPrior), "default prior");
}

#[test]
fn an_unknown_schema_version_is_refused() {
    assert_eq!(check_schema_version(SCHEMA_VERSION), Ok(()));
    assert_eq!(
        check_schema_version(99),
        Err(LexError::IncompatibleSchema { found: 99, supported: 1 })
    );
    assert_ne!(MissingConcept::Fail, MissingConcept::Skip);
}

const PUBLIC_PEM: &str = "-----BEGIN PUBLIC KEY-----
MFkwEwYHKoZIzj0CAQYIKoZIzj0DAQcDQgAEJ1lUHuhq7wkBHFQTTrP77LiZ+mtH
cbohrMzBD5xIAy1wBDKf7tXJR0vW5q1wn3URe7/1IOMMXcqTZdkAdXiapw==
-----END PUBLIC KEY-----
";

#[test]
fn a_verifier_checks_but_does_not_issue() {
    let jwt = Jwt::verifying(PUBLIC_PEM.as_bytes(), "auth".into(), "app".into()).unwrap();
    assert_eq!(jwt.issuer(), "auth");
    assert_eq!(jwt.audience(), "app");
    assert_eq!(jwt.access_ttl_secs(), 0);
    assert!(jwt.encoding_key().is_none());
    assert_eq!(jwt.access_claims("u", 1_000).err(), Some(AuthnError::VerifyOnly));
    // A public key is no private key.
    assert_eq!(
        Jwt::signer(PUBLIC_PEM.as_bytes(), PUBLIC_PEM.as_bytes(), "auth".into(), "app".into(), 60).err(),
        Some(AuthnError::InvalidPrivateKey)
    );
}

#[test]
fn a_missing_concept_is_handled_by_policy() {
    let id = ConceptId::from("X");
    assert_eq!(resolve(&id, Some(7), MissingConcept::Fail), Ok(Some(Some(7))));
    assert_eq!(resolve::<u8>(&id, None, MissingConcept::Fail), Err(LexError::UnknownConcept(ConceptId::from("X"))));
    assert_eq!(resolve::<u8>(&id, None, MissingConcept::UsePrior), Ok(Some(None)));
    assert_eq!(resolve::<u8>(&id, None, MissingConcept::Skip), Ok(None));
}

fn key(seconds: i64, nanos: u32, id: &str) -> ObservationKey {
    ObservationKey { seconds, nanos, concept_id: ConceptId::from(id) }
}

#[test]
fn observations_are_handled_in_time_then_id_order() {
    let keys = vec![
        key(10, 0, "B"),
        key(5, 0, "Z"),
        key(10, 0, "A"),
        key(5, 1, "A"),
        key(10, 0, "A"),
        key(-3, 999, "Q"),
    ];
    assert_eq!(order_by_time(&keys), vec![5, 1, 3, 2, 4, 0]);
    assert!(order_by_time(&[]).is_empty());
}

#[test]
fn delivery_order_does_not_change_the_handled_order() {
    let a = vec![key(3, 0, "C"), key(1, 0, "A"), key(2, 0, "B")];
    let b = vec![key(2, 0, "B"), key(3, 0, "C"), key(1, 0, "A")];
    let ka: Vec<&ObservationKey> = order_by_time(&a).into_iter().map(|i| &a[i]).collect();
    let kb: Vec<&ObservationKey> = order_by_time(&b).into_iter().map(|i| &b[i]).collect();
    assert_eq!(ka, kb);
}

#[test]
fn the_skipped_section_lists_each_concept() {
    let mut out = String::from("head\n");
    rc_calque::predict::push_skipped(&mut out, &[]);
    assert_eq!(out, "head\n");
    rc_calque::predict::push_skipped(&mut out, &[ConceptId::from("A"), ConceptId::from("B_C")]);
    assert_eq!(out, "head\n\nSkipped (absent from catalog):\n- A\n- B_C\n");
}
