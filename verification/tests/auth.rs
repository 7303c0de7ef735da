use carteira::auth::{
    authenticate, authenticate_request, bearer_token_of, candidate_tokens, claims_for, cookie_token_of,
    generate_token, generate_token_at, hash_password, hash_password_with_salt, select_accepted,
    validate_registration, validate_token, validate_token_at, verify_password, LoginError, PasswordError,
    PasswordErrorKind, RegistrationError, TokenError, TokenErrorKind,
};
use carteira::models::{Claims, Timestamp, User};

fn clock_secs() -> u64 {
    std::time::SystemTime::now().duration_since(std::time::UNIX_EPOCH).unwrap().as_secs()
}

fn user() -> User {
    User {
        id: 0x67e5_5044_10b1_426f_9247_bb68_0e5f_e0c8,
        email: "ana@example.com".to_string(),
        password_hash: String::new(),
        created_at: Timestamp { secs: 0, nanos: 0 },
    }
}

#[test]
fn registration_rules() {
    assert_eq!(validate_registration("ana@x.io", "12345678"), Ok(()));
    assert_eq!(validate_registration("ana.x.io", "12345678"), Err(RegistrationError::InvalidEmail));
    assert_eq!(validate_registration("a@io", "12345678"), Err(RegistrationError::InvalidEmail));
    assert_eq!(validate_registration("ana@x.io", "1234567"), Err(RegistrationError::ShortPassword));
    // lengths are in bytes
    assert_eq!(validate_registration("á@é", "çççç"), Ok(()));
    assert_eq!(RegistrationError::InvalidEmail.message(), "Email inválido.");
    assert_eq!(RegistrationError::ShortPassword.message(), "A senha deve ter ao menos 8 caracteres.");
}

#[test]
fn bearer_token_is_tried_before_the_cookie() {
    assert_eq!(candidate_tokens(Some("Bearer abc"), Some("token=xyz")), vec!["abc".to_string(), "xyz".to_string()]);
    assert_eq!(candidate_tokens(Some("Basic abc"), Some("token=xyz")), vec!["xyz".to_string()]);
    assert_eq!(candidate_tokens(None, Some("theme=dark;  token=xyz  ; lang=pt")), vec!["xyz".to_string()]);
    assert_eq!(candidate_tokens(Some("Bearer abc"), None), vec!["abc".to_string()]);
    assert!(candidate_tokens(None, Some("theme=dark")).is_empty());
    assert!(candidate_tokens(None, None).is_empty());
    assert_eq!(bearer_token_of("bearer abc"), None);
    assert_eq!(bearer_token_of("Bearer "), Some(String::new()));
}

#[test]
fn invalid_bearer_token_falls_back_to_the_cookie() {
    let u = user();
    let now = clock_secs();
    let token = generate_token(&u, "segredo").unwrap();
    let cookie = format!("theme=dark; token={}", token);
    let accepted = authenticate_request(Some("Bearer not-a-token"), Some(&cookie), "segredo", now).unwrap();
    assert_eq!(accepted.0.sub, "67e55044-10b1-426f-9247-bb680e5fe0c8");
    assert_eq!(accepted.0.email, "ana@example.com");

    let bearer = format!("Bearer {}", token);
    let accepted = authenticate_request(Some(&bearer), Some("token=junk"), "segredo", now).unwrap();
    assert_eq!(accepted.0.email, "ana@example.com");

    assert!(authenticate_request(Some(&bearer), Some(&cookie), "outro", now).is_err());
    assert!(authenticate_request(Some("Bearer junk"), Some("token=junk"), "segredo", now).is_err());
    assert!(authenticate_request(None, None, "segredo", now).is_err());
}

#[test]
fn valid_bearer_token_takes_priority() {
    let ana = user();
    let mut bia = user();
    bia.id = 1;
    bia.email = "bia@example.com".to_string();
    let now = clock_secs();
    let bearer = format!("Bearer {}", generate_token(&ana, "segredo").unwrap());
    let cookie = format!("token={}", generate_token(&bia, "segredo").unwrap());
    let accepted = authenticate_request(Some(&bearer), Some(&cookie), "segredo", now).unwrap();
    assert_eq!(accepted.0.email, "ana@example.com");
    let accepted = authenticate_request(None, Some(&cookie), "segredo", now).unwrap();
    assert_eq!(accepted.0.email, "bia@example.com");
}

#[test]
fn expired_token_alone_is_refused() {
    let u = user();
    let made = Timestamp { secs: 1_000_000, nanos: 0 };
    let old = generate_token_at(&u, "segredo", made).unwrap();
    let bearer = format!("Bearer {}", old);
    assert!(authenticate_request(Some(&bearer), None, "segredo", clock_secs()).is_err());
    // Within the day plus the leeway it is accepted.
    assert!(authenticate_request(Some(&bearer), None, "segredo", 1_086_460).is_ok());
    assert!(authenticate_request(Some(&bearer), None, "segredo", 1_086_461).is_err());
}

#[test]
fn selection_takes_the_first_accepted_claims() {
    let c = |email: &str| Claims { sub: "s".to_string(), email: email.to_string(), exp: 9 };
    let picked = select_accepted(vec![None, Some(c("a@x.io")), Some(c("b@x.io"))]).unwrap();
    assert_eq!(picked.0.email, "a@x.io");
    assert!(select_accepted(vec![None, None]).is_err());
    assert!(select_accepted(Vec::new()).is_err());
}

#[test]
fn validated_token_gives_back_its_claims() {
    let u = user();
    let token = generate_token(&u, "segredo").unwrap();
    let claims = validate_token(&token, "segredo").unwrap();
    assert_eq!(claims.sub, "67e55044-10b1-426f-9247-bb680e5fe0c8");
    assert_eq!(claims.email, "ana@example.com");
    let expected = (chrono::Utc::now().timestamp() + 24 * 3600) as usize;
    assert!(claims.exp <= expected && claims.exp + 60 >= expected);

    let wrong = validate_token(&token, "outro").unwrap_err();
    assert_eq!(wrong.kind, TokenErrorKind::Invalid);
    assert_eq!(wrong.message(), "Token inválido: InvalidSignature");
    let mut tampered = token.clone();
    tampered.push('x');
    assert_eq!(validate_token(&tampered, "segredo").unwrap_err().kind, TokenErrorKind::Invalid);
    let garbage = validate_token("abc", "s").unwrap_err();
    assert_eq!(garbage.kind, TokenErrorKind::Invalid);
    assert!(garbage.message().starts_with("Token inválido: "));

    // A token that expired long ago is refused.
    let old = generate_token_at(&u, "segredo", Timestamp { secs: 1_000_000, nanos: 0 }).unwrap();
    let expired = validate_token(&old, "segredo").unwrap_err();
    assert_eq!(expired.message(), "Token inválido: ExpiredSignature");
}

#[test]
fn expiry_is_checked_with_a_minute_of_leeway() {
    let u = user();
    let old = generate_token_at(&u, "segredo", Timestamp { secs: 1_000_000, nanos: 0 }).unwrap();
    let claims = validate_token_at(&old, "segredo", 1_086_460).unwrap();
    assert_eq!(claims.exp, 1_086_400);
    assert!(validate_token_at(&old, "segredo", 0).is_ok());
    let late = validate_token_at(&old, "segredo", 1_086_461).unwrap_err();
    assert_eq!(late.kind, TokenErrorKind::Invalid);
    assert_eq!(late.cause, "ExpiredSignature");
    assert_eq!(validate_token_at(&old, "outro", 0).unwrap_err().cause, "InvalidSignature");
}

#[test]
fn login_token_reads_back_to_the_user() {
    let mut u = user();
    u.password_hash = hash_password_with_salt("s3nha-forte", &[3u8; 16]).unwrap();
    let resp = authenticate(Some(&u), "s3nha-forte", "segredo").unwrap();
    assert_eq!(resp.email, "ana@example.com");
    let claims = validate_token(&resp.token, "segredo").unwrap();
    assert_eq!(claims.sub, "67e55044-10b1-426f-9247-bb680e5fe0c8");
    assert_eq!(claims.email, "ana@example.com");
    assert_eq!(authenticate(Some(&u), "errada", "segredo").err(), Some(LoginError::InvalidCredentials));
    assert_eq!(authenticate(None, "s3nha-forte", "segredo").err(), Some(LoginError::InvalidCredentials));
}

#[test]
fn error_messages_keep_their_cause() {
    let pw = |kind: PasswordErrorKind| PasswordError { kind, cause: "causa".to_string() }.message();
    assert_eq!(pw(PasswordErrorKind::Randomness), "Erro ao gerar bytes aleatórios: causa");
    assert_eq!(pw(PasswordErrorKind::SaltEncoding), "Erro ao codificar salt: causa");
    assert_eq!(pw(PasswordErrorKind::Hashing), "Falha ao gerar hash da senha: causa");
    assert_eq!(pw(PasswordErrorKind::InvalidHash), "Hash inválido: causa");
    let tk = |kind: TokenErrorKind| TokenError { kind, cause: "causa".to_string() }.message();
    assert_eq!(tk(TokenErrorKind::ClockOutOfRange), "Invalid timestamp");
    assert_eq!(tk(TokenErrorKind::Encoding), "Falha ao gerar JWT: causa");
    assert_eq!(tk(TokenErrorKind::Invalid), "Token inválido: causa");
}

#[test]
fn cookie_token_is_the_first_token_cookie() {
    assert_eq!(cookie_token_of("token=a;token=b"), Some("a".to_string()));
    assert_eq!(cookie_token_of("mytoken=a; token=b"), Some("b".to_string()));
    assert_eq!(cookie_token_of("token="), Some(String::new()));
    assert_eq!(cookie_token_of(""), None);
    assert_eq!(cookie_token_of("x=1;;\u{2003}token=t\u{2003}"), Some("t".to_string()));
}

#[test]
fn password_hash_accepts_its_password_only() {
    let hash = hash_password("s3nha-forte").unwrap();
    assert!(hash.starts_with("$argon2id$"));
    assert_eq!(verify_password("s3nha-forte", &hash), Ok(true));
    assert_eq!(verify_password("outra", &hash), Ok(false));
    assert_eq!(verify_password("s3nha-forte", "not a hash").unwrap_err().kind, PasswordErrorKind::InvalidHash);
    assert!(verify_password("secret", "not-a-hash").is_err());
    assert!(verify_password("secret", "not-a-hash").unwrap_err().message().starts_with("Hash inválido: "));
    // A fresh salt each time: two hashes of one password differ and both verify.
    let other = hash_password("s3nha-forte").unwrap();
    assert_ne!(hash, other);
    assert!(other.starts_with("$argon2id$"));
    assert_eq!(verify_password("s3nha-forte", &other), Ok(true));
}

#[test]
fn same_salt_gives_same_hash() {
    let salt = [7u8; 16];
    let a = hash_password_with_salt("abc", &salt).unwrap();
    let b = hash_password_with_salt("abc", &salt).unwrap();
    let c = hash_password_with_salt("abd", &salt).unwrap();
    assert_eq!(a, b);
    assert_ne!(a, c);
    assert!(a.contains("BwcHBwcHBwcHBwcHBwcHBw"));
}

#[test]
fn claims_name_the_user_by_uuid_text() {
    let u = user();
    let claims = claims_for(&u, 42);
    assert_eq!(claims.sub, "67e55044-10b1-426f-9247-bb680e5fe0c8");
    assert_eq!(claims.sub, uuid::Uuid::from_u128(u.id).to_string());
    assert_eq!(claims.email, "ana@example.com");
    assert_eq!(claims.exp, 42);
}

#[test]
fn token_carries_claims_and_expires_a_day_later() {
    let u = user();
    let now = Timestamp { secs: 1_700_000_000, nanos: 5 };
    let token = generate_token_at(&u, "segredo", now).unwrap();
    let mut validation = jsonwebtoken::Validation::default();
    validation.validate_exp = false;
    let data = jsonwebtoken::decode::<serde_json::Value>(
        &token,
        &jsonwebtoken::DecodingKey::from_secret(b"segredo"),
        &validation,
    )
    .unwrap();
    assert_eq!(data.claims["sub"], "67e55044-10b1-426f-9247-bb680e5fe0c8");
    assert_eq!(data.claims["email"], "ana@example.com");
    assert_eq!(data.claims["exp"], 1_700_000_000u64 + 24 * 3600);
    assert!(token.starts_with("eyJ"));

    let fresh = generate_token(&u, "segredo").unwrap();
    let data = jsonwebtoken::decode::<serde_json::Value>(
        &fresh,
        &jsonwebtoken::DecodingKey::from_secret(b"segredo"),
        &jsonwebtoken::Validation::default(),
    )
    .unwrap();
    let exp = data.claims["exp"].as_u64().unwrap();
    let expected = (chrono::Utc::now().timestamp() + 24 * 3600) as u64;
    assert!(exp <= expected && exp + 60 >= expected);
}
