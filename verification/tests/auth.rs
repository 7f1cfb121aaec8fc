use llm_wiki_server::auth::{
    expired_session_cookie, generate_session_token, hash_password, hash_session_token,
    hash_with_salt, owner_password_is_acceptable, read_verdict, session_cookie,
    session_token_from_header, token_of, verify_password, LOGIN_FAILURE_DELAY_MILLIS,
    SESSION_COOKIE_NAME, SESSION_TTL_SECONDS,
};

#[test]
fn passwords_need_eight_characters() {
    assert!(!owner_password_is_acceptable(""));
    assert!(!owner_password_is_acceptable("short"));
    assert!(!owner_password_is_acceptable("1234567"));
    assert!(owner_password_is_acceptable("12345678"));
    assert!(owner_password_is_acceptable("correct horse"));
    assert!(owner_password_is_acceptable("パスワードです。"));
    assert!(!owner_password_is_acceptable("パスワード"));
}

#[test]
fn a_hashed_password_is_verified_and_no_other() {
    let hash = hash_password("correct horse").unwrap();
    assert_ne!(hash, "correct horse");
    assert!(hash.starts_with("$argon2"));
    assert_eq!(verify_password("correct horse", &hash), Ok(true));
    assert_eq!(verify_password("wrong password", &hash), Ok(false));
    let again = hash_password("correct horse").unwrap();
    assert_ne!(hash, again);
}

#[test]
fn a_salt_fixes_the_hash() {
    let salt = "c2FsdHNhbHRzYWx0c2FsdA";
    let one = hash_with_salt("correct horse", salt).unwrap();
    let two = hash_with_salt("correct horse", salt).unwrap();
    assert_eq!(one, two);
    assert_eq!(verify_password("correct horse", &one), Ok(true));
    let error = hash_with_salt("correct horse", "!").unwrap_err();
    assert!(error.starts_with("failed to hash owner password: "));
}

#[test]
fn a_stored_hash_that_is_none_is_an_error() {
    let error = verify_password("correct horse", "argon2-placeholder").unwrap_err();
    assert!(error.starts_with("stored owner password hash is invalid: "));
}

#[test]
fn a_hash_with_too_large_a_parallelism_accepts_no_password() {
    let hash = hash_password("correct horse").unwrap();
    assert!(hash.contains(",p=1$"));
    for parallelism in ["536870912", "4294967295", "99999999999", "000000001"] {
        let large = hash.replace(",p=1$", &format!(",p={parallelism}$"));
        assert_eq!(verify_password("correct horse", &large), Ok(false));
    }
    let eight_digits = hash.replace(",p=1$", ",p=99999999$");
    assert_eq!(verify_password("correct horse", &eight_digits), Ok(false));
    let error = verify_password("correct horse", "p=536870912").unwrap_err();
    assert!(error.starts_with("stored owner password hash is invalid: "));
}

#[test]
fn drawn_salts_are_sixteen_bytes_in_base64() {
    let hash = hash_password("correct horse").unwrap();
    let salt = hash.split('$').nth(4).unwrap();
    assert_eq!(salt.len(), 22);
    assert!(salt.chars().all(|c| c.is_ascii_alphanumeric() || c == '+' || c == '/'));
    assert!(matches!(salt.chars().last(), Some('A' | 'Q' | 'g' | 'w')));
    assert!(hash_with_salt("correct horse", "").is_err());
    assert!(hash_with_salt("", salt).is_ok());
}

#[test]
fn verdicts_are_read() {
    assert_eq!(read_verdict(Ok(true)), Ok(true));
    assert_eq!(read_verdict(Ok(false)), Ok(false));
    assert_eq!(
        read_verdict(Err("broken".to_string())),
        Err("stored owner password hash is invalid: broken".to_string())
    );
}

#[test]
fn session_tokens_are_random_hexadecimal_digits() {
    let one = generate_session_token();
    let two = generate_session_token();
    assert_eq!(one.len(), 64);
    assert!(one.chars().all(|c| c.is_ascii_hexdigit()));
    assert_ne!(one, two);
    assert_eq!(token_of(&[0x00, 0x0f, 0xa0, 0xff]), "000fa0ff");
    assert_eq!(token_of(&[]), "");
}

#[test]
fn token_hashes_are_sha256_digests() {
    assert_eq!(
        hash_session_token("abc"),
        "ba7816bf8f01cfea414140de5dae2223b00361a396177a9cb410ff61f20015ad"
    );
    assert_eq!(
        hash_session_token(""),
        "e3b0c44298fc1c149afbf4c8996fb92427ae41e4649b934ca495991b7852b855"
    );
}

#[test]
fn cookies_carry_their_attributes() {
    assert_eq!(
        session_cookie("abc"),
        "llm_wiki_session=abc; Path=/; Max-Age=86400; HttpOnly; SameSite=Strict"
    );
    assert_eq!(
        expired_session_cookie(),
        "llm_wiki_session=; Path=/; Max-Age=0; HttpOnly; SameSite=Strict"
    );
    assert_eq!(SESSION_TTL_SECONDS, 86_400);
    assert_eq!(LOGIN_FAILURE_DELAY_MILLIS, 250);
}

#[test]
fn the_token_of_a_cookie_is_read_back() {
    let token = generate_session_token();
    let cookie = session_cookie(&token);
    let sent = cookie.split(';').next().unwrap();
    assert_eq!(session_token_from_header(sent), Some(token.clone()));
    let header = format!("theme=dark; {SESSION_COOKIE_NAME}={token}; other=1");
    assert_eq!(session_token_from_header(&header), Some(token));
}

#[test]
fn headers_without_a_session_cookie_have_no_token() {
    assert_eq!(session_token_from_header(""), None);
    assert_eq!(session_token_from_header("theme=dark"), None);
    assert_eq!(session_token_from_header("llm_wiki_session"), None);
    assert_eq!(session_token_from_header("llm_wiki_session="), None);
    assert_eq!(
        session_token_from_header("llm_wiki_session=; llm_wiki_session=later"),
        None
    );
    assert_eq!(
        session_token_from_header("llm_wiki_session=a=b"),
        Some("a=b".to_string())
    );
}
