use llm_wiki_server::auth::{
    expired_session_cookie, hash_password, hash_session_token, session_cookie, SESSION_COOKIE_NAME,
};
use llm_wiki_server::files::FileServiceError;
use llm_wiki_server::http::{
    advance, api_not_found, begin_guard, begin_login, begin_logout, begin_rotation, begin_session,
    begin_setup, compute, content_error_response, file_error_response, file_service, health,
    internal_server_error, project_error_response, project_service, refusal_text, setup_status,
    Answer, AuthEvent, AuthStage, Body, Purpose, Refusal, Store,
};
use llm_wiki_server::projects::ProjectServiceError;
use llm_wiki_server::search::ContentServiceError;

fn run(stage: AuthStage<String>, events: Vec<AuthEvent<String>>) -> AuthStage<String> {
    events.into_iter().fold(stage, advance)
}

fn setup(owner_configured: bool) -> AuthEvent<String> {
    AuthEvent::Setup { owner_configured, setup_required: !owner_configured }
}

fn answer(stage: AuthStage<String>) -> Answer<String> {
    match stage {
        AuthStage::Answered(answer) => answer,
        other => panic!("the request must be answered, and is at {other:?}"),
    }
}

fn error(answer: &Answer<String>) -> (u16, &str) {
    match &answer.body {
        Body::Error(message) => (answer.status, message.as_str()),
        Body::Session { .. } => panic!("the request must be refused"),
    }
}

fn owner_session(stage: AuthStage<String>) -> Answer<String> {
    let token = match compute(&stage) {
        Some(AuthEvent::Token(token)) => token,
        _ => panic!("a token must be generated"),
    };
    let started = advance(stage, AuthEvent::Token(token.clone()));
    assert_eq!(
        started,
        AuthStage::Start { token: token.clone(), token_hash: hash_session_token(&token) }
    );
    let answer = answer(run(
        started,
        vec![
            AuthEvent::Started { expires_at: "2030-01-01T00:00:00Z".to_string() },
            setup(true),
        ],
    ));
    assert_eq!(answer.status, 200);
    assert!(answer.no_store);
    assert_eq!(answer.cookie, Some(session_cookie(&token)));
    assert_eq!(
        answer.body,
        Body::Session {
            authenticated: true,
            setup_required: false,
            expires_at: Some("2030-01-01T00:00:00Z".to_string()),
        }
    );
    answer
}

#[test]
fn health_reports_setup_required_without_paths() {
    let status = setup_status(false, false, None);
    let payload = health(&status, "1.0.0", false);
    assert!(payload.ok);
    assert_eq!(payload.status, "setup_required");
    assert_eq!(payload.version, "1.0.0");
    assert!(!payload.data_root_configured);
    assert!(!payload.server_home_ready);
    assert!(!payload.database_ready);
    assert!(!payload.owner_configured);
    assert!(payload.setup_required);
}

#[test]
fn health_reports_configured_data_root_without_leaking_paths() {
    let payload = health(&setup_status(true, true, None), "1.0.0", true);
    assert_eq!(payload.status, "setup_required");
    assert!(payload.data_root_configured);
    assert!(payload.server_home_ready);
    assert!(!payload.database_ready);
    assert!(!payload.owner_configured);
    assert!(payload.setup_required);
    assert!(payload.static_assets_ready);
}

#[test]
fn setup_status_reports_owner_setup_required_without_leaking_paths() {
    let payload = setup_status(true, true, Some(false));
    assert_eq!(payload.status, "setup_required");
    assert!(payload.data_root_configured);
    assert!(payload.database_ready);
    assert!(!payload.owner_configured);
    assert!(payload.setup_required);
}

#[test]
fn health_reports_ok_after_owner_exists() {
    let payload = health(&setup_status(true, true, Some(true)), "1.0.0", false);
    assert_eq!(payload.status, "ok");
    assert!(payload.database_ready);
    assert!(payload.owner_configured);
    assert!(!payload.setup_required);
}

#[test]
fn owner_setup_hashes_password_and_starts_fixed_24_hour_session() {
    let too_short = answer(begin_setup(true, "short".to_string()));
    assert_eq!(
        error(&too_short),
        (400, "Password must be at least 8 characters")
    );
    let hashing = run(
        begin_setup(true, "correct horse".to_string()),
        vec![setup(false)],
    );
    let hash = match compute(&hashing) {
        Some(AuthEvent::Hashed(hash)) => hash,
        _ => panic!("the password must be hashed"),
    };
    assert_ne!(hash, "correct horse");
    assert!(hash.starts_with("$argon2"));
    let keeping = advance(hashing, AuthEvent::Hashed(hash.clone()));
    assert_eq!(keeping, AuthStage::Keep { hash, store: Store::CreateOwner });
    let started = owner_session(advance(keeping, AuthEvent::Stored(true)));
    assert!(started.cookie.unwrap().contains("Max-Age=86400"));

    let second = answer(run(
        begin_setup(true, "another password".to_string()),
        vec![setup(true)],
    ));
    assert_eq!(error(&second), (409, "Owner is already configured"));
    let raced = answer(run(
        begin_setup(true, "another password".to_string()),
        vec![
            setup(false),
            AuthEvent::Hashed("$argon2".to_string()),
            AuthEvent::Stored(false),
        ],
    ));
    assert_eq!(error(&raced), (409, "Owner is already configured"));
    assert_eq!(
        error(&answer(begin_setup(false, "correct horse".to_string()))),
        (
            409,
            "Data Root and config database must be ready before owner setup"
        )
    );
}

#[test]
fn login_failure_is_delayed_logged_and_does_not_echo_password() {
    let hash = hash_password("correct horse").unwrap();
    let verifying = run(
        begin_login(true, "wrong password".to_string()),
        vec![AuthEvent::HashRead(Some(hash))],
    );
    let verdict = compute(&verifying).unwrap();
    assert_eq!(verdict, AuthEvent::Verified(false));
    let recording = advance(verifying, verdict);
    assert_eq!(
        recording,
        AuthStage::Record { refusal: Refusal::InvalidPassword }
    );
    assert_eq!(refusal_text(Refusal::InvalidPassword), "invalid_password");
    let waiting = advance(recording, AuthEvent::Done);
    assert_eq!(waiting, AuthStage::Wait);
    let refused = answer(advance(waiting, AuthEvent::Done));
    assert_eq!(error(&refused), (401, "Invalid credentials"));
    assert_eq!(refused.cookie, None);
    assert!(refused.no_store);

    let unknown = answer(run(
        begin_login(true, "wrong password".to_string()),
        vec![AuthEvent::HashRead(None), AuthEvent::Done, AuthEvent::Done],
    ));
    assert_eq!(unknown, refused);
    assert_eq!(begin_login(false, "any".to_string()), AuthStage::Wait);
    assert_eq!(
        refusal_text(Refusal::OwnerNotConfigured),
        "owner_not_configured"
    );
    assert_eq!(
        refusal_text(Refusal::InvalidCurrentPassword),
        "invalid_current_password"
    );
}

#[test]
fn login_logout_and_session_status_use_revocable_cookie_sessions() {
    let hash = hash_password("correct horse").unwrap();
    let verifying = run(
        begin_login(true, "correct horse".to_string()),
        vec![AuthEvent::HashRead(Some(hash))],
    );
    let verdict = compute(&verifying).unwrap();
    assert_eq!(verdict, AuthEvent::Verified(true));
    let login = owner_session(advance(verifying, verdict));
    let set_cookie = login.cookie.unwrap();
    let cookie = set_cookie.split(';').next().unwrap();
    let token_hash = hash_session_token(cookie.split_once('=').unwrap().1);

    let looking = advance(begin_session(true, Some(cookie)), setup(true));
    assert_eq!(
        looking,
        AuthStage::Look { token_hash: token_hash.clone(), setup_required: false }
    );
    let valid = answer(advance(looking, AuthEvent::Found(Some("later".to_string()))));
    assert!(matches!(valid.body, Body::Session { authenticated: true, .. }));
    assert_eq!(valid.cookie, None);

    let revoking = begin_logout(true, Some(cookie));
    assert_eq!(revoking, AuthStage::Revoke { token_hash });
    let logout = answer(run(revoking, vec![AuthEvent::Done, setup(true)]));
    assert_eq!(logout.status, 200);
    let clear_cookie = logout.cookie.unwrap();
    assert!(clear_cookie.contains("Max-Age=0"));
    assert!(clear_cookie.contains("HttpOnly"));
    assert!(clear_cookie.contains("SameSite=Strict"));

    let gone = answer(run(
        begin_session(true, Some(cookie)),
        vec![setup(true), AuthEvent::Found(None)],
    ));
    assert!(matches!(gone.body, Body::Session { authenticated: false, .. }));
    assert_eq!(gone.cookie, Some(expired_session_cookie()));
    assert_eq!(begin_logout(false, Some(cookie)), AuthStage::Ended);
    assert_eq!(begin_logout(true, None), AuthStage::Ended);
    let anonymous = answer(advance(begin_session(true, None), setup(true)));
    assert!(matches!(anonymous.body, Body::Session { authenticated: false, .. }));
    assert_eq!(anonymous.cookie, None);
}

#[test]
fn password_rotation_revokes_old_sessions_and_accepts_only_new_password() {
    let old = hash_password("correct horse").unwrap();
    let verifying = run(
        begin_rotation(
            true,
            "correct horse".to_string(),
            "new correct horse".to_string(),
        ),
        vec![AuthEvent::HashRead(Some(old))],
    );
    let verdict = compute(&verifying).unwrap();
    assert_eq!(verdict, AuthEvent::Verified(true));
    let hashing = advance(verifying, verdict);
    let hashed = compute(&hashing).unwrap();
    let keeping = advance(hashing, hashed);
    let new_hash = match &keeping {
        AuthStage::Keep { hash, store: Store::RotateOwnerPassword } => hash.clone(),
        _ => panic!("the new password must be stored"),
    };
    owner_session(advance(keeping, AuthEvent::Stored(true)));
    for (password, accepted) in [("correct horse", false), ("new correct horse", true)] {
        let login = AuthStage::Verify {
            hash: new_hash.clone(),
            purpose: Purpose::Login { password: password.to_string() },
        };
        assert_eq!(compute(&login), Some(AuthEvent::Verified(accepted)));
    }
    let refused = run(
        begin_rotation(true, "wrong".to_string(), "new correct horse".to_string()),
        vec![
            AuthEvent::HashRead(Some(new_hash)),
            AuthEvent::Verified(false),
        ],
    );
    assert_eq!(
        refused,
        AuthStage::Record { refusal: Refusal::InvalidCurrentPassword }
    );
    let cases = [
        (true, "short", vec![], (400, "Password must be at least 8 characters")),
        (false, "long enough", vec![], (401, "Authentication required")),
        (
            true,
            "long enough",
            vec![AuthEvent::HashRead(None)],
            (401, "Authentication required"),
        ),
    ];
    for (ready, replacement, events, expected) in cases {
        let stage = begin_rotation(ready, "current".to_string(), replacement.to_string());
        assert_eq!(error(&answer(run(stage, events))), expected);
    }
    let unstored = run(
        AuthStage::Keep { hash: "$argon2".to_string(), store: Store::RotateOwnerPassword },
        vec![AuthEvent::Stored(false)],
    );
    assert_eq!(error(&answer(unstored)), (401, "Authentication required"));
}

#[test]
fn unknown_api_paths_return_json_404() {
    assert_eq!(error(&api_not_found()), (404, "Not found"));
}

#[test]
fn every_project_and_file_route_requires_owner_session() {
    let refused = answer(begin_guard(true, None));
    assert_eq!(error(&refused), (401, "Authentication required"));
    assert_eq!(refused.cookie, None);
    assert!(refused.no_store);
    let unready = answer(begin_guard(
        false,
        Some(&format!("{SESSION_COOKIE_NAME}=token")),
    ));
    assert_eq!(unready, refused);
}

#[test]
fn invalid_expired_and_revoked_sessions_cannot_reach_protected_routes() {
    let guard = begin_guard(true, Some(&format!("{SESSION_COOKIE_NAME}=not-a-session")));
    assert_eq!(
        guard,
        AuthStage::Guard { token_hash: hash_session_token("not-a-session") }
    );
    let refused = answer(advance(guard.clone(), AuthEvent::Found(None)));
    assert_eq!(error(&refused), (401, "Authentication required"));
    assert!(refused.cookie.unwrap().contains("Max-Age=0"));
    assert_eq!(
        advance(guard, AuthEvent::Found(Some("later".to_string()))),
        AuthStage::Admitted
    );
}

#[test]
fn failures_are_answered_without_their_reason() {
    let stages = vec![
        begin_login(true, "password".to_string()),
        begin_setup(true, "correct horse".to_string()),
        begin_guard(true, Some("llm_wiki_session=a")),
        begin_session(true, None),
        begin_logout(true, Some("llm_wiki_session=a")),
        AuthStage::MakeToken,
        AuthStage::Wait,
    ];
    for stage in stages {
        let failed = answer(advance(stage, AuthEvent::Failed("secret path".to_string())));
        assert_eq!(failed, internal_server_error());
        assert_eq!(error(&failed), (500, "Internal server error"));
    }
    assert_eq!(compute(&AuthStage::Wait), None);
}

#[test]
fn errors_are_answered_with_their_status() {
    let text = || "why".to_string();
    let files = [
        (
            FileServiceError::SetupRequired,
            503,
            "Server setup is required before files are available",
        ),
        (FileServiceError::ProjectNotFound, 404, "Project was not found"),
        (FileServiceError::InvalidInput(text()), 400, "why"),
        (FileServiceError::NotFound(text()), 404, "why"),
        (FileServiceError::Conflict(text()), 409, "why"),
        (FileServiceError::PreconditionRequired(text()), 428, "why"),
        (FileServiceError::PreconditionFailed(text()), 412, "why"),
        (FileServiceError::PayloadTooLarge(text()), 413, "why"),
        (FileServiceError::Internal(text()), 500, "Internal server error"),
    ];
    for (cause, status, message) in files {
        assert_eq!(error(&file_error_response(&cause)), (status, message));
        assert_eq!(
            error(&content_error_response(&ContentServiceError::Project(cause))),
            (status, message)
        );
    }
    let projects = [
        (
            ProjectServiceError::SetupRequired,
            503,
            "Server setup is required before projects are available",
        ),
        (ProjectServiceError::InvalidInput(text()), 400, "why"),
        (ProjectServiceError::InvalidProject(text()), 400, "why"),
        (ProjectServiceError::Conflict(text()), 409, "why"),
        (ProjectServiceError::Internal(text()), 500, "Internal server error"),
    ];
    for (cause, status, message) in projects {
        assert_eq!(error(&project_error_response(&cause)), (status, message));
    }
    let contents = [
        (ContentServiceError::InvalidInput(text()), 400, "why"),
        (ContentServiceError::InvalidProject(text()), 400, "why"),
        (ContentServiceError::Internal(text()), 500, "Internal server error"),
    ];
    for (cause, status, message) in contents {
        assert_eq!(error(&content_error_response(&cause)), (status, message));
    }
}

#[test]
fn services_need_the_data_root_and_the_database() {
    for (root, database) in [(false, false), (true, false), (false, true)] {
        assert!(matches!(
            project_service(root, database),
            Err(ProjectServiceError::SetupRequired)
        ));
        assert!(matches!(
            file_service(root, database),
            Err(FileServiceError::SetupRequired)
        ));
    }
    assert!(project_service(true, true).is_ok());
    assert!(file_service(true, true).is_ok());
}
