//! What requests are answered: the state of the server, errors, and the requests about the owner
//! and about sessions.
//!
//! A request about the owner takes several steps, some of which only the server can do: it asks
//! the database, hashes a password or waits. A [`AuthStage`] says what is to be done next, and
//! [`advance`] says what follows from what came of it.

use crate::auth;
use crate::files;
use crate::files::FileServiceError;
use crate::outside;
use crate::projects;
use crate::projects::ProjectServiceError;
use crate::search;
use crate::search::ContentServiceError;
use crate::text;
use vstd::prelude::*;

verus! {

/// The status of an answer to a request that was done.
pub const OK: u16 = 200;

/// The status of an answer to a request that is not acceptable.
pub const BAD_REQUEST: u16 = 400;

/// The status of an answer to a request that needs the owner.
pub const UNAUTHORIZED: u16 = 401;

/// The status of an answer to a request for what is not there.
pub const NOT_FOUND: u16 = 404;

/// The status of an answer to a request that does not go with what is there.
pub const CONFLICT: u16 = 409;

/// The status of an answer to a request that is about another version.
pub const PRECONDITION_FAILED: u16 = 412;

/// The status of an answer to a request that is too large.
pub const PAYLOAD_TOO_LARGE: u16 = 413;

/// The status of an answer to a request that must say which version it is about.
pub const PRECONDITION_REQUIRED: u16 = 428;

/// The status of an answer to a request on which the server failed.
pub const INTERNAL_SERVER_ERROR: u16 = 500;

/// The status of an answer to a request for which the server is not ready.
pub const SERVICE_UNAVAILABLE: u16 = 503;

// ---------------------------------------------------------------------------------------
// The state of the server
// ---------------------------------------------------------------------------------------

/// How far the server is set up.
#[derive(Debug, Clone, Copy)]
pub struct SetupStatusResponse {
    pub ok: bool,
    pub status: &'static str,
    pub data_root_configured: bool,
    pub server_home_ready: bool,
    pub database_ready: bool,
    pub owner_configured: bool,
    pub setup_required: bool,
}

/// How the server is.
#[derive(Debug, Clone, Copy)]
pub struct HealthResponse {
    pub ok: bool,
    pub status: &'static str,
    pub version: &'static str,
    pub data_root_configured: bool,
    pub server_home_ready: bool,
    pub database_ready: bool,
    pub owner_configured: bool,
    pub setup_required: bool,
    pub static_assets_ready: bool,
}

/// Whether something must still be set up.
pub open spec fn needs_setup(
    data_root_configured: bool,
    database_ready: bool,
    owner_configured: bool,
) -> bool {
    !data_root_configured || !database_ready || !owner_configured
}

/// How far the server is set up. `server_home_ready` says whether the home of the server is a
/// directory. `owner_configured` says whether the database holds an owner, where there is a
/// database.
pub fn setup_status(
    data_root_configured: bool,
    server_home_ready: bool,
    owner_configured: Option<bool>,
) -> (r: SetupStatusResponse)
    ensures
        r.ok,
        r.data_root_configured == data_root_configured,
        r.server_home_ready == (data_root_configured && server_home_ready),
        r.database_ready == (owner_configured is Some),
        r.owner_configured == (owner_configured == Some(true)),
        r.setup_required == needs_setup(
            data_root_configured,
            r.database_ready,
            r.owner_configured,
        ),
        r.status@ == if r.setup_required {
            "setup_required"@
        } else {
            "ok"@
        },
{
    let (database_ready, owner): (bool, bool) = match owner_configured {
        Some(configured) => (true, configured),
        None => (false, false),
    };
    let setup_required = !data_root_configured || !database_ready || !owner;
    SetupStatusResponse {
        ok: true,
        status: if setup_required {
            "setup_required"
        } else {
            "ok"
        },
        data_root_configured,
        server_home_ready: data_root_configured && server_home_ready,
        database_ready,
        owner_configured: owner,
        setup_required,
    }
}

/// How the server is.
pub fn health(
    setup: &SetupStatusResponse,
    version: &'static str,
    static_assets_ready: bool,
) -> (r: HealthResponse)
    ensures
        r == (HealthResponse {
            ok: true,
            status: setup.status,
            version,
            data_root_configured: setup.data_root_configured,
            server_home_ready: setup.server_home_ready,
            database_ready: setup.database_ready,
            owner_configured: setup.owner_configured,
            setup_required: setup.setup_required,
            static_assets_ready,
        }),
{
    HealthResponse {
        ok: true,
        status: setup.status,
        version,
        data_root_configured: setup.data_root_configured,
        server_home_ready: setup.server_home_ready,
        database_ready: setup.database_ready,
        owner_configured: setup.owner_configured,
        setup_required: setup.setup_required,
        static_assets_ready,
    }
}

/// Projects can be used where the directory of data and the database are there.
pub fn project_service(data_root_configured: bool, database_ready: bool) -> (r: Result<
    (),
    ProjectServiceError,
>)
    ensures
        match r {
            Ok(_) => data_root_configured && database_ready,
            Err(e) => !(data_root_configured && database_ready) && e@
                == projects::ProjectError::SetupRequired,
        },
{
    if data_root_configured && database_ready {
        Ok(())
    } else {
        Err(ProjectServiceError::SetupRequired)
    }
}

/// Files can be used where the directory of data and the database are there.
pub fn file_service(data_root_configured: bool, database_ready: bool) -> (r: Result<
    (),
    FileServiceError,
>)
    ensures
        match r {
            Ok(_) => data_root_configured && database_ready,
            Err(e) => !(data_root_configured && database_ready) && e@
                == files::FileError::SetupRequired,
        },
{
    if data_root_configured && database_ready {
        Ok(())
    } else {
        Err(FileServiceError::SetupRequired)
    }
}

// ---------------------------------------------------------------------------------------
// Answers
// ---------------------------------------------------------------------------------------

/// What an answer tells.
#[derive(Debug, Clone, PartialEq, Eq)]
pub enum Body<T> {
    /// The state of the session that the request was made with or has started.
    Session { authenticated: bool, setup_required: bool, expires_at: Option<T> },
    /// Why the request was not done.
    Error(T),
}

/// An answer. Its texts are strings, or what they stand for.
#[derive(Debug, Clone, PartialEq, Eq)]
pub struct Answer<T> {
    pub status: u16,
    pub body: Body<T>,
    /// Whether the answer must not be kept.
    pub no_store: bool,
    /// The cookie that the answer sets.
    pub cookie: Option<T>,
}

impl View for Answer<String> {
    type V = Answer<Seq<char>>;

    open spec fn view(&self) -> Answer<Seq<char>> {
        Answer {
            status: self.status,
            body: match self.body {
                Body::Session { authenticated, setup_required, expires_at } => Body::Session {
                    authenticated,
                    setup_required,
                    expires_at: text::optional(expires_at),
                },
                Body::Error(message) => Body::Error(message@),
            },
            no_store: self.no_store,
            cookie: text::optional(self.cookie),
        }
    }
}

/// The answer that gives an error.
pub open spec fn error(status: u16, message: Seq<char>) -> Answer<Seq<char>> {
    Answer { status, body: Body::Error(message), no_store: false, cookie: None }
}

/// The answer to a request on which the server failed. It does not say why.
pub open spec fn internal() -> Answer<Seq<char>> {
    error(INTERNAL_SERVER_ERROR, "Internal server error"@)
}

/// The answer to a request for what the server does not know.
pub open spec fn unknown() -> Answer<Seq<char>> {
    error(NOT_FOUND, "Not found"@)
}

/// The answer to a request with another password than that of the owner.
pub open spec fn refused_credentials() -> Answer<Seq<char>> {
    Answer { no_store: true, ..error(UNAUTHORIZED, "Invalid credentials"@) }
}

/// The answer to a request that needs a session. It takes the cookie of a session away that is
/// none.
pub open spec fn needs_session(clear_cookie: bool) -> Answer<Seq<char>> {
    Answer {
        no_store: true,
        cookie: if clear_cookie {
            Some(auth::expired_cookie_text())
        } else {
            None
        },
        ..error(UNAUTHORIZED, "Authentication required"@)
    }
}

/// The answer that tells the state of a session.
pub open spec fn session_answer(
    authenticated: bool,
    setup_required: bool,
    expires_at: Option<Seq<char>>,
    cookie: Option<Seq<char>>,
) -> Answer<Seq<char>> {
    Answer {
        status: OK,
        body: Body::Session { authenticated, setup_required, expires_at },
        no_store: true,
        cookie,
    }
}

/// The answer that gives an error.
pub fn error_response(status: u16, message: &str) -> (r: Answer<String>)
    ensures
        r@ == error(status, message@),
{
    Answer { status, body: Body::Error(message.to_string()), no_store: false, cookie: None }
}

/// The answer to a request on which the server failed.
pub fn internal_server_error() -> (r: Answer<String>)
    ensures
        r@ == internal(),
{
    error_response(INTERNAL_SERVER_ERROR, "Internal server error")
}

/// The answer to a request for what the server does not know.
pub fn api_not_found() -> (r: Answer<String>)
    ensures
        r@ == unknown(),
{
    error_response(NOT_FOUND, "Not found")
}

/// The answer to a request with another password than that of the owner.
pub fn unauthorized_credentials() -> (r: Answer<String>)
    ensures
        r@ == refused_credentials(),
{
    let mut answer = error_response(UNAUTHORIZED, "Invalid credentials");
    answer.no_store = true;
    answer
}

/// The answer to a request that needs a session.
pub fn authentication_required(clear_cookie: bool) -> (r: Answer<String>)
    ensures
        r@ == needs_session(clear_cookie),
{
    let mut answer = error_response(UNAUTHORIZED, "Authentication required");
    answer.no_store = true;
    if clear_cookie {
        answer.cookie = Some(auth::expired_session_cookie());
    }
    answer
}

/// The answer that tells the state of a session.
pub fn auth_json_response(
    authenticated: bool,
    setup_required: bool,
    expires_at: Option<String>,
    cookie: Option<String>,
) -> (r: Answer<String>)
    ensures
        r@ == session_answer(
            authenticated,
            setup_required,
            text::optional(expires_at),
            text::optional(cookie),
        ),
{
    Answer {
        status: OK,
        body: Body::Session { authenticated, setup_required, expires_at },
        no_store: true,
        cookie,
    }
}

/// The status and the message that an error of a project is answered with.
pub open spec fn project_error(e: projects::ProjectError) -> Answer<Seq<char>> {
    match e {
        projects::ProjectError::SetupRequired => error(
            SERVICE_UNAVAILABLE,
            "Server setup is required before projects are available"@,
        ),
        projects::ProjectError::InvalidInput(m) => error(BAD_REQUEST, m),
        projects::ProjectError::InvalidProject(m) => error(BAD_REQUEST, m),
        projects::ProjectError::Conflict(m) => error(CONFLICT, m),
        projects::ProjectError::Internal(_) => internal(),
    }
}

/// The status and the message that an error of a file is answered with.
pub open spec fn file_error(e: files::FileError) -> Answer<Seq<char>> {
    match e {
        files::FileError::SetupRequired => error(
            SERVICE_UNAVAILABLE,
            "Server setup is required before files are available"@,
        ),
        files::FileError::ProjectNotFound => error(NOT_FOUND, "Project was not found"@),
        files::FileError::InvalidInput(m) => error(BAD_REQUEST, m),
        files::FileError::NotFound(m) => error(NOT_FOUND, m),
        files::FileError::Conflict(m) => error(CONFLICT, m),
        files::FileError::PreconditionRequired(m) => error(PRECONDITION_REQUIRED, m),
        files::FileError::PreconditionFailed(m) => error(PRECONDITION_FAILED, m),
        files::FileError::PayloadTooLarge(m) => error(PAYLOAD_TOO_LARGE, m),
        files::FileError::Internal(_) => internal(),
    }
}

/// The status and the message that an error of the content of a project is answered with.
pub open spec fn content_error(e: search::ContentError) -> Answer<Seq<char>> {
    match e {
        search::ContentError::Project(e) => file_error(e),
        search::ContentError::InvalidInput(m) => error(BAD_REQUEST, m),
        search::ContentError::InvalidProject(m) => error(BAD_REQUEST, m),
        search::ContentError::Internal(_) => internal(),
    }
}

/// The answer to a request on which a project gave an error.
pub fn project_error_response(e: &ProjectServiceError) -> (r: Answer<String>)
    ensures
        r@ == project_error(e@),
{
    match e {
        ProjectServiceError::SetupRequired => error_response(
            SERVICE_UNAVAILABLE,
            "Server setup is required before projects are available",
        ),
        ProjectServiceError::InvalidInput(m) => error_response(BAD_REQUEST, m.as_str()),
        ProjectServiceError::InvalidProject(m) => error_response(BAD_REQUEST, m.as_str()),
        ProjectServiceError::Conflict(m) => error_response(CONFLICT, m.as_str()),
        ProjectServiceError::Internal(_) => internal_server_error(),
    }
}

/// The answer to a request on which a file gave an error.
pub fn file_error_response(e: &FileServiceError) -> (r: Answer<String>)
    ensures
        r@ == file_error(e@),
{
    match e {
        FileServiceError::SetupRequired => error_response(
            SERVICE_UNAVAILABLE,
            "Server setup is required before files are available",
        ),
        FileServiceError::ProjectNotFound => error_response(NOT_FOUND, "Project was not found"),
        FileServiceError::InvalidInput(m) => error_response(BAD_REQUEST, m.as_str()),
        FileServiceError::NotFound(m) => error_response(NOT_FOUND, m.as_str()),
        FileServiceError::Conflict(m) => error_response(CONFLICT, m.as_str()),
        FileServiceError::PreconditionRequired(m) => error_response(
            PRECONDITION_REQUIRED,
            m.as_str(),
        ),
        FileServiceError::PreconditionFailed(m) => error_response(
            PRECONDITION_FAILED,
            m.as_str(),
        ),
        FileServiceError::PayloadTooLarge(m) => error_response(PAYLOAD_TOO_LARGE, m.as_str()),
        FileServiceError::Internal(_) => internal_server_error(),
    }
}

/// The answer to a request on which the content of a project gave an error.
pub fn content_error_response(e: &ContentServiceError) -> (r: Answer<String>)
    ensures
        r@ == content_error(e@),
{
    match e {
        ContentServiceError::Project(e) => file_error_response(e),
        ContentServiceError::InvalidInput(m) => error_response(BAD_REQUEST, m.as_str()),
        ContentServiceError::InvalidProject(m) => error_response(BAD_REQUEST, m.as_str()),
        ContentServiceError::Internal(_) => internal_server_error(),
    }
}

// ---------------------------------------------------------------------------------------
// Requests about the owner and about sessions
// ---------------------------------------------------------------------------------------

/// Why a password is verified.
#[derive(Debug, Clone, PartialEq, Eq)]
pub enum Purpose<T> {
    /// The owner logs in with it.
    Login { password: T },
    /// The owner takes another password.
    Rotation { current: T, replacement: T },
}

/// Where a new password goes.
#[derive(Debug, Clone, Copy, PartialEq, Eq, Structural)]
pub enum Store {
    /// It becomes that of an owner whom there was not before.
    CreateOwner,
    /// It takes the place of that of the owner, whose sessions end.
    RotateOwnerPassword,
}

/// Why a password was refused.
#[derive(Debug, Clone, Copy, PartialEq, Eq, Structural)]
pub enum Refusal {
    OwnerNotConfigured,
    InvalidPassword,
    InvalidCurrentPassword,
}

/// What is done next to answer a request.
#[derive(Debug, Clone, PartialEq, Eq)]
pub enum AuthStage<T> {
    /// It is asked whether there is an owner, for whom a password is given.
    AskOwner { password: T },
    /// The password is hashed.
    Hash { password: T, store: Store },
    /// The hash of the password is stored.
    Keep { hash: T, store: Store },
    /// The hash of the password of the owner is read.
    ReadHash { purpose: Purpose<T> },
    /// The password is verified with the hash.
    Verify { hash: T, purpose: Purpose<T> },
    /// The refusal is recorded.
    Record { refusal: Refusal },
    /// The answer is delayed.
    Wait,
    /// A session token is generated.
    MakeToken,
    /// A session is started, of which the hash of the token is kept.
    Start { token: T, token_hash: T },
    /// It is asked what must still be set up, for the answer that starts a session.
    Begun { token: T, expires_at: T },
    /// The session is ended.
    Revoke { token_hash: T },
    /// It is asked what must still be set up, for the answer that ends a session.
    Ended,
    /// It is asked what must still be set up, for the answer about a session.
    Ask { token_hash: Option<T> },
    /// The session is looked up that the answer is about.
    Look { token_hash: T, setup_required: bool },
    /// The session is looked up with which a protected request is made.
    Guard { token_hash: T },
    /// The protected request may be done.
    Admitted,
    /// The request is answered.
    Answered(Answer<T>),
}

/// What came of a stage.
#[derive(Debug, Clone, PartialEq, Eq)]
pub enum AuthEvent<T> {
    /// It failed.
    Failed(T),
    /// It was done.
    Done,
    /// It was done, or there was nothing to do it with.
    Stored(bool),
    /// How far the server is set up.
    Setup { owner_configured: bool, setup_required: bool },
    /// The hash of the password of the owner, where there is one.
    HashRead(Option<T>),
    /// The hash of a password.
    Hashed(T),
    /// Whether the password is that of the hash.
    Verified(bool),
    /// A session token.
    Token(T),
    /// The session was started and ends then.
    Started { expires_at: T },
    /// When the session ends, where it is a valid one.
    Found(Option<T>),
}

impl View for Purpose<String> {
    type V = Purpose<Seq<char>>;

    open spec fn view(&self) -> Purpose<Seq<char>> {
        match self {
            Purpose::Login { password } => Purpose::Login { password: password@ },
            Purpose::Rotation { current, replacement } => Purpose::Rotation {
                current: current@,
                replacement: replacement@,
            },
        }
    }
}

impl View for AuthStage<String> {
    type V = AuthStage<Seq<char>>;

    open spec fn view(&self) -> AuthStage<Seq<char>> {
        match self {
            AuthStage::AskOwner { password } => AuthStage::AskOwner { password: password@ },
            AuthStage::Hash { password, store } => AuthStage::Hash {
                password: password@,
                store: *store,
            },
            AuthStage::Keep { hash, store } => AuthStage::Keep { hash: hash@, store: *store },
            AuthStage::ReadHash { purpose } => AuthStage::ReadHash { purpose: purpose@ },
            AuthStage::Verify { hash, purpose } => AuthStage::Verify {
                hash: hash@,
                purpose: purpose@,
            },
            AuthStage::Record { refusal } => AuthStage::Record { refusal: *refusal },
            AuthStage::Wait => AuthStage::Wait,
            AuthStage::MakeToken => AuthStage::MakeToken,
            AuthStage::Start { token, token_hash } => AuthStage::Start {
                token: token@,
                token_hash: token_hash@,
            },
            AuthStage::Begun { token, expires_at } => AuthStage::Begun {
                token: token@,
                expires_at: expires_at@,
            },
            AuthStage::Revoke { token_hash } => AuthStage::Revoke { token_hash: token_hash@ },
            AuthStage::Ended => AuthStage::Ended,
            AuthStage::Ask { token_hash } => AuthStage::Ask {
                token_hash: text::optional(*token_hash),
            },
            AuthStage::Look { token_hash, setup_required } => AuthStage::Look {
                token_hash: token_hash@,
                setup_required: *setup_required,
            },
            AuthStage::Guard { token_hash } => AuthStage::Guard { token_hash: token_hash@ },
            AuthStage::Admitted => AuthStage::Admitted,
            AuthStage::Answered(answer) => AuthStage::Answered(answer@),
        }
    }
}

impl View for AuthEvent<String> {
    type V = AuthEvent<Seq<char>>;

    open spec fn view(&self) -> AuthEvent<Seq<char>> {
        match self {
            AuthEvent::Failed(message) => AuthEvent::Failed(message@),
            AuthEvent::Done => AuthEvent::Done,
            AuthEvent::Stored(done) => AuthEvent::Stored(*done),
            AuthEvent::Setup { owner_configured, setup_required } => AuthEvent::Setup {
                owner_configured: *owner_configured,
                setup_required: *setup_required,
            },
            AuthEvent::HashRead(hash) => AuthEvent::HashRead(text::optional(*hash)),
            AuthEvent::Hashed(hash) => AuthEvent::Hashed(hash@),
            AuthEvent::Verified(accepted) => AuthEvent::Verified(*accepted),
            AuthEvent::Token(token) => AuthEvent::Token(token@),
            AuthEvent::Started { expires_at } => AuthEvent::Started { expires_at: expires_at@ },
            AuthEvent::Found(expires_at) => AuthEvent::Found(text::optional(*expires_at)),
        }
    }
}

/// The hash of the session token that a request gives, where there is a database to look it up
/// in.
pub open spec fn given_token_hash(database_ready: bool, cookie_header: Option<Seq<char>>) -> Option<
    Seq<char>,
> {
    match cookie_header {
        Some(header) => match auth::header_token(header) {
            Some(token) => if database_ready {
                Some(auth::token_hash(token))
            } else {
                None
            },
            None => None,
        },
        None => None,
    }
}

/// What follows a password being verified.
pub open spec fn after_verdict(accepted: bool, purpose: Purpose<Seq<char>>) -> AuthStage<
    Seq<char>,
> {
    match purpose {
        Purpose::Login { password } => if accepted {
            AuthStage::MakeToken
        } else {
            AuthStage::Record { refusal: Refusal::InvalidPassword }
        },
        Purpose::Rotation { current, replacement } => if accepted {
            AuthStage::Hash { password: replacement, store: Store::RotateOwnerPassword }
        } else {
            AuthStage::Record { refusal: Refusal::InvalidCurrentPassword }
        },
    }
}

/// What follows the hash of the password of the owner being read.
pub open spec fn after_hash_read(hash: Option<Seq<char>>, purpose: Purpose<Seq<char>>) -> AuthStage<
    Seq<char>,
> {
    match hash {
        Some(hash) => AuthStage::Verify { hash, purpose },
        None => match purpose {
            Purpose::Login { .. } => AuthStage::Record { refusal: Refusal::OwnerNotConfigured },
            Purpose::Rotation { .. } => AuthStage::Answered(needs_session(false)),
        },
    }
}

/// What follows a new password being stored, or not.
pub open spec fn after_store(done: bool, store: Store) -> AuthStage<Seq<char>> {
    if done {
        AuthStage::MakeToken
    } else {
        match store {
            Store::CreateOwner => AuthStage::Answered(
                error(CONFLICT, "Owner is already configured"@),
            ),
            Store::RotateOwnerPassword => AuthStage::Answered(needs_session(false)),
        }
    }
}

/// What is done next after a stage. A stage that is the last stays. Where a stage fails, or
/// something comes of it that cannot, the server has failed.
pub open spec fn next(stage: AuthStage<Seq<char>>, event: AuthEvent<Seq<char>>) -> AuthStage<
    Seq<char>,
> {
    match (stage, event) {
        (AuthStage::Admitted, _) => AuthStage::Admitted,
        (AuthStage::Answered(answer), _) => AuthStage::Answered(answer),
        (AuthStage::AskOwner { password }, AuthEvent::Setup { owner_configured, .. }) => {
            if owner_configured {
                AuthStage::Answered(error(CONFLICT, "Owner is already configured"@))
            } else {
                AuthStage::Hash { password, store: Store::CreateOwner }
            }
        },
        (AuthStage::Hash { store, .. }, AuthEvent::Hashed(hash)) => AuthStage::Keep { hash, store },
        (AuthStage::Keep { store, .. }, AuthEvent::Stored(done)) => after_store(done, store),
        (AuthStage::ReadHash { purpose }, AuthEvent::HashRead(hash)) => after_hash_read(
            hash,
            purpose,
        ),
        (AuthStage::Verify { purpose, .. }, AuthEvent::Verified(accepted)) => after_verdict(
            accepted,
            purpose,
        ),
        (AuthStage::Record { .. }, AuthEvent::Done) => AuthStage::Wait,
        (AuthStage::Wait, AuthEvent::Done) => AuthStage::Answered(refused_credentials()),
        (AuthStage::MakeToken, AuthEvent::Token(token)) => AuthStage::Start {
            token,
            token_hash: auth::token_hash(token),
        },
        (AuthStage::Start { token, .. }, AuthEvent::Started { expires_at }) => AuthStage::Begun {
            token,
            expires_at,
        },
        (
            AuthStage::Begun { token, expires_at },
            AuthEvent::Setup { setup_required, .. },
        ) => AuthStage::Answered(
            session_answer(true, setup_required, Some(expires_at), Some(auth::cookie_text(token))),
        ),
        (AuthStage::Revoke { .. }, AuthEvent::Done) => AuthStage::Ended,
        (AuthStage::Ended, AuthEvent::Setup { setup_required, .. }) => AuthStage::Answered(
            session_answer(false, setup_required, None, Some(auth::expired_cookie_text())),
        ),
        (AuthStage::Ask { token_hash }, AuthEvent::Setup { setup_required, .. }) => {
            match token_hash {
                Some(token_hash) => AuthStage::Look { token_hash, setup_required },
                None => AuthStage::Answered(session_answer(false, setup_required, None, None)),
            }
        },
        (AuthStage::Look { setup_required, .. }, AuthEvent::Found(expires_at)) => {
            AuthStage::Answered(
                session_answer(
                    expires_at is Some,
                    setup_required,
                    expires_at,
                    if expires_at is Some {
                        None
                    } else {
                        Some(auth::expired_cookie_text())
                    },
                ),
            )
        },
        (AuthStage::Guard { .. }, AuthEvent::Found(expires_at)) => {
            if expires_at is Some {
                AuthStage::Admitted
            } else {
                AuthStage::Answered(needs_session(true))
            }
        },
        (_, _) => AuthStage::Answered(internal()),
    }
}

/// How a request begins to be answered that makes the one who sends a password the owner.
pub open spec fn setup_start(database_ready: bool, password: Seq<char>) -> AuthStage<Seq<char>> {
    if !database_ready {
        AuthStage::Answered(
            error(CONFLICT, "Data Root and config database must be ready before owner setup"@),
        )
    } else if password.len() < 8 {
        AuthStage::Answered(error(BAD_REQUEST, "Password must be at least 8 characters"@))
    } else {
        AuthStage::AskOwner { password }
    }
}

/// How a request to log in begins to be answered. Without a database it is refused after a delay.
pub open spec fn login_start(database_ready: bool, password: Seq<char>) -> AuthStage<Seq<char>> {
    if database_ready {
        AuthStage::ReadHash { purpose: Purpose::Login { password } }
    } else {
        AuthStage::Wait
    }
}

/// How a request to change the password of the owner begins to be answered.
pub open spec fn rotation_start(
    database_ready: bool,
    current: Seq<char>,
    replacement: Seq<char>,
) -> AuthStage<Seq<char>> {
    if replacement.len() < 8 {
        AuthStage::Answered(error(BAD_REQUEST, "Password must be at least 8 characters"@))
    } else if !database_ready {
        AuthStage::Answered(needs_session(false))
    } else {
        AuthStage::ReadHash { purpose: Purpose::Rotation { current, replacement } }
    }
}

/// How a request to log out begins to be answered.
pub open spec fn logout_start(database_ready: bool, cookie_header: Option<Seq<char>>) -> AuthStage<
    Seq<char>,
> {
    match given_token_hash(database_ready, cookie_header) {
        Some(token_hash) => AuthStage::Revoke { token_hash },
        None => AuthStage::Ended,
    }
}

/// How a request about the session that it is made with begins to be answered.
pub open spec fn session_start(database_ready: bool, cookie_header: Option<Seq<char>>) -> AuthStage<
    Seq<char>,
> {
    AuthStage::Ask { token_hash: given_token_hash(database_ready, cookie_header) }
}

/// How it begins to be decided whether a protected request may be done.
pub open spec fn guard_start(database_ready: bool, cookie_header: Option<Seq<char>>) -> AuthStage<
    Seq<char>,
> {
    match given_token_hash(database_ready, cookie_header) {
        Some(token_hash) => AuthStage::Guard { token_hash },
        None => AuthStage::Answered(needs_session(false)),
    }
}

/// Begins to answer a request to make the one who sends a password the owner.
pub fn begin_setup(database_ready: bool, password: String) -> (r: AuthStage<String>)
    ensures
        r@ == setup_start(database_ready, password@),
{
    if !database_ready {
        AuthStage::Answered(
            error_response(
                CONFLICT,
                "Data Root and config database must be ready before owner setup",
            ),
        )
    } else if !auth::owner_password_is_acceptable(password.as_str()) {
        AuthStage::Answered(
            error_response(BAD_REQUEST, "Password must be at least 8 characters"),
        )
    } else {
        AuthStage::AskOwner { password }
    }
}

/// Begins to answer a request to log in. Without a database it is refused after a delay.
pub fn begin_login(database_ready: bool, password: String) -> (r: AuthStage<String>)
    ensures
        r@ == login_start(database_ready, password@),
{
    if database_ready {
        AuthStage::ReadHash { purpose: Purpose::Login { password } }
    } else {
        AuthStage::Wait
    }
}

/// Begins to answer a request to change the password of the owner.
pub fn begin_rotation(database_ready: bool, current: String, replacement: String) -> (r: AuthStage<
    String,
>)
    ensures
        r@ == rotation_start(database_ready, current@, replacement@),
{
    if !auth::owner_password_is_acceptable(replacement.as_str()) {
        AuthStage::Answered(
            error_response(BAD_REQUEST, "Password must be at least 8 characters"),
        )
    } else if !database_ready {
        AuthStage::Answered(authentication_required(false))
    } else {
        AuthStage::ReadHash { purpose: Purpose::Rotation { current, replacement } }
    }
}

/// The hash of the session token that a request gives, where there is a database to look it up
/// in.
fn find_token_hash(database_ready: bool, cookie_header: Option<&str>) -> (r: Option<String>)
    ensures
        text::optional(r) == given_token_hash(database_ready, text::optional_str(cookie_header)),
{
    match cookie_header {
        Some(header) => match auth::session_token_from_header(header) {
            Some(token) => if database_ready {
                Some(auth::hash_session_token(token.as_str()))
            } else {
                None
            },
            None => None,
        },
        None => None,
    }
}

/// Begins to answer a request to log out.
pub fn begin_logout(database_ready: bool, cookie_header: Option<&str>) -> (r: AuthStage<String>)
    ensures
        r@ == logout_start(database_ready, text::optional_str(cookie_header)),
{
    match find_token_hash(database_ready, cookie_header) {
        Some(token_hash) => AuthStage::Revoke { token_hash },
        None => AuthStage::Ended,
    }
}

/// Begins to answer a request about the session that it is made with.
pub fn begin_session(database_ready: bool, cookie_header: Option<&str>) -> (r: AuthStage<String>)
    ensures
        r@ == session_start(database_ready, text::optional_str(cookie_header)),
{
    AuthStage::Ask { token_hash: find_token_hash(database_ready, cookie_header) }
}

/// Begins to decide whether a protected request may be done.
pub fn begin_guard(database_ready: bool, cookie_header: Option<&str>) -> (r: AuthStage<String>)
    ensures
        r@ == guard_start(database_ready, text::optional_str(cookie_header)),
{
    match find_token_hash(database_ready, cookie_header) {
        Some(token_hash) => AuthStage::Guard { token_hash },
        None => AuthStage::Answered(authentication_required(false)),
    }
}

/// What is done next after a stage.
pub fn advance(stage: AuthStage<String>, event: AuthEvent<String>) -> (r: AuthStage<String>)
    ensures
        r@ == next(stage@, event@),
{
    match (stage, event) {
        (AuthStage::Admitted, _) => AuthStage::Admitted,
        (AuthStage::Answered(answer), _) => AuthStage::Answered(answer),
        (AuthStage::AskOwner { password }, AuthEvent::Setup { owner_configured, .. }) => {
            if owner_configured {
                AuthStage::Answered(error_response(CONFLICT, "Owner is already configured"))
            } else {
                AuthStage::Hash { password, store: Store::CreateOwner }
            }
        },
        (AuthStage::Hash { store, .. }, AuthEvent::Hashed(hash)) => AuthStage::Keep { hash, store },
        (AuthStage::Keep { store, .. }, AuthEvent::Stored(done)) => {
            if done {
                AuthStage::MakeToken
            } else {
                match store {
                    Store::CreateOwner => AuthStage::Answered(
                        error_response(CONFLICT, "Owner is already configured"),
                    ),
                    Store::RotateOwnerPassword => AuthStage::Answered(
                        authentication_required(false),
                    ),
                }
            }
        },
        (AuthStage::ReadHash { purpose }, AuthEvent::HashRead(hash)) => match hash {
            Some(hash) => AuthStage::Verify { hash, purpose },
            None => match purpose {
                Purpose::Login { .. } => AuthStage::Record {
                    refusal: Refusal::OwnerNotConfigured,
                },
                Purpose::Rotation { .. } => AuthStage::Answered(authentication_required(false)),
            },
        },
        (AuthStage::Verify { purpose, .. }, AuthEvent::Verified(accepted)) => match purpose {
            Purpose::Login { .. } => if accepted {
                AuthStage::MakeToken
            } else {
                AuthStage::Record { refusal: Refusal::InvalidPassword }
            },
            Purpose::Rotation { replacement, .. } => if accepted {
                AuthStage::Hash { password: replacement, store: Store::RotateOwnerPassword }
            } else {
                AuthStage::Record { refusal: Refusal::InvalidCurrentPassword }
            },
        },
        (AuthStage::Record { .. }, AuthEvent::Done) => AuthStage::Wait,
        (AuthStage::Wait, AuthEvent::Done) => AuthStage::Answered(unauthorized_credentials()),
        (AuthStage::MakeToken, AuthEvent::Token(token)) => {
            let token_hash = auth::hash_session_token(token.as_str());
            AuthStage::Start { token, token_hash }
        },
        (AuthStage::Start { token, .. }, AuthEvent::Started { expires_at }) => AuthStage::Begun {
            token,
            expires_at,
        },
        (AuthStage::Begun { token, expires_at }, AuthEvent::Setup { setup_required, .. }) => {
            AuthStage::Answered(
                auth_json_response(
                    true,
                    setup_required,
                    Some(expires_at),
                    Some(auth::session_cookie(token.as_str())),
                ),
            )
        },
        (AuthStage::Revoke { .. }, AuthEvent::Done) => AuthStage::Ended,
        (AuthStage::Ended, AuthEvent::Setup { setup_required, .. }) => AuthStage::Answered(
            auth_json_response(false, setup_required, None, Some(auth::expired_session_cookie())),
        ),
        (AuthStage::Ask { token_hash }, AuthEvent::Setup { setup_required, .. }) => {
            match token_hash {
                Some(token_hash) => AuthStage::Look { token_hash, setup_required },
                None => AuthStage::Answered(auth_json_response(false, setup_required, None, None)),
            }
        },
        (AuthStage::Look { setup_required, .. }, AuthEvent::Found(expires_at)) => {
            match expires_at {
                Some(expires_at) => AuthStage::Answered(
                    auth_json_response(true, setup_required, Some(expires_at), None),
                ),
                None => AuthStage::Answered(
                    auth_json_response(
                        false,
                        setup_required,
                        None,
                        Some(auth::expired_session_cookie()),
                    ),
                ),
            }
        },
        (AuthStage::Guard { .. }, AuthEvent::Found(expires_at)) => match expires_at {
            Some(_) => AuthStage::Admitted,
            None => AuthStage::Answered(authentication_required(true)),
        },
        (_, _) => AuthStage::Answered(internal_server_error()),
    }
}

/// How a refusal is recorded.
pub fn refusal_text(refusal: Refusal) -> (r: &'static str)
    ensures
        r@ == match refusal {
            Refusal::OwnerNotConfigured => "owner_not_configured"@,
            Refusal::InvalidPassword => "invalid_password"@,
            Refusal::InvalidCurrentPassword => "invalid_current_password"@,
        },
{
    match refusal {
        Refusal::OwnerNotConfigured => "owner_not_configured",
        Refusal::InvalidPassword => "invalid_password",
        Refusal::InvalidCurrentPassword => "invalid_current_password",
    }
}

/// The password that a stage verifies.
pub open spec fn checked_password(purpose: Purpose<Seq<char>>) -> Seq<char> {
    match purpose {
        Purpose::Login { password } => password,
        Purpose::Rotation { current, .. } => current,
    }
}

/// What comes of a stage that verifies a password.
pub open spec fn verdict_event(hash: Seq<char>, password: Seq<char>) -> AuthEvent<Seq<char>> {
    match auth::verified(auth::verdict(password, hash)) {
        Ok(accepted) => AuthEvent::Verified(accepted),
        Err(message) => AuthEvent::Failed(message),
    }
}

/// Does what a stage asks for, where that needs neither the database nor time: it hashes or
/// verifies a password, or generates a session token. The salt of a hash and the token are drawn
/// by chance, and which they are is not known.
pub fn compute(stage: &AuthStage<String>) -> (r: Option<AuthEvent<String>>)
    ensures
        r is Some <==> (stage is Hash || stage is Verify || stage is MakeToken),
        stage matches AuthStage::Verify { hash, purpose } ==> r->0@ == verdict_event(
            hash@,
            checked_password(purpose@),
        ),
        stage matches AuthStage::Hash { password, .. } ==> match r->0@ {
            AuthEvent::Hashed(hash) => auth::accepts(password@, hash) && exists|salt: Seq<char>|
                outside::drawn_salt(salt) && Ok::<Seq<char>, Seq<char>>(hash)
                    == #[trigger] auth::hashed(password@, salt),
            AuthEvent::Failed(message) => !auth::can_be_hashed(password@) && exists|
                salt: Seq<char>,
            |
                outside::drawn_salt(salt) && Err::<Seq<char>, Seq<char>>(message)
                    == #[trigger] auth::hashed(password@, salt),
            _ => false,
        },
        stage is MakeToken ==> match r->0@ {
            AuthEvent::Token(token) => exists|bytes: Seq<u8>|
                bytes.len() == 32 && token == outside::hex_text(bytes),
            _ => false,
        },
{
    match stage {
        AuthStage::Hash { password, .. } => match auth::hash_password(password.as_str()) {
            Ok(hash) => Some(AuthEvent::Hashed(hash)),
            Err(message) => Some(AuthEvent::Failed(message)),
        },
        AuthStage::Verify { hash, purpose } => {
            let password: &str = match purpose {
                Purpose::Login { password } => password.as_str(),
                Purpose::Rotation { current, .. } => current.as_str(),
            };
            match auth::verify_password(password, hash.as_str()) {
                Ok(accepted) => Some(AuthEvent::Verified(accepted)),
                Err(message) => Some(AuthEvent::Failed(message)),
            }
        },
        AuthStage::MakeToken => Some(AuthEvent::Token(auth::generate_session_token())),
        _ => None,
    }
}

// ---------------------------------------------------------------------------------------
// What holds of every request about the owner and about sessions
// ---------------------------------------------------------------------------------------

/// The stage that follows a stage with the given events, one after the other.
pub open spec fn run(stage: AuthStage<Seq<char>>, events: Seq<AuthEvent<Seq<char>>>) -> AuthStage<
    Seq<char>,
>
    decreases events.len(),
{
    if events.len() == 0 {
        stage
    } else {
        run(next(stage, events[0]), events.subrange(1, events.len() as int))
    }
}

/// The answer to a request is the last word on it.
pub proof fn lemma_answer_stays(stage: AuthStage<Seq<char>>, events: Seq<AuthEvent<Seq<char>>>)
    requires
        stage is Answered || stage is Admitted,
    ensures
        run(stage, events) == stage,
    decreases events.len(),
{
    if events.len() > 0 {
        lemma_answer_stays(stage, events.subrange(1, events.len() as int));
    }
}

/// A protected request is done only where its session is a valid one: it gives the token of a
/// session, and what is kept of the token was found.
pub proof fn lemma_protected_requests_need_a_session(
    database_ready: bool,
    cookie_header: Option<Seq<char>>,
    events: Seq<AuthEvent<Seq<char>>>,
)
    requires
        run(guard_start(database_ready, cookie_header), events) is Admitted,
    ensures
        given_token_hash(database_ready, cookie_header) is Some,
        events.len() > 0,
        events[0] matches AuthEvent::Found(expires_at) && expires_at is Some,
{
    let start = guard_start(database_ready, cookie_header);
    if events.len() > 0 {
        let rest = events.subrange(1, events.len() as int);
        if start is Answered {
            lemma_answer_stays(start, events);
        } else {
            lemma_answer_stays(next(start, events[0]), rest);
        }
    }
}

/// A protected request without a session is answered that it needs one, whatever the server is
/// told.
pub proof fn lemma_protected_requests_without_a_session(
    database_ready: bool,
    cookie_header: Option<Seq<char>>,
    events: Seq<AuthEvent<Seq<char>>>,
)
    requires
        given_token_hash(database_ready, cookie_header) is None,
    ensures
        run(guard_start(database_ready, cookie_header), events) == AuthStage::Answered(
            needs_session(false),
        ),
{
    lemma_answer_stays(guard_start(database_ready, cookie_header), events);
}

/// A session is started only for an owner who proved to be one: the answer to a request to log in
/// tells of a session only where the password was verified with the hash of that of the owner,
/// and its cookie carries the token of which a hash was kept.
pub proof fn lemma_login_verifies_the_password(
    database_ready: bool,
    password: Seq<char>,
    events: Seq<AuthEvent<Seq<char>>>,
    answer: Answer<Seq<char>>,
)
    requires
        run(login_start(database_ready, password), events) == AuthStage::Answered(answer),
        answer.cookie is Some || answer.body is Session,
    ensures
        database_ready,
        events.len() >= 5,
        events[0] matches AuthEvent::HashRead(hash) && hash is Some,
        events[1] == AuthEvent::<Seq<char>>::Verified(true),
        events[2] matches AuthEvent::Token(token) && answer.cookie == Some(
            auth::cookie_text(token),
        ),
        events[3] is Started,
{
    let s0 = login_start(database_ready, password);
    let n = events.len() as int;
    if n > 0 {
        let r1 = events.subrange(1, n);
        let s1 = next(s0, events[0]);
        if s1 is Answered {
            lemma_answer_stays(s1, r1);
        } else if n > 1 {
            let r2 = r1.subrange(1, n - 1);
            let s2 = next(s1, r1[0]);
            if s2 is Answered {
                lemma_answer_stays(s2, r2);
            } else if n > 2 {
                if s2 is MakeToken {
                    lemma_started(r2, answer);
                } else {
                    lemma_refused(s2, r2);
                }
            }
        }
    }
}

/// From the stage at which a token is generated on, a session that is told of is that of the
/// token.
proof fn lemma_started(events: Seq<AuthEvent<Seq<char>>>, answer: Answer<Seq<char>>)
    requires
        run(AuthStage::MakeToken, events) == AuthStage::Answered(answer),
        answer.cookie is Some || answer.body is Session,
    ensures
        events.len() >= 3,
        events[0] matches AuthEvent::Token(token) && answer.cookie == Some(
            auth::cookie_text(token),
        ),
        events[1] is Started,
{
    let n = events.len() as int;
    let s0 = AuthStage::<Seq<char>>::MakeToken;
    if n > 0 {
        let r1 = events.subrange(1, n);
        let s1 = next(s0, events[0]);
        if s1 is Answered {
            lemma_answer_stays(s1, r1);
        } else if n > 1 {
            let r2 = r1.subrange(1, n - 1);
            let s2 = next(s1, r1[0]);
            if s2 is Answered {
                lemma_answer_stays(s2, r2);
            } else if n > 2 {
                lemma_answer_stays(next(s2, r2[0]), r2.subrange(1, n - 2));
            }
        }
    }
}

/// A refusal that is recorded, or a request that is delayed, ends in no session.
proof fn lemma_refused(stage: AuthStage<Seq<char>>, events: Seq<AuthEvent<Seq<char>>>)
    requires
        stage is Record || stage is Wait,
    ensures
        run(stage, events) matches AuthStage::Answered(answer) ==> answer.cookie is None
            && answer.body is Error,
    decreases events.len(),
{
    if events.len() > 0 {
        let rest = events.subrange(1, events.len() as int);
        let after = next(stage, events[0]);
        if after is Answered {
            lemma_answer_stays(after, rest);
        } else {
            lemma_refused(after, rest);
        }
    }
}

/// A refused password is answered only after the delay, and always with the same words: whether
/// there is an owner, and what was wrong, is not told.
pub proof fn lemma_refusals_are_delayed(
    stage: AuthStage<Seq<char>>,
    event: AuthEvent<Seq<char>>,
)
    requires
        !(stage is Answered),
        next(stage, event) == AuthStage::Answered(refused_credentials()),
    ensures
        stage is Wait && event is Done,
{
    reveal_strlit("Invalid credentials");
    reveal_strlit("Authentication required");
    reveal_strlit("Internal server error");
    reveal_strlit("Owner is already configured");
    assert("Invalid credentials"@.len() != "Authentication required"@.len());
}

/// A refused password is refused in one way: where it was not verified, the answer is that the
/// credentials are not valid, after the refusal was recorded and the answer was delayed.
pub proof fn lemma_wrong_password_is_refused(password: Seq<char>, hash: Option<Seq<char>>)
    ensures
        ({
            let events = match hash {
                Some(hash) => seq![
                    AuthEvent::HashRead(Some(hash)),
                    AuthEvent::Verified(false),
                    AuthEvent::Done,
                    AuthEvent::Done,
                ],
                None => seq![AuthEvent::HashRead(None), AuthEvent::Done, AuthEvent::Done],
            };
            run(login_start(true, password), events) == AuthStage::Answered(refused_credentials())
        }),
        run(login_start(false, password), seq![AuthEvent::Done]) == AuthStage::Answered(
            refused_credentials(),
        ),
{
    reveal_with_fuel(run, 5);
}

/// The answer to a request to log in says nothing of the password: with what the server is told,
/// it is the same for every password.
pub proof fn lemma_login_answer_hides_the_password(
    database_ready: bool,
    password: Seq<char>,
    other: Seq<char>,
    events: Seq<AuthEvent<Seq<char>>>,
    answer: Answer<Seq<char>>,
)
    requires
        run(login_start(database_ready, password), events) == AuthStage::Answered(answer),
    ensures
        run(login_start(database_ready, other), events) == AuthStage::Answered(answer),
{
    reveal_with_fuel(run, 3);
    let n = events.len() as int;
    if database_ready && n > 0 {
        let s1 = next(login_start(true, password), events[0]);
        let t1 = next(login_start(true, other), events[0]);
        if n > 1 && s1 is Verify {
            assert(next(s1, events.subrange(1, n)[0]) == next(t1, events.subrange(1, n)[0]));
        }
    }
}

/// The owner logs in with the password that was stored last: where the hash that the database
/// holds was made of the password, verifying it leads to a session, and the answer sets its
/// cookie.
pub proof fn lemma_owner_logs_in(
    password: Seq<char>,
    hash: Seq<char>,
    token: Seq<char>,
    expires_at: Seq<char>,
    owner_configured: bool,
    setup_required: bool,
)
    requires
        auth::accepts(password, hash),
    ensures
        run(
            login_start(true, password),
            seq![
                AuthEvent::HashRead(Some(hash)),
                verdict_event(hash, password),
                AuthEvent::Token(token),
                AuthEvent::Started { expires_at },
                AuthEvent::Setup { owner_configured, setup_required },
            ],
        ) == AuthStage::Answered(
            session_answer(true, setup_required, Some(expires_at), Some(auth::cookie_text(token))),
        ),
{
    auth::lemma_hashed_password_verifies(password, hash);
    reveal_with_fuel(run, 6);
}

/// What the database holds about the owner: the hash of the password, where there is an owner, and
/// what is kept of the tokens of the sessions that are valid.
pub struct Account {
    pub hash: Option<Seq<char>>,
    pub sessions: Set<Seq<char>>,
}

/// What the database holds after a stage came to an event. A stored password is the only one, and
/// with another password all sessions end. A session that is started is valid until it is ended.
pub open spec fn account_next(
    account: Account,
    stage: AuthStage<Seq<char>>,
    event: AuthEvent<Seq<char>>,
) -> Account {
    match (stage, event) {
        (AuthStage::Keep { hash, store }, AuthEvent::Stored(done)) => if !done {
            account
        } else if store == Store::RotateOwnerPassword {
            Account { hash: Some(hash), sessions: Set::empty() }
        } else {
            Account { hash: Some(hash), ..account }
        },
        (AuthStage::Start { token_hash, .. }, AuthEvent::Started { .. }) => Account {
            sessions: account.sessions.insert(token_hash),
            ..account
        },
        (AuthStage::Revoke { token_hash }, AuthEvent::Done) => Account {
            sessions: account.sessions.remove(token_hash),
            ..account
        },
        (_, _) => account,
    }
}

/// What the database holds after a stage was followed by the given events.
pub open spec fn account_run(
    account: Account,
    stage: AuthStage<Seq<char>>,
    events: Seq<AuthEvent<Seq<char>>>,
) -> Account
    decreases events.len(),
{
    if events.len() == 0 {
        account
    } else {
        account_run(
            account_next(account, stage, events[0]),
            next(stage, events[0]),
            events.subrange(1, events.len() as int),
        )
    }
}

/// What the server is told while the owner takes another password: the hash that the database
/// holds, the verdict on the current password, the hash of the other one, that it was stored, a
/// token, and that its session was started.
pub open spec fn rotation_events(
    hash: Seq<char>,
    current: Seq<char>,
    other_hash: Seq<char>,
    token: Seq<char>,
    expires_at: Seq<char>,
    owner_configured: bool,
    setup_required: bool,
) -> Seq<AuthEvent<Seq<char>>> {
    seq![
        AuthEvent::HashRead(Some(hash)),
        verdict_event(hash, current),
        AuthEvent::Hashed(other_hash),
        AuthEvent::Stored(true),
        AuthEvent::Token(token),
        AuthEvent::Started { expires_at },
        AuthEvent::Setup { owner_configured, setup_required },
    ]
}

/// The owner who gives the current password takes another one: its hash is kept in place of the
/// hash before, all sessions end, and the answer sets the cookie of a new one, which is the only
/// valid one.
pub proof fn lemma_owner_takes_another_password(
    account: Account,
    current: Seq<char>,
    replacement: Seq<char>,
    hash: Seq<char>,
    other_hash: Seq<char>,
    token: Seq<char>,
    expires_at: Seq<char>,
    owner_configured: bool,
    setup_required: bool,
)
    requires
        account.hash == Some(hash),
        auth::accepts(current, hash),
        replacement.len() >= 8,
    ensures
        ({
            let start = rotation_start(true, current, replacement);
            let events = rotation_events(
                hash,
                current,
                other_hash,
                token,
                expires_at,
                owner_configured,
                setup_required,
            );
            &&& run(start, events.take(2)) == (AuthStage::Hash {
                password: replacement,
                store: Store::RotateOwnerPassword,
            })
            &&& run(start, events) == AuthStage::Answered(
                session_answer(
                    true,
                    setup_required,
                    Some(expires_at),
                    Some(auth::cookie_text(token)),
                ),
            )
            &&& account_run(account, start, events) == (Account {
                hash: Some(other_hash),
                sessions: set![auth::token_hash(token)],
            })
        }),
{
    auth::lemma_hashed_password_verifies(current, hash);
    reveal_with_fuel(run, 8);
    reveal_with_fuel(account_run, 8);
    let start = rotation_start(true, current, replacement);
    let events = rotation_events(
        hash,
        current,
        other_hash,
        token,
        expires_at,
        owner_configured,
        setup_required,
    );
    assert(events.take(2) =~= seq![AuthEvent::HashRead(Some(hash)), verdict_event(hash, current)]);
    assert(account_run(account, start, events).sessions =~= set![auth::token_hash(token)]);
}

/// After another password was taken, the owner logs in with it and not with the one before: for
/// the hash that is kept then, the other password leads to a session, and a password that is not
/// accepted for it is refused.
pub proof fn lemma_only_the_other_password_logs_in(
    before: Seq<char>,
    replacement: Seq<char>,
    other_hash: Seq<char>,
    token: Seq<char>,
    expires_at: Seq<char>,
    owner_configured: bool,
    setup_required: bool,
)
    requires
        auth::accepts(replacement, other_hash),
        !auth::accepts(before, other_hash),
    ensures
        run(
            login_start(true, replacement),
            seq![
                AuthEvent::HashRead(Some(other_hash)),
                verdict_event(other_hash, replacement),
                AuthEvent::Token(token),
                AuthEvent::Started { expires_at },
                AuthEvent::Setup { owner_configured, setup_required },
            ],
        ) == AuthStage::Answered(
            session_answer(true, setup_required, Some(expires_at), Some(auth::cookie_text(token))),
        ),
        run(
            login_start(true, before),
            seq![
                AuthEvent::HashRead(Some(other_hash)),
                verdict_event(other_hash, before),
                AuthEvent::Done,
                AuthEvent::Done,
            ],
        ) == AuthStage::Answered(refused_credentials()),
{
    lemma_owner_logs_in(
        replacement,
        other_hash,
        token,
        expires_at,
        owner_configured,
        setup_required,
    );
    reveal_with_fuel(run, 5);
}

/// A session that has ended admits no request, and one that is valid admits them: what is found of
/// it decides.
pub proof fn lemma_ended_sessions_admit_nothing(
    account: Account,
    token_hash: Seq<char>,
    found: Option<Seq<char>>,
)
    requires
        found is Some <==> account.sessions.contains(token_hash),
    ensures
        next(AuthStage::Guard { token_hash }, AuthEvent::Found(found))
            == if account.sessions.contains(token_hash) {
            AuthStage::Admitted
        } else {
            AuthStage::Answered(needs_session(true))
        },
{
}

/// A session that was started is the one that its cookie leads to: what is looked up for a
/// request with the cookie is what was kept of the token.
pub proof fn lemma_cookie_leads_to_session(bytes: Seq<u8>)
    requires
        bytes.len() > 0,
    ensures
        ({
            let token = outside::hex_text(bytes);
            let header = Some(auth::SESSION_COOKIE_NAME@ + "="@ + token);
            let kept = next(AuthStage::MakeToken, AuthEvent::Token(token));
            &&& kept == (AuthStage::Start { token, token_hash: auth::token_hash(token) })
            &&& guard_start(true, header) == (AuthStage::Guard {
                token_hash: auth::token_hash(token),
            })
            &&& session_start(true, header) == (AuthStage::Ask {
                token_hash: Some(auth::token_hash(token)),
            })
            &&& logout_start(true, header) == (AuthStage::Revoke {
                token_hash: auth::token_hash(token),
            })
        }),
{
    auth::lemma_hex_text(bytes);
    auth::lemma_cookie_gives_token_back(outside::hex_text(bytes));
}

/// An owner is set up only where there is none, and another password is stored only for one who
/// gave the current one: a new password comes to be stored only after the server was told so.
pub proof fn lemma_passwords_are_stored_with_reason(
    database_ready: bool,
    first: Seq<char>,
    current: Seq<char>,
    replacement: Seq<char>,
    events: Seq<AuthEvent<Seq<char>>>,
)
    ensures
        run(setup_start(database_ready, first), events) is Keep ==> database_ready && first.len()
            >= 8 && events.len() == 2 && (events[0] matches AuthEvent::Setup {
            owner_configured,
            ..
        } && !owner_configured),
        run(rotation_start(database_ready, current, replacement), events) is Keep
            ==> database_ready && replacement.len() >= 8 && events.len() == 3 && (
        events[0] matches AuthEvent::HashRead(hash) && hash is Some) && events[1]
            == AuthEvent::<Seq<char>>::Verified(true),
{
    lemma_never_kept(setup_start(database_ready, first), events);
    lemma_never_kept(rotation_start(database_ready, current, replacement), events);
    let n = events.len() as int;
    if n > 0 {
        let r1 = events.subrange(1, n);
        let s1 = next(setup_start(database_ready, first), events[0]);
        let t1 = next(rotation_start(database_ready, current, replacement), events[0]);
        lemma_never_kept(s1, r1);
        lemma_never_kept(t1, r1);
        if n > 1 {
            let r2 = r1.subrange(1, n - 1);
            let s2 = next(s1, r1[0]);
            let t2 = next(t1, r1[0]);
            lemma_never_kept(s2, r2);
            lemma_never_kept(t2, r2);
            if n > 2 {
                let r3 = r2.subrange(1, n - 2);
                let t3 = next(t2, r2[0]);
                lemma_never_kept(next(s2, r2[0]), r3);
                lemma_never_kept(t3, r3);
                if n > 3 {
                    lemma_never_kept(next(t3, r3[0]), r3.subrange(1, n - 3));
                }
            }
        }
    }
}

/// Whether no password is stored at a stage and after it.
spec fn stores_nothing(stage: AuthStage<Seq<char>>) -> bool {
    match stage {
        AuthStage::AskOwner { .. }
        | AuthStage::Hash { .. }
        | AuthStage::Keep { .. } => false,
        AuthStage::ReadHash { purpose } | AuthStage::Verify { purpose, .. } => purpose is Login,
        _ => true,
    }
}

/// At such a stage no password comes to be stored.
proof fn lemma_never_kept(stage: AuthStage<Seq<char>>, events: Seq<AuthEvent<Seq<char>>>)
    ensures
        stores_nothing(stage) ==> stores_nothing(run(stage, events)),
    decreases events.len(),
{
    if events.len() > 0 {
        lemma_never_kept(next(stage, events[0]), events.subrange(1, events.len() as int));
    }
}

/// What made the server fail is not told.
pub proof fn lemma_failures_are_not_told(
    stage: AuthStage<Seq<char>>,
    message: Seq<char>,
    other: Seq<char>,
)
    ensures
        next(stage, AuthEvent::Failed(message)) == next(stage, AuthEvent::Failed(other)),
        project_error(projects::ProjectError::Internal(message)) == internal(),
        file_error(files::FileError::Internal(message)) == internal(),
        content_error(search::ContentError::Internal(message)) == internal(),
{
}

} // verus!
