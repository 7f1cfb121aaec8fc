//! What holds of the answers of the server and of its start, whatever the request.

use crate::auth;
use crate::config;
use crate::config::Happening;
use crate::config::Prepared;
use crate::config::Preparing;
use crate::files;
use crate::files::EntryKind;
use crate::files::FileError;
use crate::http;
use crate::http::Account;
use crate::http::Answer;
use crate::http::AuthEvent;
use crate::http::AuthStage;
use crate::http::Body;
use crate::paths;
use crate::paths::PathStyle;
use crate::projects::ProjectError;
use crate::search::ContentError;
use crate::server_bind;
use crate::text;
use crate::text::CharSet;
use crate::text_laws;
use crate::vectorstore;
use vstd::prelude::*;

verus! {

// ---------------------------------------------------------------------------------------
// Cookies
// ---------------------------------------------------------------------------------------

/// Whether a part of a cookie header is no session cookie.
pub open spec fn is_other_cookie(part: Seq<char>) -> bool {
    !text::starts_with(text::trimmed(part), "llm_wiki_session="@)
}

/// Whether no part of a text, taken apart at semicolons, is a session cookie.
pub open spec fn has_no_session(s: Seq<char>) -> bool {
    forall|i: int|
        0 <= i < text::pieces(s, CharSet::Only(';')).len() ==> is_other_cookie(
            #[trigger] text::pieces(s, CharSet::Only(';'))[i],
        )
}

/// Parts that are no session cookies are passed over.
proof fn lemma_other_cookies(before: Seq<Seq<char>>, rest: Seq<Seq<char>>, k: int)
    requires
        forall|i: int| 0 <= i < before.len() ==> is_other_cookie(#[trigger] before[i]),
        0 <= k <= before.len(),
    ensures
        auth::cookie_value(before + rest, k) == auth::cookie_value(
            before + rest,
            before.len() as int,
        ),
    decreases before.len() - k,
{
    if k < before.len() {
        let all = before + rest;
        let part = text::trimmed(all[k]);
        let sign = seq!['='];
        assert(all[k] == before[k]);
        assert(is_other_cookie(before[k]));
        text::lemma_position_from(part, sign, 0);
        reveal_strlit("llm_wiki_session");
        reveal_strlit("llm_wiki_session=");
        if let Some(i) = text::position(part, sign) {
            assert(text::occurs_at(part, sign, i));
            if part.subrange(0, i) == "llm_wiki_session"@ {
                assert(part.subrange(0, i).len() == i);
                assert("llm_wiki_session"@.len() == 16);
                assert(part[i] == part.subrange(i, i + 1)[0]);
                assert(part.subrange(0, 17) =~= "llm_wiki_session="@) by {
                    assert forall|j: int| 0 <= j < 16 implies part[j]
                        == "llm_wiki_session="@[j] by {
                        assert(part[j] == part.subrange(0, i)[j]);
                        assert("llm_wiki_session"@[j] == "llm_wiki_session="@[j]);
                    }
                }
            }
        }
        lemma_other_cookies(before, rest, k + 1);
    }
}

/// The session token in a cookie header is the value of the session cookie, wherever the cookie
/// stands among others. Of several the first counts, and one without a value gives no token.
pub proof fn lemma_session_cookie_is_read(
    before: Seq<char>,
    a: Seq<char>,
    token: Seq<char>,
    b: Seq<char>,
    after: Seq<char>,
)
    requires
        has_no_session(before),
        text_laws::all_in(a, CharSet::WhiteSpace),
        text_laws::all_in(b, CharSet::WhiteSpace),
        !token.contains(';'),
        token.len() > 0 ==> !text::white_space(token.last()),
    ensures
        ({
            let part = a + ("llm_wiki_session="@ + token) + b;
            let given = if token.len() > 0 {
                Some(token)
            } else {
                None
            };
            &&& auth::header_token(part) == given
            &&& auth::header_token(part + seq![';'] + after) == given
            &&& auth::header_token(before + seq![';'] + part) == given
            &&& auth::header_token(before + seq![';'] + (part + seq![';'] + after)) == given
        }),
{
    let set = CharSet::Only(';');
    let cookie = "llm_wiki_session="@ + token;
    let part = a + cookie + b;
    reveal_strlit("llm_wiki_session");
    reveal_strlit("llm_wiki_session=");
    text_laws::lemma_white_space('l');
    text_laws::lemma_white_space('=');
    assert(text::ascii_punctuation('='));
    assert(cookie[0] == 'l');
    assert(cookie.last() == if token.len() > 0 {
        token.last()
    } else {
        '='
    });
    text_laws::lemma_trimmed_around(a, cookie, b, CharSet::WhiteSpace);
    assert(text_laws::none_in(part, set)) by {
        assert forall|k: int| 0 <= k < part.len() implies !set.holds(#[trigger] part[k]) by {
            text_laws::lemma_white_space(';');
            assert(text::ascii_punctuation(';'));
            if k < a.len() {
                assert(part[k] == a[k]);
            } else if k < a.len() + 17 {
                assert(part[k] == "llm_wiki_session="@[k - a.len()]);
            } else if k < a.len() + cookie.len() {
                assert(part[k] == token[k - a.len() - 17]);
                assert(token.contains(token[k - a.len() - 17]));
            } else {
                assert(part[k] == b[k - a.len() - cookie.len()]);
            }
        }
    }
    text_laws::lemma_one_piece(part, set);
    text_laws::lemma_pieces_around(part, ';', after, set);
    text_laws::lemma_pieces_around(before, ';', part, set);
    text_laws::lemma_pieces_around(before, ';', part + seq![';'] + after, set);
    let sign = seq!['='];
    let name = "llm_wiki_session"@;
    assert(cookie =~= name + sign + token);
    assert forall|k: int| 0 <= k < name.len() implies !#[trigger] text::occurs_at(
        name + sign + token,
        sign,
        k,
    ) by {
        let whole = name + sign + token;
        assert(whole[k] == name[k]);
        if text::occurs_at(whole, sign, k) {
            assert(whole.subrange(k, k + 1)[0] == whole[k]);
        }
    }
    text_laws::lemma_position(name, sign, token);
    assert(cookie.subrange(0, 16) =~= name);
    assert(cookie.subrange(17, cookie.len() as int) =~= token);
    let rest = text::pieces(after, set);
    let first = text::pieces(before, set);
    assert forall|i: int| 0 <= i < first.len() implies is_other_cookie(#[trigger] first[i]) by {
        assert(is_other_cookie(text::pieces(before, set)[i]));
    }
    assert(auth::cookie_value(seq![part], 0) == Some(token));
    assert((seq![part] + rest)[0] == part);
    assert(auth::cookie_value(seq![part] + rest, 0) == Some(token));
    lemma_other_cookies(first, seq![part], 0);
    assert((first + seq![part])[first.len() as int] == part);
    lemma_other_cookies(first, seq![part] + rest, 0);
    assert((first + (seq![part] + rest))[first.len() as int] == part);
}

/// A header without a session cookie gives no token.
pub proof fn lemma_no_session_cookie(header: Seq<char>)
    requires
        has_no_session(header),
    ensures
        auth::header_token(header) is None,
{
    let parts = text::pieces(header, CharSet::Only(';'));
    let none = Seq::<Seq<char>>::empty();
    assert forall|i: int| 0 <= i < parts.len() implies is_other_cookie(#[trigger] parts[i]) by {
        assert(is_other_cookie(text::pieces(header, CharSet::Only(';'))[i]));
    }
    lemma_other_cookies(parts, none, 0);
    assert(parts + none =~= parts);
}

/// The cookie of a session carries its token for a day, and for requests of the same site alone. The
/// one that takes its place carries none and is dropped at once.
pub proof fn lemma_cookies(token: Seq<char>)
    ensures
        auth::cookie_text(token) == "llm_wiki_session="@ + token
            + "; Path=/; Max-Age=86400; HttpOnly; SameSite=Strict"@,
        auth::expired_cookie_text() == "llm_wiki_session="@
            + "; Path=/; Max-Age=0; HttpOnly; SameSite=Strict"@,
        auth::SESSION_TTL_SECONDS == 86_400,
        auth::LOGIN_FAILURE_DELAY_MILLIS == 250,
{
    reveal_strlit("llm_wiki_session");
    reveal_strlit("=");
    reveal_strlit("llm_wiki_session=");
    reveal_strlit("=; Path=/; Max-Age=0; HttpOnly; SameSite=Strict");
    reveal_strlit("; Path=/; Max-Age=0; HttpOnly; SameSite=Strict");
    assert("llm_wiki_session"@ + "="@ =~= "llm_wiki_session="@);
    assert("="@ + "; Path=/; Max-Age=0; HttpOnly; SameSite=Strict"@
        =~= "=; Path=/; Max-Age=0; HttpOnly; SameSite=Strict"@);
    assert(auth::expired_cookie_text() =~= "llm_wiki_session="@
        + "; Path=/; Max-Age=0; HttpOnly; SameSite=Strict"@);
}

// ---------------------------------------------------------------------------------------
// Answers
// ---------------------------------------------------------------------------------------

/// Whether an answer gives an error with the given status and message, and sets no cookie.
pub open spec fn says(answer: Answer<Seq<char>>, status: int, message: Seq<char>) -> bool {
    answer.status == status && answer.body == Body::Error(message) && answer.cookie is None
}

/// An error of a file is answered with the status of its kind and its own message, but for what the
/// server failed on.
pub proof fn lemma_file_errors(m: Seq<char>)
    ensures
        says(http::file_error(FileError::InvalidInput(m)), 400, m),
        says(http::file_error(FileError::NotFound(m)), 404, m),
        says(http::file_error(FileError::ProjectNotFound), 404, "Project was not found"@),
        says(http::file_error(FileError::Conflict(m)), 409, m),
        says(http::file_error(FileError::PreconditionFailed(m)), 412, m),
        says(http::file_error(FileError::PayloadTooLarge(m)), 413, m),
        says(http::file_error(FileError::PreconditionRequired(m)), 428, m),
        says(http::file_error(FileError::Internal(m)), 500, "Internal server error"@),
        says(
            http::file_error(FileError::SetupRequired),
            503,
            "Server setup is required before files are available"@,
        ),
{
}

/// An error of a project, or of the content of one, is answered with the status of its kind and its
/// own message, but for what the server failed on.
pub proof fn lemma_project_errors(m: Seq<char>, e: FileError)
    ensures
        says(http::project_error(ProjectError::InvalidInput(m)), 400, m),
        says(http::project_error(ProjectError::InvalidProject(m)), 400, m),
        says(http::project_error(ProjectError::Conflict(m)), 409, m),
        says(http::project_error(ProjectError::Internal(m)), 500, "Internal server error"@),
        says(
            http::project_error(ProjectError::SetupRequired),
            503,
            "Server setup is required before projects are available"@,
        ),
        says(http::content_error(ContentError::InvalidInput(m)), 400, m),
        says(http::content_error(ContentError::InvalidProject(m)), 400, m),
        says(http::content_error(ContentError::Internal(m)), 500, "Internal server error"@),
        http::content_error(ContentError::Project(e)) == http::file_error(e),
{
}

/// A request that needs the owner is answered with its own status, and the answer is not kept. The
/// cookie of a session that is none is taken away. What is not there is answered as such.
pub proof fn lemma_refusals()
    ensures
        says(http::refused_credentials(), 401, "Invalid credentials"@),
        http::refused_credentials().no_store,
        says(http::needs_session(false), 401, "Authentication required"@),
        http::needs_session(false).no_store && http::needs_session(true).no_store,
        http::needs_session(true).status == 401,
        http::needs_session(true).cookie == Some(auth::expired_cookie_text()),
        says(http::unknown(), 404, "Not found"@),
{
}

/// An answer that tells the state of a session tells it as it is, and is not kept.
pub proof fn lemma_session_answer(
    authenticated: bool,
    setup_required: bool,
    expires_at: Option<Seq<char>>,
    cookie: Option<Seq<char>>,
)
    ensures
        ({
            let answer = http::session_answer(authenticated, setup_required, expires_at, cookie);
            &&& answer.status == 200
            &&& answer.no_store
            &&& answer.cookie == cookie
            &&& answer.body == (Body::Session { authenticated, setup_required, expires_at })
        }),
{
}

// ---------------------------------------------------------------------------------------
// Requests of the owner
// ---------------------------------------------------------------------------------------

/// The first one who sends a password of eight characters or more becomes the owner: the hash of the
/// password is kept, and a session is started for which the answer sets the cookie.
pub proof fn lemma_owner_is_set_up(
    account: Account,
    password: Seq<char>,
    hash: Seq<char>,
    token: Seq<char>,
    expires_at: Seq<char>,
    setup_required: bool,
)
    requires
        password.len() >= 8,
    ensures
        ({
            let start = http::setup_start(true, password);
            let events = seq![
                AuthEvent::Setup { owner_configured: false, setup_required: true },
                AuthEvent::Hashed(hash),
                AuthEvent::Stored(true),
                AuthEvent::Token(token),
                AuthEvent::Started { expires_at },
                AuthEvent::Setup { owner_configured: true, setup_required },
            ];
            &&& http::next(start, events[0]) == (AuthStage::Hash {
                password,
                store: http::Store::CreateOwner,
            })
            &&& http::run(start, events) == AuthStage::Answered(
                http::session_answer(
                    true,
                    setup_required,
                    Some(expires_at),
                    Some(auth::cookie_text(token)),
                ),
            )
            &&& http::account_run(account, start, events) == (Account {
                hash: Some(hash),
                sessions: account.sessions.insert(auth::token_hash(token)),
            })
        }),
{
    reveal_with_fuel(http::run, 7);
    reveal_with_fuel(http::account_run, 7);
}

/// No owner is set up with a shorter password, without a database, or where there is one already.
pub proof fn lemma_owner_is_not_set_up(password: Seq<char>, setup_required: bool)
    ensures
        http::setup_start(false, password) matches AuthStage::Answered(answer) && answer.status
            == 409,
        password.len() < 8 ==> http::setup_start(true, password) == AuthStage::Answered(
            http::error(400, "Password must be at least 8 characters"@),
        ),
        password.len() >= 8 ==> http::next(
            http::setup_start(true, password),
            AuthEvent::Setup { owner_configured: true, setup_required },
        ) == AuthStage::Answered(http::error(409, "Owner is already configured"@)),
        http::next(
            AuthStage::Keep { hash: password, store: http::Store::CreateOwner },
            AuthEvent::Stored(false),
        ) == AuthStage::Answered(http::error(409, "Owner is already configured"@)),
{
}

/// The owner takes no other password with a wrong one, with one that is too short, or without a
/// database. A wrong one is refused after it was recorded and the answer was delayed.
pub proof fn lemma_password_is_not_taken(
    current: Seq<char>,
    replacement: Seq<char>,
    hash: Seq<char>,
    database_ready: bool,
)
    ensures
        replacement.len() < 8 ==> http::rotation_start(database_ready, current, replacement)
            == AuthStage::Answered(http::error(400, "Password must be at least 8 characters"@)),
        replacement.len() >= 8 ==> http::rotation_start(false, current, replacement)
            == AuthStage::Answered(http::needs_session(false)),
        replacement.len() >= 8 ==> http::run(
            http::rotation_start(true, current, replacement),
            seq![
                AuthEvent::HashRead(Some(hash)),
                AuthEvent::Verified(false),
                AuthEvent::Done,
                AuthEvent::Done,
            ],
        ) == AuthStage::Answered(http::refused_credentials()),
        replacement.len() >= 8 ==> http::run(
            http::rotation_start(true, current, replacement),
            seq![AuthEvent::HashRead(None)],
        ) == AuthStage::Answered(http::needs_session(false)),
{
    reveal_with_fuel(http::run, 5);
}

/// Which password is verified: the one that a login gives, and the current one of the owner who takes
/// another.
pub proof fn lemma_password_to_verify(
    password: Seq<char>,
    current: Seq<char>,
    replacement: Seq<char>,
    hash: Seq<char>,
)
    requires
        replacement.len() >= 8,
    ensures
        http::next(http::login_start(true, password), AuthEvent::HashRead(Some(hash)))
            matches AuthStage::Verify { hash: h, purpose } && h == hash
            && http::checked_password(purpose) == password,
        http::next(
            http::rotation_start(true, current, replacement),
            AuthEvent::HashRead(Some(hash)),
        ) matches AuthStage::Verify { hash: h, purpose } && h == hash && http::checked_password(
            purpose,
        ) == current,
{
}

/// A session that is ended is no session any more, and the answer takes its cookie away. Without a
/// session the answer is the same.
pub proof fn lemma_logout(
    account: Account,
    header: Seq<char>,
    token: Seq<char>,
    owner_configured: bool,
    setup_required: bool,
)
    requires
        auth::header_token(header) == Some(token),
    ensures
        ({
            let setup = AuthEvent::Setup { owner_configured, setup_required };
            let out = AuthStage::Answered(
                http::session_answer(
                    false,
                    setup_required,
                    None,
                    Some(auth::expired_cookie_text()),
                ),
            );
            let start = http::logout_start(true, Some(header));
            &&& http::run(start, seq![AuthEvent::Done, setup]) == out
            &&& http::account_run(account, start, seq![AuthEvent::Done, setup]).sessions
                == account.sessions.remove(auth::token_hash(token))
            &&& http::run(http::logout_start(true, None), seq![setup]) == out
            &&& http::run(http::logout_start(false, Some(header)), seq![setup]) == out
        }),
{
    reveal_with_fuel(http::run, 3);
    reveal_with_fuel(http::account_run, 3);
}

/// A request about its session is told when the session ends where it is a valid one. Where it is
/// none, its cookie is taken away, and a request without one is told that it has none.
pub proof fn lemma_session(
    header: Seq<char>,
    token: Seq<char>,
    expires_at: Seq<char>,
    owner_configured: bool,
    setup_required: bool,
)
    requires
        auth::header_token(header) == Some(token),
    ensures
        ({
            let setup = AuthEvent::Setup { owner_configured, setup_required };
            let start = http::session_start(true, Some(header));
            &&& http::next(start, setup) == (AuthStage::Look {
                token_hash: auth::token_hash(token),
                setup_required,
            })
            &&& http::run(start, seq![setup, AuthEvent::Found(Some(expires_at))])
                == AuthStage::Answered(
                http::session_answer(true, setup_required, Some(expires_at), None),
            )
            &&& http::run(start, seq![setup, AuthEvent::Found(None)]) == AuthStage::Answered(
                http::session_answer(
                    false,
                    setup_required,
                    None,
                    Some(auth::expired_cookie_text()),
                ),
            )
            &&& http::run(http::session_start(true, None), seq![setup]) == AuthStage::Answered(
                http::session_answer(false, setup_required, None, None),
            )
        }),
{
    reveal_with_fuel(http::run, 3);
}

/// A protected request with a valid session is done, and one with a session that is none is answered
/// that it needs one.
pub proof fn lemma_guard(header: Seq<char>, token: Seq<char>, expires_at: Seq<char>)
    requires
        auth::header_token(header) == Some(token),
    ensures
        http::guard_start(true, Some(header)) == (AuthStage::Guard {
            token_hash: auth::token_hash(token),
        }),
        http::next(http::guard_start(true, Some(header)), AuthEvent::Found(Some(expires_at)))
            is Admitted,
        http::next(http::guard_start(true, Some(header)), AuthEvent::Found(None))
            == AuthStage::Answered(http::needs_session(true)),
        http::guard_start(false, Some(header)) == AuthStage::Answered(http::needs_session(false)),
{
}

/// A server is set up where its data root, its database and its owner are there.
pub proof fn lemma_needs_setup(root: bool, database: bool, owner: bool)
    ensures
        http::needs_setup(root, database, owner) <==> !(root && database && owner),
{
}

// ---------------------------------------------------------------------------------------
// The start of the server
// ---------------------------------------------------------------------------------------

/// The directories of the server can be used where the data root is a directory, its own directory is
/// no symlink before it is made and after, and it resolves to a place in the data root.
pub proof fn lemma_directories_are_prepared(
    style: PathStyle,
    data_root: Seq<char>,
    root: Seq<char>,
    before: Happening,
    after: Happening,
    home: Seq<char>,
)
    requires
        before != Happening::Found(EntryKind::Symlink),
        after != Happening::Found(EntryKind::Symlink),
    ensures
        ({
            let p = config::prepared(
                style,
                data_root,
                seq![
                    Happening::Done,
                    Happening::Resolved(root),
                    Happening::Found(EntryKind::Directory),
                    before,
                    Happening::Done,
                    after,
                    Happening::Done,
                    Happening::Done,
                    Happening::Resolved(home),
                ],
            );
            &&& paths::stands_in(style, home, root) ==> p.stage == Preparing::Ready(
                style,
                root,
                home,
            )
            &&& !paths::stands_in(style, home, root) ==> p.stage == Preparing::Failed(
                "Server Home must stay under the configured Data Root"@,
            )
        }),
{
    let events = seq![
        Happening::Done,
        Happening::Resolved(root),
        Happening::Found(EntryKind::Directory),
        before,
        Happening::Done,
        after,
        Happening::Done,
        Happening::Done,
        Happening::Resolved(home),
    ];
    let p0 = Prepared { style, data_root, stage: Preparing::CreateRoot };
    let p1 = config::prepare_next(p0, events[0]);
    let p2 = config::prepare_next(p1, events[1]);
    let p3 = config::prepare_next(p2, events[2]);
    let p4 = config::prepare_next(p3, events[3]);
    let p5 = config::prepare_next(p4, events[4]);
    let p6 = config::prepare_next(p5, events[5]);
    let p7 = config::prepare_next(p6, events[6]);
    let p8 = config::prepare_next(p7, events[7]);
    let p9 = config::prepare_next(p8, events[8]);
    lemma_prepared_next(style, data_root, events, 1);
    lemma_prepared_next(style, data_root, events, 2);
    lemma_prepared_next(style, data_root, events, 3);
    lemma_prepared_next(style, data_root, events, 4);
    lemma_prepared_next(style, data_root, events, 5);
    lemma_prepared_next(style, data_root, events, 6);
    lemma_prepared_next(style, data_root, events, 7);
    lemma_prepared_next(style, data_root, events, 8);
    lemma_prepared_next(style, data_root, events, 9);
    assert(config::prepared(style, data_root, events.take(0)) == p0);
    assert(events.take(9) =~= events);
    assert(config::prepared(style, data_root, events) == p9);
    assert(p3.stage is InspectHome && p3.data_root == root && p3.style == style);
    assert(p6.stage is ReadHome && p6.data_root == root && p6.style == style);
    assert(p8.stage is ResolveHome && p8.data_root == root && p8.style == style);
}

proof fn lemma_prepared_next(
    style: PathStyle,
    data_root: Seq<char>,
    events: Seq<Happening>,
    k: int,
)
    requires
        0 < k <= events.len(),
    ensures
        config::prepared(style, data_root, events.take(k)) == config::prepare_next(
            config::prepared(style, data_root, events.take(k - 1)),
            events[k - 1],
        ),
{
    assert(events.take(k).drop_last() =~= events.take(k - 1));
    assert(events.take(k).last() == events[k - 1]);
}

/// A data root that is no directory is refused, and what fails fails for the reason that is given.
/// What has failed, or is ready, stays so.
pub proof fn lemma_preparation_fails(p: Prepared, reason: Seq<char>, event: Happening)
    ensures
        p.stage is InspectRoot && event != Happening::Found(EntryKind::Directory)
            ==> config::prepare_next(p, event).stage is Failed,
        (p.stage is CreateRoot || p.stage is ResolveRoot || p.stage is CreateHome || p.stage
            is ReadHome || p.stage is RestrictHome || p.stage is ResolveHome) ==> (
        config::prepare_next(p, Happening::Failed(reason)).stage matches Preparing::Failed(said)
            && text::ends_with(said, seq![':', ' '] + reason)),
        p.stage is Failed || p.stage is Ready ==> config::prepare_next(p, event) == p,
{
    reveal_strlit(": ");
    assert(": "@ =~= seq![':', ' ']);
    let home = config::planned_home(p.style, p.data_root);
    let tail = seq![':', ' '] + reason;
    let at = match p.stage {
        Preparing::CreateRoot => "failed to create Data Root "@ + p.data_root,
        Preparing::ResolveRoot => "failed to canonicalize Data Root "@ + p.data_root,
        Preparing::ReadHome => "failed to inspect Server Home "@ + home,
        Preparing::RestrictHome => "failed to restrict Server Home "@ + home,
        Preparing::ResolveHome => "failed to canonicalize Server Home "@ + home,
        _ => "failed to create Server Home "@ + home,
    };
    text_laws::lemma_starts_and_ends(at, tail);
    assert(at + seq![':', ' '] + reason =~= at + tail);
}

/// The directory of the server is named in the data root, and its database in that directory.
pub proof fn lemma_server_files(data_root: Seq<char>)
    requires
        data_root.len() > 0,
        data_root.last() != '/',
    ensures
        config::planned_home(PathStyle::Unix, data_root) == data_root + seq!['/']
            + ".llm-wiki-server"@,
        config::CONFIG_DB_FILE@ == "config.sqlite"@,
        config::DATA_ROOT_ENV@ == "LLM_WIKI_DATA_ROOT"@,
{
    reveal_strlit(".llm-wiki-server");
    reveal_strlit(".");
    assert(".llm-wiki-server"@.len() == 16);
    assert(!".llm-wiki-server"@.contains('/'));
    crate::path_laws::lemma_joined_path(data_root, ".llm-wiki-server"@);
}

/// The address of a port is the host, a colon and the port. A host with colons is put in brackets,
/// unless it is in brackets.
pub proof fn lemma_address(host: Seq<char>, port: u16)
    ensures
        !host.contains(':') ==> server_bind::address(host, port) == host + seq![':']
            + text::decimal(port as nat),
        host.contains(':') && host[0] != '[' ==> server_bind::address(host, port) == seq!['[']
            + host + seq![']', ':'] + text::decimal(port as nat),
        server_bind::address(seq!['['] + host, port) == seq!['['] + host + seq![':']
            + text::decimal(port as nat),
{
    reveal_strlit(":");
    reveal_strlit("[");
    reveal_strlit("]:");
    assert(":"@ =~= seq![':']);
    assert("["@ =~= seq!['[']);
    assert("]:"@ =~= seq![']', ':']);
    assert((seq!['['] + host)[0] == '[');
    assert(host.contains(':') ==> host.len() > 0);
}

/// A host is named with letters, digits, dots, hyphens, underscores, colons and brackets, and with
/// nothing else.
pub proof fn lemma_host(host: Seq<char>, k: int)
    requires
        0 <= k < host.len(),
    ensures
        !(text::ascii_letter_or_digit(host[k]) || seq!['.', '-', '_', ':', '[', ']'].contains(
            host[k],
        )) ==> !server_bind::is_host(host),
        (forall|i: int|
            0 <= i < host.len() ==> text::ascii_letter_or_digit(#[trigger] host[i]) || host[i] == '.'
                || host[i] == '-' || host[i] == '_' || host[i] == ':' || host[i] == '[' || host[i]
                == ']') ==> server_bind::is_host(host),
        !server_bind::is_host(Seq::empty()),
        server_bind::DEFAULT_BIND_HOST@ == "127.0.0.1"@,
{
    let marks = seq!['.', '-', '_', ':', '[', ']'];
    assert(marks[0] == '.' && marks[1] == '-' && marks[2] == '_' && marks[3] == ':' && marks[4]
        == '[' && marks[5] == ']');
    if server_bind::is_host(host) {
        assert(server_bind::is_host_char(host[k]));
    }
}

/// A request for parts of pages is given as many as it asks for, one at least and two hundred at
/// most.
pub proof fn lemma_vector_results(k: usize)
    ensures
        1 <= k <= 200 ==> vectorstore::within_limits(k) == k,
        k < 1 ==> vectorstore::within_limits(k) == 1,
        k > 200 ==> vectorstore::within_limits(k) == 200,
{
}

/// A verdict on a password is handed on as it is, and a hash that cannot be read is named as what is
/// wrong.
pub proof fn lemma_verdict(accepted: bool, e: Seq<char>)
    ensures
        auth::verified(Ok(accepted)) == Ok::<bool, Seq<char>>(accepted),
        auth::verified(Err(e)) == Err::<bool, Seq<char>>(
            "stored owner password hash is invalid: "@ + e,
        ),
{
}

} // verus!
