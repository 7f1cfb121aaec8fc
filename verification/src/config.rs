//! Where the server keeps its data.

use crate::files::EntryKind;
use crate::paths;
use crate::paths::PathStyle;
use crate::text;
use vstd::prelude::*;

verus! {

/// The environment variable that names the data root.
pub const DATA_ROOT_ENV: &'static str = "LLM_WIKI_DATA_ROOT";

/// The directory of the server under the data root.
pub const SERVER_HOME_DIR: &'static str = ".llm-wiki-server";

/// The file of the configuration database in the directory of the server.
pub const CONFIG_DB_FILE: &'static str = "config.sqlite";

/// The directories of the server.
#[derive(Debug, Clone, PartialEq, Eq)]
pub struct ServerPaths {
    style: PathStyle,
    data_root: String,
    server_home: String,
}

impl ServerPaths {
    /// How the paths are written.
    pub closed spec fn style(&self) -> PathStyle {
        self.style
    }

    /// The data root.
    pub closed spec fn root(&self) -> Seq<char> {
        self.data_root@
    }

    /// The directory of the server.
    pub closed spec fn home(&self) -> Seq<char> {
        self.server_home@
    }

    /// The directories of the server, where its own stands in the data root.
    pub fn new(style: PathStyle, data_root: String, server_home: String) -> (r: ServerPaths)
        ensures
            r.style() == style,
            r.root() == data_root@,
            r.home() == server_home@,
    {
        ServerPaths { style, data_root, server_home }
    }

    /// The data root.
    pub fn data_root(&self) -> (r: &str)
        ensures
            r@ == self.root(),
    {
        self.data_root.as_str()
    }

    /// The directory of the server.
    pub fn server_home(&self) -> (r: &str)
        ensures
            r@ == self.home(),
    {
        self.server_home.as_str()
    }

    /// The file of the configuration database, in the directory of the server.
    pub open spec fn config_db(&self) -> Seq<char> {
        paths::joined_path(self.style(), self.home(), CONFIG_DB_FILE@)
    }

    /// The file of the configuration database.
    pub fn config_db_path(&self) -> (r: String)
        ensures
            r@ == self.config_db(),
    {
        paths::join_path(self.style, self.server_home.as_str(), CONFIG_DB_FILE)
    }
}

/// Why the directories of the server cannot be used.
#[derive(Debug)]
pub struct ConfigError {
    message: String,
}

impl ConfigError {
    /// The message of the error.
    pub closed spec fn text(&self) -> Seq<char> {
        self.message@
    }

    /// The error with the given message.
    pub fn new(message: String) -> (r: ConfigError)
        ensures
            r.text() == message@,
    {
        ConfigError { message }
    }

    /// The message of the error.
    pub fn to_string(&self) -> (r: String)
        ensures
            r@ == self.text(),
    {
        self.message.as_str().to_string()
    }
}

/// The data root that is configured, without white space around it. None is where it is missing or
/// blank, and one that does not start at the root of the file system is refused.
pub fn resolve_server_paths(style: PathStyle, data_root: Option<&str>) -> (r: Result<
    Option<String>,
    ConfigError,
>)
    ensures
        match data_root {
            None => r matches Ok(None),
            Some(raw) => {
                let path = text::trimmed(raw@);
                if path.len() == 0 {
                    r matches Ok(None)
                } else if paths::is_absolute(style, path) {
                    r matches Ok(Some(p)) && p@ == path
                } else {
                    r matches Err(e) && e.text() == DATA_ROOT_ENV@ + " must be an absolute path"@
                }
            },
        },
{
    match data_root {
        None => Ok(None),
        Some(raw) => {
            let chars = text::to_chars(raw);
            let path: &[char] = text::trim(chars.as_slice());
            if path.len() == 0 {
                Ok(None)
            } else if paths::path_is_absolute(style, text::to_text(path).as_str()) {
                Ok(Some(text::to_text(path)))
            } else {
                let mut message = DATA_ROOT_ENV.to_string();
                message.append(" must be an absolute path");
                Err(ConfigError::new(message))
            }
        },
    }
}

// ---------------------------------------------------------------------------------------
// Preparing the directories
// ---------------------------------------------------------------------------------------

/// What is done next to prepare the directories of the server.
pub enum PrepareStage {
    /// The data root is made.
    CreateRoot,
    /// The data root is resolved.
    ResolveRoot,
    /// It is looked what stands at the data root.
    InspectRoot,
    /// It is looked what stands at the directory of the server.
    InspectHome,
    /// The directory of the server is made.
    CreateHome,
    /// It is looked again what stands at the directory of the server.
    InspectHomeAgain,
    /// It is read who may use the directory of the server.
    ReadHome,
    /// The directory of the server is closed to others.
    RestrictHome,
    /// The directory of the server is resolved.
    ResolveHome,
    /// The directories are prepared.
    Ready(ServerPaths),
    /// The directories cannot be used.
    Failed(ConfigError),
}

/// What came of a stage.
pub enum PrepareEvent {
    /// It was done.
    Done,
    /// The path was resolved to this one.
    Resolved(String),
    /// This stands at the path.
    Found(EntryKind),
    /// Nothing stands at the path.
    Missing,
    /// It failed for this reason.
    Failed(String),
}

/// The preparation of the directories of the server.
pub struct Preparation {
    /// How paths are written.
    pub style: PathStyle,
    /// The data root as it was asked for, and as it was resolved once it has been.
    pub data_root: String,
    /// What is done next.
    pub stage: PrepareStage,
}

/// What a stage stands for.
pub enum Preparing {
    CreateRoot,
    ResolveRoot,
    InspectRoot,
    InspectHome,
    CreateHome,
    InspectHomeAgain,
    ReadHome,
    RestrictHome,
    ResolveHome,
    /// How paths are written, the data root and the directory of the server.
    Ready(PathStyle, Seq<char>, Seq<char>),
    Failed(Seq<char>),
}

/// What the preparation stands for.
pub struct Prepared {
    pub style: PathStyle,
    pub data_root: Seq<char>,
    pub stage: Preparing,
}

impl View for Preparation {
    type V = Prepared;

    open spec fn view(&self) -> Prepared {
        Prepared {
            style: self.style,
            data_root: self.data_root@,
            stage: match self.stage {
                PrepareStage::CreateRoot => Preparing::CreateRoot,
                PrepareStage::ResolveRoot => Preparing::ResolveRoot,
                PrepareStage::InspectRoot => Preparing::InspectRoot,
                PrepareStage::InspectHome => Preparing::InspectHome,
                PrepareStage::CreateHome => Preparing::CreateHome,
                PrepareStage::InspectHomeAgain => Preparing::InspectHomeAgain,
                PrepareStage::ReadHome => Preparing::ReadHome,
                PrepareStage::RestrictHome => Preparing::RestrictHome,
                PrepareStage::ResolveHome => Preparing::ResolveHome,
                PrepareStage::Ready(p) => Preparing::Ready(p.style(), p.root(), p.home()),
                PrepareStage::Failed(e) => Preparing::Failed(e.text()),
            },
        }
    }
}

/// The directory of the server before it is resolved.
pub open spec fn planned_home(style: PathStyle, data_root: Seq<char>) -> Seq<char> {
    paths::joined_path(style, data_root, SERVER_HOME_DIR@)
}

/// What is said where a stage fails for the given reason.
pub open spec fn failure(p: Prepared, reason: Seq<char>) -> Seq<char> {
    let home = planned_home(p.style, p.data_root);
    match p.stage {
        Preparing::CreateRoot => "failed to create Data Root "@ + p.data_root + ": "@ + reason,
        Preparing::ResolveRoot | Preparing::InspectRoot => "failed to canonicalize Data Root "@
            + p.data_root + ": "@ + reason,
        Preparing::ReadHome => "failed to inspect Server Home "@ + home + ": "@ + reason,
        Preparing::RestrictHome => "failed to restrict Server Home "@ + home + ": "@ + reason,
        Preparing::ResolveHome => "failed to canonicalize Server Home "@ + home + ": "@ + reason,
        _ => "failed to create Server Home "@ + home + ": "@ + reason,
    }
}

/// What an event stands for.
pub enum Happening {
    Done,
    Resolved(Seq<char>),
    Found(EntryKind),
    Missing,
    Failed(Seq<char>),
}

impl View for PrepareEvent {
    type V = Happening;

    open spec fn view(&self) -> Happening {
        match self {
            PrepareEvent::Done => Happening::Done,
            PrepareEvent::Resolved(p) => Happening::Resolved(p@),
            PrepareEvent::Found(k) => Happening::Found(*k),
            PrepareEvent::Missing => Happening::Missing,
            PrepareEvent::Failed(e) => Happening::Failed(e@),
        }
    }
}

/// What is done next after a stage. A directory of the server that is a symlink is refused, before
/// it is made and after, and so is one that resolves to a place outside the data root. Whether
/// something stands at the directory of the server does not matter otherwise, and neither does it
/// where that cannot be said. An event that says nothing about a stage changes nothing.
pub open spec fn prepare_next(p: Prepared, event: Happening) -> Prepared {
    let home = planned_home(p.style, p.data_root);
    match p.stage {
        Preparing::Ready(_, _, _) | Preparing::Failed(_) => p,
        Preparing::CreateRoot => match event {
            Happening::Done => Prepared { stage: Preparing::ResolveRoot, ..p },
            Happening::Failed(e) => Prepared { stage: Preparing::Failed(failure(p, e)), ..p },
            _ => p,
        },
        Preparing::ResolveRoot => match event {
            Happening::Resolved(path) => Prepared {
                style: p.style,
                data_root: path,
                stage: Preparing::InspectRoot,
            },
            Happening::Failed(e) => Prepared { stage: Preparing::Failed(failure(p, e)), ..p },
            _ => p,
        },
        Preparing::InspectRoot => match event {
            Happening::Found(EntryKind::Directory) => Prepared {
                stage: Preparing::InspectHome,
                ..p
            },
            _ => Prepared {
                stage: Preparing::Failed(
                    "Data Root "@ + p.data_root + " is not a directory"@,
                ),
                ..p
            },
        },
        Preparing::InspectHome | Preparing::InspectHomeAgain => match event {
            Happening::Found(EntryKind::Symlink) => Prepared {
                stage: Preparing::Failed("Server Home "@ + home + " must not be a symlink"@),
                ..p
            },
            _ => Prepared {
                stage: if p.stage == Preparing::InspectHome {
                    Preparing::CreateHome
                } else {
                    Preparing::ReadHome
                },
                ..p
            },
        },
        Preparing::CreateHome => match event {
            Happening::Done => Prepared { stage: Preparing::InspectHomeAgain, ..p },
            Happening::Failed(e) => Prepared { stage: Preparing::Failed(failure(p, e)), ..p },
            _ => p,
        },
        Preparing::ReadHome => match event {
            Happening::Done => Prepared { stage: Preparing::RestrictHome, ..p },
            Happening::Failed(e) => Prepared { stage: Preparing::Failed(failure(p, e)), ..p },
            _ => p,
        },
        Preparing::RestrictHome => match event {
            Happening::Done => Prepared { stage: Preparing::ResolveHome, ..p },
            Happening::Failed(e) => Prepared { stage: Preparing::Failed(failure(p, e)), ..p },
            _ => p,
        },
        Preparing::ResolveHome => match event {
            Happening::Resolved(path) => Prepared {
                stage: if paths::stands_in(p.style, path, p.data_root) {
                    Preparing::Ready(p.style, p.data_root, path)
                } else {
                    Preparing::Failed("Server Home must stay under the configured Data Root"@)
                },
                ..p
            },
            Happening::Failed(e) => Prepared { stage: Preparing::Failed(failure(p, e)), ..p },
            _ => p,
        },
    }
}

/// A message with a path and a reason in it.
fn message_of(start: &str, path: &str, middle: &str, reason: &str) -> (r: ConfigError)
    ensures
        r.text() == start@ + path@ + middle@ + reason@,
{
    let mut out = start.to_string();
    out.append(path);
    out.append(middle);
    out.append(reason);
    ConfigError::new(out)
}

impl Preparation {
    /// The preparation of the directories of the server under the data root `data_root`. One that
    /// does not start at the root of the file system is refused.
    pub fn begin(style: PathStyle, data_root: &str) -> (r: Preparation)
        ensures
            r@ == (Prepared {
                style,
                data_root: data_root@,
                stage: if paths::is_absolute(style, data_root@) {
                    Preparing::CreateRoot
                } else {
                    Preparing::Failed(DATA_ROOT_ENV@ + " must be an absolute path"@)
                },
            }),
    {
        let stage = if paths::path_is_absolute(style, data_root) {
            PrepareStage::CreateRoot
        } else {
            let mut message = DATA_ROOT_ENV.to_string();
            message.append(" must be an absolute path");
            PrepareStage::Failed(ConfigError::new(message))
        };
        Preparation { style, data_root: data_root.to_string(), stage }
    }

    /// The directory of the server before it is resolved.
    pub fn server_home(&self) -> (r: String)
        ensures
            r@ == planned_home(self.style, self.data_root@),
    {
        paths::join_path(self.style, self.data_root.as_str(), SERVER_HOME_DIR)
    }

    /// What is done next after a stage.
    pub fn advance(self, event: PrepareEvent) -> (r: Preparation)
        ensures
            r@ == prepare_next(self@, event@),
    {
        let home = paths::join_path(self.style, self.data_root.as_str(), SERVER_HOME_DIR);
        let Preparation { style, data_root, stage } = self;
        match stage {
            PrepareStage::Ready(paths) => Preparation {
                style,
                data_root,
                stage: PrepareStage::Ready(paths),
            },
            PrepareStage::Failed(e) => Preparation { style, data_root, stage: PrepareStage::Failed(e) },
            PrepareStage::CreateRoot => match event {
                PrepareEvent::Done => Preparation { style, data_root, stage: PrepareStage::ResolveRoot },
                PrepareEvent::Failed(reason) => {
                    let e = message_of(
                        "failed to create Data Root ",
                        data_root.as_str(),
                        ": ",
                        reason.as_str(),
                    );
                    Preparation { style, data_root, stage: PrepareStage::Failed(e) }
                },
                _ => Preparation { style, data_root, stage: PrepareStage::CreateRoot },
            },
            PrepareStage::ResolveRoot => match event {
                PrepareEvent::Resolved(path) => Preparation {
                    style,
                    data_root: path,
                    stage: PrepareStage::InspectRoot,
                },
                PrepareEvent::Failed(reason) => {
                    let e = message_of(
                        "failed to canonicalize Data Root ",
                        data_root.as_str(),
                        ": ",
                        reason.as_str(),
                    );
                    Preparation { style, data_root, stage: PrepareStage::Failed(e) }
                },
                _ => Preparation { style, data_root, stage: PrepareStage::ResolveRoot },
            },
            PrepareStage::InspectRoot => match event {
                PrepareEvent::Found(EntryKind::Directory) => Preparation {
                    style,
                    data_root,
                    stage: PrepareStage::InspectHome,
                },
                _ => {
                    let e = message_of("Data Root ", data_root.as_str(), " is not a directory", "");
                    proof {
                        reveal_strlit("");
                        assert(e.text() =~= "Data Root "@ + data_root@ + " is not a directory"@);
                    }
                    Preparation { style, data_root, stage: PrepareStage::Failed(e) }
                },
            },
            PrepareStage::InspectHome => match event {
                PrepareEvent::Found(EntryKind::Symlink) => {
                    let e = message_of("Server Home ", home.as_str(), " must not be a symlink", "");
                    proof {
                        reveal_strlit("");
                        assert(e.text() =~= "Server Home "@ + home@ + " must not be a symlink"@);
                    }
                    Preparation { style, data_root, stage: PrepareStage::Failed(e) }
                },
                _ => Preparation { style, data_root, stage: PrepareStage::CreateHome },
            },
            PrepareStage::InspectHomeAgain => match event {
                PrepareEvent::Found(EntryKind::Symlink) => {
                    let e = message_of("Server Home ", home.as_str(), " must not be a symlink", "");
                    proof {
                        reveal_strlit("");
                        assert(e.text() =~= "Server Home "@ + home@ + " must not be a symlink"@);
                    }
                    Preparation { style, data_root, stage: PrepareStage::Failed(e) }
                },
                _ => Preparation { style, data_root, stage: PrepareStage::ReadHome },
            },
            PrepareStage::CreateHome => match event {
                PrepareEvent::Done => Preparation {
                    style,
                    data_root,
                    stage: PrepareStage::InspectHomeAgain,
                },
                PrepareEvent::Failed(reason) => {
                    let e = message_of(
                        "failed to create Server Home ",
                        home.as_str(),
                        ": ",
                        reason.as_str(),
                    );
                    Preparation { style, data_root, stage: PrepareStage::Failed(e) }
                },
                _ => Preparation { style, data_root, stage: PrepareStage::CreateHome },
            },
            PrepareStage::ReadHome => match event {
                PrepareEvent::Done => Preparation { style, data_root, stage: PrepareStage::RestrictHome },
                PrepareEvent::Failed(reason) => {
                    let e = message_of(
                        "failed to inspect Server Home ",
                        home.as_str(),
                        ": ",
                        reason.as_str(),
                    );
                    Preparation { style, data_root, stage: PrepareStage::Failed(e) }
                },
                _ => Preparation { style, data_root, stage: PrepareStage::ReadHome },
            },
            PrepareStage::RestrictHome => match event {
                PrepareEvent::Done => Preparation { style, data_root, stage: PrepareStage::ResolveHome },
                PrepareEvent::Failed(reason) => {
                    let e = message_of(
                        "failed to restrict Server Home ",
                        home.as_str(),
                        ": ",
                        reason.as_str(),
                    );
                    Preparation { style, data_root, stage: PrepareStage::Failed(e) }
                },
                _ => Preparation { style, data_root, stage: PrepareStage::RestrictHome },
            },
            PrepareStage::ResolveHome => match event {
                PrepareEvent::Resolved(path) => {
                    if paths::path_stands_in(style, path.as_str(), data_root.as_str()) {
                        let paths = ServerPaths::new(
                            style,
                            data_root.as_str().to_string(),
                            path,
                        );
                        Preparation { style, data_root, stage: PrepareStage::Ready(paths) }
                    } else {
                        let e = ConfigError::new(
                            "Server Home must stay under the configured Data Root".to_string(),
                        );
                        Preparation { style, data_root, stage: PrepareStage::Failed(e) }
                    }
                },
                PrepareEvent::Failed(reason) => {
                    let e = message_of(
                        "failed to canonicalize Server Home ",
                        home.as_str(),
                        ": ",
                        reason.as_str(),
                    );
                    Preparation { style, data_root, stage: PrepareStage::Failed(e) }
                },
                _ => Preparation { style, data_root, stage: PrepareStage::ResolveHome },
            },
        }
    }
}

/// Where the preparation of the directories under a data root stands after the given events.
pub open spec fn prepared(
    style: PathStyle,
    data_root: Seq<char>,
    events: Seq<Happening>,
) -> Prepared
    decreases events.len(),
{
    if events.len() == 0 {
        Prepared { style, data_root, stage: Preparing::CreateRoot }
    } else {
        prepare_next(prepared(style, data_root, events.drop_last()), events.last())
    }
}

/// The directory of the server stays under the data root: it is used only where it resolves to a
/// place there.
pub proof fn lemma_server_home_stays_inside(
    style: PathStyle,
    data_root: Seq<char>,
    events: Seq<Happening>,
)
    ensures
        prepared(style, data_root, events).stage matches Preparing::Ready(_, root, home)
            ==> paths::stands_in(style, home, root),
    decreases events.len(),
{
    if events.len() > 0 {
        lemma_server_home_stays_inside(style, data_root, events.drop_last());
        lemma_style_stays(style, data_root, events.drop_last());
    }
}

/// The file of the configuration database is the one in the directory of the server, in every
/// preparation that is ready.
pub proof fn lemma_config_db_in_server_home(
    style: PathStyle,
    data_root: Seq<char>,
    events: Seq<Happening>,
    ready: ServerPaths,
)
    requires
        prepared(style, data_root, events).stage == Preparing::Ready(
            ready.style(),
            ready.root(),
            ready.home(),
        ),
    ensures
        ready.config_db() == paths::joined_path(style, ready.home(), CONFIG_DB_FILE@),
        paths::stands_in(style, ready.home(), ready.root()),
{
    lemma_server_home_stays_inside(style, data_root, events);
    lemma_style_stays(style, data_root, events);
}

/// How paths are written does not change.
proof fn lemma_style_stays(style: PathStyle, data_root: Seq<char>, events: Seq<Happening>)
    ensures
        prepared(style, data_root, events).style == style,
        prepared(style, data_root, events).stage matches Preparing::Ready(ready, _, _) ==> ready
            == style,
    decreases events.len(),
{
    if events.len() > 0 {
        lemma_style_stays(style, data_root, events.drop_last());
    }
}

/// No symlink is accepted as the directory of the server.
pub proof fn lemma_server_home_symlink_is_refused(p: Prepared)
    requires
        p.stage == Preparing::InspectHome || p.stage == Preparing::InspectHomeAgain,
    ensures
        prepare_next(p, Happening::Found(EntryKind::Symlink)).stage is Failed,
{
}

} // verus!
