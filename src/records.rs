//! Plain records exchanged with the handler layer.
use vstd::prelude::*;

verus! {

/// Asks to stage the changes under these paths.
pub struct AddRequest {
    pub change_paths: Vec<String>,
}

/// Asks to commit the staged changes.
pub struct CommitRequest {
    pub title: String,
    pub body: String,
}

/// Asks to discard changes, staged or not.
pub struct RestoreRequest {
    pub staged: bool,
    pub changes: Vec<Change>,
}

/// Asks to delete an uploaded image.
pub struct DeleteImageRequest {
    pub file_name: String,
}

/// The answer to a liveness check.
pub struct CheckServerRes {
    pub version: String,
}

/// Asks for markdown files whose name holds a text.
pub struct SearchFilesQuery {
    pub q: String,
}

/// Asks for lines of markdown files that hold a text.
pub struct SearchContentQuery {
    pub q: String,
    pub case_sensitive: Option<bool>,
    pub include_files: Option<String>,
    pub exclude_files: Option<String>,
}

/// How a file differs from the last commit.
#[derive(PartialEq, Eq, Structural, Debug, Clone, Copy)]
pub enum StatusType {
    Added,
    Modified,
    Deleted,
    Untracked,
    Rename,
}

/// One changed path.
pub struct Change {
    pub change_path: String,
    pub status: StatusType,
}

/// A remote of the repository, with a browser address where one can be derived.
pub struct RemoteInfo {
    pub name: String,
    pub url: Option<String>,
    pub web_url: Option<String>,
}

/// The working tree's state against the repository.
pub struct GitStatus {
    pub workspace: Vec<Change>,
    pub staged: Vec<Change>,
    pub changes: bool,
    pub no_git: bool,
    pub remotes: Vec<RemoteInfo>,
}

/// Where the server listens and logs.
pub struct ServerConfig {
    pub host: String,
    pub port: u16,
    pub log_dir: String,
    pub log_to_terminal: bool,
}

impl ServerConfig {
    /// Listens on 127.0.0.1:3024, logs under `logs` and to the terminal.
    pub fn local() -> (r: ServerConfig)
        ensures
            r.host@ == "127.0.0.1"@,
            r.port == 3024,
            r.log_dir@ == "logs"@,
            r.log_to_terminal,
    {
        ServerConfig {
            host: "127.0.0.1".to_owned(),
            port: 3024,
            log_dir: "logs".to_owned(),
            log_to_terminal: true,
        }
    }
}

/// The body of every answer: data on success, a message on failure.
pub struct ApiRes<T> {
    pub data: Option<T>,
    pub code: u8,
    pub message: Option<T>,
}

impl<T> ApiRes<T> {
    /// A successful answer carrying `data`.
    pub fn success(data: T) -> (r: Self)
        ensures
            r.data == Some(data),
            r.code == 0,
            r.message is None,
    {
        ApiRes { data: Some(data), code: 0, message: None }
    }

    /// A failed answer carrying `message`.
    pub fn error(message: T) -> (r: Self)
        ensures
            r.data is None,
            r.code == 0,
            r.message == Some(message),
    {
        ApiRes { data: None, code: 0, message: Some(message) }
    }
}

} // verus!
