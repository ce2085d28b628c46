use vstd::prelude::*;
use vstd::string::*;
use crate::text::{concat, trim, trim_str};

verus! {

/// Status of a file as `git status --porcelain` reports it, for the index or
/// the working tree.
#[derive(Debug, Clone, Copy, PartialEq, Eq, Structural)]
pub enum GitStatus {
    Unmodified,
    Modified,
    /// file type changed (regular file, symbolic link or submodule)
    TypeChanged,
    Added,
    Deleted,
    Renamed,
    /// copied (if config option status.renames is set to "copies")
    Copied,
    /// updated but unmerged
    Updated,
    Untracked,
    Ignored,
}

impl GitStatus {
    /// The status code letter.
    pub open spec fn spec_char(self) -> char {
        match self {
            GitStatus::Unmodified => ' ',
            GitStatus::Modified => 'M',
            GitStatus::TypeChanged => 'T',
            GitStatus::Added => 'A',
            GitStatus::Deleted => 'D',
            GitStatus::Renamed => 'R',
            GitStatus::Copied => 'C',
            GitStatus::Updated => 'U',
            GitStatus::Untracked => '?',
            GitStatus::Ignored => '!',
        }
    }

    /// The status code letter.
    pub fn to_char(self) -> (r: char)
        ensures
            r == self.spec_char(),
    {
        match self {
            GitStatus::Unmodified => ' ',
            GitStatus::Modified => 'M',
            GitStatus::TypeChanged => 'T',
            GitStatus::Added => 'A',
            GitStatus::Deleted => 'D',
            GitStatus::Renamed => 'R',
            GitStatus::Copied => 'C',
            GitStatus::Updated => 'U',
            GitStatus::Untracked => '?',
            GitStatus::Ignored => '!',
        }
    }

    /// The status with code letter `c`, if there is one.
    pub fn from_char(c: char) -> (r: Option<GitStatus>)
        ensures
            r matches Some(s) ==> s.spec_char() == c,
            r is None ==> forall|s: GitStatus| s.spec_char() != c,
    {
        match c {
            ' ' => Some(GitStatus::Unmodified),
            'M' => Some(GitStatus::Modified),
            'T' => Some(GitStatus::TypeChanged),
            'A' => Some(GitStatus::Added),
            'D' => Some(GitStatus::Deleted),
            'R' => Some(GitStatus::Renamed),
            'C' => Some(GitStatus::Copied),
            'U' => Some(GitStatus::Updated),
            '?' => Some(GitStatus::Untracked),
            '!' => Some(GitStatus::Ignored),
            _ => None,
        }
    }

    /// The status with code byte `b`, or `Unmodified` when there is none.
    pub open spec fn spec_from_byte(b: u8) -> GitStatus {
        if b == 32 { GitStatus::Unmodified }
        else if b == 77 { GitStatus::Modified }
        else if b == 84 { GitStatus::TypeChanged }
        else if b == 65 { GitStatus::Added }
        else if b == 68 { GitStatus::Deleted }
        else if b == 82 { GitStatus::Renamed }
        else if b == 67 { GitStatus::Copied }
        else if b == 85 { GitStatus::Updated }
        else if b == 63 { GitStatus::Untracked }
        else if b == 33 { GitStatus::Ignored }
        else { GitStatus::Unmodified }
    }

    fn from_byte(b: u8) -> (r: GitStatus)
        ensures
            r == GitStatus::spec_from_byte(b),
    {
        if b == 32 { GitStatus::Unmodified }
        else if b == 77 { GitStatus::Modified }
        else if b == 84 { GitStatus::TypeChanged }
        else if b == 65 { GitStatus::Added }
        else if b == 68 { GitStatus::Deleted }
        else if b == 82 { GitStatus::Renamed }
        else if b == 67 { GitStatus::Copied }
        else if b == 85 { GitStatus::Updated }
        else if b == 63 { GitStatus::Untracked }
        else if b == 33 { GitStatus::Ignored }
        else { GitStatus::Unmodified }
    }

    /// Reads the index and working-tree status of a file from the output of
    /// `git status --ignored --porcelain <file>`. Empty output means an
    /// unmodified file when it exists, and `None` when it does not.
    pub fn index_and_working_tree(status: &str, file_exists: bool) -> (r: Option<(GitStatus, GitStatus)>)
        ensures
            trim(status@).len() == 0 && !file_exists ==> r is None,
            trim(status@).len() == 0 && file_exists ==> r == Some((GitStatus::Unmodified, GitStatus::Unmodified)),
            trim(status@).len() > 0 ==> r == Some((
                GitStatus::spec_from_byte(status.spec_bytes()[0]),
                if status.spec_bytes().len() > 1 {
                    GitStatus::spec_from_byte(status.spec_bytes()[1])
                } else {
                    GitStatus::Unmodified
                },
            )),
    {
        if trim_str(status).is_empty() {
            if !file_exists {
                return None;
            }
            return Some((GitStatus::Unmodified, GitStatus::Unmodified));
        }
        let b = status.as_bytes();
        proof {
            assert(status@.len() > 0) by {
                if status@.len() == 0 {
                    assert(status@ =~= Seq::<char>::empty());
                }
            }
            assert(status.spec_bytes().len() > 0) by {
                vstd::utf8::encode_utf8_first_scalar(status@);
            }
        }
        let index = GitStatus::from_byte(b[0]);
        let working = if b.len() > 1 { GitStatus::from_byte(b[1]) } else { GitStatus::Unmodified };
        Some((index, working))
    }

    /// Index status of a file, read as `index_and_working_tree` does.
    pub fn index(status: &str, file_exists: bool) -> (r: Option<GitStatus>)
        ensures
            r == (match GitStatus::spec_parse(status@, status.spec_bytes(), file_exists) {
                Some(p) => Some(p.0),
                None => None,
            }),
    {
        match GitStatus::index_and_working_tree(status, file_exists) {
            Some((i, _)) => Some(i),
            None => None,
        }
    }

    /// Working-tree status of a file, read as `index_and_working_tree` does.
    pub fn working_tree(status: &str, file_exists: bool) -> (r: Option<GitStatus>)
        ensures
            r == (match GitStatus::spec_parse(status@, status.spec_bytes(), file_exists) {
                Some(p) => Some(p.1),
                None => None,
            }),
    {
        match GitStatus::index_and_working_tree(status, file_exists) {
            Some((_, w)) => Some(w),
            None => None,
        }
    }

    /// What `index_and_working_tree` reads from `status`.
    pub open spec fn spec_parse(chars: Seq<char>, bytes: Seq<u8>, file_exists: bool) -> Option<(GitStatus, GitStatus)> {
        if trim(chars).len() == 0 {
            if file_exists {
                Some((GitStatus::Unmodified, GitStatus::Unmodified))
            } else {
                None
            }
        } else {
            Some((
                GitStatus::spec_from_byte(bytes[0]),
                if bytes.len() > 1 { GitStatus::spec_from_byte(bytes[1]) } else { GitStatus::Unmodified },
            ))
        }
    }

    /// The pairs of statuses that `has_pending_changes` decides.
    pub open spec fn is_classified(status: (GitStatus, GitStatus)) -> bool {
        !(status.0 == GitStatus::Copied || status.0 == GitStatus::Untracked) || status.1 != GitStatus::Copied
    }

    /// Whether a file with this (index, working tree) status has local
    /// changes, so that local metadata is newer than the last commit.
    pub open spec fn spec_has_pending_changes(status: (GitStatus, GitStatus)) -> bool {
        let (i, w) = status;
        if i == GitStatus::Modified || w == GitStatus::Modified || i == GitStatus::Updated || w == GitStatus::Updated
            || i == GitStatus::Added || w == GitStatus::Added || i == GitStatus::TypeChanged || w
            == GitStatus::TypeChanged || w == GitStatus::Untracked || i == GitStatus::Ignored || w
            == GitStatus::Ignored || w == GitStatus::Renamed || i == GitStatus::Renamed || (i == GitStatus::Deleted
            && w == GitStatus::Copied) {
            true
        } else {
            false
        }
    }

    /// Returns `true` if a file with this status has local changes.
    pub fn has_pending_changes(status: (GitStatus, GitStatus)) -> (r: bool)
        requires
            GitStatus::is_classified(status),
        ensures
            r == GitStatus::spec_has_pending_changes(status),
    {
        match status {
            (_, GitStatus::Modified)
            | (GitStatus::Modified, _)
            | (_, GitStatus::Updated)
            | (GitStatus::Updated, _)
            | (_, GitStatus::Added)
            | (GitStatus::Added, _)
            | (GitStatus::TypeChanged, _)
            | (_, GitStatus::TypeChanged) => true,
            (_, GitStatus::Untracked) => true,
            (GitStatus::Ignored, _) | (_, GitStatus::Ignored) => true,
            (GitStatus::Deleted, GitStatus::Renamed)
            | (GitStatus::Deleted, GitStatus::Copied)
            | (_, GitStatus::Renamed)
            | (GitStatus::Renamed, _) => true,
            (GitStatus::Deleted, _) | (_, GitStatus::Deleted) => false,
            _ => false,
        }
    }
}

/// Failure of an external program.
#[allow(inconsistent_fields)]
#[derive(Debug, Clone, PartialEq, Eq)]
pub enum CommandError {
    /// The program is not installed.
    MissingTool { program: String, install_from: Option<String> },
    /// The program exited with a non-zero code.
    ExitError { program: Option<String>, code: i32 },
    /// The program was stopped by a signal.
    Interrupted { program: Option<String>, interrupt: i32 },
    /// The program was handed a bad argument.
    BadArgument {
        program: Option<String>,
        argument: String,
        expect_found: Option<(String, String)>,
        reason: Option<String>,
    },
    /// Any other failure, by its message.
    Other(String),
}

impl CommandError {
    /// A program exit with a non-zero `code`.
    pub fn new(code: i32) -> (r: CommandError)
        requires
            code != 0,
        ensures
            r == (CommandError::ExitError { program: None, code }),
    {
        CommandError::ExitError { program: None, code }
    }

    /// A program stopped by signal `interrupt`.
    pub fn interrupt(interrupt: i32) -> (r: CommandError)
        ensures
            r == (CommandError::Interrupted { program: None, interrupt }),
    {
        CommandError::Interrupted { program: None, interrupt }
    }

    /// A program that is not installed, with where to get it.
    pub fn missing_tool(name: &str, source: Option<&str>) -> (r: CommandError)
        ensures
            r matches CommandError::MissingTool { program, install_from } && program@ == name@ && (
            match source {
                Some(s) => install_from matches Some(f) && f@ == s@,
                None => install_from is None,
            }),
    {
        let install_from = match source {
            Some(s) => Some(s.to_owned()),
            None => None,
        };
        CommandError::MissingTool { program: name.to_owned(), install_from }
    }

    /// An argument naming a file that cannot be found.
    pub fn file_not_found(argument: &str, file: &str) -> (r: CommandError)
        ensures
            r matches CommandError::BadArgument { program, argument: a, expect_found, reason }
                && program is None && a@ == argument@ && expect_found is None && (reason matches Some(m)
                && m@ == "file not found or inaccessible (path: '"@ + file@ + "')"@),
    {
        let message = concat(&concat("file not found or inaccessible (path: '", file), "')");
        proof {
            reveal_strlit("file not found or inaccessible (path: '");
            reveal_strlit("')");
        }
        CommandError::BadArgument {
            program: None,
            argument: argument.to_owned(),
            expect_found: None,
            reason: Some(message),
        }
    }

    /// An argument that cannot be accessed, with the cause.
    pub fn inaccessible(argument: &str, source: String) -> (r: CommandError)
        ensures
            r matches CommandError::BadArgument { program, argument: a, expect_found, reason }
                && program is None && a@ == argument@ && expect_found is None && reason == Some(source),
    {
        CommandError::BadArgument {
            program: None,
            argument: argument.to_owned(),
            expect_found: None,
            reason: Some(source),
        }
    }

    /// Any other failure.
    pub fn other(message: String) -> (r: CommandError)
        ensures
            r == CommandError::Other(message),
    {
        CommandError::Other(message)
    }

    /// The same error, attributed to program `name`.
    pub fn program(self, name: &str) -> (r: CommandError)
        ensures
            (match (self, r) {
                (
                    CommandError::MissingTool { install_from: a, .. },
                    CommandError::MissingTool { program, install_from: b },
                ) => program@ == name@ && a == b,
                (CommandError::ExitError { code: a, .. }, CommandError::ExitError { program, code: b }) => (
                program matches Some(p) && p@ == name@) && a == b,
                (
                    CommandError::Interrupted { interrupt: a, .. },
                    CommandError::Interrupted { program, interrupt: b },
                ) => (program matches Some(p) && p@ == name@) && a == b,
                (
                    CommandError::BadArgument { argument: a1, expect_found: e1, reason: r1, .. },
                    CommandError::BadArgument { program, argument: a2, expect_found: e2, reason: r2 },
                ) => (program matches Some(p) && p@ == name@) && a1 == a2 && e1 == e2 && r1 == r2,
                (CommandError::Other(a), CommandError::Other(b)) => a == b,
                _ => false,
            }),
    {
        match self {
            CommandError::MissingTool { install_from, .. } => CommandError::MissingTool {
                program: name.to_owned(),
                install_from,
            },
            CommandError::ExitError { code, .. } => CommandError::ExitError {
                program: Some(name.to_owned()),
                code,
            },
            CommandError::Interrupted { interrupt, .. } => CommandError::Interrupted {
                program: Some(name.to_owned()),
                interrupt,
            },
            CommandError::BadArgument { argument, expect_found, reason, .. } => CommandError::BadArgument {
                program: Some(name.to_owned()),
                argument,
                expect_found,
                reason,
            },
            CommandError::Other(other) => CommandError::Other(other),
        }
    }

    /// Classifies how a program ended: exit code 0 is success, another code
    /// an `ExitError`, no code an interruption by `signal`.
    pub fn from_exit_status(code: Option<i32>, signal: i32) -> (r: Result<(), CommandError>)
        ensures
            code == Some(0i32) ==> r is Ok,
            code is Some && code != Some(0i32) ==> r == Err::<(), CommandError>(
                CommandError::ExitError { program: None, code: code->Some_0 },
            ),
            code is None ==> r == Err::<(), CommandError>(
                CommandError::Interrupted { program: None, interrupt: signal },
            ),
    {
        match code {
            Some(0) => Ok(()),
            Some(c) => Err(CommandError::new(c)),
            None => Err(CommandError::interrupt(signal)),
        }
    }
}

/// Remapping of exit codes that carry a meaning of their own.
pub trait CommandResultExt<T>: Sized {
    /// The outcome this value stands for.
    spec fn outcome(&self) -> Result<T, CommandError>;

    /// An `ExitError` is handed to `mapping` by its code: the error that
    /// `mapping` returns replaces it, `None` keeps it. Every other outcome is
    /// kept as it is.
    fn map_exit_codes<M: Fn(i32) -> Option<CommandError>>(self, mapping: M) -> (r: Result<T, CommandError>)
        requires
            forall|c: i32| mapping.requires((c,)),
        ensures
            !(self.outcome() matches Err(CommandError::ExitError { .. })) ==> r == self.outcome(),
            self.outcome() matches Err(CommandError::ExitError { code, .. }) ==> exists|m: Option<CommandError>|
                mapping.ensures((code,), m) && r == (match m {
                    Some(e) => Err(e),
                    None => self.outcome(),
                }),
    ;
}

impl<T> CommandResultExt<T> for Result<T, CommandError> {
    open spec fn outcome(&self) -> Result<T, CommandError> {
        *self
    }

    fn map_exit_codes<M: Fn(i32) -> Option<CommandError>>(self, mapping: M) -> (r: Result<T, CommandError>) {
        match self {
            Ok(it) => Ok(it),
            Err(CommandError::ExitError { program, code }) => match mapping(code) {
                Some(mapped) => Err(mapped),
                None => Err(CommandError::ExitError { program, code }),
            },
            Err(other) => Err(other),
        }
    }
}

/// Failure of a download.
#[derive(Debug, Clone, PartialEq, Eq)]
pub enum DownloadError {
    CommandError(CommandError),
    BadUrl { url: String },
    IO(String),
}

/// Size of a file in bytes.
#[derive(Debug, Clone, Copy, PartialEq, Eq, PartialOrd, Ord, Hash, Structural)]
pub struct FileSize(pub u64);

impl FileSize {
    pub fn from_bytes(value: u64) -> (r: FileSize)
        ensures
            r.0 == value,
    {
        FileSize(value)
    }

    pub fn bytes(self) -> (r: u64)
        ensures
            r == self.0,
    {
        self.0
    }
}

} // verus!
