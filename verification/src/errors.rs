//! The application's error type and its process exit codes.
use vstd::prelude::*;

use crate::text::concat_strs;

verus! {

/// An I/O failure, carried through unchanged.
#[verifier::external_type_specification]
#[verifier::external_body]
pub struct ExIoError(std::io::Error);

/// A YAML (de)serialization failure, carried through unchanged.
#[verifier::external_type_specification]
#[verifier::external_body]
pub struct ExYamlError(serde_yaml::Error);

/// A failure of an interactive prompt, carried through unchanged.
#[verifier::external_type_specification]
#[verifier::external_body]
pub struct ExDialoguerError(dialoguer::Error);

/// Everything that can go wrong in a command.
#[derive(Debug)]
pub enum AppError {
    Message(String),
    Usage(String),
    NotFound { id: String },
    AmbiguousTaskRef { query: String },
    NoTty,
    InvalidTaskFile { path: String, reason: String },
    PathTraversalAttempt(String),
    Io(std::io::Error),
    Yaml(serde_yaml::Error),
    Dialoguer(dialoguer::Error),
}

/// The exit code the process ends with for an error of this kind: 2 for
/// usage errors, 1 for everything else.
pub open spec fn spec_exit_code(e: AppError) -> i32 {
    match e {
        AppError::Usage(_) => 2,
        _ => 1,
    }
}

/// `text` is the message shown for `e`: exact for the library's own
/// errors; for an outside error, its kind as a prefix followed by the
/// outside error's own text.
pub open spec fn describes(e: AppError, text: Seq<char>) -> bool {
    match e {
        AppError::Message(m) => text == m@,
        AppError::Usage(m) => text == m@,
        AppError::NotFound { id } => text == "task not found: "@ + id@,
        AppError::AmbiguousTaskRef { query } => text == "task reference is ambiguous: "@ + query@,
        AppError::NoTty => text == "interactive input requires a TTY"@,
        AppError::InvalidTaskFile { path, reason } => text == "invalid task file "@ + path@ + ": "@ + reason@,
        AppError::PathTraversalAttempt(p) => text == "path traversal attempt: "@ + p@,
        AppError::Io(_) => crate::text::is_prefix("io error: "@, text),
        AppError::Yaml(_) => crate::text::is_prefix("yaml error: "@, text),
        AppError::Dialoguer(_) => crate::text::is_prefix("dialoguer error: "@, text),
    }
}

/// `Display` of an I/O error.
#[verifier::external_body]
fn io_error_text(e: &std::io::Error) -> String {
    format!("{e}")
}

/// `Display` of a YAML error.
#[verifier::external_body]
fn yaml_error_text(e: &serde_yaml::Error) -> String {
    format!("{e}")
}

/// `Display` of a prompt error.
#[verifier::external_body]
fn dialoguer_error_text(e: &dialoguer::Error) -> String {
    format!("{e}")
}

impl AppError {
    /// A general failure with the given message.
    pub fn message(message: String) -> (r: Self)
        ensures
            r == AppError::Message(message),
    {
        AppError::Message(message)
    }

    /// A misuse of the command line.
    pub fn usage(message: String) -> (r: Self)
        ensures
            r == AppError::Usage(message),
    {
        AppError::Usage(message)
    }

    /// No item with this id or reference.
    pub fn not_found(id: String) -> (r: Self)
        ensures
            r == (AppError::NotFound { id }),
    {
        AppError::NotFound { id }
    }

    /// The reference matches more than one item.
    pub fn ambiguous_task_ref(query: String) -> (r: Self)
        ensures
            r == (AppError::AmbiguousTaskRef { query }),
    {
        AppError::AmbiguousTaskRef { query }
    }

    /// A task file that cannot be read as one.
    pub fn invalid_task_file(path: String, reason: String) -> (r: Self)
        ensures
            r == (AppError::InvalidTaskFile { path, reason }),
    {
        AppError::InvalidTaskFile { path, reason }
    }

    /// A path that would leave the storage root.
    pub fn path_traversal_attempt(path: String) -> (r: Self)
        ensures
            r == AppError::PathTraversalAttempt(path),
    {
        AppError::PathTraversalAttempt(path)
    }

    /// The process exit code for this error.
    pub fn exit_code(&self) -> (r: i32)
        ensures
            r == spec_exit_code(*self),
    {
        match self {
            AppError::Usage(_) => 2,
            AppError::Message(_)
            | AppError::NotFound { .. }
            | AppError::AmbiguousTaskRef { .. }
            | AppError::NoTty
            | AppError::InvalidTaskFile { .. }
            | AppError::PathTraversalAttempt(_)
            | AppError::Io(_)
            | AppError::Yaml(_)
            | AppError::Dialoguer(_) => 1,
        }
    }

    /// The message shown to the user for this error.
    pub fn describe(&self) -> (r: String)
        ensures
            describes(*self, r@),
    {
        match self {
            AppError::Message(m) => crate::text::copy_str(m.as_str()),
            AppError::Usage(m) => crate::text::copy_str(m.as_str()),
            AppError::NotFound { id } => crate::text::concat("task not found: ", id.as_str()),
            AppError::AmbiguousTaskRef { query } => crate::text::concat(
                "task reference is ambiguous: ",
                query.as_str(),
            ),
            AppError::NoTty => crate::text::copy_str("interactive input requires a TTY"),
            AppError::InvalidTaskFile { path, reason } => {
                let parts = [
                    "invalid task file ",
                    path.as_str(),
                    ": ",
                    reason.as_str(),
                ];
                let r = concat_strs(&parts);
                proof {
                    let pv = parts@.map_values(|p: &str| p@);
                    assert(pv =~= seq!["invalid task file "@, path@, ": "@, reason@]);
                    reveal_with_fuel(crate::text::concat_all, 5);
                    assert(pv.drop_last().drop_last().drop_last().drop_last() =~= Seq::<Seq<char>>::empty());
                    assert(pv.drop_last().drop_last().drop_last() =~= seq!["invalid task file "@]);
                    assert(pv.drop_last().drop_last() =~= seq!["invalid task file "@, path@]);
                    assert(pv.drop_last() =~= seq!["invalid task file "@, path@, ": "@]);
                    assert(crate::text::concat_all(pv.drop_last().drop_last().drop_last()) =~= "invalid task file "@);
                }
                r
            },
            AppError::PathTraversalAttempt(p) => crate::text::concat(
                "path traversal attempt: ",
                p.as_str(),
            ),
            AppError::Io(e) => {
                let r = crate::text::concat("io error: ", io_error_text(e).as_str());
                proof {
                    assert(r@.take("io error: "@.len() as int) =~= "io error: "@);
                }
                r
            },
            AppError::Yaml(e) => {
                let r = crate::text::concat("yaml error: ", yaml_error_text(e).as_str());
                proof {
                    assert(r@.take("yaml error: "@.len() as int) =~= "yaml error: "@);
                }
                r
            },
            AppError::Dialoguer(e) => {
                let r = crate::text::concat("dialoguer error: ", dialoguer_error_text(e).as_str());
                proof {
                    assert(r@.take("dialoguer error: "@.len() as int) =~= "dialoguer error: "@);
                }
                r
            },
        }
    }
}

} // verus!
