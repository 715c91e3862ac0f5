//! The typed errors surfaced to callers.  Structural parse errors are not a
//! category: the parser is total.  Each error carries enough to render a
//! human-readable message embedding the offending path or cause.

use vstd::prelude::*;

verus! {

/// An error surfaced by a load, aggregation or description operation.
#[derive(Debug, PartialEq, Eq)]
pub enum LangError {
    /// A single-file load target does not exist or is not a regular file.
    NotAFile(String),
    /// An aggregation target is not a directory.
    NotADirectory(String),
    /// A read or write failed; the field holds the underlying cause text.
    IoError(String),
}

impl LangError {
    /// The human-readable message for this error.
    pub fn message(&self) -> (m: String)
        ensures
            (match self {
                LangError::NotAFile(p) => m@ == "Path '"@ + p@ + "' is not a file"@,
                LangError::NotADirectory(p) => m@ == "Path '"@ + p@ + "' is not a directory"@,
                LangError::IoError(cause) => m@ == cause@,
            }),
    {
        match self {
            LangError::NotAFile(p) => {
                let mut m = String::new();
                m.append("Path '");
                m.append(p.as_str());
                m.append("' is not a file");
                proof {
                    assert(m@ =~= "Path '"@ + p@ + "' is not a file"@);
                }
                m
            },
            LangError::NotADirectory(p) => {
                let mut m = String::new();
                m.append("Path '");
                m.append(p.as_str());
                m.append("' is not a directory");
                proof {
                    assert(m@ =~= "Path '"@ + p@ + "' is not a directory"@);
                }
                m
            },
            LangError::IoError(cause) => cause.clone(),
        }
    }
}

/// Accepts `path` as a single-file load target exactly when it names a
/// regular file; `is_file` is what the file system reported of `path`.
pub fn validate_file(path: &str, is_file: bool) -> (r: Result<(), LangError>)
    ensures
        r is Ok <==> is_file,
        (match r {
            Ok(_) => true,
            Err(e) => (e matches LangError::NotAFile(p) && p@ == path@),
        }),
{
    if is_file {
        Ok(())
    } else {
        Err(LangError::NotAFile(path.to_owned()))
    }
}

/// Accepts `path` as an aggregation target exactly when it names a
/// directory; `is_dir` is what the file system reported of `path`.
pub fn validate_directory(path: &str, is_dir: bool) -> (r: Result<(), LangError>)
    ensures
        r is Ok <==> is_dir,
        (match r {
            Ok(_) => true,
            Err(e) => (e matches LangError::NotADirectory(p) && p@ == path@),
        }),
{
    if is_dir {
        Ok(())
    } else {
        Err(LangError::NotADirectory(path.to_owned()))
    }
}

} // verus!
