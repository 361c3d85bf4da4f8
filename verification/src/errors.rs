use vstd::prelude::*;
use vstd::string::*;

verus! {

/// The error taxonomy of the cache engine.
///
/// `NotFound` and `IoError` report that a byte source could not produce
/// bytes; `MetadataRequired` and `IncorrectMetadata` report a violated
/// metadata contract of a loadable type; `DowncastFailure` reports a cache
/// type mismatch at retrieval; `ReloadError` reports a failed reload
/// routine (including a failed path normalization); `LockPoisoned` is kept
/// for callers that guard a cache with a lock whose holder panicked.
#[derive(Debug, Clone, PartialEq, Eq)]
pub enum CassetError {
    NotFound,
    IoError(String),
    MetadataRequired,
    IncorrectMetadata,
    DowncastFailure,
    ReloadError(String),
    LockPoisoned,
    Other(String),
}

impl CassetError {
    /// A human-readable description of the error.
    pub fn message(&self) -> String {
        match self {
            CassetError::NotFound => "asset not found".to_owned(),
            CassetError::IoError(s) => {
                let mut m = "io error: ".to_owned();
                m.append(s.as_str());
                m
            },
            CassetError::MetadataRequired => {
                "metadata is required for loading but none was given".to_owned()
            },
            CassetError::IncorrectMetadata => {
                "incorrect metadata was given for loading asset".to_owned()
            },
            CassetError::DowncastFailure => "couldn't create asset handle".to_owned(),
            CassetError::ReloadError(s) => {
                let mut m = "error while running reload routine: ".to_owned();
                m.append(s.as_str());
                m
            },
            CassetError::LockPoisoned => "a guarded resource's lock was poisoned".to_owned(),
            CassetError::Other(s) => s.clone(),
        }
    }
}

} // verus!
