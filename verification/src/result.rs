//! What the engine reports: fingerprints, failures and diagnostics.

use crate::digest::Sha256Sum;
use crate::location::PathLocation;
use vstd::prelude::*;

verus! {

/// The kinds of failure that are reported as data and never stop the run.
#[derive(Clone, Copy, Debug, PartialEq, Eq, Structural)]
pub enum FailureKind {
    /// A configured root is a symlink, cannot be examined, or is neither a
    /// file nor a directory.
    RootResolution,
    /// A directory cannot be listed, or one of its entries cannot be read.
    Enumeration,
    /// A directory entry is a symlink.
    UnsupportedEntry,
    /// A file cannot be opened, or reading it failed part-way.
    HashIo,
}

/// A failure as contracts see it.
pub ghost struct FailureModel {
    pub kind: FailureKind,
    pub message: Seq<char>,
}

/// A failure: its kind and the text that describes it.
#[derive(Debug)]
pub struct Failure {
    pub kind: FailureKind,
    pub message: String,
}

impl View for Failure {
    type V = FailureModel;

    open spec fn view(&self) -> FailureModel {
        FailureModel { kind: self.kind, message: self.message@ }
    }
}

impl Failure {
    /// A failure of the given kind with the given text.
    pub fn new(kind: FailureKind, message: String) -> (failure: Failure)
        ensures
            failure@ == (FailureModel { kind, message: message@ }),
    {
        Failure { kind, message }
    }
}

/// The text reported for a directory entry that is a symlink.
pub open spec fn symlink_entry_message() -> Seq<char> {
    "Symlinks are not supported. Ignoring."@
}

/// A fingerprint result as contracts see it: where, and either the 32 bytes
/// of the digest or the failure.
pub ghost struct ResultModel {
    pub location: PathLocation,
    pub outcome: Result<Seq<u8>, FailureModel>,
}

/// The outcome of one unit of work: the digest of a file, or the failure that
/// stood in the way.
#[derive(Debug)]
pub struct WorkResult {
    pub path: PathLocation,
    pub result: Result<Sha256Sum, Failure>,
}

impl View for WorkResult {
    type V = ResultModel;

    open spec fn view(&self) -> ResultModel {
        ResultModel {
            location: self.path,
            outcome: match self.result {
                Ok(hash) => Ok(hash@),
                Err(failure) => Err(failure@),
            },
        }
    }
}

impl WorkResult {
    /// The result that reports `err` against `path`.
    pub fn from_err(path: PathLocation, err: Failure) -> (result: WorkResult)
        ensures
            result@ == (ResultModel { location: path, outcome: Err(err@) }),
    {
        WorkResult { path, result: Err(err) }
    }

    /// The result that reports `hash` as the digest of the file at `path`.
    pub fn from_hash(path: PathLocation, hash: Sha256Sum) -> (result: WorkResult)
        ensures
            result@ == (ResultModel { location: path, outcome: Ok(hash@) }),
    {
        WorkResult { path, result: Ok(hash) }
    }
}

/// What a list of results stands for.
pub open spec fn results_view(results: Seq<WorkResult>) -> Seq<ResultModel> {
    Seq::new(results.len(), |i: int| results[i]@)
}

/// A diagnostic as contracts see it.
pub ghost struct DiagnosticModel {
    pub location: PathLocation,
    pub failure: FailureModel,
}

/// A non-fatal diagnostic record: which path on which side, and what went
/// wrong there. Diagnostics never enter a bucket.
#[derive(Debug)]
pub struct Diagnostic {
    pub path: PathLocation,
    pub failure: Failure,
}

impl View for Diagnostic {
    type V = DiagnosticModel;

    open spec fn view(&self) -> DiagnosticModel {
        DiagnosticModel { location: self.path, failure: self.failure@ }
    }
}

/// What a list of diagnostics stands for.
pub open spec fn diagnostics_view(diagnostics: Seq<Diagnostic>) -> Seq<DiagnosticModel> {
    Seq::new(diagnostics.len(), |i: int| diagnostics[i]@)
}

} // verus!
