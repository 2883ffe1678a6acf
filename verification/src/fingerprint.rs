//! Fingerprinting one file.

use crate::digest::HashEngine;
use crate::digest::sha256;
use crate::location::PathLocation;
use crate::result::Failure;
use crate::result::FailureKind;
use crate::result::FailureModel;
use crate::result::ResultModel;
use crate::result::WorkResult;
use vstd::prelude::*;

verus! {

/// The result owed for a file at `location`, given what reading it brought:
/// all of its content, or the text of the error that ended the reading.
pub open spec fn file_result(location: PathLocation, read: Result<Seq<u8>, Seq<char>>) -> ResultModel {
    ResultModel {
        location,
        outcome: match read {
            Ok(content) => Ok(sha256(content)),
            Err(message) => Err(FailureModel { kind: FailureKind::HashIo, message }),
        },
    }
}

/// What the reading of a file stands for in contracts.
pub open spec fn read_view(read: Result<HashEngine, String>) -> Result<Seq<u8>, Seq<char>> {
    match read {
        Ok(engine) => Ok(engine.content()),
        Err(message) => Err(message@),
    }
}

/// Concludes one file task. `read` is the engine into which the whole file
/// was streamed, or the text of the error with which opening or reading
/// failed. A file read to its end gives its digest; a failure gives the error
/// and no digest, however much had been read before it.
pub fn fingerprint_one_file(path: PathLocation, read: Result<HashEngine, String>) -> (result:
    WorkResult)
    requires
        read matches Ok(engine) ==> engine.wf(),
    ensures
        result@ == file_result(path, read_view(read)),
{
    match read {
        Err(message) => WorkResult::from_err(path, Failure::new(FailureKind::HashIo, message)),
        Ok(engine) => WorkResult::from_hash(path, engine.finalize()),
    }
}

/// The digest is a function of the content alone: files with the same bytes
/// get the same digest, wherever they lie and on whichever side.
pub proof fn lemma_same_content_same_digest(
    first: PathLocation,
    second: PathLocation,
    content: Seq<u8>,
)
    ensures
        file_result(first, Ok(content)).outcome == file_result(second, Ok(content)).outcome,
        file_result(first, Ok(content)).outcome == Ok::<Seq<u8>, FailureModel>(sha256(content)),
{
}

} // verus!
