//! Upload and download of artifacts without access to the store.
use vstd::prelude::*;

use crate::nodes::ArtifactType;
use crate::text::{joined, same_text};

verus! {

/// HTTP status of success.
pub const OK: u16 = 200;

/// HTTP status of a request that makes no sense.
pub const BAD_REQUEST: u16 = 400;

/// HTTP status of something that is not there.
pub const NOT_FOUND: u16 = 404;

/// HTTP status of a failure of the server.
pub const INTERNAL_SERVER_ERROR: u16 = 500;

/// The answer to an upload.
pub struct UploadResponse {
    pub artifact_id: String,
}

/// The answer to a request that failed.
pub struct ErrorResponse {
    pub error: String,
}

/// A request that failed: status and answer.
pub struct Refusal {
    pub status: u16,
    pub body: ErrorResponse,
}

/// The artifact type that a text names.
pub open spec fn named_type(text: Seq<char>) -> Option<ArtifactType> {
    if text == "program"@ {
        Some(ArtifactType::Program)
    } else if text == "stdin"@ {
        Some(ArtifactType::Stdin)
    } else if text == "proof"@ {
        Some(ArtifactType::Proof)
    } else {
        None
    }
}

fn type_of(text: &str) -> (t: Option<ArtifactType>)
    ensures
        t == named_type(text@),
{
    if same_text(text, "program") {
        Some(ArtifactType::Program)
    } else if same_text(text, "stdin") {
        Some(ArtifactType::Stdin)
    } else if same_text(text, "proof") {
        Some(ArtifactType::Proof)
    } else {
        None
    }
}

/// How the store takes an upload.
#[derive(Copy, Clone, PartialEq, Eq, Debug, Structural)]
pub enum UploadCall {
    /// With its type, as it is.
    WithType,
    /// As raw bytes.
    Raw,
}

/// An upload that was accepted: what it is, and how the store takes it.
#[derive(Copy, Clone, PartialEq, Eq, Debug, Structural)]
pub struct AcceptedUpload {
    pub artifact_type: ArtifactType,
    pub call: UploadCall,
}

/// First step of an upload: the type's text must name a type. Programs go to the
/// store with their type, anything else as raw bytes.
pub fn begin_upload(text: &str) -> (r: Result<AcceptedUpload, Refusal>)
    ensures
        match r {
            Ok(a) => {
                &&& named_type(text@) == Some(a.artifact_type)
                &&& a.call == if a.artifact_type == ArtifactType::Program {
                    UploadCall::WithType
                } else {
                    UploadCall::Raw
                }
            },
            Err(e) => {
                &&& named_type(text@) is None
                &&& e.status == BAD_REQUEST && e.status == 400
                &&& e.body.error@
                    == "Invalid artifact type. Must be 'program', 'stdin', or 'proof'"@
            },
        },
{
    match type_of(text) {
        Some(artifact_type) => {
            let call = if artifact_type == ArtifactType::Program {
                UploadCall::WithType
            } else {
                UploadCall::Raw
            };
            Ok(AcceptedUpload { artifact_type, call })
        },
        None => Err(
            Refusal {
                status: BAD_REQUEST,
                body: ErrorResponse {
                    error: "Invalid artifact type. Must be 'program', 'stdin', or 'proof'".to_owned(),
                },
            },
        ),
    }
}

/// Second step of an upload: the store must have given an id.
pub fn created_upload(created: Result<String, String>) -> (r: Result<String, Refusal>)
    ensures
        match created {
            Ok(id) => r == Ok::<String, Refusal>(id),
            Err(e) => r matches Err(x) && x.status == INTERNAL_SERVER_ERROR && x.status == 500 && x.body.error@
                == "Failed to create artifact ID: "@ + e@,
        },
{
    match created {
        Ok(id) => Ok(id),
        Err(e) => Err(
            Refusal {
                status: INTERNAL_SERVER_ERROR,
                body: ErrorResponse { error: joined("Failed to create artifact ID: ", e.as_str()) },
            },
        ),
    }
}

/// Last step of an upload: the store must have taken the bytes. The answer is
/// the id.
pub fn finish_upload(artifact_id: String, stored: Result<(), String>) -> (r: Result<
    (u16, UploadResponse),
    Refusal,
>)
    ensures
        match stored {
            Ok(_) => r matches Ok(x) && x.0 == OK && x.0 == 200 && x.1.artifact_id == artifact_id,
            Err(e) => r matches Err(x) && x.status == INTERNAL_SERVER_ERROR && x.status == 500 && x.body.error@
                == "Failed to upload artifact: "@ + e@,
        },
{
    match stored {
        Ok(_) => Ok((OK, UploadResponse { artifact_id })),
        Err(e) => Err(
            Refusal {
                status: INTERNAL_SERVER_ERROR,
                body: ErrorResponse { error: joined("Failed to upload artifact: ", e.as_str()) },
            },
        ),
    }
}

/// First step of a download: the path segment must name a type.
pub fn begin_download(segment: &str) -> (r: Result<ArtifactType, Refusal>)
    ensures
        match r {
            Ok(t) => named_type(segment@) == Some(t),
            Err(e) => {
                &&& named_type(segment@) is None
                &&& e.status == BAD_REQUEST && e.status == 400
                &&& e.body.error@ == "Invalid artifact type"@
            },
        },
{
    match type_of(segment) {
        Some(t) => Ok(t),
        None => Err(
            Refusal {
                status: BAD_REQUEST,
                body: ErrorResponse { error: "Invalid artifact type".to_owned() },
            },
        ),
    }
}

/// Last step of a download: the bytes, or that they were not found.
pub fn finish_download(loaded: Result<Vec<u8>, String>) -> (r: Result<(u16, Vec<u8>), Refusal>)
    ensures
        match loaded {
            Ok(bytes) => r == Ok::<(u16, Vec<u8>), Refusal>((OK, bytes)) && OK == 200,
            Err(e) => r matches Err(x) && x.status == NOT_FOUND && x.status == 404 && x.body.error@
                == "Artifact not found: "@ + e@,
        },
{
    match loaded {
        Ok(bytes) => Ok((OK, bytes)),
        Err(e) => Err(
            Refusal {
                status: NOT_FOUND,
                body: ErrorResponse { error: joined("Artifact not found: ", e.as_str()) },
            },
        ),
    }
}

/// The three types that requests can name, each by its own word and by no other
/// text.
pub proof fn law_named_types(text: Seq<char>)
    ensures
        named_type("program"@) == Some(ArtifactType::Program),
        named_type("stdin"@) == Some(ArtifactType::Stdin),
        named_type("proof"@) == Some(ArtifactType::Proof),
        text != "program"@ && text != "stdin"@ && text != "proof"@ ==> named_type(text) is None,
{
    reveal_strlit("program");
    reveal_strlit("stdin");
    reveal_strlit("proof");
    assert("program"@.len() == 7);
    assert("stdin"@.len() == 5);
    assert("proof"@.len() == 5);
    assert("stdin"@[0] == 's');
    assert("proof"@[0] == 'p');
}

} // verus!
