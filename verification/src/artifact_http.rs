//! The artifact proxy: PUT and GET of artifact bodies.
use vstd::prelude::*;

use crate::artifact_api::{BAD_REQUEST, INTERNAL_SERVER_ERROR, NOT_FOUND, OK};
use crate::text::joined;

verus! {

/// Direction of an artifact HTTP transfer.
#[derive(Copy, Clone, Debug, PartialEq, Eq, Structural)]
pub enum ArtifactOp {
    Put,
    Get,
}

/// What the proxy's handlers share: the store's client and, optionally, an
/// observer of transferred bytes. The observer hears of each completed transfer
/// once, with the size of its body.
pub struct ArtifactHttpState<A, O> {
    pub client: A,
    /// `None` disables the hook.
    pub bytes_observer: Option<O>,
}

impl<A, O> ArtifactHttpState<A, O> {
    /// A state without an observer.
    pub fn new(client: A) -> (s: Self)
        ensures
            s.client == client,
            s.bytes_observer is None,
    {
        ArtifactHttpState { client, bytes_observer: None }
    }

    /// A state with an observer.
    pub fn with_observer(client: A, observer: O) -> (s: Self)
        ensures
            s.client == client,
            s.bytes_observer == Some(observer),
    {
        ArtifactHttpState { client, bytes_observer: Some(observer) }
    }
}

/// A transfer that was refused: status and message.
pub struct HttpRefusal {
    pub status: u16,
    pub message: String,
}

/// A completed transfer, for the observer.
#[derive(Copy, Clone, Debug, PartialEq, Eq, Structural)]
pub struct Transferred {
    pub op: ArtifactOp,
    pub bytes: u64,
}

/// The artifact type of a request. `parsed` is what the path segment stands
/// for, if it stands for anything.
pub fn known_type<T>(segment: &str, parsed: Option<T>) -> (r: Result<T, HttpRefusal>)
    ensures
        match parsed {
            Some(t) => r == Ok::<T, HttpRefusal>(t),
            None => r matches Err(e) && e.status == BAD_REQUEST && e.status == 400 && e.message@
                == "unknown artifact type: "@ + segment@,
        },
{
    match parsed {
        Some(t) => Ok(t),
        None => Err(
            HttpRefusal {
                status: BAD_REQUEST,
                message: joined("unknown artifact type: ", segment),
            },
        ),
    }
}

/// The end of a PUT of `size` bytes: the status, and what the observer hears.
pub fn finish_put(size: u64, stored: Result<(), String>) -> (r: Result<
    (u16, Transferred),
    HttpRefusal,
>)
    ensures
        match stored {
            Ok(_) => r == Ok::<(u16, Transferred), HttpRefusal>(
                (OK, Transferred { op: ArtifactOp::Put, bytes: size }),
            ) && OK == 200,
            Err(e) => r matches Err(x) && x.status == INTERNAL_SERVER_ERROR && x.status == 500 && x.message@
                == "internal error: "@ + e@,
        },
{
    match stored {
        Ok(_) => Ok((OK, Transferred { op: ArtifactOp::Put, bytes: size })),
        Err(e) => Err(
            HttpRefusal {
                status: INTERNAL_SERVER_ERROR,
                message: joined("internal error: ", e.as_str()),
            },
        ),
    }
}

/// The end of a GET: the body, and what the observer hears.
pub fn finish_get(loaded: Result<Vec<u8>, String>) -> (r: Result<
    (Vec<u8>, Transferred),
    HttpRefusal,
>)
    ensures
        match loaded {
            Ok(body) => r == Ok::<(Vec<u8>, Transferred), HttpRefusal>(
                (body, Transferred { op: ArtifactOp::Get, bytes: body@.len() as u64 }),
            ),
            Err(e) => r matches Err(x) && x.status == NOT_FOUND && x.status == 404 && x.message@
                == "download failed: "@ + e@,
        },
{
    match loaded {
        Ok(body) => {
            let bytes: u64 = body.len() as u64;
            Ok((body, Transferred { op: ArtifactOp::Get, bytes }))
        },
        Err(e) => Err(
            HttpRefusal {
                status: NOT_FOUND,
                message: joined("download failed: ", e.as_str()),
            },
        ),
    }
}

} // verus!
