//! Answers to artifact requests.
use network_gateway::artifact_api::{
    begin_download, begin_upload, created_upload, finish_download, finish_upload, UploadCall,
};
use network_gateway::artifact_http::{
    finish_get, finish_put, known_type, ArtifactHttpState, ArtifactOp, Transferred,
};
use network_gateway::nodes::ArtifactType;

#[test]
fn uploads_name_their_type() {
    let a = begin_upload("program").unwrap_or_else(|_| panic!("known"));
    assert_eq!((a.artifact_type, a.call), (ArtifactType::Program, UploadCall::WithType));
    let a = begin_upload("stdin").unwrap_or_else(|_| panic!("known"));
    assert_eq!((a.artifact_type, a.call), (ArtifactType::Stdin, UploadCall::Raw));
    let a = begin_upload("proof").unwrap_or_else(|_| panic!("known"));
    assert_eq!((a.artifact_type, a.call), (ArtifactType::Proof, UploadCall::Raw));
    match begin_upload("Program") {
        Err(e) => {
            assert_eq!(e.status, 400);
            assert_eq!(
                e.body.error,
                "Invalid artifact type. Must be 'program', 'stdin', or 'proof'"
            );
        }
        Ok(_) => panic!("unknown"),
    }
}

#[test]
fn uploads_fail_with_their_cause() {
    assert_eq!(created_upload(Ok("id".to_string())).unwrap_or_else(|_| panic!("ok")), "id");
    match created_upload(Err("no".to_string())) {
        Err(e) => {
            assert_eq!((e.status, e.body.error.as_str()), (500, "Failed to create artifact ID: no"))
        }
        Ok(_) => panic!("no id"),
    }
    match finish_upload("id".to_string(), Ok(())) {
        Ok((status, body)) => assert_eq!((status, body.artifact_id.as_str()), (200, "id")),
        Err(_) => panic!("stored"),
    }
    match finish_upload("id".to_string(), Err("full".to_string())) {
        Err(e) => {
            assert_eq!((e.status, e.body.error.as_str()), (500, "Failed to upload artifact: full"))
        }
        Ok(_) => panic!("not stored"),
    }
}

#[test]
fn downloads_answer_bytes_or_not_found() {
    assert_eq!(begin_download("proof").unwrap_or_else(|_| panic!("known")), ArtifactType::Proof);
    match begin_download("") {
        Err(e) => assert_eq!((e.status, e.body.error.as_str()), (400, "Invalid artifact type")),
        Ok(_) => panic!("unknown"),
    }
    match finish_download(Ok(vec![1, 2])) {
        Ok((status, bytes)) => assert_eq!((status, bytes), (200, vec![1, 2])),
        Err(_) => panic!("loaded"),
    }
    match finish_download(Err("gone".to_string())) {
        Err(e) => {
            assert_eq!((e.status, e.body.error.as_str()), (404, "Artifact not found: gone"))
        }
        Ok(_) => panic!("not loaded"),
    }
}

#[test]
fn http_get_unknown_type_returns_400() {
    match known_type::<ArtifactType>("bogus", None) {
        Err(e) => {
            assert_eq!(e.status, 400);
            assert_eq!(e.message, "unknown artifact type: bogus");
        }
        Ok(_) => panic!("there is no such type"),
    }
    assert_eq!(
        known_type("stdin", Some(ArtifactType::Stdin)).unwrap_or_else(|_| panic!("known")),
        ArtifactType::Stdin
    );
}

#[test]
fn the_observer_hears_of_completed_transfers() {
    let body = b"hello-artifact-bytes-observer".to_vec();
    let n = body.len() as u64;
    match finish_put(n, Ok(())) {
        Ok((status, t)) => {
            assert_eq!(status, 200);
            assert_eq!(t, Transferred { op: ArtifactOp::Put, bytes: n });
        }
        Err(_) => panic!("stored"),
    }
    match finish_get(Ok(body.clone())) {
        Ok((got, t)) => {
            assert_eq!(got, body);
            assert_eq!(t, Transferred { op: ArtifactOp::Get, bytes: n });
        }
        Err(_) => panic!("loaded"),
    }
    match finish_put(n, Err("full".to_string())) {
        Err(e) => assert_eq!((e.status, e.message.as_str()), (500, "internal error: full")),
        Ok(_) => panic!("not stored"),
    }
    match finish_get(Err("gone".to_string())) {
        Err(e) => assert_eq!((e.status, e.message.as_str()), (404, "download failed: gone")),
        Ok(_) => panic!("not loaded"),
    }
}

#[test]
fn the_observer_is_optional() {
    let quiet: ArtifactHttpState<u8, u16> = ArtifactHttpState::new(1);
    assert_eq!((quiet.client, quiet.bytes_observer), (1, None));
    let watched = ArtifactHttpState::with_observer(1u8, 2u16);
    assert_eq!((watched.client, watched.bytes_observer), (1, Some(2)));
}
