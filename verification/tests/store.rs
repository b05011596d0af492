//! Artifacts: chunks, nodes, memory and compression.
use network_gateway::chunks::{
    assemble, chunk_count, plan_download, plan_upload, resolve_chunk_size, upload_attempt_timeout,
    DownloadPlan, Part, UploadPlan, DEFAULT_CHUNK_SIZE, MIN_CHUNK_SIZE, TRANSFER_TIMEOUT_SECS,
};
use network_gateway::codec::{
    compress_artifact, decompress_artifact, transfer_failure, CodecError, TransferFailure,
};
use network_gateway::memory::{
    admission_step, bypasses_admission, parse_memory_info, permits_for_node, shard_max_bytes,
    usable_limit, AdmissionStep, InFlight, MemoryInfo, Waiting,
};
use network_gateway::nodes::{
    chunks_key, get_connection_idx, group_by_node, hash_string, permit_node, refs_key,
    unreferenced, ArtifactType,
};
use network_gateway::time::Duration;

#[test]
fn resolve_chunk_size_defaults_when_unset() {
    assert_eq!(resolve_chunk_size(None), DEFAULT_CHUNK_SIZE);
}

#[test]
fn resolve_chunk_size_rejects_zero_and_garbage() {
    assert_eq!(resolve_chunk_size(Some("0".into())), DEFAULT_CHUNK_SIZE);
    assert_eq!(resolve_chunk_size(Some("not-a-number".into())), DEFAULT_CHUNK_SIZE);
    assert_eq!(resolve_chunk_size(Some(String::new())), DEFAULT_CHUNK_SIZE);
}

#[test]
fn resolve_chunk_size_rejects_below_floor() {
    assert_eq!(resolve_chunk_size(Some("4".into())), DEFAULT_CHUNK_SIZE);
    assert_eq!(
        resolve_chunk_size(Some((MIN_CHUNK_SIZE - 1).to_string())),
        DEFAULT_CHUNK_SIZE
    );
    // Exactly at the floor is accepted.
    assert_eq!(resolve_chunk_size(Some(MIN_CHUNK_SIZE.to_string())), MIN_CHUNK_SIZE);
}

#[test]
fn resolve_chunk_size_honors_valid_override() {
    assert_eq!(resolve_chunk_size(Some("8388608".into())), 8 * 1024 * 1024);
}

#[test]
fn smaller_chunks_yield_more_parallel_streams() {
    let len = 42_116_826usize;
    assert_eq!(chunk_count(len, 32 * 1024 * 1024), 2);
    assert_eq!(chunk_count(len, DEFAULT_CHUNK_SIZE), 11);
}

#[test]
fn upload_attempt_timeout_scales_with_size() {
    // Small payloads keep the flat floor.
    assert_eq!(upload_attempt_timeout(1024), Duration::from_secs(TRANSFER_TIMEOUT_SECS));
    // A 40 MB artifact at the 0.5 MB/s floor needs > 60s, so it scales up.
    let big = upload_attempt_timeout(42_116_826);
    assert!(big > Duration::from_secs(TRANSFER_TIMEOUT_SECS));
    assert_eq!(big, Duration::from_secs(42_116_826 / (512 * 1024)));
}

#[test]
fn chunk_counts_round_up() {
    assert_eq!(chunk_count(0, 3), 0);
    assert_eq!(chunk_count(1, 3), 1);
    assert_eq!(chunk_count(6, 3), 2);
    assert_eq!(chunk_count(7, 3), 3);
    assert_eq!(chunk_count(usize::MAX, 1), usize::MAX);
}

#[test]
fn small_artifacts_are_written_whole() {
    match plan_upload(ArtifactType::Stdin, "k", &[1, 2, 3], 3) {
        UploadPlan::Whole { key, expire_secs } => {
            assert_eq!(key, "k");
            assert_eq!(expire_secs, Some(14_400));
        }
        UploadPlan::Chunks { .. } => panic!("it fits one chunk"),
    }
    match plan_upload(ArtifactType::Program, "k", &[], 3) {
        UploadPlan::Whole { expire_secs, .. } => assert_eq!(expire_secs, None),
        UploadPlan::Chunks { .. } => panic!("it fits one chunk"),
    }
}

#[test]
fn chunks_arrive_in_any_order() {
    let data: Vec<u8> = (0..10).collect();
    match plan_upload(ArtifactType::Proof, "k", &data, 4) {
        UploadPlan::Chunks { hash_key, chunks, expire_secs } => {
            assert_eq!(hash_key, "k:chunks");
            assert_eq!(expire_secs, Some(14_400));
            assert_eq!(chunks, vec![vec![0, 1, 2, 3], vec![4, 5, 6, 7], vec![8, 9]]);
            let mut parts: Vec<Part> = Vec::new();
            for (idx, bytes) in chunks.into_iter().enumerate() {
                parts.insert(0, Part { idx, bytes });
            }
            assert_eq!(assemble(3, parts), data);
        }
        UploadPlan::Whole { .. } => panic!("it takes three chunks"),
    }
    assert_eq!(assemble(2, vec![]), Vec::<u8>::new());
}

#[test]
fn downloads_follow_the_chunk_count() {
    match plan_download("k", 0) {
        DownloadPlan::Whole { key } => assert_eq!(key, "k"),
        DownloadPlan::Chunks { .. } => panic!("there are no chunks"),
    }
    match plan_download("k", 3) {
        DownloadPlan::Chunks { hash_key, total } => assert_eq!((hash_key.as_str(), total), ("k:chunks", 3)),
        DownloadPlan::Whole { .. } => panic!("there are chunks"),
    }
}

#[test]
fn hash_is_exact() {
    assert_eq!(hash_string(""), 2166136261);
    assert_eq!(hash_string("a"), 36342608335481132);
    assert_eq!(hash_string("ab"), 3757506531665708490);
    // The low half is the published 32-bit FNV-1a value.
    assert_eq!(hash_string("a") as u32, 0xe40c292c);
    // UTF-8 bytes, not characters.
    assert_eq!(hash_string("é"), 3713031349966072001);
    assert_eq!(get_connection_idx("a", 10), 2);
    assert_eq!(permit_node("a", 10), Some(2));
    assert_eq!(permit_node("a", 0), None);
}

#[test]
fn deletions_are_grouped_by_node() {
    let ids: Vec<String> = ["a", "b", "k"].iter().map(|s| s.to_string()).collect();
    // The hashes of "a", "b" and "k" end in 2, 9 and 2.
    let groups = group_by_node(&ids, 10);
    assert_eq!(groups.len(), 2);
    assert_eq!(groups[0].node, 2);
    assert_eq!(groups[0].keys, vec!["a", "a:chunks", "k", "k:chunks"]);
    assert_eq!(groups[1].node, 9);
    assert_eq!(groups[1].keys, vec!["b", "b:chunks"]);
    assert!(group_by_node(&vec![], 0).is_empty());
    assert_eq!(chunks_key("x"), "x:chunks");
    assert_eq!(refs_key("x"), "refs:x");
    assert!(unreferenced(0) && unreferenced(-1) && !unreferenced(1));
}

#[test]
fn memory_report_is_read() {
    let info = "# Memory\r\nused_memory:123\r\nused_memory_human:1K\r\nmaxmemory: 456 \r\n";
    assert_eq!(parse_memory_info(info), MemoryInfo { used: Some(123), max: Some(456) });
    assert_eq!(
        parse_memory_info("used_memory:x\nused_memory:5\n"),
        MemoryInfo { used: None, max: None }
    );
    assert_eq!(
        parse_memory_info("maxmemory:18446744073709551616"),
        MemoryInfo { used: None, max: None }
    );
    assert_eq!(parse_memory_info(""), MemoryInfo { used: None, max: None });
}

#[test]
fn permits_have_a_floor() {
    assert_eq!(shard_max_bytes(None), 20 * 1024 * 1024);
    assert_eq!(shard_max_bytes(Some("0".to_string())), 20 * 1024 * 1024);
    assert_eq!(shard_max_bytes(Some("7".to_string())), 7);
    assert_eq!(permits_for_node(None, 7), 4);
    assert_eq!(permits_for_node(Some(34), 7), 4);
    assert_eq!(permits_for_node(Some(35), 7), 5);
    assert_eq!(usable_limit(None), None);
    assert_eq!(usable_limit(Some(MemoryInfo { used: None, max: Some(0) })), None);
    assert_eq!(usable_limit(Some(MemoryInfo { used: None, max: Some(9) })), Some(9));
}

#[test]
fn uploads_wait_for_memory() {
    assert!(bypasses_admission(2 * 1024 * 1024));
    assert!(!bypasses_admission(2 * 1024 * 1024 + 1));
    let mut node = InFlight { bytes: 10 };
    let mut w = Waiting::new();
    let full = Some(MemoryInfo { used: Some(60), max: Some(100) });
    let at = Duration::from_secs;
    // 60 + 10 + 11 > 80
    let step = admission_step(full, 80, &mut node, 11, at(1), &mut w);
    assert_eq!(step, AdmissionStep::Wait { log: true });
    let step = admission_step(full, 80, &mut node, 11, at(10), &mut w);
    assert_eq!(step, AdmissionStep::Wait { log: false });
    let step = admission_step(full, 80, &mut node, 11, at(11), &mut w);
    assert_eq!(step, AdmissionStep::Wait { log: true });
    let step = admission_step(full, 80, &mut node, 11, at(120), &mut w);
    assert_eq!(step, AdmissionStep::Wait { log: true });
    let over = Duration::from_millis(120_001);
    let step = admission_step(full, 80, &mut node, 11, over, &mut w);
    assert_eq!(step, AdmissionStep::GiveUp);
    assert_eq!(node.bytes, 10);
    // 60 + 10 + 10 fits exactly.
    let step = admission_step(full, 80, &mut node, 10, at(121), &mut w);
    assert_eq!(step, AdmissionStep::Reserved { resumed: true });
    assert_eq!(node.bytes, 20);
    node.release(10);
    assert_eq!(node.bytes, 10);
    let mut fresh = Waiting::new();
    let step = admission_step(full, 80, &mut node, 1, at(0), &mut fresh);
    assert_eq!(step, AdmissionStep::Reserved { resumed: false });
    let none = Some(MemoryInfo { used: Some(1), max: Some(0) });
    let step = admission_step(none, 80, &mut node, 99, at(0), &mut fresh);
    assert_eq!(step, AdmissionStep::Ungated);
    let step = admission_step(None, 80, &mut node, 99, at(0), &mut fresh);
    assert_eq!(step, AdmissionStep::FailOpen);
    assert_eq!(node.bytes, 11);
}

#[test]
fn stored_artifacts_read_back() {
    let data = vec![7u8; 10_000];
    let stored = compress_artifact(&data).unwrap();
    assert!(stored.len() < data.len());
    assert_eq!(decompress_artifact(&stored).unwrap(), data);
    let empty = compress_artifact(&[]).unwrap();
    assert_eq!(decompress_artifact(&empty).unwrap(), Vec::<u8>::new());
    assert!(matches!(decompress_artifact(&[1, 2, 3]), Err(CodecError::Decompress(_))));
}

#[test]
fn what_an_upload_stores_a_download_gives_back() {
    let data: Vec<u8> = (0..50_000u32).map(|i| (i.wrapping_mul(2_654_435_761) >> 13) as u8).collect();
    let stored = compress_artifact(&data).unwrap();
    match plan_upload(ArtifactType::Stdin, "k", &stored, 1000) {
        UploadPlan::Chunks { chunks, .. } => {
            let total = chunks.len();
            assert_eq!(total, chunk_count(stored.len(), 1000));
            let parts: Vec<Part> = chunks
                .into_iter()
                .enumerate()
                .rev()
                .map(|(idx, bytes)| Part { idx, bytes })
                .collect();
            assert_eq!(decompress_artifact(&assemble(total, parts)).unwrap(), data);
        }
        UploadPlan::Whole { .. } => panic!("it takes many chunks"),
    }
}

#[test]
fn timeouts_are_told_by_their_words() {
    assert_eq!(transfer_failure("Upload timed out after 60s"), TransferFailure::TimedOut);
    assert_eq!(transfer_failure("timed out"), TransferFailure::TimedOut);
    assert_eq!(transfer_failure("timed-out"), TransferFailure::Failed);
    assert_eq!(transfer_failure(""), TransferFailure::Failed);
}
