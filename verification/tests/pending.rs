//! What the cluster reports, and the reaper's tick.
use network_gateway::admission::{AdmissionController, PendingObservation};
use network_gateway::classifier::Classifier;
use network_gateway::metrics::AdmissionMetrics;
use network_gateway::pending::{
    any_unimplemented, classify_pending, observe, pending_query, pending_query_unimplemented,
    reaper_tick_at, seed_admission_at, seed_admission_from_cluster, FetchOutcome, ProofRequest,
    ProofStatus, TickNote, PENDING_QUERY_LIMIT,
};
use network_gateway::pool::PoolId;
use network_gateway::tables::RankTable;
use network_gateway::time::Duration;

fn req(id: &str) -> ProofRequest {
    ProofRequest {
        id: id.to_string(),
        options_artifact_id: None,
        requester: vec![],
        created_at: 0,
    }
}

fn gate(ttl_millis: u64) -> AdmissionController {
    AdmissionController::new(
        Classifier::new(vec![], vec![]),
        1,
        2,
        None,
        true,
        Duration::from_millis(ttl_millis),
        RankTable::new(),
        false,
        Duration::from_secs(90),
    )
    .with_metrics(AdmissionMetrics::new())
}

#[test]
fn classify_pending_marks_at_or_above_limit_as_partial() {
    // Below the limit: the authoritative full set.
    match classify_pending(vec![req("a")], 2) {
        PendingObservation::Complete(ids) => assert!(ids.contains(&"a".to_string())),
        _ => panic!("an under-limit reply must classify as Complete"),
    }
    // At the limit: possibly truncated, absence not conclusive.
    assert!(matches!(
        classify_pending(vec![req("a"), req("b")], 2),
        PendingObservation::Partial(_)
    ));
    // Above the limit.
    assert!(matches!(
        classify_pending(vec![req("a"), req("b"), req("c")], 2),
        PendingObservation::Partial(_)
    ));
}

#[test]
fn pending_query_limit_matches_api_server_clamp() {
    assert_eq!(PENDING_QUERY_LIMIT, 1000);
}

#[test]
fn pending_query_asks_for_runnable_proofs() {
    let q = pending_query(1_700_000_000);
    assert_eq!(q.proof_status, vec![ProofStatus::Pending]);
    assert!(q.execution_status.is_empty());
    assert_eq!((q.handled, q.scheduled_by), (None, None));
    assert_eq!(q.minimum_deadline, Some(1_700_000_000));
    assert_eq!((q.limit, q.offset), (Some(1000), None));
}

#[test]
fn pending_query_unimplemented_matches_typed_status_only() {
    let unimpl: eyre::Report =
        tonic::Status::unimplemented("proof_request_list not supported").into();
    assert!(pending_query_unimplemented(&unimpl));

    // A status whose message merely mentions the word must not trip it.
    let internal_word: eyre::Report = tonic::Status::internal("unimplemented feature path").into();
    assert!(!pending_query_unimplemented(&internal_word));

    // A transient failure must not trip it.
    let unavailable: eyre::Report = tonic::Status::unavailable("tcp connect error").into();
    assert!(!pending_query_unimplemented(&unavailable));

    // An error that is no status must not trip it.
    let other: eyre::Report = eyre::Report::msg("some other failure");
    assert!(!pending_query_unimplemented(&other));

    // The code is found behind added context.
    let wrapped = unimpl.wrap_err("while reconciling");
    assert!(pending_query_unimplemented(&wrapped));
}

#[test]
fn unimplemented_is_one_code() {
    assert!(!any_unimplemented(&vec![]));
    assert!(!any_unimplemented(&vec![None, Some(13), Some(14)]));
    assert!(any_unimplemented(&vec![None, Some(12)]));
}

#[test]
fn seeding_reads_mode_owner_and_age() {
    let mut g = gate(3_600_000);
    let mut range = req("r");
    range.options_artifact_id = Some("2".to_string());
    range.requester = vec![0xaa];
    range.created_at = 1000;
    let mut agg = req("a");
    agg.options_artifact_id = Some("+4".to_string());
    agg.created_at = 5000; // in the future: no age
    let mut core = req("c");
    core.options_artifact_id = Some("1".to_string());
    let mut junk = req("j");
    junk.options_artifact_id = Some("two".to_string());
    let proofs = vec![range, agg, core, junk, req("n")];
    let now = Duration::from_secs(7);
    assert_eq!(seed_admission_at(&mut g, &proofs, 2200, now), 2);
    assert_eq!(g.in_flight(PoolId::Range), 1);
    assert_eq!(g.in_flight(PoolId::Agg), 1);
    g.report_slot_ages_at(now);
    let out = g.metrics().unwrap().render();
    assert!(out.contains("{pool=\"range\",requester=\"0xaa\"} 1200\n"), "{out}");
    assert!(out.contains("{pool=\"agg\",requester=\"unknown\"} 0\n"), "{out}");
    // Seeding again counts the proofs, but takes no further slot.
    assert_eq!(seed_admission_from_cluster(&mut g, &proofs, 2200), 2);
    assert_eq!(g.in_flight(PoolId::Range), 1);
}

#[test]
fn an_unknown_query_is_reported_once_per_episode() {
    let mut warned = false;
    let (obs, note) = observe(FetchOutcome::Unimplemented, &mut warned);
    assert!(matches!(obs, PendingObservation::Gap));
    assert_eq!(note, TickNote::Unimplemented);
    assert!(warned);
    assert_eq!(observe(FetchOutcome::Unimplemented, &mut warned).1, TickNote::Quiet);
    assert_eq!(observe(FetchOutcome::Failed, &mut warned).1, TickNote::Failed);
    assert_eq!(observe(FetchOutcome::TimedOut, &mut warned).1, TickNote::TimedOut);
    assert!(warned);
    assert_eq!(observe(FetchOutcome::Replied(vec![]), &mut warned).1, TickNote::Quiet);
    assert!(!warned);
    assert_eq!(observe(FetchOutcome::Unimplemented, &mut warned).1, TickNote::Unimplemented);
}

#[test]
fn a_full_page_is_a_partial_view() {
    let mut warned = false;
    let page = |n: usize| FetchOutcome::Replied((0..n).map(|i| req(&format!("p{i}"))).collect());
    let (obs, note) = observe(page(1000), &mut warned);
    assert!(matches!(obs, PendingObservation::Partial(_)));
    assert_eq!(note, TickNote::Truncated(1000));
    let (obs, note) = observe(page(999), &mut warned);
    assert!(matches!(obs, PendingObservation::Complete(_)));
    assert_eq!(note, TickNote::Quiet);
}

#[test]
fn a_tick_reconciles_before_it_reaps() {
    let mut g = gate(100);
    let mut warned = false;
    g.seed_at("kept", PoolId::Agg, None, None, Duration::zero());
    g.seed_at("lost", PoolId::Agg, None, None, Duration::zero());
    let late = Duration::from_millis(150); // both deadlines have passed
    let reply = FetchOutcome::Replied(vec![req("kept")]);
    let r = reaper_tick_at(&mut g, &mut warned, reply, 3, late);
    assert_eq!(r.note, TickNote::Quiet);
    assert_eq!(r.pending_ids, vec!["kept".to_string()]);
    assert_eq!((r.reconcile.present, r.reconcile.absent, r.reconcile.released), (1, 1, 0));
    assert_eq!(r.reaped, 1);
    assert!(g.has_slot("kept"));
    assert!(!g.has_slot("lost"));
    let r = reaper_tick_at(&mut g, &mut warned, FetchOutcome::TimedOut, 3, late);
    assert_eq!((r.reconcile.kind, r.reaped), ("skip", 0));
    assert!(r.pending_ids.is_empty());
    let r = reaper_tick_at(&mut g, &mut warned, FetchOutcome::NotAsked, 3, late);
    assert_eq!((r.note, r.reconcile.kind), (TickNote::Quiet, "skip"));
}
